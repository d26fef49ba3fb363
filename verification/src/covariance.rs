//! Covariance of selected variables: a part of the inverse of undamped information.
use crate::backend::{all_finite, finite_values, LeastSquaresBackend};
use crate::error::{KeyError, SolverError};
use crate::families::FactorSchema;
use crate::key::{BlockId, RawKey};
use crate::kernels::{
    lower_triangle, Bidiagonalization, Clock, ConjugateGradient, Triangular,
};
use crate::layout::{Block, Layout};
use crate::information::{information_of, lemma_information_dimension};
use crate::linear_model::{LinearView, LinearizedModel};
use crate::lsmr::Lsmr;
use crate::normal::{
    diagonal_of, factor_spec, information_spec, storable, zeros, DenseNormalCholesky, NormalView,
};
use crate::optimization::{
    at_hand, model_spec, prepared_spec, same_problem, up_to_date, OptimizeOptions,
    OptimizeReport, Optimizer, Workspace,
};
use crate::priors::Priors;
use crate::scalar::Real;
use crate::schur::{Schur, SchurView};
use crate::states::{lemma_positions, placed, positions, width_sum, StateSchema};
use vstd::prelude::*;

verus! {

/// Numerical controls for covariance.
#[derive(Debug, Clone, Copy)]
pub struct CovarianceOptions<R> {
    /// A squared Cholesky pivot at most this far from zero, relative to the diagonal entry it
    /// comes from, counts as singular; in `[0, 1)`. Pivots that are not positive always do.
    pub relative_pivot_tolerance: R,
}

impl<R: Real> CovarianceOptions<R> {
    /// A tolerance that machine precision can meet.
    pub fn defaults() -> (options: Self)
        ensures
            options == Self::defaults_spec(),
    {
        CovarianceOptions { relative_pivot_tolerance: R::ratio(64, 1).times(R::epsilon()) }
    }

    pub open spec fn defaults_spec() -> Self {
        CovarianceOptions {
            relative_pivot_tolerance: R::ratio_spec(64, 1).times_spec(R::epsilon_spec()),
        }
    }

    /// The tolerance is finite and in `[0, 1)`.
    pub open spec fn valid(self) -> bool {
        let t = self.relative_pivot_tolerance;
        t.finite_spec() && !t.below_spec(R::zero_spec()) && !R::one_spec().at_most_spec(t)
    }

    /// Reject unusable controls.
    pub fn validate(&self) -> (valid: Result<(), SolverError>)
        ensures
            valid == if self.valid() {
                Ok::<(), SolverError>(())
            } else {
                Err(SolverError::InvalidRankTolerance)
            },
    {
        let t = self.relative_pivot_tolerance;
        if !t.is_finite() || t.below(R::zero()) || R::one().at_most(t) {
            return Err(SolverError::InvalidRankTolerance);
        }
        Ok(())
    }
}

/// The coordinates of the first `n` listed variables, in the order listed, or why they
/// cannot be selected.
pub open spec fn columns_spec(
    blocks: Seq<Block>,
    index: Map<RawKey, usize>,
    selection: Seq<BlockId>,
    n: int,
) -> Result<Seq<usize>, SolverError>
    decreases n,
{
    if n <= 0 {
        Ok(Seq::empty())
    } else {
        match columns_spec(blocks, index, selection, n - 1) {
            Err(error) => Err(error),
            Ok(columns) => {
                let id = selection[n - 1];
                if selection.take(n - 1).contains(id) {
                    Err(SolverError::DuplicateCovarianceBlock)
                } else if !index.contains_key(id.raw) {
                    Err(SolverError::Key(KeyError::Unknown))
                } else {
                    let block = blocks[index[id.raw] as int];
                    Ok(
                        columns + Seq::new(
                            block.width as nat,
                            |c: int| (block.offset + c) as usize,
                        ),
                    )
                }
            },
        }
    }
}

proof fn lemma_columns_stand(
    blocks: Seq<Block>,
    index: Map<RawKey, usize>,
    selection: Seq<BlockId>,
    n: int,
    m: int,
)
    requires
        0 <= n <= m,
        columns_spec(blocks, index, selection, n) is Err,
    ensures
        columns_spec(blocks, index, selection, m) == columns_spec(blocks, index, selection, n),
    decreases m,
{
    if n < m {
        lemma_columns_stand(blocks, index, selection, n, m - 1);
    }
}

/// The coordinates of all listed variables, where the columns they select can be stored.
pub open spec fn selection_spec<R>(
    dimension: nat,
    blocks: Seq<Block>,
    index: Map<RawKey, usize>,
    selection: Seq<BlockId>,
) -> Result<Seq<usize>, SolverError> {
    match columns_spec(blocks, index, selection, selection.len() as int) {
        Err(error) => Err(error),
        Ok(columns) => if dimension * columns.len() * vstd::layout::size_of::<R>() <= isize::MAX
            && dimension * columns.len() <= usize::MAX && columns.len() * columns.len()
            <= usize::MAX {
            Ok(columns)
        } else {
            Err(SolverError::InvalidInformation)
        },
    }
}

/// Columns of the identity.
pub open spec fn units<R: Real>(dimension: nat, columns: Seq<usize>) -> Seq<R> {
    Seq::new(
        dimension * columns.len(),
        |t: int|
            if t % dimension as int == columns[t / dimension as int] {
                R::one_spec()
            } else {
                R::zero_spec()
            },
    )
}

/// The first `n` products of two columns, summed from zero.
pub open spec fn column_dot<R: Real>(
    values: Seq<R>,
    dimension: nat,
    left: int,
    right: int,
    n: int,
) -> R
    decreases n,
{
    if n <= 0 {
        R::zero_spec()
    } else {
        column_dot(values, dimension, left, right, n - 1).plus_spec(
            values[left * dimension + n - 1].times_spec(values[right * dimension + n - 1]),
        )
    }
}

/// The products of all pairs of some columns.
pub open spec fn products<R: Real>(values: Seq<R>, dimension: nat, count: nat) -> Seq<R> {
    Seq::new(
        count * count,
        |t: int|
            column_dot(
                values,
                dimension,
                t % count as int,
                t / count as int,
                dimension as int,
            ),
    )
}

/// The part of the inverse of some information that belongs to the selected coordinates, or
/// why there is none.
pub open spec fn selected_spec<R: Real, K: Triangular<R>>(
    information: Result<Seq<R>, SolverError>,
    kernel: K,
    dimension: nat,
    columns: Seq<usize>,
) -> Result<Seq<R>, SolverError> {
    match information {
        Err(error) => Err(error),
        Ok(factor) => {
            let half = kernel.lower_spec(
                dimension as usize,
                lower_triangle(dimension, factor),
                units(dimension, columns),
                columns.len() as usize,
            );
            let result = products(half, dimension, columns.len());
            if columns.len() == 0 {
                Ok(Seq::empty())
            } else if half.len() != dimension * columns.len() || !all_finite(result) {
                Err(SolverError::InvalidInformation)
            } else {
                Ok(result)
            }
        },
    }
}

/// The selected coordinates, and the last covariance of them.
pub struct SelectedCovariance<R> {
    pub columns: Vec<usize>,
    pub result: Vec<R>,
    pub options: CovarianceOptions<R>,
}

/// Columns of the identity.
fn unit_columns<R: Real>(dimension: usize, columns: &[usize]) -> (values: Vec<R>)
    requires
        dimension * columns@.len() <= usize::MAX,
    ensures
        values@ == units::<R>(dimension as nat, columns@),
{
    let mut values: Vec<R> = Vec::new();
    let ghost n = dimension as int;
    let ghost goal = units::<R>(dimension as nat, columns@);
    let mut j: usize = 0;
    while j < columns.len()
        invariant
            n == dimension,
            goal == units::<R>(dimension as nat, columns@),
            j <= columns@.len(),
            values@.len() == j * n,
            forall|t: int| 0 <= t < values@.len() ==> #[trigger] values@[t] == goal[t],
        decreases columns@.len() - j,
    {
        let mut i: usize = 0;
        while i < dimension
            invariant
                n == dimension,
                goal == units::<R>(dimension as nat, columns@),
                j < columns@.len(),
                i <= dimension,
                values@.len() == j * n + i,
                forall|t: int| 0 <= t < values@.len() ==> #[trigger] values@[t] == goal[t],
            decreases dimension - i,
        {
            proof {
                let t = j * n + i;
                vstd::arithmetic::div_mod::lemma_fundamental_div_mod_converse(
                    t,
                    n,
                    j as int,
                    i as int,
                );
                assert(0 <= t < n * columns@.len()) by (nonlinear_arith)
                    requires
                        t == j * n + i,
                        0 <= i < n,
                        0 <= j < columns@.len(),
                ;
                assert(t % n == i && t / n == j);
            }
            values.push(if i == columns[j] { R::one() } else { R::zero() });
            i += 1;
        }
        assert(j * n + n == (j + 1) * n) by (nonlinear_arith);
        j += 1;
    }
    assert(columns@.len() * n == n * columns@.len()) by (nonlinear_arith);
    assert(values@ =~= goal);
    values
}

/// The products of all pairs of some columns.
fn column_products<R: Real>(values: &[R], dimension: usize, count: usize) -> (result: Vec<R>)
    requires
        values@.len() == dimension * count,
    ensures
        result@ == products(values@, dimension as nat, count as nat),
{
    let mut result: Vec<R> = Vec::new();
    let ghost n = dimension as int;
    let ghost k = count as int;
    let ghost goal = products(values@, dimension as nat, count as nat);
    assert(values@.len() == values.len());
    let mut col: usize = 0;
    while col < count
        invariant
            n == dimension,
            k == count,
            goal == products(values@, dimension as nat, count as nat),
            values@.len() == dimension * count,
            values@.len() <= usize::MAX,
            col <= count,
            result@.len() == col * k,
            forall|t: int| 0 <= t < result@.len() ==> #[trigger] result@[t] == goal[t],
        decreases count - col,
    {
        let mut row: usize = 0;
        while row < count
            invariant
                n == dimension,
                k == count,
                goal == products(values@, dimension as nat, count as nat),
                values@.len() == dimension * count,
                values@.len() <= usize::MAX,
                col < count,
                row <= count,
                result@.len() == col * k + row,
                forall|t: int| 0 <= t < result@.len() ==> #[trigger] result@[t] == goal[t],
            decreases count - row,
        {
            let mut sum = R::zero();
            let mut i: usize = 0;
            while i < dimension
                invariant
                    values@.len() == dimension * count,
                    values@.len() <= usize::MAX,
                    row < count,
                    col < count,
                    i <= dimension,
                    sum == column_dot(
                        values@,
                        dimension as nat,
                        row as int,
                        col as int,
                        i as int,
                    ),
                decreases dimension - i,
            {
                assert(row * dimension + i < dimension * count && 0 <= row * dimension)
                    by (nonlinear_arith)
                    requires
                        0 <= row < count,
                        0 <= i < dimension,
                ;
                assert(col * dimension + i < dimension * count && 0 <= col * dimension)
                    by (nonlinear_arith)
                    requires
                        0 <= col < count,
                        0 <= i < dimension,
                ;
                sum = sum.plus(
                    values[row * dimension + i].times(values[col * dimension + i]),
                );
                i += 1;
            }
            proof {
                let t = col * k + row;
                vstd::arithmetic::div_mod::lemma_fundamental_div_mod_converse(
                    t,
                    k,
                    col as int,
                    row as int,
                );
                assert(0 <= t < k * k) by (nonlinear_arith)
                    requires
                        t == col * k + row,
                        0 <= row < k,
                        0 <= col < k,
                ;
            }
            result.push(sum);
            row += 1;
        }
        assert(col * k + k == (col + 1) * k) by (nonlinear_arith);
        col += 1;
    }
    assert(result@ =~= goal);
    result
}

impl<R: Real> SelectedCovariance<R> {
    /// Nothing selected.
    pub fn new() -> (selected: Self)
        ensures
            selected.columns@ == Seq::<usize>::empty(),
            selected.result@ == Seq::<R>::empty(),
            selected.options == CovarianceOptions::<R>::defaults_spec(),
    {
        SelectedCovariance {
            columns: Vec::new(),
            result: Vec::new(),
            options: CovarianceOptions::defaults(),
        }
    }

    /// The selected coordinates exist, and as many columns can be stored.
    pub open spec fn fits(&self, dimension: nat) -> bool {
        &&& dimension * self.columns@.len() <= usize::MAX
        &&& forall|c: int|
            0 <= c < self.columns@.len() ==> (#[trigger] self.columns@[c]) < dimension
    }

    /// List the coordinates of the selected variables.
    fn collect(&mut self, layout: &Layout, blocks: &[BlockId]) -> (collected: Result<
        (),
        SolverError,
    >)
        requires
            layout.blocks_wf(),
        ensures
            final(self).options == old(self).options,
            final(self).result == old(self).result,
            match columns_spec(
                layout.blocks@,
                layout.block_index@,
                blocks@,
                blocks@.len() as int,
            ) {
                Err(error) => collected == Err::<(), SolverError>(error),
                Ok(columns) => {
                    &&& collected is Ok
                    &&& final(self).columns@ == columns
                    &&& forall|c: int|
                        0 <= c < columns.len() ==> (#[trigger] columns[c]) < layout.dimension
                },
            },
    {
        self.columns.clear();
        let mut i: usize = 0;
        while i < blocks.len()
            invariant
                layout.blocks_wf(),
                i <= blocks@.len(),
                self.options == old(self).options,
                self.result == old(self).result,
                columns_spec(layout.blocks@, layout.block_index@, blocks@, i as int) == Ok::<
                    Seq<usize>,
                    SolverError,
                >(self.columns@),
                forall|c: int|
                    0 <= c < self.columns@.len() ==> (#[trigger] self.columns@[c])
                        < layout.dimension,
            decreases blocks@.len() - i,
        {
            let id = blocks[i];
            let ghost before = self.columns@;
            let mut repeated = false;
            let mut k: usize = 0;
            while k < i
                invariant
                    i < blocks@.len(),
                    id == blocks@[i as int],
                    k <= i,
                    repeated == blocks@.take(k as int).contains(id),
                decreases i - k,
            {
                proof {
                    let head = blocks@.take(k as int);
                    assert(blocks@.take(k + 1) =~= head.push(blocks@[k as int]));
                    assert(head.push(blocks@[k as int])[k as int] == blocks@[k as int]);
                    if head.contains(id) {
                        let at = head.index_of(id);
                        assert(head.push(blocks@[k as int])[at] == id);
                    }
                }
                repeated = repeated || blocks[k].raw == id.raw;
                k += 1;
            }
            if repeated {
                proof {
                    lemma_columns_stand(
                        layout.blocks@,
                        layout.block_index@,
                        blocks@,
                        i + 1,
                        blocks@.len() as int,
                    );
                }
                return Err(SolverError::DuplicateCovarianceBlock);
            }
            let at: usize = match layout.block_index.get(id.raw) {
                Some(at) => at,
                None => {
                    proof {
                        lemma_columns_stand(
                            layout.blocks@,
                            layout.block_index@,
                            blocks@,
                            i + 1,
                            blocks@.len() as int,
                        );
                    }
                    return Err(SolverError::Key(KeyError::Unknown));
                },
            };
            let block = layout.blocks[at];
            proof {
                layout.lemma_within(at as int);
            }
            let mut c: usize = 0;
            while c < block.width
                invariant
                    layout.blocks_wf(),
                    at < layout.blocks@.len(),
                    block == layout.blocks@[at as int],
                    self.options == old(self).options,
                    self.result == old(self).result,
                    c <= block.width,
                    block.offset + block.width <= layout.dimension,
                    self.columns@ == before + Seq::new(
                        c as nat,
                        |d: int| (block.offset + d) as usize,
                    ),
                    forall|d: int|
                        0 <= d < self.columns@.len() ==> (#[trigger] self.columns@[d])
                            < layout.dimension,
                decreases block.width - c,
            {
                self.columns.push(block.offset + c);
                c += 1;
                assert(self.columns@ =~= before + Seq::new(
                    c as nat,
                    |d: int| (block.offset + d) as usize,
                ));
            }
            i += 1;
        }
        Ok(())
    }

    /// Select the coordinates of some variables, and make room for their covariance.
    pub fn prepare(&mut self, layout: &Layout, blocks: &[BlockId]) -> (prepared: Result<
        (),
        SolverError,
    >)
        requires
            layout.blocks_wf(),
        ensures
            final(self).options == old(self).options,
            match selection_spec::<R>(
                layout.dimension as nat,
                layout.blocks@,
                layout.block_index@,
                blocks@,
            ) {
                Err(error) => prepared == Err::<(), SolverError>(error),
                Ok(columns) => {
                    &&& prepared is Ok
                    &&& final(self).columns@ == columns
                    &&& final(self).result@ == Seq::new(
                        columns.len() * columns.len(),
                        |t: int| R::zero_spec(),
                    )
                    &&& final(self).fits(layout.dimension as nat)
                },
            },
    {
        match self.collect(layout, blocks) {
            Ok(_) => {},
            Err(error) => {
                return Err(error);
            },
        }
        let count: usize = self.columns.len();
        let entries: usize = match layout.dimension.checked_mul(count) {
            Some(entries) => entries,
            None => {
                return Err(SolverError::InvalidInformation);
            },
        };
        let fits = match entries.checked_mul(core::mem::size_of::<R>()) {
            Some(bytes) => bytes <= isize::MAX as usize,
            None => false,
        };
        if !fits {
            return Err(SolverError::InvalidInformation);
        }
        let size: usize = match count.checked_mul(count) {
            Some(size) => size,
            None => {
                return Err(SolverError::InvalidInformation);
            },
        };
        self.result = zeros(size);
        Ok(())
    }

    /// Compute the covariance of the selected coordinates.
    pub fn compute<K: Triangular<R>>(&mut self, normal: &mut DenseNormalCholesky<R, K>) -> (
        computed: Result<(), SolverError>)
        requires
            old(normal).wf(),
            old(self).fits(old(normal).dimension as nat),
        ensures
            final(normal).wf(),
            final(normal).dimension == old(normal).dimension,
            final(normal).kernel == old(normal).kernel,
            final(normal).factor() == old(normal).factor(),
            final(normal).pivoted() == old(normal).pivoted(),
            final(self).columns == old(self).columns,
            final(self).options == old(self).options,
            match selected_spec(
                old(normal).information(old(self).options.relative_pivot_tolerance),
                old(normal).kernel,
                old(normal).dimension as nat,
                old(self).columns@,
            ) {
                Err(error) => computed == Err::<(), SolverError>(error),
                Ok(result) => computed is Ok && final(self).result@ == result,
            },
    {
        match normal.information_factor(self.options.relative_pivot_tolerance) {
            Ok(_) => {},
            Err(error) => {
                return Err(error);
            },
        }
        let count: usize = self.columns.len();
        if count == 0 {
            self.result = Vec::new();
            assert(self.result@ =~= Seq::<R>::empty());
            return Ok(());
        }
        let rhs: Vec<R> = unit_columns(normal.dimension, self.columns.as_slice());
        let half = normal.kernel.solve_lower(
            normal.dimension,
            normal.normal.as_slice(),
            rhs.as_slice(),
            count,
        );
        if half.len() != rhs.len() {
            return Err(SolverError::InvalidInformation);
        }
        let result = column_products(half.as_slice(), normal.dimension, count);
        if !finite_values(result.as_slice()) {
            return Err(SolverError::InvalidInformation);
        }
        self.result = result;
        Ok(())
    }
}

/// The covariance of the selected variables of a laid-out graph, or why there is none.
pub open spec fn covariance_spec<
    S: StateSchema,
    F: FactorSchema<S, Scalar = S::Scalar>,
    K: Triangular<S::Scalar>,
>(
    kernel: K,
    layout: &Layout,
    states: S,
    factors: F,
    priors: Priors<S::Scalar>,
    selection: Seq<BlockId>,
    options: CovarianceOptions<S::Scalar>,
) -> Result<Seq<S::Scalar>, SolverError> {
    match selection_spec::<S::Scalar>(
        width_sum(states.blocks()),
        placed(states.blocks(), 0),
        positions(states.blocks()),
        selection,
    ) {
        Err(error) => Err(error),
        Ok(columns) => match model_spec::<S, F, DenseNormalCholesky<S::Scalar, K>>(
            kernel,
            layout,
            states,
            factors,
            priors,
        ) {
            Err(error) => Err(error),
            Ok(model) => implied_spec(kernel, model, columns, options.relative_pivot_tolerance),
        },
    }
}

/// Storage for covariance queries; every query evaluates the graph afresh.
pub struct CovarianceWorkspace<R, K> {
    pub work: Workspace<DenseNormalCholesky<R, K>>,
    pub selected: SelectedCovariance<R>,
}

impl<R: Real, K: Triangular<R>> CovarianceWorkspace<R, K> {
    pub open spec fn wf(&self) -> bool {
        self.work.wf()
    }

    /// Keep a kernel for the queries to come.
    pub fn new(kernel: K) -> (covariance: Self)
        ensures
            covariance.wf(),
            covariance.work.backend.kernel == kernel,
            covariance.selected.options == CovarianceOptions::<R>::defaults_spec(),
    {
        CovarianceWorkspace {
            work: Workspace::new(DenseNormalCholesky::new(kernel)),
            selected: SelectedCovariance::new(),
        }
    }

    /// Evaluate the covariance of some variables at the current estimates.
    pub fn evaluate<S: StateSchema<Scalar = R>, F: FactorSchema<S, Scalar = R>>(
        &mut self,
        states: &mut S,
        factors: &F,
        priors: &mut Priors<R>,
        blocks: &[BlockId],
    ) -> (evaluated: Result<(), SolverError>)
        requires
            old(self).wf(),
            old(states).wf(),
            old(states).idle(),
            factors.wf(),
            old(priors).wf(),
        ensures
            final(self).wf(),
            final(self).work.backend.kernel == old(self).work.backend.kernel,
            final(self).selected.options == old(self).selected.options,
            final(states).wf(),
            final(states).idle(),
            final(states).same_graph(old(states)),
            final(states).blocks() == old(states).blocks(),
            final(states).accepted() == old(states).accepted(),
            final(states).current() == old(states).current(),
            final(priors).wf(),
            final(priors).same_priors(old(priors)),
            match prepared_spec(old(self).work.backend, *old(states), *factors) {
                Err(error) => evaluated == Err::<(), SolverError>(error),
                Ok(_) => {
                    &&& final(self).work.prepared(final(states), factors)
                    &&& match covariance_spec(
                        old(self).work.backend.kernel,
                        &final(self).work.layout,
                        *final(states),
                        *factors,
                        *old(priors),
                        blocks@,
                        old(self).selected.options,
                    ) {
                        Err(error) => evaluated == Err::<(), SolverError>(error),
                        Ok(result) => evaluated is Ok && final(self).selected.result@ == result,
                    }
                },
            },
    {
        match self.work.prepare(states, factors) {
            Ok(_) => {},
            Err(error) => {
                return Err(error);
            },
        }
        proof {
            lemma_positions(&self.work.layout, states.blocks());
        }
        match self.selected.prepare(&self.work.layout, blocks) {
            Ok(_) => {},
            Err(error) => {
                return Err(error);
            },
        }
        match self.work.linearize(states, factors, priors) {
            Ok(_) => {},
            Err(error) => {
                return Err(error);
            },
        }
        self.selected.compute(&mut self.work.backend)
    }
}

/// The covariance of selected coordinates that assembled information implies.
pub open spec fn implied_spec<R: Real, K: Triangular<R>>(
    kernel: K,
    information: NormalView<R>,
    columns: Seq<usize>,
    tolerance: R,
) -> Result<Seq<R>, SolverError> {
    selected_spec(
        information_spec(factor_spec(information, kernel), diagonal_of(information), tolerance),
        kernel,
        information.dimension,
        columns,
    )
}

/// The covariance of selected coordinates that a cached linearization implies, where its
/// information can be stored.
pub open spec fn cached_spec<R: Real, K: Triangular<R>>(
    kernel: K,
    linear: LinearView<R>,
    columns: Seq<usize>,
    tolerance: R,
) -> Result<Seq<R>, SolverError> {
    match storable::<R>(linear.cols) {
        Err(error) => Err(error),
        Ok(_) => implied_spec(
            kernel,
            information_of(linear, linear.blocks.len() as int),
            columns,
            tolerance,
        ),
    }
}

impl<R: Real> LinearizedModel<R> {
    /// Assemble the information of the stored rows, and compute a selected covariance from it.
    pub fn covariance<K: Triangular<R>>(
        &self,
        normal: &mut DenseNormalCholesky<R, K>,
        selected: &mut SelectedCovariance<R>,
    ) -> (computed: Result<(), SolverError>)
        requires
            self.wf(),
            old(normal).wf(),
            old(selected).fits(self.jacobian.cols as nat),
        ensures
            final(normal).wf(),
            final(normal).kernel == old(normal).kernel,
            final(selected).columns == old(selected).columns,
            final(selected).options == old(selected).options,
            match cached_spec(
                old(normal).kernel,
                self@,
                old(selected).columns@,
                old(selected).options.relative_pivot_tolerance,
            ) {
                Err(error) => computed == Err::<(), SolverError>(error),
                Ok(result) => computed is Ok && final(selected).result@ == result,
            },
    {
        match self.assemble(normal) {
            Ok(_) => {},
            Err(error) => {
                return Err(error);
            },
        }
        proof {
            lemma_information_dimension(self@, self@.blocks.len() as int);
        }
        selected.compute(normal)
    }
}

/// A backend from which the covariance of its undamped model can be extracted. Backends that
/// hold no information matrix borrow one, with its kernel `K`.
pub trait CovarianceBackend<K: Triangular<<Self as LeastSquaresBackend>::Scalar>>: LeastSquaresBackend {
    /// The covariance of selected coordinates that a model implies. The kernel is that of the
    /// borrowed matrix.
    spec fn covariance_spec(
        shape: Self::Shape,
        kernel: K,
        model: Self::Model,
        columns: Seq<usize>,
        tolerance: Self::Scalar,
    ) -> Result<Seq<Self::Scalar>, SolverError>;

    /// Compute a selected covariance from the model at hand: reuse its information, or
    /// assemble it from the rows that are kept.
    fn covariance(
        &mut self,
        normal: &mut DenseNormalCholesky<Self::Scalar, K>,
        selected: &mut SelectedCovariance<Self::Scalar>,
    ) -> (computed: Result<(), SolverError>)
        requires
            old(self).wf(),
            old(self).usable(),
            old(normal).wf(),
            old(selected).fits(old(self).dimension()),
        ensures
            final(self).wf(),
            final(self).usable(),
            final(self).dimension() == old(self).dimension(),
            final(self).shape() == old(self).shape(),
            forall|model: Self::Model| old(self).keeps(model) ==> #[trigger] final(self).keeps(model),
            final(normal).wf(),
            final(normal).kernel == old(normal).kernel,
            final(selected).columns == old(selected).columns,
            final(selected).options == old(selected).options,
            forall|model: Self::Model| #[trigger]
                old(self).keeps(model) ==> match Self::covariance_spec(
                    old(self).shape(),
                    old(normal).kernel,
                    model,
                    old(selected).columns@,
                    old(selected).options.relative_pivot_tolerance,
                ) {
                    Err(error) => computed == Err::<(), SolverError>(error),
                    Ok(result) => computed is Ok && final(selected).result@ == result,
                },
    ;
}

impl<R: Real, K: Triangular<R>, K0: Triangular<R>> CovarianceBackend<
    K,
> for DenseNormalCholesky<R, K0> {
    open spec fn covariance_spec(
        shape: K0,
        kernel: K,
        model: NormalView<R>,
        columns: Seq<usize>,
        tolerance: R,
    ) -> Result<Seq<R>, SolverError> {
        implied_spec(shape, model, columns, tolerance)
    }

    /// The factor at hand serves, if there is one.
    fn covariance(
        &mut self,
        normal: &mut DenseNormalCholesky<R, K>,
        selected: &mut SelectedCovariance<R>,
    ) -> (computed: Result<(), SolverError>) {
        selected.compute(self)
    }
}

impl<
    R: Real,
    K: Triangular<R>,
    K0: Triangular<R> + Bidiagonalization<R> + Clock,
> CovarianceBackend<K> for Lsmr<R, K0> {
    open spec fn covariance_spec(
        shape: <Self as LeastSquaresBackend>::Shape,
        kernel: K,
        model: LinearView<R>,
        columns: Seq<usize>,
        tolerance: R,
    ) -> Result<Seq<R>, SolverError> {
        cached_spec(kernel, model, columns, tolerance)
    }

    fn covariance(
        &mut self,
        normal: &mut DenseNormalCholesky<R, K>,
        selected: &mut SelectedCovariance<R>,
    ) -> (computed: Result<(), SolverError>) {
        self.model.covariance(normal, selected)
    }
}

impl<
    R: Real,
    K: Triangular<R>,
    K0: Triangular<R> + ConjugateGradient<R> + Clock,
> CovarianceBackend<K> for Schur<R, K0> {
    open spec fn covariance_spec(
        shape: <Self as LeastSquaresBackend>::Shape,
        kernel: K,
        model: SchurView<R>,
        columns: Seq<usize>,
        tolerance: R,
    ) -> Result<Seq<R>, SolverError> {
        cached_spec(kernel, model.linear, columns, tolerance)
    }

    fn covariance(
        &mut self,
        normal: &mut DenseNormalCholesky<R, K>,
        selected: &mut SelectedCovariance<R>,
    ) -> (computed: Result<(), SolverError>) {
        self.model.covariance(normal, selected)
    }
}

/// The covariance of the selected variables of a laid-out graph, as a backend of some shape
/// extracts it from the linear model of the graph.
pub open spec fn extraction_spec<
    S: StateSchema,
    F: FactorSchema<S, Scalar = S::Scalar>,
    K: Triangular<S::Scalar>,
    B: CovarianceBackend<K, Scalar = S::Scalar>,
>(
    shape: B::Shape,
    layout: &Layout,
    kernel: K,
    states: S,
    factors: F,
    priors: Priors<S::Scalar>,
    selection: Seq<BlockId>,
    tolerance: S::Scalar,
) -> Result<Seq<S::Scalar>, SolverError> {
    match selection_spec::<S::Scalar>(
        width_sum(states.blocks()),
        placed(states.blocks(), 0),
        positions(states.blocks()),
        selection,
    ) {
        Err(error) => Err(error),
        Ok(columns) => match model_spec::<S, F, B>(shape, layout, states, factors, priors) {
            Err(error) => Err(error),
            Ok(model) => B::covariance_spec(shape, kernel, model, columns, tolerance),
        },
    }
}

/// Dense normal equations imply the covariance that a query with the same kernel evaluates,
/// whatever kernel they could borrow.
pub proof fn lemma_extraction_is_query<
    S: StateSchema,
    F: FactorSchema<S, Scalar = S::Scalar>,
    K: Triangular<S::Scalar>,
    L: Triangular<S::Scalar>,
>(
    kernel: K,
    borrowed: L,
    layout: &Layout,
    states: S,
    factors: F,
    priors: Priors<S::Scalar>,
    selection: Seq<BlockId>,
    options: CovarianceOptions<S::Scalar>,
)
    ensures
        extraction_spec::<S, F, L, DenseNormalCholesky<S::Scalar, K>>(
            kernel,
            layout,
            borrowed,
            states,
            factors,
            priors,
            selection,
            options.relative_pivot_tolerance,
        ) == covariance_spec(kernel, layout, states, factors, priors, selection, options),
{
}

/// A computed covariance, or why there is none.
pub open spec fn computed_view<R>(
    computed: Result<(), SolverError>,
    selected: SelectedCovariance<R>,
) -> Result<Seq<R>, SolverError> {
    match computed {
        Ok(_) => Ok(selected.result@),
        Err(error) => Err(error),
    }
}

impl<B: LeastSquaresBackend> Workspace<B> {
    /// Extract the covariance of some variables from the model at hand. The graph is linearized
    /// only if its model is not. The result is that of the graph as it stands, up to what its
    /// priors have cached.
    pub fn covariance<
        S: StateSchema<Scalar = B::Scalar>,
        F: FactorSchema<S, Scalar = B::Scalar>,
        K: Triangular<B::Scalar>,
    >(
        &mut self,
        states: &S,
        factors: &F,
        priors: &mut Priors<B::Scalar>,
        blocks: &[BlockId],
        covariance: &mut CovarianceWorkspace<B::Scalar, K>,
    ) -> (computed: Result<(), SolverError>) where B: CovarianceBackend<K>
        requires
            old(self).prepared(states, factors),
            up_to_date(*old(self), *states, *factors, *old(priors)),
            states.wf(),
            factors.wf(),
            old(priors).wf(),
            old(covariance).wf(),
        ensures
            final(self).prepared(states, factors),
            final(self).layout == old(self).layout,
            final(self).backend.shape() == old(self).backend.shape(),
            final(priors).wf(),
            final(priors).same_priors(old(priors)),
            final(covariance).wf(),
            final(covariance).work.backend.kernel == old(covariance).work.backend.kernel,
            final(covariance).selected.options == old(covariance).selected.options,
            exists|p: Priors<B::Scalar>|
                p.same_priors(old(priors)) && #[trigger] extraction_spec::<S, F, K, B>(
                    old(self).backend.shape(),
                    &old(self).layout,
                    old(covariance).work.backend.kernel,
                    *states,
                    *factors,
                    p,
                    blocks@,
                    old(covariance).selected.options.relative_pivot_tolerance,
                ) == computed_view(computed, final(covariance).selected),
    {
        let ghost kernel = covariance.work.backend.kernel;
        let ghost tolerance = covariance.selected.options.relative_pivot_tolerance;
        let ghost shape = self.backend.shape();
        let ghost layout = self.layout;
        let ghost mut p = *priors;
        proof {
            states.lemma_reflexive(Set::empty());
            lemma_positions(&self.layout, states.blocks());
            if self.current {
                let (y, q) = choose|y: S, q: Priors<B::Scalar>|
                    same_problem(y, *states, q, *priors) && #[trigger] at_hand(
                        *self,
                        y,
                        *factors,
                        q,
                    );
                p = q;
                y.lemma_reading(states);
                assert(y.deltas_spec(None, true) == states.deltas_spec(None, true));
            }
        }
        match covariance.selected.prepare(&self.layout, blocks) {
            Ok(_) => {},
            Err(error) => {
                assert(extraction_spec::<S, F, K, B>(
                    shape,
                    &layout,
                    kernel,
                    *states,
                    *factors,
                    p,
                    blocks@,
                    tolerance,
                ) == Err::<Seq<B::Scalar>, SolverError>(error));
                return Err(error);
            },
        }
        if !self.current {
            match self.linearize(states, factors, priors) {
                Ok(_) => {},
                Err(error) => {
                    assert(extraction_spec::<S, F, K, B>(
                        shape,
                        &layout,
                        kernel,
                        *states,
                        *factors,
                        p,
                        blocks@,
                        tolerance,
                    ) == Err::<Seq<B::Scalar>, SolverError>(error));
                    return Err(error);
                },
            }
        }
        let ghost model = model_spec::<S, F, B>(shape, &layout, *states, *factors, p)->Ok_0;
        assert(self.backend.keeps(model));
        let computed = self.backend.covariance(
            &mut covariance.work.backend,
            &mut covariance.selected,
        );
        assert(extraction_spec::<S, F, K, B>(
            shape,
            &layout,
            kernel,
            *states,
            *factors,
            p,
            blocks@,
            tolerance,
        ) == computed_view(computed, covariance.selected));
        computed
    }
}

/// A method after which covariance can be extracted from the model it ended with.
pub trait CovarianceOptimizer<
    S: StateSchema,
    F: FactorSchema<S, Scalar = S::Scalar>,
    K: Triangular<S::Scalar>,
>: Optimizer<S, F> {
    /// The covariance of selected variables at some estimates, as the method extracts it.
    spec fn extracted(
        method: Self,
        kernel: K,
        states: S,
        factors: F,
        priors: Priors<S::Scalar>,
        selection: Seq<BlockId>,
        tolerance: S::Scalar,
    ) -> Result<Seq<S::Scalar>, SolverError>;

    /// What the method reports of its run is the same.
    spec fn reports_alike(method: Self, other: Self) -> bool;

    /// Optimize, and extract the covariance of some variables at the estimates reached.
    /// Accepted estimates survive errors.
    fn optimize_covariance(
        &mut self,
        states: &mut S,
        factors: &F,
        priors: &mut Priors<S::Scalar>,
        options: &OptimizeOptions<S::Scalar>,
        blocks: &[BlockId],
        covariance: &mut CovarianceWorkspace<S::Scalar, K>,
    ) -> (outcome: Result<OptimizeReport<S::Scalar>, SolverError>)
        requires
            old(self).ready(),
            old(states).wf(),
            old(states).idle(),
            old(states).current() == old(states).accepted(),
            factors.wf(),
            old(priors).wf(),
            old(covariance).wf(),
        ensures
            final(self).ready(),
            final(states).wf(),
            final(states).idle(),
            final(states).same_graph(old(states)),
            final(states).blocks() == old(states).blocks(),
            final(states).current() == final(states).accepted(),
            final(priors).wf(),
            final(priors).same_priors(old(priors)),
            final(covariance).wf(),
            final(covariance).work.backend.kernel == old(covariance).work.backend.kernel,
            final(covariance).selected.options == old(covariance).selected.options,
            exists|
                middle: Self,
                run: Result<OptimizeReport<S::Scalar>, SolverError>,
                p: Priors<S::Scalar>,
            |
                {
                    &&& #[trigger] Self::optimized(
                        *old(self),
                        middle,
                        *old(states),
                        *factors,
                        *old(priors),
                        *options,
                        run,
                        final(states).accepted(),
                    )
                    &&& p.same_priors(old(priors))
                    &&& Self::reports_alike(*final(self), middle)
                    &&& match run {
                        Err(error) => outcome == Err::<OptimizeReport<S::Scalar>, SolverError>(
                            error,
                        ),
                        Ok(report) => match #[trigger] Self::extracted(
                            middle,
                            old(covariance).work.backend.kernel,
                            *final(states),
                            *factors,
                            p,
                            blocks@,
                            old(covariance).selected.options.relative_pivot_tolerance,
                        ) {
                            Err(error) => outcome == Err::<
                                OptimizeReport<S::Scalar>,
                                SolverError,
                            >(error),
                            Ok(values) => {
                                &&& outcome == Ok::<OptimizeReport<S::Scalar>, SolverError>(report)
                                &&& final(covariance).selected.result@ == values
                            },
                        },
                    }
                },
    ;
}

} // verus!
