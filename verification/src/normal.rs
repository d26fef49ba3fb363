//! Dense normal equations.
use crate::backend::{admissible, norm_inf, norm_inf_spec, LeastSquaresBackend};
use crate::error::{EvaluationError, SolverError};
use crate::kernels::{entry, lemma_lower_triangle, lower_triangle, same_below, Triangular};
use crate::linear_model::{fill_zero, padded, resize_zero};
use crate::linearization::{block_views, lemma_entry_index, BlockView, JacobianBlock};
use crate::scalar::Real;
use vstd::prelude::*;

verus! {

/// Assembled normal equations: the lower triangle of a matrix stored column by column, and
/// the negative gradient.
#[verifier::ext_equal]
pub struct NormalView<R> {
    pub dimension: nat,
    pub normal: Seq<R>,
    pub rhs: Seq<R>,
}

/// A dense matrix by its coefficients, stored column by column.
pub struct Panel<'a, R> {
    pub rows: usize,
    pub cols: usize,
    pub values: &'a [R],
}

/// The mathematical content of a [`Panel`].
#[verifier::ext_equal]
pub struct PanelView<R> {
    pub rows: nat,
    pub cols: nat,
    pub values: Seq<R>,
}

impl<'a, R> View for Panel<'a, R> {
    type V = PanelView<R>;

    open spec fn view(&self) -> PanelView<R> {
        PanelView { rows: self.rows as nat, cols: self.cols as nat, values: self.values@ }
    }
}

impl<R> PanelView<R> {
    /// One coefficient for each row and column.
    pub open spec fn wf(self) -> bool {
        self.values.len() == self.rows * self.cols
    }

    /// The coefficient in a row and column.
    pub open spec fn entry(self, row: int, col: int) -> R {
        self.values[col * self.rows + row]
    }
}

impl<'a, R: Real> Panel<'a, R> {
    /// The coefficient in a row and column.
    pub fn entry(&self, row: usize, col: usize) -> (value: R)
        requires
            self@.wf(),
            row < self.rows,
            col < self.cols,
        ensures
            value == self@.entry(row as int, col as int),
    {
        proof {
            lemma_entry_index(self.rows as nat, self.cols as nat, row as int, col as int);
            assert(self.values@.len() == self.values.len());
        }
        self.values[col * self.rows + row]
    }
}

/// The coefficients of a block.
pub open spec fn panel_spec<R>(block: BlockView<R>) -> PanelView<R> {
    PanelView { rows: block.rows, cols: block.cols, values: block.values }
}

/// The coefficients of a block.
fn panel<R>(block: &JacobianBlock<R>) -> (panel: Panel<'_, R>)
    ensures
        panel@ == panel_spec(block@),
{
    Panel { rows: block.rows, cols: block.cols, values: block.values.as_slice() }
}

/// The first `n` products of two columns, summed from zero.
pub open spec fn dot<R: Real>(a: PanelView<R>, b: PanelView<R>, i: int, j: int, n: int) -> R
    decreases n,
{
    if n <= 0 {
        R::zero_spec()
    } else {
        dot(a, b, i, j, n - 1).plus_spec(a.entry(n - 1, i).times_spec(b.entry(n - 1, j)))
    }
}

/// The first `n` products of a column with a residual, summed from zero.
pub open spec fn slope<R: Real>(a: BlockView<R>, residual: Seq<R>, i: int, n: int) -> R
    decreases n,
{
    if n <= 0 {
        R::zero_spec()
    } else {
        slope(a, residual, i, n - 1).plus_spec(a.entry(n - 1, i).times_spec(residual[n - 1]))
    }
}

impl<R: Real> NormalView<R> {
    /// Storage has the stated dimension.
    pub open spec fn wf(self) -> bool {
        self.normal.len() == self.dimension * self.dimension && self.rhs.len() == self.dimension
    }

    /// The entry in a row and column.
    pub open spec fn at(self, row: int, col: int) -> R {
        self.normal[col * self.dimension + row]
    }

    /// The matrix with the product of two blocks added at the given place, or only its lower
    /// triangle.
    pub open spec fn with_product(
        self,
        row: int,
        col: int,
        a: PanelView<R>,
        b: PanelView<R>,
        lower: bool,
    ) -> Self {
        let n = self.dimension as int;
        NormalView {
            normal: Seq::new(
                self.normal.len(),
                |t: int|
                    {
                        let i = t % n - row;
                        let j = t / n - col;
                        if 0 <= i < a.cols && 0 <= j < b.cols && (lower ==> i >= j) {
                            self.normal[t].plus_spec(dot(a, b, i, j, a.rows as int))
                        } else {
                            self.normal[t]
                        }
                    },
            ),
            ..self
        }
    }

    /// The right-hand side with the slopes of a block subtracted.
    pub open spec fn with_gradient(self, col: int, a: BlockView<R>, residual: Seq<R>) -> Self {
        NormalView {
            rhs: Seq::new(
                self.rhs.len(),
                |t: int|
                    if col <= t < col + a.cols {
                        self.rhs[t].minus_spec(slope(a, residual, t - col, residual.len() as int))
                    } else {
                        self.rhs[t]
                    },
            ),
            ..self
        }
    }

    /// The equations with the products of a block with the first `k` others, each in the
    /// lower triangle.
    pub open spec fn with_pairs(
        self,
        blocks: Seq<BlockView<R>>,
        columns: Seq<usize>,
        i: int,
        k: int,
    ) -> Self
        decreases k,
    {
        if k <= 0 {
            self
        } else {
            let before = self.with_pairs(blocks, columns, i, k - 1);
            if columns[i] > columns[k - 1] {
                before.with_product(
                    columns[i] as int,
                    columns[k - 1] as int,
                    panel_spec(blocks[i]),
                    panel_spec(blocks[k - 1]),
                    false,
                )
            } else {
                before.with_product(
                    columns[k - 1] as int,
                    columns[i] as int,
                    panel_spec(blocks[k - 1]),
                    panel_spec(blocks[i]),
                    false,
                )
            }
        }
    }

    /// The equations with the first `n` blocks of some rows.
    pub open spec fn with_blocks(
        self,
        residual: Seq<R>,
        blocks: Seq<BlockView<R>>,
        columns: Seq<usize>,
        n: int,
    ) -> Self
        decreases n,
    {
        if n <= 0 {
            self
        } else {
            let i = n - 1;
            self.with_blocks(residual, blocks, columns, i).with_gradient(
                columns[i] as int,
                blocks[i],
                residual,
            ).with_product(
                columns[i] as int,
                columns[i] as int,
                panel_spec(blocks[i]),
                panel_spec(blocks[i]),
                true,
            ).with_pairs(blocks, columns, i, i)
        }
    }

    /// Nothing assembled.
    pub open spec fn empty(dimension: nat) -> Self {
        NormalView {
            dimension,
            normal: Seq::new(dimension * dimension, |t: int| R::zero_spec()),
            rhs: Seq::new(dimension, |t: int| R::zero_spec()),
        }
    }

    /// The lower triangle is finite.
    pub open spec fn finite_lower(self) -> bool {
        forall|row: int, col: int|
            0 <= col <= row < self.dimension ==> (#[trigger] self.at(row, col)).finite_spec()
    }
}

/// Normal equations solved by a Cholesky factorization.
///
/// Nothing is damped, repaired or inverted: a step needs a positive definite matrix. Only
/// the lower triangle is assembled and read.
pub struct DenseNormalCholesky<R, K> {
    pub dimension: usize,
    pub normal: Vec<R>,
    pub rhs: Vec<R>,
    pub diagonal: Vec<R>,
    pub factorized: bool,
    pub kernel: K,
}

impl<R, K> View for DenseNormalCholesky<R, K> {
    type V = NormalView<R>;

    open spec fn view(&self) -> NormalView<R> {
        NormalView {
            dimension: self.dimension as nat,
            normal: self.normal@,
            rhs: self.rhs@,
        }
    }
}

/// Some zeros.
pub fn zeros<R: Real>(n: usize) -> (values: Vec<R>)
    ensures
        values@ == Seq::new(n as nat, |t: int| R::zero_spec()),
{
    let mut values: Vec<R> = Vec::new();
    while values.len() < n
        invariant
            values@.len() <= n,
            forall|t: int| 0 <= t < values@.len() ==> #[trigger] values@[t] == R::zero_spec(),
        decreases n - values@.len(),
    {
        values.push(R::zero());
    }
    assert(values@ =~= Seq::new(n as nat, |t: int| R::zero_spec()));
    values
}

impl<R: Real, K> DenseNormalCholesky<R, K> {
    /// An empty system over the given kernel.
    pub fn new(kernel: K) -> (system: Self)
        ensures
            system@.wf(),
            system.diagonal@.len() == 0,
            system@ == NormalView::<R>::empty(0),
            !system.factorized,
            system.kernel == kernel,
    {
        let system = DenseNormalCholesky {
            dimension: 0,
            normal: Vec::new(),
            rhs: Vec::new(),
            diagonal: Vec::new(),
            factorized: false,
            kernel,
        };
        assert(system@ =~= NormalView::<R>::empty(0));
        system
    }

    /// Add the product of two matrices.
    pub fn add_product(
        &mut self,
        row: usize,
        col: usize,
        a: &Panel<'_, R>,
        b: &Panel<'_, R>,
        lower: bool,
    )
        requires
            old(self)@.wf(),
            a@.wf(),
            b@.wf(),
            a.rows == b.rows,
            row + a.cols <= old(self).dimension,
            col + b.cols <= old(self).dimension,
        ensures
            final(self)@ == old(self)@.with_product(row as int, col as int, a@, b@, lower),
            final(self)@.wf(),
            final(self).diagonal == old(self).diagonal,
            final(self).factorized == old(self).factorized,
            final(self).kernel == old(self).kernel,
    {
        let n: usize = self.dimension;
        let ghost m = n as int;
        let ghost before = self@;
        let ghost goal = before.with_product(row as int, col as int, a@, b@, lower);
        assert(self.normal@.len() == self.normal.len());
        let mut j: usize = 0;
        while j < b.cols
            invariant
                n == self.dimension,
                m == n,
                n == before.dimension,
                before.wf(),
                a@.wf(),
                b@.wf(),
                a.rows == b.rows,
                row + a.cols <= n,
                col + b.cols <= n,
                goal == before.with_product(row as int, col as int, a@, b@, lower),
                self.rhs@ == before.rhs,
                self.normal@.len() == n * n,
                n * n <= usize::MAX,
                self.diagonal == old(self).diagonal,
                self.factorized == old(self).factorized,
                self.kernel == old(self).kernel,
                j <= b.cols,
                forall|t: int|
                    0 <= t < n * n ==> #[trigger] self.normal@[t] == if t / m < col + j {
                        goal.normal[t]
                    } else {
                        before.normal[t]
                    },
            decreases b.cols - j,
        {
            let mut i: usize = 0;
            while i < a.cols
                invariant
                    n == self.dimension,
                    m == n,
                    n == before.dimension,
                    before.wf(),
                    a@.wf(),
                    b@.wf(),
                    a.rows == b.rows,
                    row + a.cols <= n,
                    col + b.cols <= n,
                    goal == before.with_product(row as int, col as int, a@, b@, lower),
                    self.rhs@ == before.rhs,
                    self.normal@.len() == n * n,
                    n * n <= usize::MAX,
                    self.diagonal == old(self).diagonal,
                    self.factorized == old(self).factorized,
                    self.kernel == old(self).kernel,
                    j < b.cols,
                    i <= a.cols,
                    forall|t: int|
                        0 <= t < n * n ==> #[trigger] self.normal@[t] == if t / m < col + j
                            || (t / m == col + j && t % m < row + i) {
                            goal.normal[t]
                        } else {
                            before.normal[t]
                        },
                decreases a.cols - i,
            {
                let mut product = R::zero();
                let mut k: usize = 0;
                while k < a.rows
                    invariant
                        a@.wf(),
                        b@.wf(),
                        a.rows == b.rows,
                        i < a.cols,
                        j < b.cols,
                        k <= a.rows,
                        product == dot(a@, b@, i as int, j as int, k as int),
                    decreases a.rows - k,
                {
                    product = product.plus(a.entry(k, i).times(b.entry(k, j)));
                    k += 1;
                }
                proof {
                    lemma_entry_index(n as nat, n as nat, (row + i) as int, (col + j) as int);
                    vstd::arithmetic::div_mod::lemma_fundamental_div_mod_converse(
                        (col + j) * n + (row + i),
                        n as int,
                        (col + j) as int,
                        (row + i) as int,
                    );
                }
                let t: usize = (col + j) * n + (row + i);
                let ghost was = self.normal@;
                if !lower || i >= j {
                    self.normal.set(t, self.normal[t].plus(product));
                }
                assert forall|u: int| 0 <= u < n * n implies #[trigger] self.normal@[u] == if u / m
                    < col + j || (u / m == col + j && u % m < row + i + 1) {
                    goal.normal[u]
                } else {
                    before.normal[u]
                } by {
                    vstd::arithmetic::div_mod::lemma_fundamental_div_mod(u, n as int);
                    vstd::arithmetic::div_mod::lemma_fundamental_div_mod(t as int, n as int);
                    if u != t {
                        assert(self.normal@[u] == was[u]);
                    }
                }
                i += 1;
            }
            assert forall|u: int| 0 <= u < n * n implies #[trigger] self.normal@[u] == if u / m
                < col + j + 1 {
                goal.normal[u]
            } else {
                before.normal[u]
            } by {}
            j += 1;
        }
        assert(self@ =~= goal);
    }

    /// Subtract the slopes of a block.
    fn subtract_gradient(&mut self, col: usize, a: &JacobianBlock<R>, residual: &[R])
        requires
            old(self)@.wf(),
            a@.wf(),
            a.rows == residual@.len(),
            col + a.cols <= old(self).dimension,
        ensures
            final(self)@ == old(self)@.with_gradient(col as int, a@, residual@),
            final(self)@.wf(),
            final(self).diagonal == old(self).diagonal,
            final(self).factorized == old(self).factorized,
            final(self).kernel == old(self).kernel,
    {
        let ghost before = self@;
        let ghost goal = before.with_gradient(col as int, a@, residual@);
        let mut i: usize = 0;
        while i < a.cols
            invariant
                before.wf(),
                a@.wf(),
                a.rows == residual@.len(),
                goal == before.with_gradient(col as int, a@, residual@),
                self.dimension == before.dimension,
                col + a.cols <= self.dimension,
                self.normal@ == before.normal,
                self.rhs@.len() == self.dimension,
                self.diagonal == old(self).diagonal,
                self.factorized == old(self).factorized,
                self.kernel == old(self).kernel,
                i <= a.cols,
                forall|t: int|
                    0 <= t < self.rhs@.len() ==> #[trigger] self.rhs@[t] == if t < col + i {
                        goal.rhs[t]
                    } else {
                        before.rhs[t]
                    },
            decreases a.cols - i,
        {
            let mut gradient = R::zero();
            let mut k: usize = 0;
            while k < a.rows
                invariant
                    a@.wf(),
                    a.rows == residual@.len(),
                    i < a.cols,
                    k <= a.rows,
                    gradient == slope(a@, residual@, i as int, k as int),
                decreases a.rows - k,
            {
                gradient = gradient.plus(a.entry(k, i).times(residual[k]));
                k += 1;
            }
            self.rhs.set(col + i, self.rhs[col + i].minus(gradient));
            i += 1;
        }
        assert(self@ =~= goal);
    }
}

/// The first `n` squared pivots are large enough against the entries they came from;
/// or why the information is unusable.
pub open spec fn pivots_spec<R: Real>(factor: Seq<R>, diagonal: Seq<R>, tolerance: R, n: int) -> Result<
    (),
    SolverError,
>
    decreases n,
{
    if n <= 0 {
        Ok(())
    } else {
        match pivots_spec(factor, diagonal, tolerance, n - 1) {
            Err(error) => Err(error),
            Ok(_) => {
                let i = n - 1;
                let pivot = factor[i * diagonal.len() + i];
                let entry = diagonal[i];
                let ratio = pivot.over_spec(entry.sqrt_spec());
                if !pivot.finite_spec() || !entry.finite_spec() {
                    Err(SolverError::InvalidInformation)
                } else if entry.at_most_spec(R::zero_spec()) || pivot.at_most_spec(
                    R::zero_spec(),
                ) || ratio.times_spec(ratio).at_most_spec(tolerance) {
                    Err(SolverError::SingularInformation)
                } else {
                    Ok(())
                }
            },
        }
    }
}

proof fn lemma_pivots_stand<R: Real>(factor: Seq<R>, diagonal: Seq<R>, tolerance: R, n: int, m: int)
    requires
        0 <= n <= m,
        pivots_spec(factor, diagonal, tolerance, n) is Err,
    ensures
        pivots_spec(factor, diagonal, tolerance, m) == pivots_spec(
            factor,
            diagonal,
            tolerance,
            n,
        ),
    decreases m,
{
    if n < m {
        lemma_pivots_stand(factor, diagonal, tolerance, n, m - 1);
    }
}

/// The factor of information whose pivots are all large enough, or why there is none.
pub open spec fn information_spec<R: Real>(
    factor: Result<Seq<R>, SolverError>,
    diagonal: Seq<R>,
    tolerance: R,
) -> Result<Seq<R>, SolverError> {
    match factor {
        Err(error) => Err(
            if error == SolverError::LinearSolveFailed {
                SolverError::SingularInformation
            } else {
                SolverError::InvalidInformation
            },
        ),
        Ok(values) => match pivots_spec(values, diagonal, tolerance, diagonal.len() as int) {
            Err(error) => Err(error),
            Ok(_) => Ok(values),
        },
    }
}

/// The diagonal of assembled equations.
pub open spec fn diagonal_of<R: Real>(view: NormalView<R>) -> Seq<R> {
    Seq::new(view.dimension, |i: int| view.at(i, i))
}

/// The factor of assembled equations, or why there is none.
pub open spec fn factor_spec<R: Real, K: Triangular<R>>(view: NormalView<R>, kernel: K) -> Result<
    Seq<R>,
    SolverError,
> {
    if view.dimension == 0 {
        Ok(view.normal)
    } else if !view.finite_lower() {
        Err(SolverError::Evaluation(EvaluationError::InvalidEvaluation))
    } else {
        match kernel.cholesky_spec(
            view.dimension as usize,
            lower_triangle(view.dimension, view.normal),
        ) {
            None => Err(SolverError::LinearSolveFailed),
            Some(factor) => if factor.len() == view.normal.len() {
                Ok(factor)
            } else {
                Err(SolverError::LinearSolveFailed)
            },
        }
    }
}

/// Only the lower triangle of the equations is read: where two matrices agree on and below the
/// diagonal, both have the same factor, or fail alike.
pub proof fn lemma_upper_triangle_unread<R: Real, K: Triangular<R>>(
    a: NormalView<R>,
    b: NormalView<R>,
    kernel: K,
)
    requires
        a.wf(),
        b.wf(),
        a.dimension == b.dimension,
        same_below(a.dimension, a.normal, b.normal),
    ensures
        factor_spec(a, kernel) == factor_spec(b, kernel),
        diagonal_of(a) == diagonal_of(b),
{
    assert forall|row: int, col: int| 0 <= col <= row < a.dimension implies #[trigger] b.at(row, col)
        == a.at(row, col) by {
        assert(entry(a.dimension, a.normal, row, col) == entry(a.dimension, b.normal, row, col));
    }
    assert forall|row: int, col: int| 0 <= col <= row < a.dimension implies #[trigger] a.at(row, col)
        == b.at(row, col) by {
        assert(entry(a.dimension, a.normal, row, col) == entry(a.dimension, b.normal, row, col));
    }
    lemma_lower_triangle(a.dimension, a.normal, b.normal);
    assert(a.finite_lower() == b.finite_lower());
    assert(diagonal_of(a) =~= diagonal_of(b));
    if a.dimension == 0 {
        assert(a.dimension * a.dimension == 0) by (nonlinear_arith)
            requires
                a.dimension == 0,
        ;
        assert(a.normal =~= b.normal);
    }
}

/// Neither is anything read of a factor above its diagonal.
pub proof fn lemma_upper_factor_unread<R: Real, K: Triangular<R>>(
    kernel: K,
    a: Seq<R>,
    b: Seq<R>,
    rhs: Seq<R>,
)
    requires
        same_below(rhs.len(), a, b),
    ensures
        step_spec(kernel, a, rhs) == step_spec(kernel, b, rhs),
{
    lemma_lower_triangle(rhs.len(), a, b);
}

/// The step that solves equations with the given factor, or that it has the wrong length.
pub open spec fn step_spec<R: Real, K: Triangular<R>>(kernel: K, factor: Seq<R>, rhs: Seq<R>) -> Result<
    Seq<R>,
    SolverError,
> {
    let width = rhs.len() as usize;
    let lower = lower_triangle(rhs.len(), factor);
    let step = kernel.upper_spec(width, lower, kernel.lower_spec(width, lower, rhs, 1), 1);
    if rhs.len() == 0 {
        Ok(rhs)
    } else if step.len() == rhs.len() {
        Ok(step)
    } else {
        Err(SolverError::LinearSolveFailed)
    }
}

impl<R: Real, K: Triangular<R>> DenseNormalCholesky<R, K> {
    /// The factor of the equations: the one at hand, or that of the assembled matrix.
    pub open spec fn factor(&self) -> Result<Seq<R>, SolverError> {
        if self.factorized {
            Ok(self.normal@)
        } else {
            factor_spec(self@, self.kernel)
        }
    }

    /// The diagonal of the matrix that the factor comes from.
    pub open spec fn pivoted(&self) -> Seq<R> {
        if self.factorized {
            self.diagonal@
        } else {
            diagonal_of(self@)
        }
    }

    /// The factor of usable information, or why the information is unusable.
    pub open spec fn information(&self, tolerance: R) -> Result<Seq<R>, SolverError> {
        information_spec(self.factor(), self.pivoted(), tolerance)
    }

    /// Replace the assembled matrix by its factor, unless that was done already.
    pub fn factorize(&mut self) -> (factored: Result<(), SolverError>)
        requires
            old(self).wf(),
        ensures
            final(self).wf(),
            final(self).dimension == old(self).dimension,
            final(self).rhs == old(self).rhs,
            final(self).kernel == old(self).kernel,
            match old(self).factor() {
                Err(error) => {
                    &&& factored == Err::<(), SolverError>(error)
                    &&& final(self).normal == old(self).normal
                    &&& !final(self).factorized
                },
                Ok(factor) => {
                    &&& factored is Ok
                    &&& final(self).normal@ == factor
                    &&& final(self).diagonal@ == old(self).pivoted()
                    &&& final(self).factorized
                },
            },
    {
        if self.factorized {
            return Ok(());
        }
        let n: usize = self.dimension;
        if n == 0 {
            self.factorized = true;
            assert(self.diagonal@ =~= diagonal_of(old(self)@));
            return Ok(());
        }
        assert(self.normal@.len() == self.normal.len());
        let mut finite = true;
        let mut col: usize = 0;
        while col < n
            invariant
                n == self.dimension,
                self.normal == old(self).normal,
                self.rhs == old(self).rhs,
                self.kernel == old(self).kernel,
                !self.factorized,
                self@.wf(),
                self.normal@.len() <= usize::MAX,
                self.diagonal@.len() == n,
                col <= n,
                forall|i: int| 0 <= i < col ==> #[trigger] self.diagonal@[i] == self@.at(i, i),
                finite <==> (forall|r: int, c: int|
                    0 <= c < col && c <= r < n ==> (#[trigger] self@.at(r, c)).finite_spec()),
            decreases n - col,
        {
            proof {
                lemma_entry_index(n as nat, n as nat, col as int, col as int);
            }
            self.diagonal.set(col, self.normal[col * n + col]);
            let ghost settled = finite;
            let mut row: usize = col;
            while row < n
                invariant
                    n == self.dimension,
                    self@.wf(),
                    self.normal@.len() <= usize::MAX,
                    col < n,
                    col <= row <= n,
                    finite <==> settled && (forall|r: int|
                        col <= r < row ==> (#[trigger] self@.at(r, col as int)).finite_spec()),
                decreases n - row,
            {
                proof {
                    lemma_entry_index(n as nat, n as nat, row as int, col as int);
                }
                finite = finite && self.normal[col * n + row].is_finite();
                assert(self@.at(row as int, col as int) == self.normal@[col * n + row]);
                row += 1;
            }
            col += 1;
        }
        if !finite {
            return Err(SolverError::Evaluation(EvaluationError::InvalidEvaluation));
        }
        match self.kernel.cholesky(n, self.normal.as_slice()) {
            None => Err(SolverError::LinearSolveFailed),
            Some(factor) => {
                if factor.len() != self.normal.len() {
                    return Err(SolverError::LinearSolveFailed);
                }
                overwrite(&mut self.normal, factor.as_slice());
                self.factorized = true;
                assert(self.diagonal@ =~= diagonal_of(old(self)@));
                Ok(())
            },
        }
    }

    /// Check every pivot of the factor against a relative tolerance.
    fn check_pivots(&self, tolerance: R) -> (checked: Result<(), SolverError>)
        requires
            self.wf(),
        ensures
            checked == pivots_spec(
                self.normal@,
                self.diagonal@,
                tolerance,
                self.dimension as int,
            ),
    {
        let n: usize = self.dimension;
        let zero = R::zero();
        assert(self.normal@.len() == self.normal.len());
        let mut i: usize = 0;
        while i < n
            invariant
                self.wf(),
                n == self.dimension,
                self.normal@.len() <= usize::MAX,
                zero == R::zero_spec(),
                i <= n,
                pivots_spec(self.normal@, self.diagonal@, tolerance, i as int) is Ok,
            decreases n - i,
        {
            proof {
                lemma_entry_index(n as nat, n as nat, i as int, i as int);
            }
            let pivot = self.normal[i * n + i];
            let entry = self.diagonal[i];
            let ratio = pivot.over(entry.sqrt());
            if !pivot.is_finite() || !entry.is_finite() {
                proof {
                    lemma_pivots_stand(
                        self.normal@,
                        self.diagonal@,
                        tolerance,
                        i + 1,
                        n as int,
                    );
                }
                return Err(SolverError::InvalidInformation);
            }
            if entry.at_most(zero) || pivot.at_most(zero) || ratio.times(ratio).at_most(
                tolerance,
            ) {
                proof {
                    lemma_pivots_stand(
                        self.normal@,
                        self.diagonal@,
                        tolerance,
                        i + 1,
                        n as int,
                    );
                }
                return Err(SolverError::SingularInformation);
            }
            i += 1;
        }
        Ok(())
    }

    /// Factor the assembled matrix, and check every pivot against a relative tolerance.
    pub fn information_factor(&mut self, tolerance: R) -> (usable: Result<(), SolverError>)
        requires
            old(self).wf(),
        ensures
            final(self).wf(),
            final(self).dimension == old(self).dimension,
            final(self).rhs == old(self).rhs,
            final(self).kernel == old(self).kernel,
            final(self).factor() == old(self).factor(),
            final(self).pivoted() == old(self).pivoted(),
            final(self).factorized == old(self).factor() is Ok,
            match old(self).information(tolerance) {
                Err(error) => usable == Err::<(), SolverError>(error),
                Ok(factor) => usable is Ok && final(self).normal@ == factor,
            },
    {
        match self.factorize() {
            Ok(_) => self.check_pivots(tolerance),
            Err(error) => match error {
                SolverError::LinearSolveFailed => Err(SolverError::SingularInformation),
                _ => Err(SolverError::InvalidInformation),
            },
        }
    }
}

/// Replace all scalars of a buffer.
fn overwrite<R: Real>(buffer: &mut Vec<R>, values: &[R])
    requires
        old(buffer)@.len() == values@.len(),
    ensures
        final(buffer)@ == values@,
{
    let mut i: usize = 0;
    while i < values.len()
        invariant
            i <= values@.len(),
            buffer@.len() == values@.len(),
            forall|j: int| 0 <= j < i ==> #[trigger] buffer@[j] == values@[j],
        decreases values@.len() - i,
    {
        buffer.set(i, values[i]);
        i += 1;
    }
    assert(buffer@ =~= values@);
}

/// A copy of some scalars.
pub fn copied<R: Real>(values: &[R]) -> (copy: Vec<R>)
    ensures
        copy@ == values@,
{
    let mut copy: Vec<R> = Vec::new();
    let mut i: usize = 0;
    while i < values.len()
        invariant
            i <= values@.len(),
            copy@ == values@.take(i as int),
        decreases values@.len() - i,
    {
        copy.push(values[i]);
        i += 1;
        assert(copy@ =~= values@.take(i as int));
    }
    assert(values@.take(i as int) =~= values@);
    copy
}

/// An entry of a square matrix of another size: the old one where there was one, else zero.
pub open spec fn kept_entry<R: Real>(values: Seq<R>, from: int, i: int, j: int) -> R {
    if i < from && j < from {
        values[j * from + i]
    } else {
        R::zero_spec()
    }
}

/// Change the size of a square matrix, keeping the entries that remain.
fn resized_square<R: Real>(values: &[R], from: usize, to: usize) -> (square: Vec<R>)
    requires
        values@.len() == from * from,
    ensures
        square@.len() == to * to,
        forall|i: int, j: int|
            0 <= i < to && 0 <= j < to ==> #[trigger] square@[j * to + i] == kept_entry(
                values@,
                from as int,
                i,
                j,
            ),
{
    let mut square: Vec<R> = Vec::new();
    let mut j: usize = 0;
    while j < to
        invariant
            values@.len() == from * from,
            j <= to,
            square@.len() == j * to,
            forall|r: int, c: int|
                0 <= r < to && 0 <= c < j ==> #[trigger] square@[c * to + r] == kept_entry(
                    values@,
                    from as int,
                    r,
                    c,
                ),
        decreases to - j,
    {
        let mut i: usize = 0;
        while i < to
            invariant
                values@.len() == from * from,
                i <= to,
                j < to,
                square@.len() == j * to + i,
                forall|r: int, c: int|
                    0 <= r < to && (0 <= c < j || c == j && r < i)
                        ==> #[trigger] square@[c * to + r] == kept_entry(
                        values@,
                        from as int,
                        r,
                        c,
                    ),
            decreases to - i,
        {
            let ghost before = square@;
            if i < from && j < from {
                proof {
                    lemma_entry_index(from as nat, from as nat, i as int, j as int);
                    assert(values@.len() == values.len());
                }
                square.push(values[j * from + i]);
            } else {
                square.push(R::zero());
            }
            assert forall|r: int, c: int|
                0 <= r < to && (0 <= c < j || c == j && r < i + 1) implies (
            #[trigger] square@[c * to + r]) == kept_entry(values@, from as int, r, c) by {
                if c < j {
                    lemma_entry_index(to as nat, j as nat, r, c);
                    assert(to * j == j * to) by (nonlinear_arith);
                }
                assert(c * to + r < before.len() ==> square@[c * to + r] == before[c * to + r]);
            }
            i += 1;
        }
        assert(j * to + to == (j + 1) * to) by (nonlinear_arith);
        j += 1;
    }
    square
}

/// A square matrix must fit the address space.
pub open spec fn storable<R>(dimension: nat) -> Result<(), SolverError> {
    if dimension * dimension * vstd::layout::size_of::<R>() <= isize::MAX && dimension * dimension
        <= usize::MAX {
        Ok(())
    } else {
        Err(SolverError::Evaluation(EvaluationError::DimensionMismatch))
    }
}

impl<R: Real, K: Triangular<R>> LeastSquaresBackend for DenseNormalCholesky<R, K> {
    type Scalar = R;

    type Model = NormalView<R>;

    /// The kernel that factors and solves.
    type Shape = K;

    open spec fn wf(&self) -> bool {
        self@.wf() && self.diagonal@.len() == self.dimension
    }

    open spec fn dimension(&self) -> nat {
        self.dimension as nat
    }

    open spec fn model(&self) -> NormalView<R> {
        self@
    }

    open spec fn shape(&self) -> K {
        self.kernel
    }

    open spec fn usable(&self) -> bool {
        true
    }

    /// The matrix is the assembled one, not its factor.
    open spec fn fresh(&self) -> bool {
        !self.factorized
    }

    /// The factor at hand, or the one still to come, is that of the given equations.
    open spec fn keeps(&self, model: NormalView<R>) -> bool {
        &&& self.dimension == model.dimension
        &&& self.factor() == factor_spec(model, self.kernel)
        &&& self.factor() is Ok ==> self.pivoted() == diagonal_of(model)
    }

    open spec fn empty_spec(shape: K, dimension: nat) -> NormalView<R> {
        NormalView::empty(dimension)
    }

    open spec fn extended_spec(
        model: NormalView<R>,
        residual: Seq<R>,
        blocks: Seq<BlockView<R>>,
        columns: Seq<usize>,
    ) -> Result<NormalView<R>, EvaluationError> {
        Ok(model.with_blocks(residual, blocks, columns, blocks.len() as int))
    }

    open spec fn gradient_norm_spec(model: NormalView<R>) -> Result<R, SolverError> {
        norm_inf_spec(model.rhs)
    }

    /// The matrix must fit the address space.
    open spec fn prepare_spec(&self, dimension: nat) -> Result<(), SolverError> {
        storable::<R>(dimension)
    }

    /// The step of the equations, which takes the place of their right-hand side; an empty
    /// system has the empty step.
    open spec fn answers(before: Self, after: Self, step: Result<Seq<R>, SolverError>) -> bool {
        match before.factor() {
            Err(error) => step == Err::<Seq<R>, SolverError>(error),
            Ok(factor) => match step_spec(before.kernel, factor, before.rhs@) {
                Err(error) => step == Err::<Seq<R>, SolverError>(error),
                Ok(solution) => {
                    &&& step == Ok::<Seq<R>, SolverError>(solution)
                    &&& after.rhs@ == solution
                },
            },
        }
    }

    fn prepare(&mut self, dimension: usize) -> (prepared: Result<(), SolverError>)
        ensures
            prepared is Ok ==> {
                &&& !final(self).factorized
                &&& forall|i: int, j: int|
                    0 <= i < dimension && 0 <= j < dimension
                        ==> #[trigger] final(self).normal@[j * dimension + i] == kept_entry(
                        old(self).normal@,
                        old(self).dimension as int,
                        i,
                        j,
                    )
                &&& final(self).rhs@ == padded(old(self).rhs@, dimension as nat)
                &&& final(self).diagonal@ == padded(old(self).diagonal@, dimension as nat)
            },
            prepared is Err ==> *final(self) == *old(self),
    {
        let entries: usize = match dimension.checked_mul(dimension) {
            Some(entries) => entries,
            None => {
                return Err(SolverError::Evaluation(EvaluationError::DimensionMismatch));
            },
        };
        let fits = match entries.checked_mul(core::mem::size_of::<R>()) {
            Some(bytes) => bytes <= isize::MAX as usize,
            None => false,
        };
        if !fits {
            return Err(SolverError::Evaluation(EvaluationError::DimensionMismatch));
        }
        if dimension != self.dimension {
            self.normal = resized_square(self.normal.as_slice(), self.dimension, dimension);
            self.dimension = dimension;
        }
        resize_zero(&mut self.rhs, dimension);
        resize_zero(&mut self.diagonal, dimension);
        self.factorized = false;
        Ok(())
    }

    fn clear(&mut self)
        ensures
            !final(self).factorized,
    {
        self.factorized = false;
        fill_zero(&mut self.normal);
        fill_zero(&mut self.rhs);
        assert(self@ =~= NormalView::<R>::empty(self.dimension as nat));
    }

    fn accumulate(
        &mut self,
        residual: &[R],
        blocks: &[JacobianBlock<R>],
        columns: &[usize],
    ) -> (added: Result<(), EvaluationError>)
        ensures
            !final(self).factorized,
    {
        let ghost views = block_views(blocks@);
        self.factorized = false;
        let ghost before = self@;
        let mut i: usize = 0;
        while i < blocks.len()
            invariant
                before == old(self)@,
                views == block_views(blocks@),
                self@.wf(),
                self.dimension == before.dimension,
                self.diagonal@.len() == self.dimension,
                self.kernel == old(self).kernel,
                !self.factorized,
                admissible(self.dimension as nat, residual@, views, columns@),
                blocks@.len() == columns@.len(),
                i <= blocks@.len(),
                self@ == before.with_blocks(residual@, views, columns@, i as int),
            decreases blocks@.len() - i,
        {
            let block = &blocks[i];
            let column: usize = columns[i];
            assert(views[i as int] == block@);
            self.subtract_gradient(column, block, residual);
            let own_panel = panel(block);
            self.add_product(column, column, &own_panel, &own_panel, true);
            let ghost own = self@;
            let mut k: usize = 0;
            while k < i
                invariant
                    views == block_views(blocks@),
                    self@.wf(),
                    self.dimension == before.dimension,
                    self.diagonal@.len() == self.dimension,
                    self.kernel == old(self).kernel,
                    !self.factorized,
                    admissible(self.dimension as nat, residual@, views, columns@),
                    blocks@.len() == columns@.len(),
                    i < blocks@.len(),
                    *block == blocks@[i as int],
                    column == columns@[i as int],
                    k <= i,
                    self@ == own.with_pairs(views, columns@, i as int, k as int),
                decreases i - k,
            {
                let other = &blocks[k];
                assert(views[k as int] == other@);
                assert(views[i as int] == block@);
                if column > columns[k] {
                    self.add_product(column, columns[k], &panel(block), &panel(other), false);
                } else {
                    self.add_product(columns[k], column, &panel(other), &panel(block), false);
                }
                k += 1;
            }
            i += 1;
        }
        Ok(())
    }

    fn gradient_norm(&self) -> (norm: Result<R, SolverError>) {
        norm_inf(self.rhs.as_slice())
    }

    fn solve(&mut self) -> (step: Result<Vec<R>, SolverError>) {
        let n: usize = self.dimension;
        match self.factorize() {
            Ok(_) => {},
            Err(error) => {
                return Err(error);
            },
        }
        if n == 0 {
            return Ok(copied(self.rhs.as_slice()));
        }
        let half = self.kernel.solve_lower(n, self.normal.as_slice(), self.rhs.as_slice(), 1);
        let step = self.kernel.solve_upper(n, self.normal.as_slice(), half.as_slice(), 1);
        if step.len() != n {
            return Err(SolverError::LinearSolveFailed);
        }
        overwrite(&mut self.rhs, step.as_slice());
        Ok(step)
    }
}

} // verus!
