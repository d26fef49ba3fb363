//! Quadratic priors left behind by eliminated variables, anchored at fixed references.
use crate::backend::{all_finite, assembled, finite_values, LeastSquaresBackend};
use crate::dense::DensePool;
use crate::error::{EvaluationError, SolverError};
use crate::index::KeySet;
use crate::key::{BlockId, PoolId, RawKey};
use crate::layout::Layout;
use crate::linearization::{block_views, lemma_entry_index, BlockView, JacobianBlock};
use crate::scalar::Real;
use crate::states::{
    anchor_views, chosen, is_chosen, selected_set, AnchorDelta, AnchorView, StateSchema,
};
use crate::storage::{checked_cost, checked_cost_spec};
use vstd::prelude::*;

verus! {

/// The columns of a prior that belong to one variable.
#[derive(Debug, Clone, Copy, PartialEq, Eq, Structural)]
pub struct PriorBlock {
    pub id: BlockId,
    pub start: usize,
    pub len: usize,
}

/// A residual `a * movement + b`, with its value and derivative at the estimates they
/// were last evaluated at. Matrices are stored column by column.
pub struct Prior<R> {
    pub blocks: Vec<PriorBlock>,
    pub rows: usize,
    pub cols: usize,
    pub a: Vec<R>,
    pub b: Vec<R>,
    pub residual: Vec<R>,
    pub jacobian: Vec<R>,
}

/// The mathematical content of a [`Prior`].
#[verifier::ext_equal]
pub struct PriorView<R> {
    pub blocks: Seq<PriorBlock>,
    pub rows: nat,
    pub cols: nat,
    pub a: Seq<R>,
    pub b: Seq<R>,
    pub residual: Seq<R>,
    pub jacobian: Seq<R>,
}

impl<R> View for Prior<R> {
    type V = PriorView<R>;

    open spec fn view(&self) -> PriorView<R> {
        PriorView {
            blocks: self.blocks@,
            rows: self.rows as nat,
            cols: self.cols as nat,
            a: self.a@,
            b: self.b@,
            residual: self.residual@,
            jacobian: self.jacobian@,
        }
    }
}

/// A running residual coordinate raised by the first `n` products of a row of `a` with a
/// movement.
pub open spec fn moved_row<R: Real>(
    prior: PriorView<R>,
    anchor: AnchorView<R>,
    row: int,
    n: int,
) -> R
    decreases n,
{
    if n <= 0 {
        prior.residual[row]
    } else {
        moved_row(prior, anchor, row, n - 1).plus_spec(
            prior.a[(anchor.column + n - 1) * prior.rows + row].times_spec(anchor.delta[n - 1]),
        )
    }
}

/// The first `n` products of a row of `a` with a column of the chart, summed from zero.
pub open spec fn charted<R: Real>(
    prior: PriorView<R>,
    anchor: AnchorView<R>,
    row: int,
    col: int,
    n: int,
) -> R
    decreases n,
{
    if n <= 0 {
        R::zero_spec()
    } else {
        charted(prior, anchor, row, col, n - 1).plus_spec(
            prior.a[(anchor.column + n - 1) * prior.rows + row].times_spec(
                anchor.chart[col * anchor.delta.len() + n - 1],
            ),
        )
    }
}

impl<R: Real> PriorView<R> {
    /// Matrices and vectors have the stated sizes, and every variable's columns exist.
    pub open spec fn wf(self) -> bool {
        &&& self.a.len() == self.rows * self.cols
        &&& self.b.len() == self.rows
        &&& self.residual.len() == self.rows
        &&& self.jacobian.len() == self.rows * self.cols
        &&& forall|i: int|
            0 <= i < self.blocks.len() ==> (#[trigger] self.blocks[i]).start + self.blocks[i].len
                <= self.cols
    }

    /// The residual without movement.
    pub open spec fn reset(self) -> Self {
        PriorView { residual: self.b, ..self }
    }

    /// Whether the coordinates of a movement fit the columns they are meant for.
    pub open spec fn fits(self, anchor: AnchorView<R>, derivatives: bool) -> bool {
        &&& anchor.column + anchor.delta.len() <= self.cols
        &&& derivatives ==> anchor.chart.len() == anchor.delta.len() * anchor.delta.len()
    }

    /// The residual, and for derivatives the Jacobian, with one variable's movement.
    pub open spec fn with_anchor(self, anchor: AnchorView<R>, derivatives: bool) -> Self {
        PriorView {
            residual: Seq::new(
                self.rows,
                |row: int| moved_row(self, anchor, row, anchor.delta.len() as int),
            ),
            jacobian: if derivatives {
                Seq::new(
                    self.jacobian.len(),
                    |k: int|
                        if anchor.column * self.rows <= k < (anchor.column + anchor.delta.len())
                            * self.rows {
                            charted(
                                self,
                                anchor,
                                k % self.rows as int,
                                k / self.rows as int - anchor.column,
                                anchor.delta.len() as int,
                            )
                        } else {
                            self.jacobian[k]
                        },
                )
            } else {
                self.jacobian
            },
            ..self
        }
    }

    /// Residual and, for derivatives, Jacobian are finite.
    pub open spec fn evaluated(self, derivatives: bool) -> bool {
        all_finite(self.residual) && (derivatives ==> all_finite(self.jacobian))
    }

    /// Half the squares of the first `n` residual coordinates, added to a total.
    pub open spec fn half_squares(self, total: R, n: int) -> R
        decreases n,
    {
        if n <= 0 {
            total
        } else {
            self.half_squares(total, n - 1).plus_spec(
                R::ratio_spec(1, 2).times_spec(self.residual[n - 1]).times_spec(
                    self.residual[n - 1],
                ),
            )
        }
    }

    /// One variable's share of the Jacobian.
    pub open spec fn block(self, i: int) -> BlockView<R> {
        let block = self.blocks[i];
        BlockView {
            variable: block.id,
            rows: self.rows,
            cols: block.len as nat,
            values: self.jacobian.subrange(
                block.start * self.rows,
                (block.start + block.len) * self.rows,
            ),
        }
    }

    /// All variables' shares of the Jacobian.
    pub open spec fn shares(self) -> Seq<BlockView<R>> {
        Seq::new(self.blocks.len(), |i: int| self.block(i))
    }
}

impl<R: Real> Prior<R> {
    /// A prior without rows or variables.
    pub fn new() -> (prior: Self)
        ensures
            prior@.wf(),
            prior@ == (PriorView {
                blocks: Seq::empty(),
                rows: 0,
                cols: 0,
                a: Seq::<R>::empty(),
                b: Seq::<R>::empty(),
                residual: Seq::<R>::empty(),
                jacobian: Seq::<R>::empty(),
            }),
    {
        Prior {
            blocks: Vec::new(),
            rows: 0,
            cols: 0,
            a: Vec::new(),
            b: Vec::new(),
            residual: Vec::new(),
            jacobian: Vec::new(),
        }
    }

    /// Set the residual to its value without movement.
    fn reset(&mut self)
        requires
            old(self)@.wf(),
        ensures
            final(self)@.wf(),
            final(self)@ == old(self)@.reset(),
    {
        let mut row: usize = 0;
        while row < self.residual.len()
            invariant
                row <= self.residual@.len(),
                self.residual@.len() == old(self).residual@.len(),
                self.residual@.len() == self.b@.len(),
                self.blocks == old(self).blocks,
                self.rows == old(self).rows,
                self.cols == old(self).cols,
                self.a == old(self).a,
                self.b == old(self).b,
                self.jacobian == old(self).jacobian,
                forall|r: int| 0 <= r < row ==> #[trigger] self.residual@[r] == self.b@[r],
            decreases self.residual@.len() - row,
        {
            self.residual.set(row, self.b[row]);
            row += 1;
        }
        assert(self@ =~= old(self)@.reset());
        assert(forall|i: int| 0 <= i < self@.blocks.len() ==> self@.blocks[i] == old(self)@.blocks[i]);
    }
}

/// Splitting a position in a matrix stored by columns.
proof fn lemma_matrix_position(rows: int, cols: int, row: int, col: int)
    requires
        0 <= row < rows,
        0 <= col < cols,
    ensures
        0 <= col * rows,
        0 <= col * rows + row < rows * cols,
        (col * rows + row) % rows == row,
        (col * rows + row) / rows == col,
{
    lemma_entry_index(rows as nat, cols as nat, row, col);
    vstd::arithmetic::div_mod::lemma_fundamental_div_mod_converse(
        col * rows + row,
        rows,
        col,
        row,
    );
}

impl<R: Real> Prior<R> {
    /// Add one variable's movement to the residual.
    fn move_residual(&mut self, anchor: &AnchorDelta<R>)
        requires
            old(self)@.wf(),
            old(self)@.fits(anchor@, false),
        ensures
            final(self)@.wf(),
            final(self)@ == old(self)@.with_anchor(anchor@, false),
    {
        let ghost before = self@;
        let d: usize = anchor.delta.len();
        assert(self.a@.len() == self.a.len());
        let mut row: usize = 0;
        while row < self.rows
            invariant
                before == old(self)@,
                before.wf(),
                before.fits(anchor@, false),
                d == anchor.delta@.len(),
                row <= self.rows,
                self.blocks == old(self).blocks,
                self.rows == old(self).rows,
                self.cols == old(self).cols,
                self.a == old(self).a,
                self.a@.len() <= usize::MAX,
                self.b == old(self).b,
                self.jacobian == old(self).jacobian,
                self.residual@.len() == self.rows,
                forall|r: int|
                    0 <= r < self.rows ==> #[trigger] self.residual@[r] == if r < row {
                        moved_row(before, anchor@, r, d as int)
                    } else {
                        before.residual[r]
                    },
            decreases self.rows - row,
        {
            let mut value = self.residual[row];
            let mut col: usize = 0;
            while col < d
                invariant
                    before == old(self)@,
                    before.wf(),
                    before.fits(anchor@, false),
                    d == anchor.delta@.len(),
                    row < self.rows,
                    self.rows == old(self).rows,
                    self.cols == old(self).cols,
                    self.a == old(self).a,
                    self.a@.len() <= usize::MAX,
                    col <= d,
                    value == moved_row(before, anchor@, row as int, col as int),
                decreases d - col,
            {
                proof {
                    lemma_matrix_position(
                        self.rows as int,
                        self.cols as int,
                        row as int,
                        anchor.column + col,
                    );
                }
                value = value.plus(
                    self.a[(anchor.column + col) * self.rows + row].times(anchor.delta[col]),
                );
                col += 1;
            }
            self.residual.set(row, value);
            row += 1;
        }
        assert(self@ =~= before.with_anchor(anchor@, false));
    }

    /// Add one variable's movement to the residual, and set its share of the Jacobian.
    fn apply(&mut self, anchor: &AnchorDelta<R>, derivatives: bool)
        requires
            old(self)@.wf(),
            old(self)@.fits(anchor@, derivatives),
        ensures
            final(self)@.wf(),
            final(self)@ == old(self)@.with_anchor(anchor@, derivatives),
    {
        let ghost before = self@;
        self.move_residual(anchor);
        if !derivatives {
            return;
        }
        let ghost moved = self@;
        let rows: usize = self.rows;
        let d: usize = anchor.delta.len();
        assert(self.a@.len() == self.a.len());
        assert(anchor.chart@.len() == anchor.chart.len());
        proof {
            assert(anchor.column * rows <= rows * self.cols) by (nonlinear_arith)
                requires
                    anchor.column <= self.cols,
            ;
        }
        let mut col: usize = 0;
        let mut place: usize = anchor.column * rows;
        let ghost start = anchor.column * rows;
        while col < d
            invariant
                before == old(self)@,
                before.wf(),
                before.fits(anchor@, true),
                moved == before.with_anchor(anchor@, false),
                rows == self.rows,
                d == anchor.delta@.len(),
                anchor.chart@.len() <= usize::MAX,
                col <= d,
                start == anchor.column * rows,
                place == (anchor.column + col) * rows,
                place <= rows * self.cols,
                self.blocks@ == old(self).blocks@,
                self.rows == old(self).rows,
                self.cols == old(self).cols,
                self.a@ == old(self).a@,
                self.a@.len() <= usize::MAX,
                self.b@ == old(self).b@,
                self.residual@ == moved.residual,
                self.jacobian@.len() == before.jacobian.len(),
                forall|k: int|
                    0 <= k < before.jacobian.len() ==> #[trigger] self.jacobian@[k] == if start
                        <= k < place {
                        charted(
                            before,
                            anchor@,
                            k % rows as int,
                            k / rows as int - anchor.column,
                            d as int,
                        )
                    } else {
                        before.jacobian[k]
                    },
            decreases d - col,
        {
            proof {
                assert((anchor.column + col) * rows + rows <= rows * self.cols && (anchor.column
                    + col) * rows + rows == (anchor.column + col + 1) * rows && start
                    <= (anchor.column + col) * rows) by (nonlinear_arith)
                    requires
                        anchor.column + col + 1 <= self.cols,
                        start == anchor.column * rows,
                ;
            }
            let mut row: usize = 0;
            while row < rows
                invariant
                    before == old(self)@,
                    before.wf(),
                    before.fits(anchor@, true),
                    moved == before.with_anchor(anchor@, false),
                    rows == self.rows,
                    d == anchor.delta@.len(),
                    anchor.chart@.len() <= usize::MAX,
                    col < d,
                    row <= rows,
                    start == anchor.column * rows,
                    start <= (anchor.column + col) * rows,
                    place == (anchor.column + col) * rows + row,
                    (anchor.column + col) * rows + rows <= rows * self.cols,
                    self.blocks@ == old(self).blocks@,
                    self.rows == old(self).rows,
                    self.cols == old(self).cols,
                    self.a@ == old(self).a@,
                    self.a@.len() <= usize::MAX,
                    self.b@ == old(self).b@,
                    self.residual@ == moved.residual,
                    self.jacobian@.len() == before.jacobian.len(),
                    forall|k: int|
                        0 <= k < before.jacobian.len() ==> #[trigger] self.jacobian@[k] == if start
                            <= k < place {
                            charted(
                                before,
                                anchor@,
                                k % rows as int,
                                k / rows as int - anchor.column,
                                d as int,
                            )
                        } else {
                            before.jacobian[k]
                        },
                decreases rows - row,
            {
                let mut value = R::zero();
                let mut k: usize = 0;
                while k < d
                    invariant
                        before.wf(),
                        before.fits(anchor@, true),
                        self.a@ == before.a,
                        self.a@.len() <= usize::MAX,
                        rows == before.rows,
                        d == anchor.delta@.len(),
                        anchor.chart@.len() <= usize::MAX,
                        col < d,
                        row < rows,
                        k <= d,
                        value == charted(before, anchor@, row as int, col as int, k as int),
                    decreases d - k,
                {
                    proof {
                        lemma_matrix_position(
                            rows as int,
                            before.cols as int,
                            row as int,
                            anchor.column + k,
                        );
                        lemma_matrix_position(d as int, d as int, k as int, col as int);
                    }
                    value = value.plus(
                        self.a[(anchor.column + k) * rows + row].times(anchor.chart[col * d + k]),
                    );
                    k += 1;
                }
                proof {
                    lemma_matrix_position(
                        rows as int,
                        self.cols as int,
                        row as int,
                        anchor.column + col,
                    );
                }
                self.jacobian.set(place, value);
                row += 1;
                place += 1;
            }
            col += 1;
        }
        proof {
            assert(self@ =~= before.with_anchor(anchor@, true));
        }
    }
}

/// The mathematical contents of stored priors.
pub open spec fn prior_views<R>(priors: Seq<Prior<R>>) -> Seq<PriorView<R>> {
    Seq::new(priors.len(), |i: int| priors[i]@)
}

/// All priors of a graph, and the part of its cost that no estimate can change.
pub struct Priors<R> {
    pub entries: DensePool<Prior<R>>,
    pub constant: R,
}

impl<R: Real> Priors<R> {
    /// Sound storage of sound priors.
    pub open spec fn wf(&self) -> bool {
        &&& self.entries.wf()
        &&& forall|i: int|
            0 <= i < self.entries.values@.len() ==> (#[trigger] self.entries.values@[i])@.wf()
    }

    /// The stored priors.
    pub open spec fn views(&self) -> Seq<PriorView<R>> {
        prior_views(self.entries.values@)
    }

    /// The identity of the prior at a dense position.
    pub open spec fn id(&self, i: int) -> RawKey {
        RawKey { pool: self.entries.id, local: self.entries.keys@[i] }
    }

    /// What is stored, apart from cached evaluations, is what `other` stores.
    pub open spec fn same_priors(&self, other: &Self) -> bool {
        &&& self.entries.id == other.entries.id
        &&& self.entries.keys@ == other.entries.keys@
        &&& self.entries.slots@ == other.entries.slots@
        &&& self.entries.free_slots@ == other.entries.free_slots@
        &&& self.constant == other.constant
        &&& self.views().len() == other.views().len()
        &&& forall|i: int|
            0 <= i < self.views().len() ==> {
                &&& (#[trigger] self.views()[i]).blocks == other.views()[i].blocks
                &&& self.views()[i].rows == other.views()[i].rows
                &&& self.views()[i].cols == other.views()[i].cols
                &&& self.views()[i].a == other.views()[i].a
                &&& self.views()[i].b == other.views()[i].b
            }
    }

    /// The chosen priors without movement.
    pub open spec fn reset_views(&self, selected: Option<Set<RawKey>>) -> Seq<PriorView<R>> {
        Seq::new(
            self.views().len(),
            |i: int|
                if chosen(selected, self.id(i)) {
                    self.views()[i].reset()
                } else {
                    self.views()[i]
                },
        )
    }

    /// Priors after the first `n` movements; each must fit the prior it is meant for.
    pub open spec fn moved_views(
        &self,
        views: Seq<PriorView<R>>,
        deltas: Seq<AnchorView<R>>,
        derivatives: bool,
        n: int,
    ) -> Result<Seq<PriorView<R>>, SolverError>
        decreases n,
    {
        if n <= 0 {
            Ok(views)
        } else {
            match self.moved_views(views, deltas, derivatives, n - 1) {
                Err(error) => Err(error),
                Ok(before) => match self.entries.lookup(deltas[n - 1].prior) {
                    Err(error) => Err(SolverError::Key(error)),
                    Ok(i) => if before[i].fits(deltas[n - 1], derivatives) {
                        Ok(before.update(i, before[i].with_anchor(deltas[n - 1], derivatives)))
                    } else {
                        Err(SolverError::Evaluation(EvaluationError::DimensionMismatch))
                    },
                },
            }
        }
    }

    /// Every chosen prior has finite values.
    pub open spec fn all_evaluated(
        &self,
        views: Seq<PriorView<R>>,
        selected: Option<Set<RawKey>>,
        derivatives: bool,
    ) -> bool {
        forall|i: int|
            0 <= i < views.len() && chosen(selected, #[trigger] self.id(i))
                ==> views[i].evaluated(derivatives)
    }

    /// The chosen priors evaluated at given movements.
    pub open spec fn updated(
        &self,
        deltas: Seq<AnchorView<R>>,
        derivatives: bool,
        selected: Option<Set<RawKey>>,
    ) -> Result<Seq<PriorView<R>>, SolverError> {
        match self.moved_views(
            self.reset_views(selected),
            deltas,
            derivatives,
            deltas.len() as int,
        ) {
            Err(error) => Err(error),
            Ok(views) => if self.all_evaluated(views, selected, derivatives) {
                Ok(views)
            } else {
                Err(SolverError::Evaluation(EvaluationError::InvalidEvaluation))
            },
        }
    }

    proof fn lemma_moved_refused(
        &self,
        views: Seq<PriorView<R>>,
        deltas: Seq<AnchorView<R>>,
        derivatives: bool,
        n: int,
        m: int,
    )
        requires
            0 <= n <= m,
            self.moved_views(views, deltas, derivatives, n) is Err,
        ensures
            self.moved_views(views, deltas, derivatives, m) == self.moved_views(
                views,
                deltas,
                derivatives,
                n,
            ),
        decreases m,
    {
        if n < m {
            self.lemma_moved_refused(views, deltas, derivatives, n, m - 1);
        }
    }

    /// No priors.
    pub fn new(id: PoolId) -> (priors: Self)
        ensures
            priors.wf(),
            priors.entries.id == id,
            priors.constant == R::zero_spec(),
            priors.views() == Seq::<PriorView<R>>::empty(),
            priors.entries.slots@.len() == 0,
            priors.entries.free_slots@.len() == 0,
    {
        let priors = Priors { entries: DensePool::new(id), constant: R::zero() };
        assert(priors.views() =~= Seq::<PriorView<R>>::empty());
        priors
    }

    /// Set the chosen priors to their values without movement.
    fn reset(&mut self, selected: Option<&KeySet>)
        requires
            old(self).wf(),
            selected matches Some(priors) ==> priors.wf(),
        ensures
            final(self).wf(),
            final(self).same_priors(old(self)),
            final(self).views() == old(self).reset_views(selected_set(selected)),
    {
        let ghost set = selected_set(selected);
        let ghost before = *self;
        let mut i: usize = 0;
        while i < self.entries.values.len()
            invariant
                before == *old(self),
                self.wf(),
                self.same_priors(&before),
                selected matches Some(priors) ==> priors.wf(),
                set == selected_set(selected),
                i <= self.entries.values@.len(),
                forall|j: int|
                    0 <= j < self.entries.values@.len() ==> (#[trigger] self.entries.values@[j])@
                        == if j < i && chosen(set, before.id(j)) {
                        before.views()[j].reset()
                    } else {
                        before.views()[j]
                    },
            decreases self.entries.values@.len() - i,
        {
            let raw = RawKey { pool: self.entries.id, local: self.entries.keys[i] };
            assert(raw == before.id(i as int));
            if is_chosen(selected, raw) {
                let ghost was = *self;
                self.entries.values[i].reset();
                proof {
                    assert forall|j: int| 0 <= j < self.views().len() implies {
                        &&& (#[trigger] self.views()[j]).blocks == before.views()[j].blocks
                        &&& self.views()[j].rows == before.views()[j].rows
                        &&& self.views()[j].cols == before.views()[j].cols
                        &&& self.views()[j].a == before.views()[j].a
                        &&& self.views()[j].b == before.views()[j].b
                    } by {
                        assert(was.views()[j].blocks == before.views()[j].blocks);
                        if j != i {
                            assert(self.entries.values@[j] == was.entries.values@[j]);
                        }
                    }
                    assert forall|j: int| 0 <= j < self.entries.values@.len() implies (
                    #[trigger] self.entries.values@[j])@.wf() by {
                        if j != i {
                            assert(self.entries.values@[j] == was.entries.values@[j]);
                        }
                    }
                }
            }
            i += 1;
        }
        assert(self.views() =~= before.reset_views(set));
    }

    /// Add given movements to the priors they are meant for.
    fn move_all(&mut self, deltas: &[AnchorDelta<R>], derivatives: bool) -> (moved: Result<
        (),
        SolverError,
    >)
        requires
            old(self).wf(),
        ensures
            final(self).wf(),
            final(self).same_priors(old(self)),
            match old(self).moved_views(
                old(self).views(),
                anchor_views(deltas@),
                derivatives,
                deltas@.len() as int,
            ) {
                Err(error) => moved == Err::<(), SolverError>(error),
                Ok(views) => moved is Ok && final(self).views() == views,
            },
    {
        let ghost before = *self;
        let ghost views = anchor_views(deltas@);
        let mut n: usize = 0;
        while n < deltas.len()
            invariant
                before == *old(self),
                self.wf(),
                self.same_priors(&before),
                views == anchor_views(deltas@),
                n <= deltas@.len(),
                before.moved_views(before.views(), views, derivatives, n as int) == Ok::<
                    Seq<PriorView<R>>,
                    SolverError,
                >(self.views()),
            decreases deltas@.len() - n,
        {
            let anchor = &deltas[n];
            assert(views[n as int] == anchor@);
            assert(self.entries.lookup(anchor.prior) == before.entries.lookup(anchor.prior));
            let i: usize = match self.entries.index(anchor.prior) {
                Ok(i) => i,
                Err(error) => {
                    proof {
                        before.lemma_moved_refused(
                            before.views(),
                            views,
                            derivatives,
                            n + 1,
                            views.len() as int,
                        );
                    }
                    return Err(SolverError::Key(error));
                },
            };
            assert(self.views()[i as int] == self.entries.values@[i as int]@);
            let d: usize = anchor.delta.len();
            let cols: usize = self.entries.values[i].cols;
            let wide = match anchor.column.checked_add(d) {
                Some(end) => end <= cols,
                None => false,
            };
            let square = match d.checked_mul(d) {
                Some(size) => anchor.chart.len() == size,
                None => false,
            };
            assert(anchor.chart@.len() == anchor.chart.len());
            if !wide || (derivatives && !square) {
                proof {
                    before.lemma_moved_refused(
                        before.views(),
                        views,
                        derivatives,
                        n + 1,
                        views.len() as int,
                    );
                }
                return Err(SolverError::Evaluation(EvaluationError::DimensionMismatch));
            }
            let ghost was = *self;
            self.entries.values[i].apply(anchor, derivatives);
            proof {
                assert(self.views() =~= was.views().update(
                    i as int,
                    was.views()[i as int].with_anchor(anchor@, derivatives),
                ));
                assert forall|j: int| 0 <= j < self.views().len() implies {
                    &&& (#[trigger] self.views()[j]).blocks == before.views()[j].blocks
                    &&& self.views()[j].rows == before.views()[j].rows
                    &&& self.views()[j].cols == before.views()[j].cols
                    &&& self.views()[j].a == before.views()[j].a
                    &&& self.views()[j].b == before.views()[j].b
                } by {
                    assert(was.views()[j].blocks == before.views()[j].blocks);
                }
                assert forall|j: int| 0 <= j < self.entries.values@.len() implies (
                #[trigger] self.entries.values@[j])@.wf() by {
                    if j != i {
                        assert(self.entries.values@[j] == was.entries.values@[j]);
                    }
                }
            }
            n += 1;
        }
        Ok(())
    }

    /// What evaluating the chosen priors at the current estimates yields.
    pub open spec fn evaluated<S: StateSchema<Scalar = R>>(
        &self,
        states: S,
        derivatives: bool,
        selected: Option<Set<RawKey>>,
    ) -> Result<Seq<PriorView<R>>, SolverError> {
        match states.deltas_spec(selected, derivatives) {
            Err(error) => Err(error),
            Ok(deltas) => self.updated(deltas, derivatives, selected),
        }
    }

    /// Evaluate the chosen priors, and for derivatives their Jacobians, at the current
    /// estimates.
    pub fn update<S: StateSchema<Scalar = R>>(
        &mut self,
        states: &S,
        derivatives: bool,
        selected: Option<&KeySet>,
    ) -> (updated: Result<(), SolverError>)
        requires
            old(self).wf(),
            states.wf(),
            selected matches Some(priors) ==> priors.wf(),
        ensures
            final(self).wf(),
            final(self).same_priors(old(self)),
            match old(self).evaluated(*states, derivatives, selected_set(selected)) {
                Err(error) => updated == Err::<(), SolverError>(error),
                Ok(views) => updated is Ok && final(self).views() == views,
            },
    {
        let ghost set = selected_set(selected);
        let ghost before = *self;
        let deltas = match states.deltas(selected, derivatives) {
            Ok(deltas) => deltas,
            Err(error) => {
                return Err(error);
            },
        };
        self.reset(selected);
        let ghost begun = *self;
        proof {
            lemma_moved_same(
                &before,
                &begun,
                begun.views(),
                anchor_views(deltas@),
                derivatives,
                deltas@.len() as int,
            );
        }
        match self.move_all(deltas.as_slice(), derivatives) {
            Ok(_) => {},
            Err(error) => {
                return Err(error);
            },
        }
        let mut i: usize = 0;
        while i < self.entries.values.len()
            invariant
                self.wf(),
                self.same_priors(&before),
                before == *old(self),
                selected matches Some(priors) ==> priors.wf(),
                set == selected_set(selected),
                i <= self.entries.values@.len(),
                before.moved_views(
                    before.reset_views(set),
                    anchor_views(deltas@),
                    derivatives,
                    deltas@.len() as int,
                ) == Ok::<Seq<PriorView<R>>, SolverError>(self.views()),
                states.deltas_spec(set, derivatives) == Ok::<Seq<AnchorView<R>>, SolverError>(
                    anchor_views(deltas@),
                ),
                forall|j: int|
                    0 <= j < i && chosen(set, #[trigger] before.id(j))
                        ==> self.views()[j].evaluated(derivatives),
            decreases self.entries.values@.len() - i,
        {
            let raw = RawKey { pool: self.entries.id, local: self.entries.keys[i] };
            assert(raw == before.id(i as int));
            let prior = &self.entries.values[i];
            assert(self.views()[i as int] == prior@);
            if is_chosen(selected, raw) && (!finite_values(prior.residual.as_slice()) || (
            derivatives && !finite_values(prior.jacobian.as_slice()))) {
                assert(!self.views()[i as int].evaluated(derivatives));
                return Err(SolverError::Evaluation(EvaluationError::InvalidEvaluation));
            }
            i += 1;
        }
        Ok(())
    }
}

/// Where movements go depends on the stored identities alone.
proof fn lemma_moved_same<R: Real>(
    a: &Priors<R>,
    b: &Priors<R>,
    views: Seq<PriorView<R>>,
    deltas: Seq<AnchorView<R>>,
    derivatives: bool,
    n: int,
)
    requires
        b.same_priors(a),
    ensures
        a.moved_views(views, deltas, derivatives, n) == b.moved_views(
            views,
            deltas,
            derivatives,
            n,
        ),
    decreases n,
{
    if n > 0 {
        lemma_moved_same(a, b, views, deltas, derivatives, n - 1);
        assert(a.entries.lookup(deltas[n - 1].prior) == b.entries.lookup(deltas[n - 1].prior));
    }
}

/// Values that agree in everything that a residual depends on.
pub open spec fn same_residuals<R>(a: Seq<PriorView<R>>, b: Seq<PriorView<R>>) -> bool {
    &&& a.len() == b.len()
    &&& forall|i: int|
        0 <= i < a.len() ==> {
            &&& (#[trigger] a[i]).rows == b[i].rows
            &&& a[i].cols == b[i].cols
            &&& a[i].a == b[i].a
            &&& a[i].residual == b[i].residual
        }
}

proof fn lemma_moved_row_same<R: Real>(
    a: PriorView<R>,
    b: PriorView<R>,
    anchor: AnchorView<R>,
    row: int,
    n: int,
)
    requires
        a.rows == b.rows,
        a.a == b.a,
        a.residual == b.residual,
    ensures
        moved_row(a, anchor, row, n) == moved_row(b, anchor, row, n),
    decreases n,
{
    if n > 0 {
        lemma_moved_row_same(a, b, anchor, row, n - 1);
    }
}

proof fn lemma_moved_residuals<R: Real>(
    a: &Priors<R>,
    b: &Priors<R>,
    left: Seq<PriorView<R>>,
    right: Seq<PriorView<R>>,
    deltas: Seq<AnchorView<R>>,
    n: int,
)
    requires
        a.wf(),
        a.same_priors(b),
        left.len() == a.views().len(),
        same_residuals(left, right),
    ensures
        match (a.moved_views(left, deltas, false, n), b.moved_views(right, deltas, false, n)) {
            (Ok(x), Ok(y)) => x.len() == left.len() && same_residuals(x, y),
            (Err(x), Err(y)) => x == y,
            _ => false,
        },
    decreases n,
{
    if n > 0 {
        lemma_moved_residuals(a, b, left, right, deltas, n - 1);
        let anchor = deltas[n - 1];
        assert(a.entries.lookup(anchor.prior) == b.entries.lookup(anchor.prior));
        if let Ok(x) = a.moved_views(left, deltas, false, n - 1) {
            let y = b.moved_views(right, deltas, false, n - 1)->Ok_0;
            if let Ok(i) = a.entries.lookup(anchor.prior) {
                assert(0 <= i < x.len());
                let p = x[i].with_anchor(anchor, false);
                let q = y[i].with_anchor(anchor, false);
                assert(p.residual =~= q.residual) by {
                    assert forall|row: int| 0 <= row < p.residual.len() implies (
                    #[trigger] p.residual[row]) == q.residual[row] by {
                        lemma_moved_row_same(
                            x[i],
                            y[i],
                            anchor,
                            row,
                            anchor.delta.len() as int,
                        );
                    }
                }
                assert(same_residuals(x.update(i, p), y.update(i, q)));
            }
        }
    }
}

proof fn lemma_half_squares_same<R: Real>(a: PriorView<R>, b: PriorView<R>, total: R, n: int)
    requires
        a.residual == b.residual,
    ensures
        a.half_squares(total, n) == b.half_squares(total, n),
    decreases n,
{
    if n > 0 {
        lemma_half_squares_same(a, b, total, n - 1);
    }
}

proof fn lemma_squares_same<R: Real>(a: Seq<PriorView<R>>, b: Seq<PriorView<R>>, n: int)
    requires
        same_residuals(a, b),
        n <= a.len(),
    ensures
        prior_squares(a, n) == prior_squares(b, n),
    decreases n,
{
    if n > 0 {
        lemma_squares_same(a, b, n - 1);
        assert(a[n - 1].rows == b[n - 1].rows);
        lemma_half_squares_same(a[n - 1], b[n - 1], prior_squares(a, n - 1), a[n - 1].rows as int);
    }
}

/// What was evaluated before does not enter the cost of priors.
pub proof fn lemma_cost_same<S: StateSchema>(
    a: &Priors<S::Scalar>,
    b: &Priors<S::Scalar>,
    x: S,
    y: S,
)
    requires
        a.wf(),
        b.wf(),
        a.same_priors(b),
        x.deltas_spec(None, false) == y.deltas_spec(None, false),
    ensures
        a.cost_spec(x) == b.cost_spec(y),
{
    if let Ok(deltas) = x.deltas_spec(None, false) {
        let left = a.reset_views(None);
        let right = b.reset_views(None);
        assert forall|i: int| 0 <= i < left.len() implies {
            &&& (#[trigger] left[i]).rows == right[i].rows
            &&& left[i].cols == right[i].cols
            &&& left[i].a == right[i].a
            &&& left[i].residual == right[i].residual
        } by {
            assert(a.views()[i].rows == b.views()[i].rows);
        }
        lemma_moved_residuals(a, b, left, right, deltas, deltas.len() as int);
        let after = a.moved_views(left, deltas, false, deltas.len() as int);
        let same = b.moved_views(right, deltas, false, deltas.len() as int);
        if let (Ok(p), Ok(q)) = (after, same) {
            assert(a.all_evaluated(p, None, false) == b.all_evaluated(q, None, false)) by {
                assert forall|i: int|
                    0 <= i < p.len() implies #[trigger] a.id(i) == b.id(i) && (p[i].evaluated(false)
                    == q[i].evaluated(false)) by {
                    assert(p[i].residual == q[i].residual);
                }
                if a.all_evaluated(p, None, false) {
                    assert forall|i: int|
                        0 <= i < q.len() && chosen(
                            None,
                            #[trigger] b.id(i),
                        ) implies q[i].evaluated(false) by {
                        assert(a.id(i) == b.id(i));
                    }
                }
                if b.all_evaluated(q, None, false) {
                    assert forall|i: int|
                        0 <= i < p.len() && chosen(
                            None,
                            #[trigger] a.id(i),
                        ) implies p[i].evaluated(false) by {
                        assert(a.id(i) == b.id(i));
                    }
                }
            }
            lemma_squares_same(p, q, p.len() as int);
        }
    }
}

/// Half the squares of all residual coordinates of the first `n` priors.
pub open spec fn prior_squares<R: Real>(views: Seq<PriorView<R>>, n: int) -> R
    decreases n,
{
    if n <= 0 {
        R::zero_spec()
    } else {
        views[n - 1].half_squares(prior_squares(views, n - 1), views[n - 1].rows as int)
    }
}

/// Columns of the first `n` variables of a prior; each must have coordinates as wide as
/// its share.
pub open spec fn prior_columns<R>(layout: &Layout, prior: PriorView<R>, n: int) -> Result<
    Seq<usize>,
    EvaluationError,
>
    decreases n,
{
    if n <= 0 {
        Ok(Seq::empty())
    } else {
        match prior_columns(layout, prior, n - 1) {
            Err(error) => Err(error),
            Ok(columns) => {
                let block = prior.blocks[n - 1];
                let position = layout.block_index@[block.id.raw] as int;
                if !layout.block_index@.contains_key(block.id.raw) {
                    Err(EvaluationError::InvalidEmission)
                } else if layout.blocks@[position].width != block.len {
                    Err(EvaluationError::DimensionMismatch)
                } else {
                    Ok(columns.push(layout.blocks@[position].offset))
                }
            },
        }
    }
}

/// A model after the rows of one prior.
pub open spec fn prior_step<B: LeastSquaresBackend>(
    layout: &Layout,
    model: B::Model,
    prior: PriorView<B::Scalar>,
) -> Result<B::Model, EvaluationError> {
    match prior_columns(layout, prior, prior.blocks.len() as int) {
        Err(error) => Err(error),
        Ok(columns) => B::extended_spec(model, prior.residual, prior.shares(), columns),
    }
}

impl<R: Real> Priors<R> {
    /// A model after the rows of the chosen ones among the first `n` priors.
    pub open spec fn rows_run<B: LeastSquaresBackend<Scalar = R>>(
        &self,
        layout: &Layout,
        model: B::Model,
        views: Seq<PriorView<R>>,
        selected: Option<Set<RawKey>>,
        n: int,
    ) -> Result<B::Model, EvaluationError>
        decreases n,
    {
        if n <= 0 {
            Ok(model)
        } else {
            match self.rows_run::<B>(layout, model, views, selected, n - 1) {
                Err(error) => Err(error),
                Ok(before) => if chosen(selected, self.id(n - 1)) {
                    prior_step::<B>(layout, before, views[n - 1])
                } else {
                    Ok(before)
                },
            }
        }
    }

    proof fn lemma_rows_refused<B: LeastSquaresBackend<Scalar = R>>(
        &self,
        layout: &Layout,
        model: B::Model,
        views: Seq<PriorView<R>>,
        selected: Option<Set<RawKey>>,
        n: int,
        m: int,
    )
        requires
            0 <= n <= m,
            self.rows_run::<B>(layout, model, views, selected, n) is Err,
        ensures
            self.rows_run::<B>(layout, model, views, selected, m) == self.rows_run::<B>(
                layout,
                model,
                views,
                selected,
                n,
            ),
        decreases m,
    {
        if n < m {
            self.lemma_rows_refused::<B>(layout, model, views, selected, n, m - 1);
        }
    }

    /// Cost of all priors at the current estimates, without the constant.
    pub open spec fn cost_spec<S: StateSchema<Scalar = R>>(&self, states: S) -> Result<
        R,
        SolverError,
    > {
        match self.evaluated(states, false, None) {
            Err(error) => Err(error),
            Ok(views) => checked_cost_spec(Ok(prior_squares(views, views.len() as int))),
        }
    }

    /// Evaluate the cost of all priors at the current estimates, without the constant.
    pub fn cost<S: StateSchema<Scalar = R>>(&mut self, states: &S) -> (cost: Result<
        R,
        SolverError,
    >)
        requires
            old(self).wf(),
            states.wf(),
        ensures
            final(self).wf(),
            final(self).same_priors(old(self)),
            cost == old(self).cost_spec(*states),
    {
        match self.update(states, false, None) {
            Ok(_) => {},
            Err(error) => {
                return Err(error);
            },
        }
        let half = R::ratio(1, 2);
        let ghost views = self.views();
        let mut total = R::zero();
        let mut i: usize = 0;
        while i < self.entries.values.len()
            invariant
                self.wf(),
                views == self.views(),
                half == R::ratio_spec(1, 2),
                i <= self.entries.values@.len(),
                total == prior_squares(views, i as int),
            decreases self.entries.values@.len() - i,
        {
            let prior = &self.entries.values[i];
            assert(views[i as int] == prior@);
            let ghost before = total;
            let mut row: usize = 0;
            while row < prior.residual.len()
                invariant
                    half == R::ratio_spec(1, 2),
                    row <= prior.residual@.len(),
                    total == prior@.half_squares(before, row as int),
                decreases prior.residual@.len() - row,
            {
                let r = prior.residual[row];
                total = total.plus(half.times(r).times(r));
                row += 1;
            }
            i += 1;
        }
        checked_cost(Ok(total))
    }

    /// Add the rows of the chosen priors, linearized at the current estimates.
    pub fn linearize<S: StateSchema<Scalar = R>, B: LeastSquaresBackend<Scalar = R>>(
        &mut self,
        states: &S,
        backend: &mut B,
        layout: &Layout,
        selected: Option<&KeySet>,
    ) -> (added: Result<(), SolverError>)
        requires
            old(self).wf(),
            states.wf(),
            layout.wf(),
            selected matches Some(priors) ==> priors.wf(),
            old(backend).wf(),
            old(backend).dimension() == layout.dimension,
        ensures
            final(self).wf(),
            final(self).same_priors(old(self)),
            final(backend).wf(),
            final(backend).dimension() == layout.dimension,
            final(backend).shape() == old(backend).shape(),
            assembled(*old(backend)) ==> assembled(*final(backend)),
            match old(self).evaluated(*states, true, selected_set(selected)) {
                Err(error) => {
                    &&& added == Err::<(), SolverError>(error)
                    &&& final(backend).model() == old(backend).model()
                },
                Ok(views) => match old(self).rows_run::<B>(
                    layout,
                    old(backend).model(),
                    views,
                    selected_set(selected),
                    views.len() as int,
                ) {
                    Err(error) => added == Err::<(), SolverError>(SolverError::Evaluation(error)),
                    Ok(model) => added is Ok && final(backend).model() == model,
                },
            },
    {
        match self.update(states, true, selected) {
            Ok(_) => {},
            Err(error) => {
                return Err(error);
            },
        }
        let ghost set = selected_set(selected);
        let ghost views = self.views();
        let mut i: usize = 0;
        while i < self.entries.values.len()
            invariant
                self.wf(),
                self.same_priors(old(self)),
                layout.wf(),
                selected matches Some(priors) ==> priors.wf(),
                set == selected_set(selected),
                views == self.views(),
                old(self).evaluated(*states, true, set) == Ok::<Seq<PriorView<R>>, SolverError>(
                    views,
                ),
                i <= self.entries.values@.len(),
                backend.wf(),
                backend.dimension() == layout.dimension,
                backend.shape() == old(backend).shape(),
                assembled(*old(backend)) ==> assembled(*backend),
                old(self).rows_run::<B>(layout, old(backend).model(), views, set, i as int)
                    == Ok::<B::Model, EvaluationError>(backend.model()),
            decreases self.entries.values@.len() - i,
        {
            let raw = RawKey { pool: self.entries.id, local: self.entries.keys[i] };
            assert(raw == old(self).id(i as int));
            assert(views[i as int] == self.entries.values@[i as int]@);
            if is_chosen(selected, raw) {
                match self.entries.values[i].emit(backend, layout) {
                    Ok(_) => {},
                    Err(error) => {
                        proof {
                            old(self).lemma_rows_refused::<B>(
                                layout,
                                old(backend).model(),
                                views,
                                set,
                                i + 1,
                                views.len() as int,
                            );
                        }
                        return Err(SolverError::Evaluation(error));
                    },
                }
            }
            i += 1;
        }
        Ok(())
    }
}

proof fn lemma_prior_columns_refused<R>(layout: &Layout, prior: PriorView<R>, n: int, m: int)
    requires
        0 <= n <= m,
        prior_columns(layout, prior, n) is Err,
    ensures
        prior_columns(layout, prior, m) == prior_columns(layout, prior, n),
    decreases m,
{
    if n < m {
        lemma_prior_columns_refused(layout, prior, n, m - 1);
    }
}

impl<R: Real> Prior<R> {
    /// One variable's share of the Jacobian.
    fn share(&self, i: usize) -> (block: JacobianBlock<R>)
        requires
            self@.wf(),
            i < self.blocks@.len(),
        ensures
            block@ == self@.block(i as int),
            block@.wf(),
    {
        let block = self.blocks[i];
        assert(self@.blocks[i as int].start + block.len <= self.cols);
        proof {
            let rows = self.rows as int;
            assert(block.start * rows <= (block.start + block.len) * rows <= rows * self.cols
                && (block.start + block.len) * rows - block.start * rows == rows * block.len
                && 0 <= block.start * rows) by (nonlinear_arith)
                requires
                    block.start + block.len <= self.cols,
                    rows >= 0,
                    rows == self.rows,
            ;
            assert(self.jacobian@.len() == self.jacobian.len());
        }
        let start: usize = block.start * self.rows;
        let end: usize = (block.start + block.len) * self.rows;
        let mut values: Vec<R> = Vec::new();
        let mut k: usize = start;
        while k < end
            invariant
                start <= k <= end <= self.jacobian@.len(),
                values@ == self.jacobian@.subrange(start as int, k as int),
            decreases end - k,
        {
            values.push(self.jacobian[k]);
            k += 1;
            assert(values@ =~= self.jacobian@.subrange(start as int, k as int));
        }
        JacobianBlock { variable: block.id, rows: self.rows, cols: block.len, values }
    }

    /// Hand the rows of this prior to a backend.
    fn emit<B: LeastSquaresBackend<Scalar = R>>(&self, backend: &mut B, layout: &Layout) -> (added:
        Result<(), EvaluationError>)
        requires
            self@.wf(),
            layout.wf(),
            old(backend).wf(),
            old(backend).dimension() == layout.dimension,
        ensures
            final(backend).wf(),
            final(backend).dimension() == layout.dimension,
            final(backend).shape() == old(backend).shape(),
            assembled(*old(backend)) ==> assembled(*final(backend)),
            match prior_step::<B>(layout, old(backend).model(), self@) {
                Err(error) => added == Err::<(), EvaluationError>(error),
                Ok(model) => added is Ok && final(backend).model() == model,
            },
    {
        let mut blocks: Vec<JacobianBlock<R>> = Vec::new();
        let mut columns: Vec<usize> = Vec::new();
        let mut i: usize = 0;
        while i < self.blocks.len()
            invariant
                self@.wf(),
                layout.wf(),
                *backend == *old(backend),
                old(backend).wf(),
                old(backend).dimension() == layout.dimension,
                i <= self.blocks@.len(),
                blocks@.len() == i,
                columns@.len() == i,
                prior_columns(layout, self@, i as int) == Ok::<Seq<usize>, EvaluationError>(
                    columns@,
                ),
                forall|j: int|
                    0 <= j < i ==> {
                        &&& (#[trigger] blocks@[j])@ == self@.block(j)
                        &&& blocks@[j]@.wf()
                        &&& columns@[j] + blocks@[j]@.cols <= layout.dimension
                    },
            decreases self.blocks@.len() - i,
        {
            let block = self.blocks[i];
            assert(self@.blocks[i as int] == block);
            match layout.block_index.get(block.id.raw) {
                None => {
                    proof {
                        lemma_prior_columns_refused(
                            layout,
                            self@,
                            i + 1,
                            self.blocks@.len() as int,
                        );
                    }
                    return Err(EvaluationError::InvalidEmission);
                },
                Some(position) => {
                    if layout.blocks[position].width != block.len {
                        proof {
                            lemma_prior_columns_refused(
                                layout,
                                self@,
                                i + 1,
                                self.blocks@.len() as int,
                            );
                        }
                        return Err(EvaluationError::DimensionMismatch);
                    }
                    proof {
                        layout.lemma_within(position as int);
                    }
                    columns.push(layout.blocks[position].offset);
                    blocks.push(self.share(i));
                },
            }
            i += 1;
        }
        proof {
            assert(block_views(blocks@) =~= self@.shares());
            assert(self.residual@.len() == self.residual.len());
            assert forall|k: int| 0 <= k < self@.shares().len() implies {
                &&& (#[trigger] self@.shares()[k]).wf()
                &&& self@.shares()[k].rows == self.residual@.len()
                &&& columns@[k] + self@.shares()[k].cols <= layout.dimension
            } by {
                assert(blocks@[k]@ == self@.block(k));
            }
        }
        backend.accumulate(self.residual.as_slice(), blocks.as_slice(), columns.as_slice())
    }
}

} // verus!
