//! Checks of emitted rows against the graph, before a backend sees them.
use crate::backend::{admissible, all_finite, assembled, finite_values, LeastSquaresBackend};
use crate::error::EvaluationError;
use crate::factors::Emission;
use crate::key::{BlockId, FactorId};
use crate::layout::Layout;
use crate::linearization::{
    block_views, BlockView, EventView, JacobianBlock, LinearizationSink, Replies,
};
use crate::optimization::Workspace;
use crate::scalar::Real;
use vstd::prelude::*;

verus! {

/// Whether one of the first `n` blocks differentiates a variable.
pub open spec fn names<R>(blocks: Seq<BlockView<R>>, n: int, variable: BlockId) -> bool {
    exists|j: int| 0 <= j < n && (#[trigger] blocks[j]).variable == variable
}

proof fn lemma_names_step<R>(blocks: Seq<BlockView<R>>, n: int, variable: BlockId)
    requires
        0 <= n < blocks.len(),
    ensures
        names(blocks, n + 1, variable) <==> names(blocks, n, variable) || blocks[n].variable
            == variable,
{
    if names(blocks, n, variable) {
        let j = choose|j: int| 0 <= j < n && (#[trigger] blocks[j]).variable == variable;
        assert(0 <= j < n + 1 && blocks[j].variable == variable);
    }
    if blocks[n].variable == variable {
        assert(0 <= n < n + 1 && blocks[n].variable == variable);
    }
}

/// What block `k` of an emission of factor `f` is worth: its first column, or why it
/// is refused.
///
/// A block must differentiate a variable that the factor declared, no other block of
/// the emission may name the same variable, and its shape and coefficients must fit.
pub open spec fn block_check<R: Real>(
    layout: &Layout,
    f: int,
    rows: nat,
    blocks: Seq<BlockView<R>>,
    k: int,
) -> Result<usize, EvaluationError> {
    let raw = blocks[k].variable.raw;
    let position = layout.block_index@[raw];
    if !layout.block_index@.contains_key(raw) || !layout.deps(f).contains(position) {
        Err(EvaluationError::InvalidEmission)
    } else if names(blocks, k, blocks[k].variable) {
        Err(EvaluationError::InvalidEmission)
    } else if blocks[k].rows != rows || blocks[k].cols != layout.blocks@[position as int].width
        || !blocks[k].wf() {
        Err(EvaluationError::DimensionMismatch)
    } else if !all_finite(blocks[k].values) {
        Err(EvaluationError::InvalidEvaluation)
    } else {
        Ok(layout.blocks@[position as int].offset)
    }
}

/// The columns of the first `n` blocks of an emission; the first refusal stands.
pub open spec fn columns_check<R: Real>(
    layout: &Layout,
    f: int,
    rows: nat,
    blocks: Seq<BlockView<R>>,
    n: int,
) -> Result<Seq<usize>, EvaluationError>
    decreases n,
{
    if n <= 0 {
        Ok(Seq::empty())
    } else {
        match columns_check(layout, f, rows, blocks, n - 1) {
            Err(error) => Err(error),
            Ok(columns) => match block_check(layout, f, rows, blocks, n - 1) {
                Err(error) => Err(error),
                Ok(column) => Ok(columns.push(column)),
            },
        }
    }
}

/// What an emission of factor `f` is worth: one column per block, or why it is refused.
pub open spec fn emission_check<R: Real>(
    layout: &Layout,
    f: int,
    residual: Seq<R>,
    blocks: Seq<BlockView<R>>,
) -> Result<Seq<usize>, EvaluationError> {
    if blocks.len() > layout.deps(f).len() {
        Err(EvaluationError::InvalidEmission)
    } else if !all_finite(residual) {
        Err(EvaluationError::InvalidEvaluation)
    } else {
        columns_check(layout, f, residual.len(), blocks, blocks.len() as int)
    }
}

/// Every block of an accepted emission was accepted, at the column listed for it.
proof fn lemma_columns_listed<R: Real>(
    layout: &Layout,
    f: int,
    rows: nat,
    blocks: Seq<BlockView<R>>,
    n: int,
)
    requires
        0 <= n,
        columns_check(layout, f, rows, blocks, n) is Ok,
    ensures
        columns_check(layout, f, rows, blocks, n)->Ok_0.len() == n,
        forall|k: int|
            0 <= k < n ==> #[trigger] block_check(layout, f, rows, blocks, k) == Ok::<
                usize,
                EvaluationError,
            >(columns_check(layout, f, rows, blocks, n)->Ok_0[k]),
    decreases n,
{
    if n > 0 {
        lemma_columns_listed(layout, f, rows, blocks, n - 1);
    }
}

/// An accepted block fits the coordinates.
proof fn lemma_block_fits<R: Real>(
    layout: &Layout,
    f: int,
    rows: nat,
    blocks: Seq<BlockView<R>>,
    k: int,
)
    requires
        layout.blocks_wf(),
        block_check(layout, f, rows, blocks, k) is Ok,
    ensures
        blocks[k].wf(),
        blocks[k].rows == rows,
        block_check(layout, f, rows, blocks, k)->Ok_0 + blocks[k].cols <= layout.dimension,
{
    let raw = blocks[k].variable.raw;
    assert(layout.block_index@.contains_key(raw));
    layout.lemma_within(layout.block_index@[raw] as int);
}

/// Accepted emissions fit the coordinates.
proof fn lemma_columns_admissible<R: Real>(
    layout: &Layout,
    f: int,
    residual: Seq<R>,
    blocks: Seq<BlockView<R>>,
)
    requires
        layout.wf(),
        residual.len() <= usize::MAX,
        emission_check(layout, f, residual, blocks) is Ok,
    ensures
        admissible(
            layout.dimension as nat,
            residual,
            blocks,
            emission_check(layout, f, residual, blocks)->Ok_0,
        ),
{
    lemma_columns_listed(layout, f, residual.len(), blocks, blocks.len() as int);
    let columns = emission_check(layout, f, residual, blocks)->Ok_0;
    assert forall|k: int| 0 <= k < blocks.len() implies {
        &&& (#[trigger] blocks[k]).wf()
        &&& blocks[k].rows == residual.len()
        &&& columns[k] + blocks[k].cols <= layout.dimension
    } by {
        assert(block_check(layout, f, residual.len(), blocks, k) == Ok::<usize, EvaluationError>(
            columns[k],
        ));
        lemma_block_fits(layout, f, residual.len(), blocks, k);
    }
}

/// Progress through the scopes and rows that evaluators emit.
pub struct CheckedSink {
    pub seen: Vec<bool>,
    pub marks: Vec<usize>,
    pub columns: Vec<usize>,
    pub emission: usize,
    pub allowed_start: usize,
    pub allowed_end: usize,
    pub next_expected: usize,
    pub active: Option<usize>,
    /// The solver opened the scope; the evaluator must neither close it nor open another.
    pub scoped: bool,
    /// Something was refused.
    pub failed: bool,
}

impl CheckedSink {
    /// One flag per factor and one mark per block; no mark is newer than the last
    /// emission.
    pub open spec fn wf(&self, layout: &Layout) -> bool {
        &&& layout.wf()
        &&& self.seen@.len() == layout.factors@.len()
        &&& self.marks@.len() == layout.blocks@.len()
        &&& forall|b: int| 0 <= b < self.marks@.len() ==> #[trigger] self.marks@[b] <= self.emission
        &&& self.allowed_start <= self.allowed_end <= layout.factors@.len()
        &&& self.active matches Some(f) ==> f < layout.factors@.len()
    }

    /// The factors that may be emitted now.
    pub open spec fn window(&self) -> Window {
        Window { start: self.allowed_start as int, end: self.allowed_end as int }
    }

    /// The same factors may be emitted, in the same way.
    pub open spec fn same_window(&self, other: &Self) -> bool {
        &&& self.allowed_start == other.allowed_start
        &&& self.allowed_end == other.allowed_end
        &&& self.scoped == other.scoped
    }

    /// A sink for a layout, with nothing seen and nothing allowed yet.
    pub fn new(layout: &Layout) -> (sink: Self)
        requires
            layout.wf(),
        ensures
            sink.wf(layout),
            sink.active is None,
            forall|f: int| 0 <= f < sink.seen@.len() ==> !#[trigger] sink.seen@[f],
            sink.allowed_start == 0,
            sink.allowed_end == 0,
            !sink.scoped,
            !sink.failed,
    {
        let mut seen: Vec<bool> = Vec::new();
        let mut marks: Vec<usize> = Vec::new();
        while seen.len() < layout.factors.len()
            invariant
                seen@.len() <= layout.factors@.len(),
                forall|f: int| 0 <= f < seen@.len() ==> !#[trigger] seen@[f],
            decreases layout.factors@.len() - seen@.len(),
        {
            seen.push(false);
        }
        while marks.len() < layout.blocks.len()
            invariant
                marks@.len() <= layout.blocks@.len(),
                forall|b: int| 0 <= b < marks@.len() ==> #[trigger] marks@[b] == 0,
            decreases layout.blocks@.len() - marks@.len(),
        {
            marks.push(0);
        }
        CheckedSink {
            seen,
            marks,
            columns: Vec::new(),
            emission: 0,
            allowed_start: 0,
            allowed_end: 0,
            next_expected: 0,
            active: None,
            scoped: false,
            failed: false,
        }
    }

    /// Let the factors planned at the given positions be emitted next, in a scope that the
    /// solver opens or in scopes of their own.
    pub fn allow(&mut self, layout: &Layout, start: usize, end: usize, scoped: bool)
        requires
            old(self).wf(layout),
            start <= end <= layout.factors@.len(),
        ensures
            final(self).wf(layout),
            final(self).allowed_start == start,
            final(self).allowed_end == end,
            final(self).scoped == scoped,
            final(self).seen == old(self).seen,
            final(self).active == old(self).active,
            final(self).failed == old(self).failed,
    {
        self.allowed_start = start;
        self.allowed_end = end;
        self.next_expected = start;
        self.scoped = scoped;
    }

    /// Find the factor whose scope may be opened: an allowed one not emitted before, outside
    /// any other scope.
    fn openable(&mut self, layout: &Layout, id: FactorId) -> (found: Option<usize>)
        requires
            old(self).wf(layout),
        ensures
            final(self).wf(layout),
            final(self).same_window(old(self)),
            final(self).seen == old(self).seen,
            final(self).active == old(self).active,
            final(self).failed == old(self).failed,
            found == opened(layout, old(self).window(), old(self).seen@, old(self).active, id),
    {
        if self.active.is_some() {
            return None;
        }
        // Most evaluators emit in selection order, which needs no lookup.
        let f: usize = if self.next_expected < self.allowed_end
            && layout.factors[self.next_expected].id == id {
            let f: usize = self.next_expected;
            self.next_expected = f + 1;
            f
        } else {
            match layout.factor_index.get(id.raw) {
                Some(f) => f,
                None => {
                    return None;
                },
            }
        };
        assert(layout.factor_index@[id.raw] == f);
        if f < self.allowed_start || f >= self.allowed_end || self.seen[f] {
            return None;
        }
        Some(f)
    }

    /// Open the scope of one factor.
    pub fn open(&mut self, layout: &Layout, id: FactorId) -> (reply: Result<(), EvaluationError>)
        requires
            old(self).wf(layout),
        ensures
            final(self).wf(layout),
            final(self).same_window(old(self)),
            match opened(layout, old(self).window(), old(self).seen@, old(self).active, id) {
                Some(f) => {
                    &&& reply == Ok::<(), EvaluationError>(())
                    &&& final(self).active == Some(f)
                    &&& final(self).seen@ == old(self).seen@.update(f as int, true)
                    &&& final(self).failed == old(self).failed
                },
                None => {
                    &&& reply == Err::<(), EvaluationError>(EvaluationError::InvalidEmission)
                    &&& final(self).active == old(self).active
                    &&& final(self).seen@ == old(self).seen@
                    &&& final(self).failed
                },
            },
    {
        match self.openable(layout, id) {
            Some(f) => {
                self.seen.set(f, true);
                self.active = Some(f);
                Ok(())
            },
            None => {
                self.failed = true;
                Err(EvaluationError::InvalidEmission)
            },
        }
    }

    /// Close the current scope with the result of what was emitted inside.
    pub fn close(&mut self, layout: &Layout, result: Result<(), EvaluationError>) -> (reply: Result<
        (),
        EvaluationError,
    >)
        requires
            old(self).wf(layout),
        ensures
            final(self).wf(layout),
            final(self).same_window(old(self)),
            final(self).seen@ == old(self).seen@,
            if old(self).scoped || old(self).active is None {
                &&& reply == Err::<(), EvaluationError>(EvaluationError::InvalidEmission)
                &&& final(self).active == old(self).active
                &&& final(self).failed
            } else {
                &&& reply == result
                &&& final(self).active is None
                &&& final(self).failed == (old(self).failed || result is Err)
            },
    {
        if self.scoped || self.active.is_none() {
            self.failed = true;
            return Err(EvaluationError::InvalidEmission);
        }
        self.active = None;
        if result.is_err() {
            self.failed = true;
        }
        result
    }
}

impl CheckedSink {
    /// Give the next emission a number that no mark carries.
    fn next_emission(&mut self, layout: &Layout)
        requires
            old(self).wf(layout),
        ensures
            final(self).wf(layout),
            final(self).seen == old(self).seen,
            final(self).active == old(self).active,
            final(self).same_window(old(self)),
            final(self).failed == old(self).failed,
            forall|b: int|
                0 <= b < final(self).marks@.len() ==> #[trigger] final(self).marks@[b]
                    < final(self).emission,
    {
        match self.emission.checked_add(1) {
            Some(emission) => {
                self.emission = emission;
            },
            None => {
                let mut b: usize = 0;
                while b < self.marks.len()
                    invariant
                        b <= self.marks@.len(),
                        self.marks@.len() == old(self).marks@.len(),
                        self.seen == old(self).seen,
                        self.active == old(self).active,
                        self.same_window(old(self)),
                        self.failed == old(self).failed,
                        forall|c: int| 0 <= c < b ==> #[trigger] self.marks@[c] == 0,
                    decreases self.marks@.len() - b,
                {
                    self.marks.set(b, 0);
                    b += 1;
                }
                self.emission = 1;
            },
        }
    }

    /// Blocks marked with the current emission are those that its first `k` blocks name.
    pub open spec fn marks_first<R>(&self, layout: &Layout, blocks: Seq<BlockView<R>>, k: int)
        -> bool {
        forall|b: int|
            0 <= b < self.marks@.len() ==> (#[trigger] self.marks@[b] == self.emission <==> names(
                blocks,
                k,
                layout.blocks@[b].id,
            ))
    }

    /// Resolve the column of block `k` of an emission, and mark its variable.
    fn check_block<R: Real>(
        &mut self,
        layout: &Layout,
        f: usize,
        rows: usize,
        blocks: &[JacobianBlock<R>],
        k: usize,
    ) -> (checked: Result<usize, EvaluationError>)
        requires
            old(self).wf(layout),
            f < layout.factors@.len(),
            k < blocks@.len() <= layout.deps(f as int).len(),
            old(self).marks_first(layout, block_views(blocks@), k as int),
        ensures
            final(self).wf(layout),
            final(self).seen == old(self).seen,
            final(self).columns == old(self).columns,
            final(self).active == old(self).active,
            final(self).same_window(old(self)),
            final(self).failed == old(self).failed,
            checked == block_check(layout, f as int, rows as nat, block_views(blocks@), k as int),
            checked is Ok ==> final(self).marks_first(layout, block_views(blocks@), k + 1),
    {
        let ghost views = block_views(blocks@);
        let ghost deps = layout.deps(f as int);
        let plan = layout.factors[f];
        let block = &blocks[k];
        assert(views[k as int] == block@);
        let id = block.variable;
        // Jacobians usually follow the declared order, which needs no lookup.
        let expected: usize = layout.dependencies[plan.start + k];
        assert(deps[k as int] == expected);
        let position: usize = if layout.blocks[expected].id == id {
            assert(layout.block_index@[id.raw] == expected);
            assert(deps.contains(expected));
            expected
        } else {
            match layout.block_index.get(id.raw) {
                None => {
                    return Err(EvaluationError::InvalidEmission);
                },
                Some(position) => {
                    if !Self::declared(layout, f, position) {
                        return Err(EvaluationError::InvalidEmission);
                    }
                    position
                },
            }
        };
        assert(layout.blocks@[position as int].id == id);
        if self.marks[position] == self.emission {
            assert(names(views, k as int, id));
            return Err(EvaluationError::InvalidEmission);
        }
        assert(!names(views, k as int, id));
        let ghost marked = self.marks@;
        self.marks.set(position, self.emission);
        let width: usize = layout.blocks[position].width;
        let fits = match rows.checked_mul(width) {
            Some(size) => block.values.len() == size,
            None => false,
        };
        assert(block.values@.len() == block.values.len());
        if block.rows != rows || block.cols != width || !fits {
            return Err(EvaluationError::DimensionMismatch);
        }
        if !finite_values(block.values.as_slice()) {
            return Err(EvaluationError::InvalidEvaluation);
        }
        proof {
            assert forall|b: int|
                0 <= b < self.marks@.len() implies (#[trigger] self.marks@[b] == self.emission
                <==> names(views, k + 1, layout.blocks@[b].id)) by {
                let other = layout.blocks@[b].id;
                lemma_names_step(views, k as int, other);
                if b != position {
                    assert(self.marks@[b] == marked[b]);
                    if other == id {
                        assert(layout.block_index@[id.raw] == b);
                    }
                }
            }
        }
        Ok(layout.blocks[position].offset)
    }

    /// Resolve the columns of an emission of the active factor.
    fn check_emission<R: Real>(
        &mut self,
        layout: &Layout,
        f: usize,
        residual: &[R],
        blocks: &[JacobianBlock<R>],
    ) -> (checked: Result<(), EvaluationError>)
        requires
            old(self).wf(layout),
            f < layout.factors@.len(),
        ensures
            final(self).wf(layout),
            final(self).seen == old(self).seen,
            final(self).active == old(self).active,
            final(self).same_window(old(self)),
            final(self).failed == old(self).failed,
            match checked {
                Ok(_) => emission_check(layout, f as int, residual@, block_views(blocks@)) == Ok::<
                    Seq<usize>,
                    EvaluationError,
                >(final(self).columns@),
                Err(error) => emission_check(layout, f as int, residual@, block_views(blocks@))
                    == Err::<Seq<usize>, EvaluationError>(error),
            },
    {
        let plan = layout.factors[f];
        let count: usize = plan.end - plan.start;
        let ghost views = block_views(blocks@);
        if blocks.len() > count {
            return Err(EvaluationError::InvalidEmission);
        }
        if !finite_values(residual) {
            return Err(EvaluationError::InvalidEvaluation);
        }
        self.next_emission(layout);
        self.columns.clear();
        let rows: usize = residual.len();
        let mut k: usize = 0;
        while k < blocks.len()
            invariant
                f < layout.factors@.len(),
                blocks@.len() <= layout.deps(f as int).len(),
                views == block_views(blocks@),
                rows == residual@.len(),
                all_finite(residual@),
                k <= blocks@.len(),
                self.wf(layout),
                self.seen == old(self).seen,
                self.active == old(self).active,
                self.same_window(old(self)),
                self.failed == old(self).failed,
                columns_check(layout, f as int, rows as nat, views, k as int) == Ok::<
                    Seq<usize>,
                    EvaluationError,
                >(self.columns@),
                self.marks_first(layout, views, k as int),
            decreases blocks@.len() - k,
        {
            match self.check_block(layout, f, rows, blocks, k) {
                Ok(column) => {
                    self.columns.push(column);
                },
                Err(error) => {
                    proof {
                        lemma_refusal_stands(
                            layout,
                            f as int,
                            rows as nat,
                            views,
                            k + 1,
                            views.len() as int,
                        );
                    }
                    return Err(error);
                },
            }
            k += 1;
        }
        Ok(())
    }

    /// Whether a factor declared the variable at a position.
    fn declared(layout: &Layout, f: usize, position: usize) -> (declared: bool)
        requires
            layout.wf(),
            f < layout.factors@.len(),
        ensures
            declared == layout.deps(f as int).contains(position),
    {
        let plan = layout.factors[f];
        let mut d: usize = plan.start;
        while d < plan.end
            invariant
                layout.wf(),
                f < layout.factors@.len(),
                plan == layout.factors@[f as int],
                plan.start <= d <= plan.end,
                forall|c: int|
                    0 <= c < d - plan.start ==> #[trigger] layout.deps(f as int)[c] != position,
            decreases plan.end - d,
        {
            assert(layout.deps(f as int)[d - plan.start] == layout.dependencies@[d as int]);
            if layout.dependencies[d] == position {
                return true;
            }
            d += 1;
        }
        false
    }
}

/// A refused block refuses the emission, whatever follows it.
proof fn lemma_refusal_stands<R: Real>(
    layout: &Layout,
    f: int,
    rows: nat,
    blocks: Seq<BlockView<R>>,
    n: int,
    m: int,
)
    requires
        0 <= n <= m,
        columns_check(layout, f, rows, blocks, n) is Err,
    ensures
        columns_check(layout, f, rows, blocks, m) == columns_check(layout, f, rows, blocks, n),
    decreases m,
{
    if n < m {
        lemma_refusal_stands(layout, f, rows, blocks, n, m - 1);
    }
}

/// How far an emission has come: factors seen, the open scope, whether anything was refused, and
/// the model so far.
#[verifier::ext_equal]
pub struct Progress<M> {
    pub seen: Seq<bool>,
    pub active: Option<usize>,
    pub failed: bool,
    pub model: M,
}

/// The factors that may be emitted at a time, by planned position.
pub struct Window {
    pub start: int,
    pub end: int,
}

/// The factor whose scope may be opened: an allowed one not emitted before, outside any other
/// scope.
pub open spec fn opened(
    layout: &Layout,
    window: Window,
    seen: Seq<bool>,
    active: Option<usize>,
    id: FactorId,
) -> Option<usize> {
    let f = layout.factor_index@[id.raw];
    if active is Some || !layout.factor_index@.contains_key(id.raw) || !(window.start <= f
        < window.end) || seen[f as int] {
        None
    } else {
        Some(f)
    }
}

/// The effect of one emitted event, and how it is answered. What is refused has no effect but
/// to be remembered.
///
/// Only a batch evaluator closes scopes; an ordinary factor lives inside one.
pub open spec fn event_step<B: LeastSquaresBackend>(
    layout: &Layout,
    window: Window,
    scoped: bool,
    progress: Progress<B::Model>,
    event: EventView<B::Scalar>,
) -> (Progress<B::Model>, Result<(), EvaluationError>) {
    let refused = Progress { failed: true, ..progress };
    match event {
        EventView::Open(id) => match opened(layout, window, progress.seen, progress.active, id) {
            None => (refused, Err(EvaluationError::InvalidEmission)),
            Some(f) => (
                Progress {
                    seen: progress.seen.update(f as int, true),
                    active: Some(f),
                    ..progress
                },
                Ok(()),
            ),
        },
        EventView::Close(result) => if scoped || progress.active is None {
            (refused, Err(EvaluationError::InvalidEmission))
        } else {
            (
                Progress { active: None, failed: progress.failed || result is Err, ..progress },
                result,
            )
        },
        EventView::Residual(residual, blocks) => match progress.active {
            None => (refused, Err(EvaluationError::InvalidEmission)),
            Some(f) => match emission_check(layout, f as int, residual, blocks) {
                Err(error) => (refused, Err(error)),
                Ok(columns) => match B::extended_spec(progress.model, residual, blocks, columns) {
                    Err(error) => (refused, Err(error)),
                    Ok(model) => (Progress { model, ..progress }, Ok(())),
                },
            },
        },
    }
}

/// The effect of the first `n` emitted events.
pub open spec fn events_run<B: LeastSquaresBackend>(
    layout: &Layout,
    window: Window,
    scoped: bool,
    progress: Progress<B::Model>,
    events: Seq<EventView<B::Scalar>>,
    n: int,
) -> Progress<B::Model>
    decreases n,
{
    if n <= 0 {
        progress
    } else {
        event_step::<B>(
            layout,
            window,
            scoped,
            events_run::<B>(layout, window, scoped, progress, events, n - 1),
            events[n - 1],
        ).0
    }
}

/// How the last event of a record is answered.
pub open spec fn reply_spec<B: LeastSquaresBackend>(
    layout: &Layout,
    window: Window,
    scoped: bool,
    progress: Progress<B::Model>,
    record: Seq<EventView<B::Scalar>>,
) -> Result<(), EvaluationError> {
    event_step::<B>(
        layout,
        window,
        scoped,
        events_run::<B>(layout, window, scoped, progress, record, record.len() - 1),
        record.last(),
    ).1
}

/// How each record is answered that is emitted from the given progress on.
pub open spec fn replies_from<B: LeastSquaresBackend>(
    layout: &Layout,
    window: Window,
    scoped: bool,
    progress: Progress<B::Model>,
) -> Replies<B::Scalar> {
    |record: Seq<EventView<B::Scalar>>|
        reply_spec::<B>(layout, window, scoped, progress, record)
}

proof fn lemma_events_add<B: LeastSquaresBackend>(
    layout: &Layout,
    window: Window,
    scoped: bool,
    progress: Progress<B::Model>,
    a: Seq<EventView<B::Scalar>>,
    b: Seq<EventView<B::Scalar>>,
    n: int,
)
    requires
        0 <= n <= b.len(),
    ensures
        events_run::<B>(layout, window, scoped, progress, a + b, a.len() + n) == events_run::<B>(
            layout,
            window,
            scoped,
            events_run::<B>(layout, window, scoped, progress, a, a.len() as int),
            b,
            n,
        ),
    decreases n,
{
    if n == 0 {
        lemma_events_prefix::<B>(layout, window, scoped, progress, a, b, a.len() as int);
    } else {
        lemma_events_add::<B>(layout, window, scoped, progress, a, b, n - 1);
        assert((a + b)[a.len() + n - 1] == b[n - 1]);
    }
}

proof fn lemma_events_prefix<B: LeastSquaresBackend>(
    layout: &Layout,
    window: Window,
    scoped: bool,
    progress: Progress<B::Model>,
    a: Seq<EventView<B::Scalar>>,
    b: Seq<EventView<B::Scalar>>,
    n: int,
)
    requires
        0 <= n <= a.len(),
    ensures
        events_run::<B>(layout, window, scoped, progress, a + b, n) == events_run::<B>(
            layout,
            window,
            scoped,
            progress,
            a,
            n,
        ),
    decreases n,
{
    if n > 0 {
        lemma_events_prefix::<B>(layout, window, scoped, progress, a, b, n - 1);
        assert((a + b)[n - 1] == a[n - 1]);
    }
}

/// A refusal is remembered, whatever an evaluator makes of it and emits after it.
pub proof fn lemma_refusal_remembered<B: LeastSquaresBackend>(
    layout: &Layout,
    window: Window,
    scoped: bool,
    progress: Progress<B::Model>,
    record: Seq<EventView<B::Scalar>>,
    k: int,
    n: int,
)
    requires
        0 < k <= n <= record.len(),
        reply_spec::<B>(layout, window, scoped, progress, record.take(k)) is Err,
    ensures
        events_run::<B>(layout, window, scoped, progress, record, n).failed,
    decreases n,
{
    if k < n {
        lemma_refusal_remembered::<B>(layout, window, scoped, progress, record, k, n - 1);
    } else {
        let short = record.take(k);
        assert(record =~= short + record.skip(k));
        lemma_events_prefix::<B>(
            layout,
            window,
            scoped,
            progress,
            short,
            record.skip(k),
            k - 1,
        );
        assert(short.last() == record[k - 1]);
    }
}

/// One call of an evaluator: an ordinary factor, or a selection of a batch.
#[verifier::reject_recursive_types(R)]
pub enum Unit<R> {
    Single(FactorId, Emission<R>),
    Many(nat, Emission<R>),
}

impl<R> Unit<R> {
    /// How many planned factors the call covers.
    pub open spec fn count(self) -> nat {
        match self {
            Unit::Single(_, _) => 1,
            Unit::Many(n, _) => n,
        }
    }
}

/// The effect of one evaluator call on the factors planned from `position` on, unless the
/// evaluator fails. A refusal that it did not pass on is remembered. A batch must have closed
/// its last scope.
pub open spec fn unit_run<B: LeastSquaresBackend>(
    layout: &Layout,
    position: int,
    progress: Progress<B::Model>,
    unit: Unit<B::Scalar>,
) -> Result<Progress<B::Model>, EvaluationError> {
    let window = Window { start: position, end: position + unit.count() };
    match unit {
        Unit::Single(id, emission) => {
            let (begun, reply) = event_step::<B>(
                layout,
                window,
                true,
                progress,
                EventView::Open(id),
            );
            match reply {
                Err(error) => Err(error),
                Ok(_) => {
                    let emitted = emission(replies_from::<B>(layout, window, true, begun));
                    match emitted.outcome {
                        Err(error) => Err(error),
                        Ok(_) => Ok(
                            Progress {
                                active: None,
                                ..events_run::<B>(
                                    layout,
                                    window,
                                    true,
                                    begun,
                                    emitted.events,
                                    emitted.events.len() as int,
                                )
                            },
                        ),
                    }
                },
            }
        },
        Unit::Many(_, emission) => {
            let emitted = emission(replies_from::<B>(layout, window, false, progress));
            let reached = events_run::<B>(
                layout,
                window,
                false,
                progress,
                emitted.events,
                emitted.events.len() as int,
            );
            match emitted.outcome {
                Err(error) => Err(error),
                Ok(_) => if reached.active is Some {
                    Err(EvaluationError::InvalidEmission)
                } else {
                    Ok(reached)
                },
            }
        },
    }
}

/// The effect of the first `n` evaluator calls, and the planned factors they covered.
pub open spec fn units_run<B: LeastSquaresBackend>(
    layout: &Layout,
    position: int,
    progress: Progress<B::Model>,
    units: Seq<Unit<B::Scalar>>,
    n: int,
) -> Result<Progress<B::Model>, EvaluationError>
    decreases n,
{
    if n <= 0 {
        Ok(progress)
    } else {
        match units_run::<B>(layout, position, progress, units, n - 1) {
            Err(error) => Err(error),
            Ok(reached) => unit_run::<B>(
                layout,
                position + covered(units, n - 1),
                reached,
                units[n - 1],
            ),
        }
    }
}

/// Planned factors covered by the first `n` evaluator calls.
pub open spec fn covered<R>(units: Seq<Unit<R>>, n: int) -> nat
    decreases n,
{
    if n <= 0 {
        0
    } else {
        covered(units, n - 1) + units[n - 1].count()
    }
}

impl CheckedSink {
    /// The state of this sink and the backend behind it.
    pub open spec fn progress<B: LeastSquaresBackend>(&self, backend: &B) -> Progress<B::Model> {
        Progress {
            seen: self.seen@,
            active: self.active,
            failed: self.failed,
            model: backend.model(),
        }
    }

    /// Check one emission and hand it to the backend. A refused one never reaches it.
    pub fn residual<B: LeastSquaresBackend>(
        &mut self,
        layout: &Layout,
        backend: &mut B,
        residual: &[B::Scalar],
        blocks: &[JacobianBlock<B::Scalar>],
    ) -> (reply: Result<(), EvaluationError>)
        requires
            old(self).wf(layout),
            old(backend).wf(),
            old(backend).dimension() == layout.dimension,
        ensures
            final(self).wf(layout),
            final(self).same_window(old(self)),
            final(backend).wf(),
            final(backend).dimension() == layout.dimension,
            final(backend).shape() == old(backend).shape(),
            assembled(*old(backend)) ==> assembled(*final(backend)),
            event_step::<B>(
                layout,
                old(self).window(),
                old(self).scoped,
                old(self).progress(old(backend)),
                EventView::Residual(residual@, block_views(blocks@)),
            ) == (final(self).progress(final(backend)), reply),
            old(self).active is None || emission_check(
                layout,
                old(self).active->Some_0 as int,
                residual@,
                block_views(blocks@),
            ) is Err ==> *final(backend) == *old(backend),
    {
        let f: usize = match self.active {
            None => {
                self.failed = true;
                return Err(EvaluationError::InvalidEmission);
            },
            Some(f) => f,
        };
        match self.check_emission(layout, f, residual, blocks) {
            Ok(_) => {},
            Err(error) => {
                self.failed = true;
                return Err(error);
            },
        }
        proof {
            let views = block_views(blocks@);
            assert(residual@.len() == residual.len());
            lemma_columns_admissible(layout, f as int, residual@, views);
        }
        let added = backend.accumulate(residual, blocks, self.columns.as_slice());
        match added {
            Ok(_) => Ok(()),
            Err(error) => {
                self.failed = true;
                Err(error)
            },
        }
    }
}

impl<B: LeastSquaresBackend> Workspace<B> {
    /// How far the current emission has come.
    pub open spec fn progress(&self) -> Progress<B::Model> {
        self.checks.progress(&self.backend)
    }

    /// The same graph is worked on by the same backend, which still holds what rows imply if it
    /// did before.
    pub open spec fn continues(&self, before: &Self) -> bool {
        &&& self.layout == before.layout
        &&& self.current == before.current
        &&& self.backend.shape() == before.backend.shape()
        &&& assembled(before.backend) ==> assembled(self.backend)
    }
}

/// Evaluators emit into the workspace: what passes the checks reaches its backend.
impl<B: LeastSquaresBackend> LinearizationSink for Workspace<B> {
    type Scalar = B::Scalar;

    open spec fn ready(&self) -> bool {
        &&& self.checks.wf(&self.layout)
        &&& self.backend.wf()
        &&& self.backend.dimension() == self.layout.dimension
    }

    open spec fn replies(&self) -> Replies<B::Scalar> {
        replies_from::<B>(
            &self.layout,
            self.checks.window(),
            self.checks.scoped,
            self.progress(),
        )
    }

    open spec fn received(&self, before: &Self, record: Seq<EventView<B::Scalar>>) -> bool {
        &&& self.continues(before)
        &&& self.checks.same_window(&before.checks)
        &&& self.progress() == events_run::<B>(
            &before.layout,
            before.checks.window(),
            before.checks.scoped,
            before.progress(),
            record,
            record.len() as int,
        )
    }

    proof fn lemma_received_nothing(&self) {
    }

    proof fn lemma_received_more(
        &self,
        during: &Self,
        before: &Self,
        first: Seq<EventView<B::Scalar>>,
        more: Seq<EventView<B::Scalar>>,
    ) {
        let layout = &before.layout;
        let window = before.checks.window();
        let scoped = before.checks.scoped;
        lemma_events_add::<B>(
            layout,
            window,
            scoped,
            before.progress(),
            first,
            more,
            more.len() as int,
        );
        if more.len() > 0 {
            lemma_events_add::<B>(
                layout,
                window,
                scoped,
                before.progress(),
                first,
                more,
                more.len() - 1,
            );
            assert((first + more).last() == more.last());
        }
    }

    fn open(&mut self, id: FactorId) -> (reply: Result<(), EvaluationError>) {
        proof {
            reveal_with_fuel(events_run, 2);
        }
        let reply = self.checks.open(&self.layout, id);
        assert(self.progress() =~= event_step::<B>(
            &old(self).layout,
            old(self).checks.window(),
            old(self).checks.scoped,
            old(self).progress(),
            EventView::Open(id),
        ).0);
        reply
    }

    fn residual(&mut self, residual: Vec<B::Scalar>, blocks: Vec<JacobianBlock<B::Scalar>>) -> (
        reply: Result<(), EvaluationError>) {
        proof {
            reveal_with_fuel(events_run, 2);
        }
        self.checks.residual(
            &self.layout,
            &mut self.backend,
            residual.as_slice(),
            blocks.as_slice(),
        )
    }

    fn close(&mut self, result: Result<(), EvaluationError>) -> (reply: Result<
        (),
        EvaluationError,
    >) {
        proof {
            reveal_with_fuel(events_run, 2);
        }
        let reply = self.checks.close(&self.layout, result);
        assert(self.progress() =~= event_step::<B>(
            &old(self).layout,
            old(self).checks.window(),
            old(self).checks.scoped,
            old(self).progress(),
            EventView::Close(result),
        ).0);
        reply
    }
}

} // verus!
