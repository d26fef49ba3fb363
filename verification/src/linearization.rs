//! What factors hand to the numerical backends.
use crate::error::EvaluationError;
use crate::key::{BlockId, FactorId, StateKey};
use crate::scalar::Real;
use crate::variable::Variable;
use vstd::prelude::*;

verus! {

/// A Jacobian block and the variable it differentiates, stored column by column.
pub struct JacobianBlock<R> {
    pub variable: BlockId,
    pub rows: usize,
    pub cols: usize,
    pub values: Vec<R>,
}

/// The mathematical content of a [`JacobianBlock`].
#[verifier::ext_equal]
pub struct BlockView<R> {
    pub variable: BlockId,
    pub rows: nat,
    pub cols: nat,
    pub values: Seq<R>,
}

impl<R> BlockView<R> {
    /// One coefficient for each row and column.
    pub open spec fn wf(self) -> bool {
        self.values.len() == self.rows * self.cols
    }

    /// The coefficient in a row and column.
    pub open spec fn entry(self, row: int, col: int) -> R {
        self.values[col * self.rows + row]
    }
}

/// Coefficient indices of a column-major block stay within its storage.
pub proof fn lemma_entry_index(rows: nat, cols: nat, row: int, col: int)
    requires
        0 <= row < rows,
        0 <= col < cols,
    ensures
        0 <= col * rows + row < rows * cols,
        col * rows + rows <= rows * cols,
        0 <= col * rows,
{
    assert(col * rows + rows <= rows * cols && 0 <= col * rows) by (nonlinear_arith)
        requires
            0 <= col < cols,
            0 <= rows,
    ;
}

impl<R> View for JacobianBlock<R> {
    type V = BlockView<R>;

    open spec fn view(&self) -> BlockView<R> {
        BlockView {
            variable: self.variable,
            rows: self.rows as nat,
            cols: self.cols as nat,
            values: self.values@,
        }
    }
}

/// The blocks of one emission, as mathematical values.
pub open spec fn block_views<R>(blocks: Seq<JacobianBlock<R>>) -> Seq<BlockView<R>> {
    Seq::new(blocks.len(), |i: int| blocks[i]@)
}

impl<R: Real> JacobianBlock<R> {
    /// A block with one column per tangent coordinate of its variable.
    pub fn new<T: Variable<Scalar = R>>(
        state: StateKey<T>,
        rows: usize,
        values: Vec<R>,
    ) -> (block: Self)
        requires
            values@.len() == rows * T::dof_spec(),
        ensures
            block@ == (BlockView {
                variable: BlockId { raw: state.raw },
                rows: rows as nat,
                cols: T::dof_spec(),
                values: values@,
            }),
            block@.wf(),
    {
        JacobianBlock { variable: state.block_id(), rows, cols: T::dof(), values }
    }

    /// Identity of the differentiated variable.
    pub fn variable(&self) -> (id: BlockId)
        ensures
            id == self.variable,
    {
        self.variable
    }

    /// The coefficients, column by column.
    pub fn jacobian(&self) -> (values: &[R])
        ensures
            values@ == self@.values,
    {
        self.values.as_slice()
    }

    /// The coefficient in a row and column.
    pub fn entry(&self, row: usize, col: usize) -> (value: R)
        requires
            self@.wf(),
            row < self.rows,
            col < self.cols,
        ensures
            value == self@.entry(row as int, col as int),
    {
        proof {
            lemma_entry_index(self.rows as nat, self.cols as nat, row as int, col as int);
            assert(self.values@.len() == self.values.len());
        }
        self.values[col * self.rows + row]
    }
}

/// One step of an evaluator's output, in the order in which it was made.
pub enum Event<R> {
    /// A factor scope begins.
    Open(FactorId),
    /// A residual and the Jacobian blocks of the variables it depends on.
    Residual(Vec<R>, Vec<JacobianBlock<R>>),
    /// The current factor scope ends, in the given way.
    Close(Result<(), EvaluationError>),
}

/// The mathematical content of an [`Event`].
#[verifier::ext_equal]
pub enum EventView<R> {
    Open(FactorId),
    Residual(Seq<R>, Seq<BlockView<R>>),
    Close(Result<(), EvaluationError>),
}

impl<R> View for Event<R> {
    type V = EventView<R>;

    open spec fn view(&self) -> EventView<R> {
        match self {
            Event::Open(id) => EventView::Open(*id),
            Event::Residual(residual, blocks) => EventView::Residual(
                residual@,
                block_views(blocks@),
            ),
            Event::Close(result) => EventView::Close(*result),
        }
    }
}

/// How a sink answers the last event of a record.
pub type Replies<R> = spec_fn(Seq<EventView<R>>) -> Result<(), EvaluationError>;

/// Where evaluators emit residuals and Jacobians.
///
/// Ordinary factors emit residuals only, inside a scope that the solver has opened. Batch
/// evaluators open one scope per selected factor, and close it with the result of what they
/// emitted inside. A sink answers each event at once. A refusal does not bind the evaluator,
/// but the solver refuses what an evaluator made of one that it kept to itself.
pub trait LinearizationSink: Sized {
    /// Scalar of the residuals and Jacobians.
    type Scalar: Real;

    spec fn ready(&self) -> bool;

    /// How each event of a record will be answered, if the record is emitted from now on.
    spec fn replies(&self) -> Replies<Self::Scalar>;

    /// A record was emitted since the sink stood as `before`.
    spec fn received(&self, before: &Self, record: Seq<EventView<Self::Scalar>>) -> bool;

    /// Nothing was emitted yet.
    proof fn lemma_received_nothing(&self)
        requires
            self.ready(),
        ensures
            self.received(self, Seq::empty()),
    ;

    /// One record after another is a longer record, and answers do not depend on where a record
    /// is parted.
    proof fn lemma_received_more(
        &self,
        during: &Self,
        before: &Self,
        first: Seq<EventView<Self::Scalar>>,
        more: Seq<EventView<Self::Scalar>>,
    )
        requires
            during.received(before, first),
            self.received(during, more),
        ensures
            self.received(before, first + more),
            more.len() > 0 ==> during.replies()(more) == before.replies()(first + more),
    ;

    /// Begin the scope of one factor.
    fn open(&mut self, id: FactorId) -> (reply: Result<(), EvaluationError>)
        requires
            old(self).ready(),
        ensures
            final(self).ready(),
            final(self).received(old(self), seq![EventView::Open(id)]),
            reply == old(self).replies()(seq![EventView::Open(id)]),
    ;

    /// Emit a residual with its Jacobian blocks.
    fn residual(&mut self, residual: Vec<Self::Scalar>, blocks: Vec<JacobianBlock<Self::Scalar>>)
        -> (reply: Result<(), EvaluationError>)
        requires
            old(self).ready(),
        ensures
            final(self).ready(),
            final(self).received(
                old(self),
                seq![EventView::Residual(residual@, block_views(blocks@))],
            ),
            reply == old(self).replies()(
                seq![EventView::Residual(residual@, block_views(blocks@))],
            ),
    ;

    /// End the current scope with the result of what was emitted inside.
    fn close(&mut self, result: Result<(), EvaluationError>) -> (reply: Result<
        (),
        EvaluationError,
    >)
        requires
            old(self).ready(),
        ensures
            final(self).ready(),
            final(self).received(old(self), seq![EventView::Close(result)]),
            reply == old(self).replies()(seq![EventView::Close(result)]),
    ;
}

/// Answers that refuse nothing.
pub open spec fn accepting<R>() -> Replies<R> {
    |record: Seq<EventView<R>>| Ok::<(), EvaluationError>(())
}

/// The record of what one evaluator emitted. It accepts anything, to be judged later.
pub struct Transcript<R> {
    pub events: Vec<Event<R>>,
}

impl<R> View for Transcript<R> {
    type V = Seq<EventView<R>>;

    open spec fn view(&self) -> Seq<EventView<R>> {
        Seq::new(self.events@.len(), |i: int| self.events@[i]@)
    }
}

impl<R: Real> Transcript<R> {
    /// An empty record.
    pub fn new() -> (transcript: Self)
        ensures
            transcript@ == Seq::<EventView<R>>::empty(),
    {
        Transcript { events: Vec::new() }
    }

    /// Add one event.
    fn push(&mut self, event: Event<R>)
        ensures
            final(self)@ == old(self)@ + seq![event@],
    {
        let ghost view = event@;
        self.events.push(event);
        assert(self@ =~= old(self)@ + seq![view]);
    }
}

impl<R: Real> LinearizationSink for Transcript<R> {
    type Scalar = R;

    open spec fn ready(&self) -> bool {
        true
    }

    open spec fn replies(&self) -> Replies<R> {
        accepting()
    }

    open spec fn received(&self, before: &Self, record: Seq<EventView<R>>) -> bool {
        self@ == before@ + record
    }

    proof fn lemma_received_nothing(&self) {
        assert(self@ =~= self@ + Seq::<EventView<R>>::empty());
    }

    proof fn lemma_received_more(
        &self,
        during: &Self,
        before: &Self,
        first: Seq<EventView<R>>,
        more: Seq<EventView<R>>,
    ) {
        assert(self@ =~= before@ + (first + more));
    }

    fn open(&mut self, id: FactorId) -> (reply: Result<(), EvaluationError>) {
        self.push(Event::Open(id));
        Ok(())
    }

    fn residual(&mut self, residual: Vec<R>, blocks: Vec<JacobianBlock<R>>) -> (reply: Result<
        (),
        EvaluationError,
    >) {
        self.push(Event::Residual(residual, blocks));
        Ok(())
    }

    fn close(&mut self, result: Result<(), EvaluationError>) -> (reply: Result<
        (),
        EvaluationError,
    >) {
        self.push(Event::Close(result));
        Ok(())
    }
}

} // verus!
