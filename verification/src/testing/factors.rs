//! Property checks of user-defined factors.
use crate::access::{PoolAccess, StateAccess};
use crate::error::EvaluationError;
use crate::factors::{identified, Factor, FactorBatch, FactorSelection};
use crate::key::{BlockId, FactorId, LocalKey, PoolId, StateKey};
use crate::linearization::{
    accepting, block_views, BlockView, Event, EventView, JacobianBlock, LinearizationSink,
    Transcript,
};
use crate::normal::copied;
use crate::problem::inserted;
use crate::scalar::Real;
use crate::states::StateSchema;
use crate::storage::StatePool;
use crate::testing::{
    earliest, either, lemma_earliest, lemma_no_fault, TestScalar, Tolerance,
};
use crate::variable::{tangent, tangent_of, Variable};
use vstd::prelude::*;
use vstd::slice::slice_subrange;

verus! {

/// A coordinate of a variable, in the order of insertion, and how far it moves.
#[derive(Debug, Clone, Copy)]
pub struct Seed<R> {
    pub variable: usize,
    pub column: usize,
    pub amount: R,
}

/// Variables of one case, inserted in an order that all evaluations of the case share.
///
/// A seeded variable is moved along one coordinate as it is inserted.
pub struct TestStates<S: StateSchema> {
    pub states: S,
    pub blocks: Vec<BlockId>,
    pub widths: Vec<usize>,
    pub seed: Option<Seed<S::Scalar>>,
}

/// Coordinates of an increment along one of them.
pub open spec fn along_spec<R: Real>(n: nat, column: int, amount: R) -> Seq<R> {
    Seq::new(
        n,
        |i: int|
            if i == column {
                amount
            } else {
                R::zero_spec()
            },
    )
}

fn along<R: Real>(n: usize, column: usize, amount: R) -> (delta: Vec<R>)
    ensures
        delta@ == along_spec(n as nat, column as int, amount),
{
    let mut delta: Vec<R> = Vec::new();
    let mut i: usize = 0;
    while i < n
        invariant
            i <= n,
            delta@.len() == i,
            forall|j: int|
                0 <= j < i ==> #[trigger] delta@[j] == along_spec(
                    n as nat,
                    column as int,
                    amount,
                )[j],
        decreases n - i,
    {
        delta.push(
            if i == column {
                amount
            } else {
                R::zero()
            },
        );
        i += 1;
    }
    assert(delta@ =~= along_spec(n as nat, column as int, amount));
    delta
}

impl<S: StateSchema> TestStates<S> {
    pub open spec fn wf(&self) -> bool {
        &&& self.states.wf()
        &&& self.states.idle()
        &&& self.blocks@.len() == self.widths@.len()
    }

    /// Whether the next variable to be inserted is the seeded one.
    pub open spec fn seeds_next(&self) -> bool {
        self.seed matches Some(seed) && seed.variable == self.widths@.len()
    }

    /// A value as it is inserted next.
    pub open spec fn seeded<T: Variable<Scalar = S::Scalar>>(&self, value: T) -> T {
        match self.seed {
            Some(seed) => if seed.variable == self.widths@.len() {
                value.retract_spec(
                    tangent_of::<T>(along_spec(T::dof_spec(), seed.column as int, seed.amount)),
                )
            } else {
                value
            },
            None => value,
        }
    }

    /// Start from storage that holds no variables.
    pub fn new(states: S, seed: Option<Seed<S::Scalar>>) -> (inserted: Self)
        requires
            states.wf(),
            states.idle(),
        ensures
            inserted.wf(),
            inserted.states == states,
            inserted.seed == seed,
            inserted.blocks@.len() == 0,
            inserted.widths@.len() == 0,
    {
        TestStates { states, blocks: Vec::new(), widths: Vec::new(), seed }
    }

    /// Insert a variable. For aliased inputs, insert once and use the handle repeatedly.
    pub fn insert<T: Variable<Scalar = S::Scalar>, I>(&mut self, value: T) -> (key: StateKey<
        T,
    >) where S: StateAccess<T, I>
        requires
            old(self).wf(),
            PoolAccess::<StatePool<T>, I>::pool_spec(&old(self).states).entries.room(1),
            old(self).seeds_next() ==> old(self).seed->0.column < T::dof_spec(),
        ensures
            final(self).wf(),
            final(self).seed == old(self).seed,
            final(self).blocks@ == old(self).blocks@.push(BlockId { raw: key.raw }),
            final(self).widths@.map_values(|w: usize| w as nat)
                == old(self).widths@.map_values(|w: usize| w as nat).push(T::dof_spec()),
            ({
                let was = PoolAccess::<StatePool<T>, I>::pool_spec(&old(self).states);
                let now = PoolAccess::<StatePool<T>, I>::pool_spec(&final(self).states);
                &&& inserted(was, now, old(self).seeded(value), key)
                &&& final(self).states == old(self).states.with_pool(now)
            }),
    {
        let ghost before = self.states;
        let value = match self.seed {
            Some(seed) => if seed.variable == self.widths.len() {
                let delta = along(T::dof(), seed.column, seed.amount);
                value.retract(tangent::<T>(delta.as_slice()).as_slice())
            } else {
                value
            },
            None => value,
        };
        proof {
            StateAccess::<T, I>::lemma_family(&before);
        }
        let key = PoolAccess::<StatePool<T>, I>::pool_mut(&mut self.states).insert(value);
        proof {
            StateAccess::<T, I>::lemma_replaced(
                before,
                PoolAccess::<StatePool<T>, I>::pool_spec(&self.states),
            );
        }
        self.blocks.push(key.block_id());
        self.widths.push(T::dof());
        assert(self.widths@.map_values(|w: usize| w as nat) =~= old(self).widths@.map_values(
            |w: usize| w as nat,
        ).push(T::dof_spec()));
        key
    }
}

/// What a comparison of factors is about.
#[derive(Debug, Clone, Copy, PartialEq, Eq, Structural)]
pub enum FactorCheck {
    CostOfResiduals,
    DualResidual,
    DualDerivative,
    DualCost,
    DualCostDerivative,
    SelectedResidual,
    SelectedJacobian,
    EmptyCost,
    SummedCost,
}

/// Why a check of a factor did not pass.
#[derive(Debug, Clone, Copy)]
pub enum FactorFault<W> {
    /// The factor could not be evaluated.
    Evaluation(EvaluationError),
    /// A scope begins inside another one.
    NestedScope,
    /// A scope ends that never began.
    UnopenedScope,
    /// The last scope never ends.
    UnclosedScope,
    /// A scope is for a factor that was not selected.
    UnknownFactor(FactorId),
    /// A factor emits a second scope.
    DuplicateScope(FactorId),
    /// A selected factor emits no scope.
    MissingScope,
    /// A residual lies outside all scopes.
    ResidualOutsideScope,
    /// A residual is not finite.
    NonfiniteResidual,
    /// A variable is none of the case.
    UnknownVariable(BlockId),
    /// A Jacobian is for a variable that the factor does not declare.
    UndeclaredVariable(BlockId),
    /// A residual has two Jacobians for one variable.
    DuplicateJacobian(BlockId),
    /// A Jacobian has other dimensions than its residual and variable.
    JacobianDimensions(BlockId),
    /// A Jacobian is not finite.
    NonfiniteJacobian(BlockId),
    /// A cost is negative or not finite.
    InvalidCost(W),
    /// The variables differ between evaluations.
    LayoutChanged,
    /// The factors differ between evaluations.
    ScopesChanged,
    /// The residual dimension differs between evaluations.
    ResidualsChanged,
    /// Two coefficients disagree.
    Coefficients { check: FactorCheck, actual: W, expected: W },
}

/// An emitted residual with its Jacobian blocks.
pub struct Recorded<R> {
    pub values: Vec<R>,
    pub jacobians: Vec<JacobianBlock<R>>,
}

/// The mathematical content of a [`Recorded`].
#[verifier::ext_equal]
pub struct RecordedView<R> {
    pub values: Seq<R>,
    pub jacobians: Seq<BlockView<R>>,
}

impl<R> View for Recorded<R> {
    type V = RecordedView<R>;

    open spec fn view(&self) -> RecordedView<R> {
        RecordedView { values: self.values@, jacobians: block_views(self.jacobians@) }
    }
}

/// What one factor declares and emits.
pub struct Scope<R> {
    pub id: FactorId,
    pub dependencies: Vec<BlockId>,
    pub residuals: Vec<Recorded<R>>,
    pub seen: bool,
}

/// The mathematical content of a [`Scope`].
#[verifier::ext_equal]
pub struct ScopeView<R> {
    pub id: FactorId,
    pub dependencies: Seq<BlockId>,
    pub residuals: Seq<RecordedView<R>>,
    pub seen: bool,
}

impl<R> View for Scope<R> {
    type V = ScopeView<R>;

    open spec fn view(&self) -> ScopeView<R> {
        ScopeView {
            id: self.id,
            dependencies: self.dependencies@,
            residuals: Seq::new(self.residuals@.len(), |i: int| self.residuals@[i]@),
            seen: self.seen,
        }
    }
}

/// One evaluation of the factors of a case.
pub struct Capture<R> {
    pub blocks: Vec<BlockId>,
    pub widths: Vec<usize>,
    pub scopes: Vec<Scope<R>>,
}

/// The mathematical content of a [`Capture`].
#[verifier::ext_equal]
pub struct CaptureView<R> {
    pub blocks: Seq<BlockId>,
    pub widths: Seq<usize>,
    pub scopes: Seq<ScopeView<R>>,
}

impl<R> View for Capture<R> {
    type V = CaptureView<R>;

    open spec fn view(&self) -> CaptureView<R> {
        CaptureView {
            blocks: self.blocks@,
            widths: self.widths@,
            scopes: Seq::new(self.scopes@.len(), |i: int| self.scopes@[i]@),
        }
    }
}

/// Whether `i` is the first place of a value.
pub open spec fn first_is<A>(values: Seq<A>, value: A, i: int) -> bool {
    &&& 0 <= i < values.len()
    &&& values[i] == value
    &&& forall|j: int| 0 <= j < i ==> #[trigger] values[j] != value
}

/// The first place of a value.
pub open spec fn position<A>(values: Seq<A>, value: A) -> Option<int> {
    if exists|i: int| first_is(values, value, i) {
        Some(choose|i: int| first_is(values, value, i))
    } else {
        None
    }
}

proof fn lemma_position<A>(values: Seq<A>, value: A, i: int)
    requires
        first_is(values, value, i),
    ensures
        position(values, value) == Some(i),
{
    let k = choose|k: int| first_is(values, value, k);
    assert(first_is(values, value, k));
    if k < i {
        assert(values[k] != value);
    }
    if i < k {
        assert(values[i] != value);
    }
}

fn find(blocks: &[BlockId], id: BlockId) -> (place: Option<usize>)
    ensures
        match place {
            Some(i) => position(blocks@, id) == Some(i as int) && i < blocks@.len(),
            None => position(blocks@, id) is None,
        },
{
    let mut i: usize = 0;
    while i < blocks.len()
        invariant
            i <= blocks@.len(),
            forall|j: int| 0 <= j < i ==> #[trigger] blocks@[j] != id,
        decreases blocks@.len() - i,
    {
        if blocks[i] == id {
            proof {
                lemma_position(blocks@, id, i as int);
            }
            return Some(i);
        }
        i += 1;
    }
    None
}

impl<R> CaptureView<R> {
    /// Factors in the order in which they were declared.
    pub open spec fn ids(self) -> Seq<FactorId> {
        Seq::new(self.scopes.len(), |i: int| self.scopes[i].id)
    }

    /// The capture with one scope replaced.
    pub open spec fn with_scope(self, i: int, scope: ScopeView<R>) -> Self {
        CaptureView { scopes: self.scopes.update(i, scope), ..self }
    }
}

/// The fault of one Jacobian block of a residual, after the blocks before it.
pub open spec fn block_fault_spec<R: Real, W>(
    view: CaptureView<R>,
    dependencies: Seq<BlockId>,
    rows: nat,
    earlier: Seq<BlockView<R>>,
    block: BlockView<R>,
) -> Option<FactorFault<W>> {
    if !dependencies.contains(block.variable) {
        Some(FactorFault::UndeclaredVariable(block.variable))
    } else if exists|j: int|
        0 <= j < earlier.len() && (#[trigger] earlier[j]).variable == block.variable {
        Some(FactorFault::DuplicateJacobian(block.variable))
    } else {
        match position(view.blocks, block.variable) {
            None => Some(FactorFault::UnknownVariable(block.variable)),
            Some(i) => if block.rows != rows || block.cols != view.widths[i] || !block.wf() {
                Some(FactorFault::JacobianDimensions(block.variable))
            } else if !crate::backend::all_finite(block.values) {
                Some(FactorFault::NonfiniteJacobian(block.variable))
            } else {
                None
            },
        }
    }
}

/// The fault of a residual and its Jacobian blocks.
pub open spec fn residual_fault_spec<R: Real, W>(
    view: CaptureView<R>,
    dependencies: Seq<BlockId>,
    residual: Seq<R>,
    blocks: Seq<BlockView<R>>,
) -> Option<FactorFault<W>> {
    if !crate::backend::all_finite(residual) {
        Some(FactorFault::NonfiniteResidual)
    } else {
        earliest(
            Seq::new(
                blocks.len(),
                |i: int|
                    block_fault_spec(
                        view,
                        dependencies,
                        residual.len(),
                        blocks.take(i),
                        blocks[i],
                    ),
            ),
        )
    }
}

/// What one event does to a capture and its open scope.
pub open spec fn step_spec<R: Real, W>(
    view: CaptureView<R>,
    active: Option<int>,
    event: EventView<R>,
) -> Result<(CaptureView<R>, Option<int>), FactorFault<W>> {
    match event {
        EventView::Open(id) => if active is Some {
            Err(FactorFault::NestedScope)
        } else {
            match position(view.ids(), id) {
                None => Err(FactorFault::UnknownFactor(id)),
                Some(i) => if view.scopes[i].seen {
                    Err(FactorFault::DuplicateScope(id))
                } else {
                    Ok(
                        (
                            view.with_scope(i, ScopeView { seen: true, ..view.scopes[i] }),
                            Some(i),
                        ),
                    )
                },
            }
        },
        EventView::Close(result) => if active is Some {
            match result {
                Ok(_) => Ok((view, None)),
                Err(error) => Err(FactorFault::Evaluation(error)),
            }
        } else {
            Err(FactorFault::UnopenedScope)
        },
        EventView::Residual(residual, blocks) => match active {
            None => Err(FactorFault::ResidualOutsideScope),
            Some(i) => match residual_fault_spec::<R, W>(
                view,
                view.scopes[i].dependencies,
                residual,
                blocks,
            ) {
                Some(fault) => Err(fault),
                None => Ok(
                    (
                        view.with_scope(
                            i,
                            ScopeView {
                                residuals: view.scopes[i].residuals.push(
                                    RecordedView { values: residual, jacobians: blocks },
                                ),
                                ..view.scopes[i]
                            },
                        ),
                        active,
                    ),
                ),
            },
        },
    }
}

/// What the first `n` events do to a capture.
pub open spec fn replay_spec<R: Real, W>(
    view: CaptureView<R>,
    events: Seq<EventView<R>>,
    n: int,
) -> Result<(CaptureView<R>, Option<int>), FactorFault<W>>
    decreases n,
{
    if n <= 0 {
        Ok((view, None))
    } else {
        match replay_spec::<R, W>(view, events, n - 1) {
            Ok((reached, active)) => step_spec::<R, W>(reached, active, events[n - 1]),
            Err(fault) => Err(fault),
        }
    }
}

/// The capture of an evaluator that emitted these events; every declared factor is among them.
pub open spec fn recorded_spec<R: Real, W>(
    view: CaptureView<R>,
    events: Seq<EventView<R>>,
) -> Result<CaptureView<R>, FactorFault<W>> {
    match replay_spec::<R, W>(view, events, events.len() as int) {
        Err(fault) => Err(fault),
        Ok((reached, active)) => if active is Some {
            Err(FactorFault::UnclosedScope)
        } else if exists|i: int| 0 <= i < reached.scopes.len() && !(#[trigger] reached.scopes[i]).seen {
            Err(FactorFault::MissingScope)
        } else {
            Ok(reached)
        },
    }
}

impl<R: Real> Capture<R> {
    /// Widths for all variables.
    pub open spec fn wf(&self) -> bool {
        self.blocks@.len() == self.widths@.len()
    }

    fn find_scope(&self, id: FactorId) -> (place: Option<usize>)
        ensures
            match place {
                Some(i) => position(self@.ids(), id) == Some(i as int) && i < self.scopes@.len(),
                None => position(self@.ids(), id) is None,
            },
    {
        let mut i: usize = 0;
        while i < self.scopes.len()
            invariant
                i <= self.scopes@.len(),
                forall|j: int| 0 <= j < i ==> #[trigger] self@.ids()[j] != id,
            decreases self.scopes@.len() - i,
        {
            if self.scopes[i].id == id {
                proof {
                    lemma_position(self@.ids(), id, i as int);
                }
                return Some(i);
            }
            i += 1;
        }
        None
    }

    fn block_fault<W>(
        &self,
        dependencies: &[BlockId],
        rows: usize,
        blocks: &[JacobianBlock<R>],
        i: usize,
    ) -> (fault: Option<FactorFault<W>>)
        requires
            self.wf(),
            i < blocks@.len(),
        ensures
            fault == block_fault_spec::<R, W>(
                self@,
                dependencies@,
                rows as nat,
                block_views(blocks@).take(i as int),
                block_views(blocks@)[i as int],
            ),
    {
        let block = &blocks[i];
        let id = block.variable;
        match find(dependencies, id) {
            None => {
                assert(!dependencies@.contains(id)) by {
                    if dependencies@.contains(id) {
                        lemma_contained(dependencies@, id);
                    }
                }
                return Some(FactorFault::UndeclaredVariable(id));
            },
            Some(k) => {
                assert(dependencies@.contains(id)) by {
                    lemma_positioned(dependencies@, id);
                }
            },
        }
        let ghost earlier = block_views(blocks@).take(i as int);
        let mut j: usize = 0;
        while j < i
            invariant
                j <= i < blocks@.len(),
                id == blocks@[i as int].variable,
                earlier == block_views(blocks@).take(i as int),
                dependencies@.contains(id),
                forall|k: int| 0 <= k < j ==> (#[trigger] earlier[k]).variable != id,
            decreases i - j,
        {
            if blocks[j].variable == id {
                assert(earlier[j as int].variable == id);
                return Some(FactorFault::DuplicateJacobian(id));
            }
            j += 1;
        }
        match find(self.blocks.as_slice(), id) {
            None => Some(FactorFault::UnknownVariable(id)),
            Some(k) => if block.rows != rows || block.cols != self.widths[k] || !shaped(block) {
                Some(FactorFault::JacobianDimensions(id))
            } else if !crate::backend::finite_values(block.values.as_slice()) {
                Some(FactorFault::NonfiniteJacobian(id))
            } else {
                None
            },
        }
    }
}

/// Whether a block holds one coefficient for each row and column.
fn shaped<R>(block: &JacobianBlock<R>) -> (shaped: bool)
    ensures
        shaped == block@.wf(),
{
    match block.rows.checked_mul(block.cols) {
        Some(n) => block.values.len() == n,
        None => {
            assert(block.values@.len() == block.values.len());
            false
        },
    }
}

proof fn lemma_contained<A>(values: Seq<A>, value: A)
    requires
        values.contains(value),
    ensures
        position(values, value) is Some,
{
    let k = choose|k: int| 0 <= k < values.len() && values[k] == value;
    lemma_first(values, value, k);
}

proof fn lemma_first<A>(values: Seq<A>, value: A, k: int)
    requires
        0 <= k < values.len(),
        values[k] == value,
    ensures
        exists|i: int| first_is(values, value, i),
    decreases k,
{
    if exists|j: int| 0 <= j < k && #[trigger] values[j] == value {
        let j = choose|j: int| 0 <= j < k && #[trigger] values[j] == value;
        lemma_first(values, value, j);
    } else {
        assert(first_is(values, value, k));
    }
}

proof fn lemma_positioned<A>(values: Seq<A>, value: A)
    requires
        position(values, value) is Some,
    ensures
        values.contains(value),
{
    let i = choose|i: int| first_is(values, value, i);
    assert(first_is(values, value, i));
}

/// A copy of Jacobian blocks.
fn copied_blocks<R: Real>(blocks: &[JacobianBlock<R>]) -> (copy: Vec<JacobianBlock<R>>)
    ensures
        block_views(copy@) == block_views(blocks@),
{
    let mut copy: Vec<JacobianBlock<R>> = Vec::new();
    let mut i: usize = 0;
    while i < blocks.len()
        invariant
            i <= blocks@.len(),
            copy@.len() == i,
            forall|j: int| 0 <= j < i ==> (#[trigger] copy@[j])@ == blocks@[j]@,
        decreases blocks@.len() - i,
    {
        let block = &blocks[i];
        let values = copied(block.values.as_slice());
        copy.push(
            JacobianBlock { variable: block.variable, rows: block.rows, cols: block.cols, values },
        );
        i += 1;
    }
    assert(block_views(copy@) =~= block_views(blocks@));
    copy
}

impl<R: Real> Capture<R> {
    fn residual_fault<W>(
        &self,
        dependencies: &[BlockId],
        residual: &[R],
        blocks: &[JacobianBlock<R>],
    ) -> (fault: Option<FactorFault<W>>)
        requires
            self.wf(),
        ensures
            fault == residual_fault_spec::<R, W>(
                self@,
                dependencies@,
                residual@,
                block_views(blocks@),
            ),
    {
        if !crate::backend::finite_values(residual) {
            return Some(FactorFault::NonfiniteResidual);
        }
        let ghost views = block_views(blocks@);
        let ghost faults = Seq::new(
            views.len(),
            |i: int|
                block_fault_spec::<R, W>(
                    self@,
                    dependencies@,
                    residual@.len(),
                    views.take(i),
                    views[i],
                ),
        );
        let mut i: usize = 0;
        while i < blocks.len()
            invariant
                i <= blocks@.len(),
                self.wf(),
                views == block_views(blocks@),
                crate::backend::all_finite(residual@),
                faults == Seq::new(
                    views.len(),
                    |i: int|
                        block_fault_spec::<R, W>(
                            self@,
                            dependencies@,
                            residual@.len(),
                            views.take(i),
                            views[i],
                        ),
                ),
                forall|j: int| 0 <= j < i ==> (#[trigger] faults[j]) is None,
            decreases blocks@.len() - i,
        {
            let fault = self.block_fault::<W>(dependencies, residual.len(), blocks, i);
            assert(fault == faults[i as int]);
            if fault.is_some() {
                proof {
                    lemma_earliest(faults, i as int);
                }
                return fault;
            }
            i += 1;
        }
        proof {
            lemma_no_fault(faults);
        }
        None
    }

    fn step<W>(&mut self, active: Option<usize>, event: &Event<R>) -> (reached: Result<
        Option<usize>,
        FactorFault<W>,
    >)
        requires
            old(self).wf(),
            active matches Some(i) ==> i < old(self).scopes@.len(),
        ensures
            final(self).wf(),
            ({
                let before = match active {
                    Some(i) => Some(i as int),
                    None => None,
                };
                let expected = step_spec::<R, W>(old(self)@, before, event@);
                match reached {
                    Err(fault) => expected == Err::<
                        (CaptureView<R>, Option<int>),
                        FactorFault<W>,
                    >(fault),
                    Ok(None) => expected == Ok::<_, FactorFault<W>>((final(self)@, None::<int>)),
                    Ok(Some(i)) => i < final(self).scopes@.len() && expected == Ok::<
                        _,
                        FactorFault<W>,
                    >((final(self)@, Some(i as int))),
                }
            }),
    {
        match event {
            Event::Open(id) => {
                if active.is_some() {
                    return Err(FactorFault::NestedScope);
                }
                match self.find_scope(*id) {
                    None => Err(FactorFault::UnknownFactor(*id)),
                    Some(i) => {
                        if self.scopes[i].seen {
                            return Err(FactorFault::DuplicateScope(*id));
                        }
                        let ghost before = self@;
                        self.scopes[i].seen = true;
                        assert(self@ =~= before.with_scope(
                            i as int,
                            ScopeView { seen: true, ..before.scopes[i as int] },
                        ));
                        Ok(Some(i))
                    },
                }
            },
            Event::Close(result) => if active.is_some() {
                match result {
                    Ok(_) => Ok(None),
                    Err(error) => Err(FactorFault::Evaluation(*error)),
                }
            } else {
                Err(FactorFault::UnopenedScope)
            },
            Event::Residual(residual, blocks) => match active {
                None => Err(FactorFault::ResidualOutsideScope),
                Some(i) => {
                    let fault = self.residual_fault::<W>(
                        self.scopes[i].dependencies.as_slice(),
                        residual.as_slice(),
                        blocks.as_slice(),
                    );
                    match fault {
                        Some(fault) => Err(fault),
                        None => {
                            let ghost before = self@;
                            let recorded = Recorded {
                                values: copied(residual.as_slice()),
                                jacobians: copied_blocks(blocks.as_slice()),
                            };
                            let ghost view = recorded@;
                            self.scopes[i].residuals.push(recorded);
                            proof {
                                let scope = before.scopes[i as int];
                                assert(self.scopes@[i as int]@.residuals
                                    =~= scope.residuals.push(view));
                                assert(self@ =~= before.with_scope(
                                    i as int,
                                    ScopeView { residuals: scope.residuals.push(view), ..scope },
                                ));
                            }
                            Ok(active)
                        },
                    }
                },
            },
        }
    }

    fn replay<W>(&mut self, transcript: &Transcript<R>) -> (reached: Result<
        Option<usize>,
        FactorFault<W>,
    >)
        requires
            old(self).wf(),
        ensures
            final(self).wf(),
            ({
                let expected = replay_spec::<R, W>(
                    old(self)@,
                    transcript@,
                    transcript@.len() as int,
                );
                match reached {
                    Err(fault) => expected == Err::<
                        (CaptureView<R>, Option<int>),
                        FactorFault<W>,
                    >(fault),
                    Ok(None) => expected == Ok::<_, FactorFault<W>>((final(self)@, None::<int>)),
                    Ok(Some(i)) => expected == Ok::<_, FactorFault<W>>(
                        (final(self)@, Some(i as int)),
                    ),
                }
            }),
    {
        let ghost start = self@;
        let mut active: Option<usize> = None;
        let mut i: usize = 0;
        while i < transcript.events.len()
            invariant
                i <= transcript.events@.len(),
                self.wf(),
                start == old(self)@,
                active matches Some(k) ==> k < self.scopes@.len(),
                match active {
                    Some(k) => replay_spec::<R, W>(start, transcript@, i as int) == Ok::<
                        _,
                        FactorFault<W>,
                    >((self@, Some(k as int))),
                    None => replay_spec::<R, W>(start, transcript@, i as int) == Ok::<
                        _,
                        FactorFault<W>,
                    >((self@, None::<int>)),
                },
            decreases transcript.events@.len() - i,
        {
            assert(transcript@[i as int] == transcript.events@[i as int]@);
            match self.step::<W>(active, &transcript.events[i]) {
                Ok(next) => {
                    active = next;
                },
                Err(fault) => {
                    proof {
                        lemma_stuck::<R, W>(
                            start,
                            transcript@,
                            i as int + 1,
                            transcript@.len() as int,
                        );
                    }
                    return Err(fault);
                },
            }
            i += 1;
        }
        Ok(active)
    }

    /// Record what an evaluator emitted.
    pub fn record<W>(&mut self, transcript: &Transcript<R>) -> (fault: Option<FactorFault<W>>)
        requires
            old(self).wf(),
        ensures
            final(self).wf(),
            match fault {
                Some(fault) => recorded_spec::<R, W>(old(self)@, transcript@) == Err::<
                    CaptureView<R>,
                    FactorFault<W>,
                >(fault),
                None => recorded_spec::<R, W>(old(self)@, transcript@) == Ok::<
                    CaptureView<R>,
                    FactorFault<W>,
                >(final(self)@),
            },
    {
        match self.replay::<W>(transcript) {
            Err(fault) => {
                return Some(fault);
            },
            Ok(Some(_)) => {
                return Some(FactorFault::UnclosedScope);
            },
            Ok(None) => {},
        }
        let ghost reached = self@;
        let mut i: usize = 0;
        while i < self.scopes.len()
            invariant
                i <= self.scopes@.len(),
                self.wf(),
                self@ == reached,
                replay_spec::<R, W>(old(self)@, transcript@, transcript@.len() as int) == Ok::<
                    _,
                    FactorFault<W>,
                >((reached, None::<int>)),
                forall|j: int| 0 <= j < i ==> (#[trigger] reached.scopes[j]).seen,
            decreases self.scopes@.len() - i,
        {
            assert(reached.scopes[i as int].seen == self.scopes@[i as int].seen);
            if !self.scopes[i].seen {
                return Some(FactorFault::MissingScope);
            }
            i += 1;
        }
        None
    }
}

/// Nothing follows a fault.
proof fn lemma_stuck<R: Real, W>(view: CaptureView<R>, events: Seq<EventView<R>>, k: int, n: int)
    requires
        0 <= k <= n,
        replay_spec::<R, W>(view, events, k) is Err,
    ensures
        replay_spec::<R, W>(view, events, n) == replay_spec::<R, W>(view, events, k),
    decreases n - k,
{
    if k < n {
        lemma_stuck::<R, W>(view, events, k, n - 1);
    }
}

/// A capture in which one more factor is declared; it depends on variables of the case.
pub open spec fn declared_spec<R: Real, W>(
    view: CaptureView<R>,
    id: FactorId,
    dependencies: Seq<BlockId>,
) -> Result<CaptureView<R>, FactorFault<W>> {
    let unknown = earliest(
        Seq::new(
            dependencies.len(),
            |i: int|
                if position(view.blocks, dependencies[i]) is None {
                    Some(FactorFault::<W>::UnknownVariable(dependencies[i]))
                } else {
                    None
                },
        ),
    );
    match unknown {
        Some(fault) => Err(fault),
        None => Ok(
            CaptureView {
                scopes: view.scopes.push(
                    ScopeView { id, dependencies, residuals: Seq::empty(), seen: false },
                ),
                ..view
            },
        ),
    }
}

/// A capture of variables, before any factor is declared.
pub open spec fn blank_spec<R>(blocks: Seq<BlockId>, widths: Seq<usize>) -> CaptureView<R> {
    CaptureView { blocks, widths, scopes: Seq::empty() }
}

impl<R: Real> Capture<R> {
    fn blank(blocks: &[BlockId], widths: &[usize]) -> (capture: Self)
        requires
            blocks@.len() == widths@.len(),
        ensures
            capture.wf(),
            capture@ == blank_spec::<R>(blocks@, widths@),
    {
        let mut copy: Vec<BlockId> = Vec::new();
        let mut sizes: Vec<usize> = Vec::new();
        let mut i: usize = 0;
        while i < blocks.len()
            invariant
                i <= blocks@.len(),
                blocks@.len() == widths@.len(),
                copy@ == blocks@.take(i as int),
                sizes@ == widths@.take(i as int),
            decreases blocks@.len() - i,
        {
            copy.push(blocks[i]);
            sizes.push(widths[i]);
            i += 1;
        }
        let capture = Capture { blocks: copy, widths: sizes, scopes: Vec::new() };
        assert(capture@ =~= blank_spec::<R>(blocks@, widths@));
        capture
    }

    fn declare<W>(&mut self, id: FactorId, dependencies: Vec<BlockId>) -> (fault: Option<
        FactorFault<W>,
    >)
        requires
            old(self).wf(),
        ensures
            final(self).wf(),
            match fault {
                Some(fault) => declared_spec::<R, W>(old(self)@, id, dependencies@) == Err::<
                    CaptureView<R>,
                    FactorFault<W>,
                >(fault),
                None => declared_spec::<R, W>(old(self)@, id, dependencies@) == Ok::<
                    CaptureView<R>,
                    FactorFault<W>,
                >(final(self)@),
            },
    {
        let ghost before = self@;
        let ghost listed = dependencies@;
        let ghost faults = Seq::new(
            listed.len(),
            |i: int|
                if position(before.blocks, listed[i]) is None {
                    Some(FactorFault::<W>::UnknownVariable(listed[i]))
                } else {
                    None
                },
        );
        let mut i: usize = 0;
        while i < dependencies.len()
            invariant
                i <= dependencies@.len(),
                listed == dependencies@,
                self.wf(),
                self@ == before,
                *self == *old(self),
                faults == Seq::new(
                    listed.len(),
                    |i: int|
                        if position(before.blocks, listed[i]) is None {
                            Some(FactorFault::<W>::UnknownVariable(listed[i]))
                        } else {
                            None
                        },
                ),
                forall|j: int| 0 <= j < i ==> (#[trigger] faults[j]) is None,
            decreases dependencies@.len() - i,
        {
            assert(faults[i as int] == if position(before.blocks, listed[i as int]) is None {
                Some(FactorFault::<W>::UnknownVariable(listed[i as int]))
            } else {
                None
            });
            if find(self.blocks.as_slice(), dependencies[i]).is_none() {
                proof {
                    lemma_earliest(faults, i as int);
                }
                return Some(FactorFault::UnknownVariable(dependencies[i]));
            }
            i += 1;
        }
        proof {
            lemma_no_fault(faults);
        }
        let scope = Scope { id, dependencies, residuals: Vec::new(), seen: false };
        assert(scope@ =~= (ScopeView {
            id,
            dependencies: listed,
            residuals: Seq::empty(),
            seen: false,
        }));
        self.scopes.push(scope);
        assert(self@.scopes =~= before.scopes.push(scope@));
        None
    }
}

/// Cost and capture of an ordinary factor.
pub open spec fn ordinary_spec<S: StateSchema, F: Factor<S>, W>(
    blocks: Seq<BlockId>,
    widths: Seq<usize>,
    reading: S::Reading,
    factor: F,
    id: FactorId,
) -> Result<(F::Scalar, CaptureView<F::Scalar>), FactorFault<W>> {
    match declared_spec::<F::Scalar, W>(blank_spec(blocks, widths), id, factor.variables_spec()) {
        Err(fault) => Err(fault),
        Ok(view) => match factor.cost_spec(reading) {
            Err(error) => Err(FactorFault::Evaluation(error)),
            Ok(cost) => {
                let emitted = factor.linearize_spec(reading, accepting());
                let events = seq![EventView::Open(id)] + emitted.events + seq![
                    EventView::Close(emitted.outcome),
                ];
                match recorded_spec::<F::Scalar, W>(view, events) {
                    Err(fault) => Err(fault),
                    Ok(capture) => Ok((cost, capture)),
                }
            },
        },
    }
}

/// Evaluate an ordinary factor against the variables of a case.
pub fn ordinary<S: StateSchema, F: Factor<S>, W>(
    states: &TestStates<S>,
    factor: &F,
    id: FactorId,
) -> (evaluated: Result<(F::Scalar, Capture<F::Scalar>), FactorFault<W>>)
    requires
        states.wf(),
    ensures
        match evaluated {
            Err(fault) => ordinary_spec::<S, F, W>(
                states.blocks@,
                states.widths@,
                states.states.reading(),
                *factor,
                id,
            ) == Err::<(F::Scalar, CaptureView<F::Scalar>), FactorFault<W>>(fault),
            Ok((cost, capture)) => capture.wf() && ordinary_spec::<S, F, W>(
                states.blocks@,
                states.widths@,
                states.states.reading(),
                *factor,
                id,
            ) == Ok::<_, FactorFault<W>>((cost, capture@)),
        },
{
    let mut capture = Capture::<F::Scalar>::blank(
        states.blocks.as_slice(),
        states.widths.as_slice(),
    );
    let mut dependencies: Vec<BlockId> = Vec::new();
    factor.visit_variables(&mut dependencies);
    assert(dependencies@ =~= factor.variables_spec());
    match capture.declare::<W>(id, dependencies) {
        Some(fault) => {
            return Err(fault);
        },
        None => {},
    }
    let cost = match factor.cost(&states.states) {
        Ok(cost) => cost,
        Err(error) => {
            return Err(FactorFault::Evaluation(error));
        },
    };
    let mut transcript = Transcript::<F::Scalar>::new();
    let _ = transcript.open(id);
    let outcome = factor.linearize(&states.states, &mut transcript);
    let _ = transcript.close(outcome);
    proof {
        let emitted = factor.linearize_spec(states.states.reading(), accepting());
        assert(transcript@ =~= seq![EventView::Open(id)] + emitted.events + seq![
            EventView::Close(emitted.outcome),
        ]);
    }
    match capture.record::<W>(&transcript) {
        Some(fault) => Err(fault),
        None => Ok((cost, capture)),
    }
}

/// Which factors of a batch are evaluated.
#[derive(Debug, Clone, Copy, PartialEq, Eq, Structural)]
pub enum Selection {
    All,
    Empty,
    One(usize),
}

/// Identities of the payloads of a case.
pub open spec fn payload_keys(n: nat) -> Seq<LocalKey> {
    Seq::new(n, |i: int| LocalKey { slot: i as u32, generation: 0 })
}

/// The selected payloads with their identities.
pub open spec fn selected_spec<F>(pool: PoolId, payloads: Seq<F>, selection: Selection) -> Option<
    Seq<(FactorId, F)>,
> {
    let all = identified(pool, payload_keys(payloads.len()), payloads);
    match selection {
        Selection::All => Some(all),
        Selection::Empty => Some(Seq::empty()),
        Selection::One(i) => if i < payloads.len() {
            Some(seq![all[i as int]])
        } else {
            None
        },
    }
}

/// A capture in which the first `n` selected factors of a batch are declared.
pub open spec fn declared_all_spec<S: StateSchema, M: FactorBatch<S>, W>(
    view: CaptureView<M::Scalar>,
    model: M,
    selected: Seq<(FactorId, M::Factor)>,
    n: int,
) -> Result<CaptureView<M::Scalar>, FactorFault<W>>
    decreases n,
{
    if n <= 0 {
        Ok(view)
    } else {
        match declared_all_spec::<S, M, W>(view, model, selected, n - 1) {
            Err(fault) => Err(fault),
            Ok(reached) => declared_spec::<M::Scalar, W>(
                reached,
                selected[n - 1].0,
                model.variables_spec(selected[n - 1].1),
            ),
        }
    }
}

proof fn lemma_declared_stuck<S: StateSchema, M: FactorBatch<S>, W>(
    view: CaptureView<M::Scalar>,
    model: M,
    selected: Seq<(FactorId, M::Factor)>,
    k: int,
    n: int,
)
    requires
        0 <= k <= n,
        declared_all_spec::<S, M, W>(view, model, selected, k) is Err,
    ensures
        declared_all_spec::<S, M, W>(view, model, selected, n) == declared_all_spec::<S, M, W>(
            view,
            model,
            selected,
            k,
        ),
    decreases n - k,
{
    if k < n {
        lemma_declared_stuck::<S, M, W>(view, model, selected, k, n - 1);
    }
}

/// Cost and capture of a selection of a batch.
pub open spec fn batch_spec<S: StateSchema, M: FactorBatch<S>, W>(
    blocks: Seq<BlockId>,
    widths: Seq<usize>,
    reading: S::Reading,
    model: M,
    payloads: Seq<M::Factor>,
    pool: PoolId,
    selection: Selection,
) -> Result<(M::Scalar, CaptureView<M::Scalar>), FactorFault<W>> {
    match selected_spec(pool, payloads, selection) {
        None => Err(FactorFault::Evaluation(EvaluationError::InvalidEmission)),
        Some(selected) => match declared_all_spec::<S, M, W>(
            blank_spec(blocks, widths),
            model,
            selected,
            selected.len() as int,
        ) {
            Err(fault) => Err(fault),
            Ok(view) => match model.cost_spec(reading, selected) {
                Err(error) => Err(FactorFault::Evaluation(error)),
                Ok(cost) => {
                    let emitted = model.linearize_spec(reading, selected, accepting());
                    match recorded_spec::<M::Scalar, W>(view, emitted.events) {
                        Err(fault) => Err(fault),
                        Ok(capture) => match emitted.outcome {
                            Err(error) => Err(FactorFault::Evaluation(error)),
                            Ok(_) => Ok((cost, capture)),
                        },
                    }
                },
            },
        },
    }
}

fn local_keys(n: usize) -> (keys: Vec<LocalKey>)
    requires
        n <= u32::MAX,
    ensures
        keys@ == payload_keys(n as nat),
{
    let mut keys: Vec<LocalKey> = Vec::new();
    let mut i: usize = 0;
    while i < n
        invariant
            i <= n <= u32::MAX,
            keys@.len() == i,
            forall|j: int|
                0 <= j < i ==> #[trigger] keys@[j] == (LocalKey { slot: j as u32, generation: 0 }),
        decreases n - i,
    {
        keys.push(LocalKey { slot: i as u32, generation: 0 });
        i += 1;
    }
    keys
}

fn select<'a, F>(pool: PoolId, keys: &'a [LocalKey], payloads: &'a [F], selection: Selection) -> (
    selected: Option<FactorSelection<'a, F>>)
    requires
        keys@ == payload_keys(payloads@.len()),
    ensures
        match selected {
            Some(selected) => selected.wf() && selected_spec(pool, payloads@, selection) == Some(
                selected.remaining(),
            ),
            None => selected_spec(pool, payloads@, selection) is None,
        },
{
    let (start, end): (usize, usize) = match selection {
        Selection::All => (0, payloads.len()),
        Selection::Empty => (0, 0),
        Selection::One(i) => {
            if i >= payloads.len() {
                return None;
            }
            (i, i + 1)
        },
    };
    let part = slice_subrange(payloads, start, end);
    let selected = FactorSelection::contiguous(pool, slice_subrange(keys, start, end), part);
    proof {
        let all = identified(pool, payload_keys(payloads@.len()), payloads@);
        assert(selected.remaining() =~= all.subrange(start as int, end as int));
        assert(selected_spec(pool, payloads@, selection)->0 =~= all.subrange(
            start as int,
            end as int,
        ));
    }
    Some(selected)
}

fn declare_all<S: StateSchema, M: FactorBatch<S>, W>(
    capture: &mut Capture<M::Scalar>,
    model: &M,
    selected: FactorSelection<'_, M::Factor>,
) -> (fault: Option<FactorFault<W>>)
    requires
        old(capture).wf(),
        selected.wf(),
    ensures
        final(capture).wf(),
        ({
            let expected = declared_all_spec::<S, M, W>(
                old(capture)@,
                *model,
                selected.remaining(),
                selected.remaining().len() as int,
            );
            match fault {
                Some(fault) => expected == Err::<CaptureView<M::Scalar>, FactorFault<W>>(fault),
                None => expected == Ok::<CaptureView<M::Scalar>, FactorFault<W>>(final(capture)@),
            }
        }),
{
    let ghost listed = selected.remaining();
    let ghost start = capture@;
    let mut rest = selected;
    let ghost mut n: int = 0;
    loop
        invariant
            0 <= n <= listed.len(),
            rest.wf(),
            capture.wf(),
            listed == selected.remaining(),
            rest.remaining() == listed.skip(n),
            start == old(capture)@,
            declared_all_spec::<S, M, W>(start, *model, listed, n) == Ok::<
                CaptureView<M::Scalar>,
                FactorFault<W>,
            >(capture@),
        ensures
            n == listed.len(),
        decreases listed.len() - n,
    {
        match rest.next() {
            None => {
                break;
            },
            Some((id, payload)) => {
                assert(listed.skip(n)[0] == listed[n]);
                assert(listed.skip(n).skip(1) =~= listed.skip(n + 1));
                let mut dependencies: Vec<BlockId> = Vec::new();
                model.visit_variables(payload, &mut dependencies);
                assert(dependencies@ =~= model.variables_spec(*payload));
                let fault = capture.declare::<W>(id, dependencies);
                if fault.is_some() {
                    proof {
                        lemma_declared_stuck::<S, M, W>(
                            start,
                            *model,
                            listed,
                            n + 1,
                            listed.len() as int,
                        );
                    }
                    return fault;
                }
                proof {
                    n = n + 1;
                }
            },
        }
    }
    None
}

/// Evaluate a selection of a batch against the variables of a case.
pub fn batch<S: StateSchema, M: FactorBatch<S>, W>(
    states: &TestStates<S>,
    model: &M,
    payloads: &[M::Factor],
    pool: PoolId,
    selection: Selection,
) -> (evaluated: Result<(M::Scalar, Capture<M::Scalar>), FactorFault<W>>)
    requires
        states.wf(),
        payloads@.len() <= u32::MAX,
    ensures
        ({
            let expected = batch_spec::<S, M, W>(
                states.blocks@,
                states.widths@,
                states.states.reading(),
                *model,
                payloads@,
                pool,
                selection,
            );
            match evaluated {
                Err(fault) => expected == Err::<
                    (M::Scalar, CaptureView<M::Scalar>),
                    FactorFault<W>,
                >(fault),
                Ok((cost, capture)) => capture.wf() && expected == Ok::<_, FactorFault<W>>(
                    (cost, capture@),
                ),
            }
        }),
{
    let keys = local_keys(payloads.len());
    let selected = match select(pool, keys.as_slice(), payloads, selection) {
        Some(selected) => selected,
        None => {
            return Err(FactorFault::Evaluation(EvaluationError::InvalidEmission));
        },
    };
    let mut capture = Capture::<M::Scalar>::blank(
        states.blocks.as_slice(),
        states.widths.as_slice(),
    );
    match declare_all::<S, M, W>(&mut capture, model, selected.duplicate()) {
        Some(fault) => {
            return Err(fault);
        },
        None => {},
    }
    let cost = match model.cost(&states.states, selected.duplicate()) {
        Ok(cost) => cost,
        Err(error) => {
            return Err(FactorFault::Evaluation(error));
        },
    };
    let mut transcript = Transcript::<M::Scalar>::new();
    let outcome = model.linearize(&states.states, selected, &mut transcript);
    assert(transcript@ =~= model.linearize_spec(
        states.states.reading(),
        selected.remaining(),
        accepting(),
    ).events);
    match capture.record::<W>(&transcript) {
        Some(fault) => {
            return Err(fault);
        },
        None => {},
    }
    match outcome {
        Ok(_) => Ok((cost, capture)),
        Err(error) => Err(FactorFault::Evaluation(error)),
    }
}

/// The fault of comparing two coefficients of factors.
pub open spec fn agree_spec<W: Real>(
    t: Tolerance<W>,
    check: FactorCheck,
    actual: W,
    expected: W,
) -> Option<FactorFault<W>> {
    if t.close_spec(actual, expected) {
        None
    } else {
        Some(FactorFault::Coefficients { check, actual, expected })
    }
}

fn agree<W: Real>(t: Tolerance<W>, check: FactorCheck, actual: W, expected: W) -> (fault: Option<
    FactorFault<W>,
>)
    ensures
        fault == agree_spec(t, check, actual, expected),
{
    if t.close(actual, expected) {
        None
    } else {
        Some(FactorFault::Coefficients { check, actual, expected })
    }
}

/// A sum continued by half the squares of the first `n` values. Each is halved before it is
/// squared, as the square may overflow where its half does not.
pub open spec fn squares_spec<R: TestScalar>(sum: R::Wide, values: Seq<R>, n: int) -> R::Wide
    decreases n,
{
    if n <= 0 {
        sum
    } else {
        let value = values[n - 1].test_value_spec();
        squares_spec::<R>(sum, values, n - 1).plus_spec(
            R::Wide::ratio_spec(1, 2).times_spec(value).times_spec(value),
        )
    }
}

/// A sum continued over the first `n` residuals.
pub open spec fn residual_squares_spec<R: TestScalar>(
    sum: R::Wide,
    residuals: Seq<RecordedView<R>>,
    n: int,
) -> R::Wide
    decreases n,
{
    if n <= 0 {
        sum
    } else {
        let values = residuals[n - 1].values;
        squares_spec(
            residual_squares_spec(sum, residuals, n - 1),
            values,
            values.len() as int,
        )
    }
}

/// The least-squares objective of the first `n` scopes.
pub open spec fn objective_spec<R: TestScalar>(scopes: Seq<ScopeView<R>>, n: int) -> R::Wide
    decreases n,
{
    if n <= 0 {
        R::Wide::zero_spec()
    } else {
        let residuals = scopes[n - 1].residuals;
        residual_squares_spec(
            objective_spec(scopes, n - 1),
            residuals,
            residuals.len() as int,
        )
    }
}

fn squares<R: TestScalar>(sum: R::Wide, values: &[R]) -> (total: R::Wide)
    ensures
        total == squares_spec(sum, values@, values@.len() as int),
{
    let mut total = sum;
    let mut i: usize = 0;
    while i < values.len()
        invariant
            i <= values@.len(),
            total == squares_spec(sum, values@, i as int),
        decreases values@.len() - i,
    {
        let value = values[i].test_value();
        total = total.plus(R::Wide::ratio(1, 2).times(value).times(value));
        i += 1;
    }
    total
}

fn residual_squares<R: TestScalar>(sum: R::Wide, scope: &Scope<R>) -> (total: R::Wide)
    ensures
        total == residual_squares_spec(sum, scope@.residuals, scope@.residuals.len() as int),
{
    let mut total = sum;
    let mut i: usize = 0;
    while i < scope.residuals.len()
        invariant
            i <= scope.residuals@.len(),
            total == residual_squares_spec(sum, scope@.residuals, i as int),
        decreases scope.residuals@.len() - i,
    {
        assert(scope@.residuals[i as int].values == scope.residuals@[i as int].values@);
        total = squares(total, scope.residuals[i].values.as_slice());
        i += 1;
    }
    total
}

/// The fault of a cost: it is finite and nonnegative and, unless only the local model counts,
/// the least-squares objective of the emitted residuals.
pub open spec fn cost_fault_spec<R: TestScalar>(
    value: R,
    view: CaptureView<R>,
    t: Tolerance<R::Wide>,
    local: bool,
) -> Option<FactorFault<R::Wide>> {
    let value = value.test_value_spec();
    if !(value.finite_spec() && R::Wide::zero_spec().at_most_spec(value)) {
        Some(FactorFault::InvalidCost(value))
    } else if local {
        None
    } else {
        agree_spec(
            t,
            FactorCheck::CostOfResiduals,
            value,
            objective_spec(view.scopes, view.scopes.len() as int),
        )
    }
}

/// Check a cost against the emitted residuals.
pub fn cost_fault<R: TestScalar>(
    value: R,
    capture: &Capture<R>,
    t: Tolerance<R::Wide>,
    local: bool,
) -> (fault: Option<FactorFault<R::Wide>>)
    ensures
        fault == cost_fault_spec(value, capture@, t, local),
{
    let value = value.test_value();
    if !(value.is_finite() && R::Wide::zero().at_most(value)) {
        return Some(FactorFault::InvalidCost(value));
    }
    if local {
        return None;
    }
    let mut total = R::Wide::zero();
    let mut i: usize = 0;
    while i < capture.scopes.len()
        invariant
            i <= capture.scopes@.len(),
            total == objective_spec(capture@.scopes, i as int),
        decreases capture.scopes@.len() - i,
    {
        assert(capture@.scopes[i as int] == capture.scopes@[i as int]@);
        total = residual_squares(total, &capture.scopes[i]);
        i += 1;
    }
    agree(t, FactorCheck::CostOfResiduals, value, total)
}

/// Residual and row within it of every emitted row of the first `n` residuals.
pub open spec fn rows_spec<R>(residuals: Seq<RecordedView<R>>, n: int) -> Seq<(int, int)>
    decreases n,
{
    if n <= 0 {
        Seq::empty()
    } else {
        rows_spec(residuals, n - 1) + Seq::new(
            residuals[n - 1].values.len(),
            |row: int| (n - 1, row),
        )
    }
}

impl<R> ScopeView<R> {
    /// Residual and row within it of every emitted row.
    pub open spec fn rows(self) -> Seq<(int, int)> {
        rows_spec(self.residuals, self.residuals.len() as int)
    }

    /// Value of an emitted row.
    pub open spec fn value(self, at: (int, int)) -> R {
        self.residuals[at.0].values[at.1]
    }
}

/// Pairs of machine integers as mathematical ones.
pub open spec fn places(rows: Seq<(usize, usize)>) -> Seq<(int, int)> {
    Seq::new(rows.len(), |i: int| (rows[i].0 as int, rows[i].1 as int))
}

/// The rows of a scope lie within its residuals.
proof fn lemma_rows<R>(residuals: Seq<RecordedView<R>>, n: int, i: int)
    requires
        0 <= n <= residuals.len(),
        0 <= i < rows_spec(residuals, n).len(),
    ensures
        0 <= rows_spec(residuals, n)[i].0 < n,
        0 <= rows_spec(residuals, n)[i].1 < residuals[rows_spec(residuals, n)[i].0].values.len(),
    decreases n,
{
    if n > 0 && i < rows_spec(residuals, n - 1).len() {
        lemma_rows(residuals, n - 1, i);
    }
}

impl<R: Real> Scope<R> {
    fn rows(&self) -> (rows: Vec<(usize, usize)>)
        ensures
            places(rows@) == self@.rows(),
    {
        let mut rows: Vec<(usize, usize)> = Vec::new();
        let mut i: usize = 0;
        assert(places(rows@) =~= rows_spec(self@.residuals, 0));
        while i < self.residuals.len()
            invariant
                i <= self.residuals@.len(),
                places(rows@) == rows_spec(self@.residuals, i as int),
            decreases self.residuals@.len() - i,
        {
            let ghost before = places(rows@);
            let n: usize = self.residuals[i].values.len();
            let mut row: usize = 0;
            assert(places(rows@) =~= before + Seq::new(0, |row: int| (i as int, row)));
            while row < n
                invariant
                    row <= n,
                    places(rows@) == before + Seq::new(row as nat, |row: int| (i as int, row)),
                decreases n - row,
            {
                let ghost listed = rows@;
                rows.push((i, row));
                assert(places(rows@) =~= places(listed).push((i as int, row as int)));
                row += 1;
                assert(places(rows@) =~= before + Seq::new(
                    row as nat,
                    |row: int| (i as int, row),
                ));
            }
            i += 1;
            assert(places(rows@) =~= rows_spec(self@.residuals, i as int));
        }
        rows
    }
}

/// An emitted derivative; a variable without a Jacobian block, and a coefficient that the block
/// does not have, contribute nothing.
pub open spec fn derivative_spec<R: TestScalar>(
    residual: RecordedView<R>,
    id: BlockId,
    row: int,
    column: int,
) -> R::Wide {
    let ids = Seq::new(residual.jacobians.len(), |k: int| residual.jacobians[k].variable);
    match position(ids, id) {
        Some(k) => {
            let block = residual.jacobians[k];
            if block.wf() && row < block.rows && column < block.cols {
                block.entry(row, column).test_value_spec()
            } else {
                R::Wide::zero_spec()
            }
        },
        None => R::Wide::zero_spec(),
    }
}

impl<R: TestScalar> Recorded<R> {
    fn derivative(&self, id: BlockId, row: usize, column: usize) -> (value: R::Wide)
        ensures
            value == derivative_spec(self@, id, row as int, column as int),
    {
        let ghost ids = Seq::new(self@.jacobians.len(), |k: int| self@.jacobians[k].variable);
        let mut k: usize = 0;
        while k < self.jacobians.len()
            invariant
                k <= self.jacobians@.len(),
                ids == Seq::new(self@.jacobians.len(), |k: int| self@.jacobians[k].variable),
                forall|j: int| 0 <= j < k ==> #[trigger] ids[j] != id,
            decreases self.jacobians@.len() - k,
        {
            let block = &self.jacobians[k];
            assert(ids[k as int] == block.variable);
            if block.variable == id {
                proof {
                    lemma_position(ids, id, k as int);
                }
                if shaped(block) && row < block.rows && column < block.cols {
                    return block.entry(row, column).test_value();
                }
                return R::Wide::zero();
            }
            k += 1;
        }
        R::Wide::zero()
    }
}

/// The expected derivative of a row in the direction of a seed.
pub open spec fn seeded_slope_spec<R: TestScalar>(
    view: CaptureView<R>,
    scope: int,
    at: (int, int),
    seed: Option<(usize, usize)>,
) -> R::Wide {
    match seed {
        Some((variable, column)) => derivative_spec(
            view.scopes[scope].residuals[at.0],
            view.blocks[variable as int],
            at.1,
            column as int,
        ),
        None => R::Wide::zero_spec(),
    }
}

/// The fault of one row of a dual evaluation.
pub open spec fn dual_row_spec<R: TestScalar>(
    plain: CaptureView<R>,
    dual: CaptureView<R::Dual>,
    scope: int,
    i: int,
    seed: Option<(usize, usize)>,
    t: Tolerance<R::Wide>,
    local: bool,
) -> Option<FactorFault<R::Wide>> {
    let place = plain.scopes[scope].rows()[i];
    let (primal, slope) = R::parts_spec(
        dual.scopes[scope].value(dual.scopes[scope].rows()[i]),
    );
    either(
        agree_spec(
            t,
            FactorCheck::DualResidual,
            primal,
            plain.scopes[scope].value(place).test_value_spec(),
        ),
        if local {
            None
        } else {
            agree_spec(
                t,
                FactorCheck::DualDerivative,
                slope,
                seeded_slope_spec(plain, scope, place, seed),
            )
        },
    )
}

/// The fault of one scope of a dual evaluation.
pub open spec fn dual_scope_spec<R: TestScalar>(
    plain: CaptureView<R>,
    dual: CaptureView<R::Dual>,
    scope: int,
    seed: Option<(usize, usize)>,
    t: Tolerance<R::Wide>,
    local: bool,
) -> Option<FactorFault<R::Wide>> {
    if plain.scopes[scope].id != dual.scopes[scope].id {
        Some(FactorFault::ScopesChanged)
    } else if plain.scopes[scope].rows().len() != dual.scopes[scope].rows().len() {
        Some(FactorFault::ResidualsChanged)
    } else {
        earliest(
            Seq::new(
                plain.scopes[scope].rows().len(),
                |i: int| dual_row_spec(plain, dual, scope, i, seed, t, local),
            ),
        )
    }
}

/// A sum continued by residual times derivative over the first `n` rows of a scope.
pub open spec fn scope_slope_spec<R: TestScalar>(
    view: CaptureView<R>,
    scope: int,
    seed: Option<(usize, usize)>,
    sum: R::Wide,
    n: int,
) -> R::Wide
    decreases n,
{
    if n <= 0 {
        sum
    } else {
        let place = view.scopes[scope].rows()[n - 1];
        scope_slope_spec(view, scope, seed, sum, n - 1).plus_spec(
            view.scopes[scope].value(place).test_value_spec().times_spec(
                seeded_slope_spec(view, scope, place, seed),
            ),
        )
    }
}

/// Derivative of the objective of the first `n` scopes in the direction of a seed.
pub open spec fn slope_spec<R: TestScalar>(
    view: CaptureView<R>,
    seed: Option<(usize, usize)>,
    n: int,
) -> R::Wide
    decreases n,
{
    if n <= 0 {
        R::Wide::zero_spec()
    } else {
        scope_slope_spec(
            view,
            n - 1,
            seed,
            slope_spec(view, seed, n - 1),
            view.scopes[n - 1].rows().len() as int,
        )
    }
}

/// The fault of a dual evaluation against the real one: residuals agree and, unless only the
/// local model counts, so do their derivatives; the cost has the gradient that residuals and
/// Jacobians imply.
pub open spec fn dual_fault_spec<R: TestScalar>(
    plain_cost: R,
    plain: CaptureView<R>,
    dual_cost: R::Dual,
    dual: CaptureView<R::Dual>,
    seed: Option<(usize, usize)>,
    t: Tolerance<R::Wide>,
    local: bool,
) -> Option<FactorFault<R::Wide>> {
    if plain.widths != dual.widths {
        Some(FactorFault::LayoutChanged)
    } else if plain.scopes.len() != dual.scopes.len() {
        Some(FactorFault::ScopesChanged)
    } else {
        let (primal, slope) = R::parts_spec(dual_cost);
        either(
            earliest(
                Seq::new(
                    plain.scopes.len(),
                    |scope: int| dual_scope_spec(plain, dual, scope, seed, t, local),
                ),
            ),
            either(
                agree_spec(t, FactorCheck::DualCost, primal, plain_cost.test_value_spec()),
                agree_spec(
                    t,
                    FactorCheck::DualCostDerivative,
                    slope,
                    slope_spec(plain, seed, plain.scopes.len() as int),
                ),
            ),
        )
    }
}

fn seeded_slope<R: TestScalar>(
    capture: &Capture<R>,
    scope: usize,
    place: (usize, usize),
    seed: Option<(usize, usize)>,
) -> (slope: R::Wide)
    requires
        scope < capture.scopes@.len(),
        place.0 < capture.scopes@[scope as int].residuals@.len(),
        seed matches Some((variable, _)) ==> variable < capture.blocks@.len(),
    ensures
        slope == seeded_slope_spec(
            capture@,
            scope as int,
            (place.0 as int, place.1 as int),
            seed,
        ),
{
    match seed {
        Some((variable, column)) => capture.scopes[scope].residuals[place.0].derivative(
            capture.blocks[variable],
            place.1,
            column,
        ),
        None => R::Wide::zero(),
    }
}

fn dual_row<R: TestScalar>(
    plain: &Capture<R>,
    dual: &Capture<R::Dual>,
    scope: usize,
    rows: &[(usize, usize)],
    dual_rows: &[(usize, usize)],
    i: usize,
    seed: Option<(usize, usize)>,
    t: Tolerance<R::Wide>,
    local: bool,
) -> (fault: Option<FactorFault<R::Wide>>)
    requires
        scope < plain.scopes@.len(),
        scope < dual.scopes@.len(),
        places(rows@) == plain@.scopes[scope as int].rows(),
        places(dual_rows@) == dual@.scopes[scope as int].rows(),
        i < rows@.len(),
        i < dual_rows@.len(),
        seed matches Some((variable, _)) ==> variable < plain.blocks@.len(),
    ensures
        fault == dual_row_spec(plain@, dual@, scope as int, i as int, seed, t, local),
{
    let place = rows[i];
    let other = dual_rows[i];
    proof {
        let residuals = plain@.scopes[scope as int].residuals;
        lemma_rows(residuals, residuals.len() as int, i as int);
        assert(places(rows@)[i as int] == (place.0 as int, place.1 as int));
        let residuals = dual@.scopes[scope as int].residuals;
        lemma_rows(residuals, residuals.len() as int, i as int);
        assert(places(dual_rows@)[i as int] == (other.0 as int, other.1 as int));
    }
    let value = plain.scopes[scope].residuals[place.0].values[place.1].test_value();
    let (primal, slope) = R::parts(dual.scopes[scope].residuals[other.0].values[other.1]);
    let fault = agree(t, FactorCheck::DualResidual, primal, value);
    if fault.is_some() || local {
        return fault;
    }
    let expected = seeded_slope(plain, scope, place, seed);
    agree(t, FactorCheck::DualDerivative, slope, expected)
}

fn dual_scope<R: TestScalar>(
    plain: &Capture<R>,
    dual: &Capture<R::Dual>,
    scope: usize,
    seed: Option<(usize, usize)>,
    t: Tolerance<R::Wide>,
    local: bool,
) -> (fault: Option<FactorFault<R::Wide>>)
    requires
        scope < plain.scopes@.len(),
        scope < dual.scopes@.len(),
        seed matches Some((variable, _)) ==> variable < plain.blocks@.len(),
    ensures
        fault == dual_scope_spec(plain@, dual@, scope as int, seed, t, local),
{
    if plain.scopes[scope].id != dual.scopes[scope].id {
        return Some(FactorFault::ScopesChanged);
    }
    let rows = plain.scopes[scope].rows();
    let dual_rows = dual.scopes[scope].rows();
    assert(places(rows@).len() == rows@.len() && places(dual_rows@).len() == dual_rows@.len());
    if rows.len() != dual_rows.len() {
        return Some(FactorFault::ResidualsChanged);
    }
    let ghost faults = Seq::new(
        plain@.scopes[scope as int].rows().len(),
        |i: int| dual_row_spec(plain@, dual@, scope as int, i, seed, t, local),
    );
    let mut i: usize = 0;
    while i < rows.len()
        invariant
            i <= rows@.len(),
            scope < plain.scopes@.len(),
            scope < dual.scopes@.len(),
            seed matches Some((variable, _)) ==> variable < plain.blocks@.len(),
            rows@.len() == dual_rows@.len(),
            places(rows@) == plain@.scopes[scope as int].rows(),
            places(dual_rows@) == dual@.scopes[scope as int].rows(),
            plain@.scopes[scope as int].id == dual@.scopes[scope as int].id,
            places(rows@).len() == rows@.len(),
            places(dual_rows@).len() == dual_rows@.len(),
            faults == Seq::new(
                plain@.scopes[scope as int].rows().len(),
                |i: int| dual_row_spec(plain@, dual@, scope as int, i, seed, t, local),
            ),
            forall|j: int| 0 <= j < i ==> (#[trigger] faults[j]) is None,
        decreases rows@.len() - i,
    {
        let fault = dual_row(
            plain,
            dual,
            scope,
            rows.as_slice(),
            dual_rows.as_slice(),
            i,
            seed,
            t,
            local,
        );
        assert(fault == faults[i as int]);
        if fault.is_some() {
            proof {
                lemma_earliest(faults, i as int);
            }
            return fault;
        }
        i += 1;
    }
    proof {
        lemma_no_fault(faults);
    }
    None
}

fn scope_slope<R: TestScalar>(
    capture: &Capture<R>,
    scope: usize,
    seed: Option<(usize, usize)>,
    sum: R::Wide,
) -> (slope: R::Wide)
    requires
        scope < capture.scopes@.len(),
        seed matches Some((variable, _)) ==> variable < capture.blocks@.len(),
    ensures
        slope == scope_slope_spec(
            capture@,
            scope as int,
            seed,
            sum,
            capture@.scopes[scope as int].rows().len() as int,
        ),
{
    let rows = capture.scopes[scope].rows();
    assert(places(rows@).len() == rows@.len());
    let mut slope = sum;
    let mut i: usize = 0;
    while i < rows.len()
        invariant
            i <= rows@.len(),
            scope < capture.scopes@.len(),
            seed matches Some((variable, _)) ==> variable < capture.blocks@.len(),
            places(rows@) == capture@.scopes[scope as int].rows(),
            places(rows@).len() == rows@.len(),
            slope == scope_slope_spec(capture@, scope as int, seed, sum, i as int),
        decreases rows@.len() - i,
    {
        let place = rows[i];
        proof {
            let residuals = capture@.scopes[scope as int].residuals;
            lemma_rows(residuals, residuals.len() as int, i as int);
            assert(places(rows@)[i as int] == (place.0 as int, place.1 as int));
        }
        let value = capture.scopes[scope].residuals[place.0].values[place.1].test_value();
        slope = slope.plus(value.times(seeded_slope(capture, scope, place, seed)));
        i += 1;
    }
    slope
}

fn same_widths(left: &[usize], right: &[usize]) -> (same: bool)
    ensures
        same == (left@ == right@),
{
    if left.len() != right.len() {
        return false;
    }
    let mut i: usize = 0;
    while i < left.len()
        invariant
            i <= left@.len(),
            left@.len() == right@.len(),
            forall|j: int| 0 <= j < i ==> #[trigger] left@[j] == right@[j],
        decreases left@.len() - i,
    {
        if left[i] != right[i] {
            return false;
        }
        i += 1;
    }
    assert(left@ =~= right@);
    true
}

/// Check a dual evaluation against the real one.
pub fn dual_fault<R: TestScalar>(
    plain_cost: R,
    plain: &Capture<R>,
    dual_cost: R::Dual,
    dual: &Capture<R::Dual>,
    seed: Option<(usize, usize)>,
    t: Tolerance<R::Wide>,
    local: bool,
) -> (fault: Option<FactorFault<R::Wide>>)
    requires
        seed matches Some((variable, _)) ==> variable < plain.blocks@.len(),
    ensures
        fault == dual_fault_spec(plain_cost, plain@, dual_cost, dual@, seed, t, local),
{
    if !same_widths(plain.widths.as_slice(), dual.widths.as_slice()) {
        return Some(FactorFault::LayoutChanged);
    }
    if plain.scopes.len() != dual.scopes.len() {
        return Some(FactorFault::ScopesChanged);
    }
    let ghost faults = Seq::new(
        plain@.scopes.len(),
        |scope: int| dual_scope_spec(plain@, dual@, scope, seed, t, local),
    );
    let mut expected = R::Wide::zero();
    let mut i: usize = 0;
    while i < plain.scopes.len()
        invariant
            i <= plain.scopes@.len(),
            plain.scopes@.len() == dual.scopes@.len(),
            plain@.widths == dual@.widths,
            seed matches Some((variable, _)) ==> variable < plain.blocks@.len(),
            expected == slope_spec(plain@, seed, i as int),
            faults == Seq::new(
                plain@.scopes.len(),
                |scope: int| dual_scope_spec(plain@, dual@, scope, seed, t, local),
            ),
            forall|j: int| 0 <= j < i ==> (#[trigger] faults[j]) is None,
        decreases plain.scopes@.len() - i,
    {
        let fault = dual_scope(plain, dual, i, seed, t, local);
        assert(fault == faults[i as int]);
        if fault.is_some() {
            proof {
                lemma_earliest(faults, i as int);
            }
            return fault;
        }
        expected = scope_slope(plain, i, seed, expected);
        i += 1;
    }
    proof {
        lemma_no_fault(faults);
    }
    let (primal, slope) = R::parts(dual_cost);
    let fault = agree(t, FactorCheck::DualCost, primal, plain_cost.test_value());
    if fault.is_some() {
        return fault;
    }
    agree(t, FactorCheck::DualCostDerivative, slope, expected)
}

/// The fault of one derivative of a row in two evaluations.
pub open spec fn same_column_spec<R: TestScalar>(
    full: CaptureView<R>,
    left: RecordedView<R>,
    right: RecordedView<R>,
    rows: (int, int),
    variable: int,
    column: int,
    t: Tolerance<R::Wide>,
) -> Option<FactorFault<R::Wide>> {
    agree_spec(
        t,
        FactorCheck::SelectedJacobian,
        derivative_spec(left, full.blocks[variable], rows.0, column),
        derivative_spec(right, full.blocks[variable], rows.1, column),
    )
}

/// The fault of the derivatives of a row for one variable.
pub open spec fn same_variable_spec<R: TestScalar>(
    full: CaptureView<R>,
    left: RecordedView<R>,
    right: RecordedView<R>,
    rows: (int, int),
    variable: int,
    t: Tolerance<R::Wide>,
) -> Option<FactorFault<R::Wide>> {
    earliest(
        Seq::new(
            full.widths[variable] as nat,
            |column: int| same_column_spec(full, left, right, rows, variable, column, t),
        ),
    )
}

/// The fault of one row in two evaluations.
pub open spec fn same_row_spec<R: TestScalar>(
    full: CaptureView<R>,
    left: RecordedView<R>,
    right: RecordedView<R>,
    rows: (int, int),
    t: Tolerance<R::Wide>,
) -> Option<FactorFault<R::Wide>> {
    either(
        agree_spec(
            t,
            FactorCheck::SelectedResidual,
            left.values[rows.0].test_value_spec(),
            right.values[rows.1].test_value_spec(),
        ),
        earliest(
            Seq::new(
                full.widths.len(),
                |variable: int| same_variable_spec(full, left, right, rows, variable, t),
            ),
        ),
    )
}

/// The fault of one scope of a selection against the full evaluation.
pub open spec fn same_scope_spec<R: TestScalar>(
    full: CaptureView<R>,
    scope: ScopeView<R>,
    t: Tolerance<R::Wide>,
) -> Option<FactorFault<R::Wide>> {
    match position(full.ids(), scope.id) {
        None => Some(FactorFault::ScopesChanged),
        Some(k) => {
            let original = full.scopes[k];
            if original.rows().len() != scope.rows().len() {
                Some(FactorFault::ResidualsChanged)
            } else {
                earliest(
                    Seq::new(
                        scope.rows().len(),
                        |i: int|
                            same_row_spec(
                                full,
                                original.residuals[original.rows()[i].0],
                                scope.residuals[scope.rows()[i].0],
                                (original.rows()[i].1, scope.rows()[i].1),
                                t,
                            ),
                    ),
                )
            }
        },
    }
}

/// The fault of a selection against the full evaluation: each selected factor has the same
/// linearization in both.
pub open spec fn selection_fault_spec<R: TestScalar>(
    full: CaptureView<R>,
    part: CaptureView<R>,
    t: Tolerance<R::Wide>,
) -> Option<FactorFault<R::Wide>> {
    if full.widths != part.widths {
        Some(FactorFault::LayoutChanged)
    } else {
        earliest(
            Seq::new(part.scopes.len(), |i: int| same_scope_spec(full, part.scopes[i], t)),
        )
    }
}

fn same_variable<R: TestScalar>(
    full: &Capture<R>,
    left: &Recorded<R>,
    right: &Recorded<R>,
    rows: (usize, usize),
    variable: usize,
    t: Tolerance<R::Wide>,
) -> (fault: Option<FactorFault<R::Wide>>)
    requires
        full.wf(),
        variable < full.blocks@.len(),
    ensures
        fault == same_variable_spec(
            full@,
            left@,
            right@,
            (rows.0 as int, rows.1 as int),
            variable as int,
            t,
        ),
{
    let ghost at = (rows.0 as int, rows.1 as int);
    let ghost faults = Seq::new(
        full@.widths[variable as int] as nat,
        |column: int| same_column_spec(full@, left@, right@, at, variable as int, column, t),
    );
    let width: usize = full.widths[variable];
    let id = full.blocks[variable];
    let mut column: usize = 0;
    while column < width
        invariant
            column <= width,
            width == full@.widths[variable as int],
            id == full@.blocks[variable as int],
            at == (rows.0 as int, rows.1 as int),
            faults == Seq::new(
                full@.widths[variable as int] as nat,
                |column: int|
                    same_column_spec(full@, left@, right@, at, variable as int, column, t),
            ),
            forall|j: int| 0 <= j < column ==> (#[trigger] faults[j]) is None,
        decreases width - column,
    {
        let fault = agree(
            t,
            FactorCheck::SelectedJacobian,
            left.derivative(id, rows.0, column),
            right.derivative(id, rows.1, column),
        );
        assert(fault == faults[column as int]);
        if fault.is_some() {
            proof {
                lemma_earliest(faults, column as int);
            }
            return fault;
        }
        column += 1;
    }
    proof {
        lemma_no_fault(faults);
    }
    None
}

fn same_row<R: TestScalar>(
    full: &Capture<R>,
    left: &Recorded<R>,
    right: &Recorded<R>,
    rows: (usize, usize),
    t: Tolerance<R::Wide>,
) -> (fault: Option<FactorFault<R::Wide>>)
    requires
        full.wf(),
        rows.0 < left.values@.len(),
        rows.1 < right.values@.len(),
    ensures
        fault == same_row_spec(full@, left@, right@, (rows.0 as int, rows.1 as int), t),
{
    let fault = agree(
        t,
        FactorCheck::SelectedResidual,
        left.values[rows.0].test_value(),
        right.values[rows.1].test_value(),
    );
    if fault.is_some() {
        return fault;
    }
    let ghost at = (rows.0 as int, rows.1 as int);
    let ghost faults = Seq::new(
        full@.widths.len(),
        |variable: int| same_variable_spec(full@, left@, right@, at, variable, t),
    );
    let mut variable: usize = 0;
    while variable < full.widths.len()
        invariant
            variable <= full.widths@.len(),
            full.wf(),
            at == (rows.0 as int, rows.1 as int),
            agree_spec(
                t,
                FactorCheck::SelectedResidual,
                left@.values[at.0].test_value_spec(),
                right@.values[at.1].test_value_spec(),
            ) is None,
            faults == Seq::new(
                full@.widths.len(),
                |variable: int| same_variable_spec(full@, left@, right@, at, variable, t),
            ),
            forall|j: int| 0 <= j < variable ==> (#[trigger] faults[j]) is None,
        decreases full.widths@.len() - variable,
    {
        let fault = same_variable(full, left, right, rows, variable, t);
        assert(fault == faults[variable as int]);
        if fault.is_some() {
            proof {
                lemma_earliest(faults, variable as int);
            }
            return fault;
        }
        variable += 1;
    }
    proof {
        lemma_no_fault(faults);
    }
    None
}

fn same_scope<R: TestScalar>(full: &Capture<R>, scope: &Scope<R>, t: Tolerance<R::Wide>) -> (fault:
    Option<FactorFault<R::Wide>>)
    requires
        full.wf(),
    ensures
        fault == same_scope_spec(full@, scope@, t),
{
    let k: usize = match full.find_scope(scope.id) {
        Some(k) => k,
        None => {
            return Some(FactorFault::ScopesChanged);
        },
    };
    let original = &full.scopes[k];
    let left_rows = original.rows();
    let right_rows = scope.rows();
    assert(places(left_rows@).len() == left_rows@.len());
    assert(places(right_rows@).len() == right_rows@.len());
    assert(full@.scopes[k as int] == original@);
    if left_rows.len() != right_rows.len() {
        return Some(FactorFault::ResidualsChanged);
    }
    let ghost faults = Seq::new(
        scope@.rows().len(),
        |i: int|
            same_row_spec(
                full@,
                original@.residuals[original@.rows()[i].0],
                scope@.residuals[scope@.rows()[i].0],
                (original@.rows()[i].1, scope@.rows()[i].1),
                t,
            ),
    );
    assert(same_scope_spec(full@, scope@, t) == earliest(faults));
    let mut i: usize = 0;
    while i < right_rows.len()
        invariant
            i <= right_rows@.len(),
            full.wf(),
            left_rows@.len() == right_rows@.len(),
            places(left_rows@) == original@.rows(),
            places(right_rows@) == scope@.rows(),
            places(left_rows@).len() == left_rows@.len(),
            places(right_rows@).len() == right_rows@.len(),
            same_scope_spec(full@, scope@, t) == earliest(faults),
            faults == Seq::new(
                scope@.rows().len(),
                |i: int|
                    same_row_spec(
                        full@,
                        original@.residuals[original@.rows()[i].0],
                        scope@.residuals[scope@.rows()[i].0],
                        (original@.rows()[i].1, scope@.rows()[i].1),
                        t,
                    ),
            ),
            forall|j: int| 0 <= j < i ==> (#[trigger] faults[j]) is None,
        decreases right_rows@.len() - i,
    {
        let left = left_rows[i];
        let right = right_rows[i];
        proof {
            lemma_rows(original@.residuals, original@.residuals.len() as int, i as int);
            lemma_rows(scope@.residuals, scope@.residuals.len() as int, i as int);
            assert(places(left_rows@)[i as int] == (left.0 as int, left.1 as int));
            assert(places(right_rows@)[i as int] == (right.0 as int, right.1 as int));
        }
        let fault = same_row(
            full,
            &original.residuals[left.0],
            &scope.residuals[right.0],
            (left.1, right.1),
            t,
        );
        assert(fault == faults[i as int]);
        if fault.is_some() {
            proof {
                lemma_earliest(faults, i as int);
            }
            return fault;
        }
        i += 1;
    }
    proof {
        lemma_no_fault(faults);
    }
    None
}

/// Check that a selection describes the same linearizations as the full evaluation.
pub fn selection_fault<R: TestScalar>(
    full: &Capture<R>,
    part: &Capture<R>,
    t: Tolerance<R::Wide>,
) -> (fault: Option<FactorFault<R::Wide>>)
    requires
        full.wf(),
    ensures
        fault == selection_fault_spec(full@, part@, t),
{
    if !same_widths(full.widths.as_slice(), part.widths.as_slice()) {
        return Some(FactorFault::LayoutChanged);
    }
    let ghost faults = Seq::new(
        part@.scopes.len(),
        |i: int| same_scope_spec(full@, part@.scopes[i], t),
    );
    let mut i: usize = 0;
    while i < part.scopes.len()
        invariant
            i <= part.scopes@.len(),
            full.wf(),
            full@.widths == part@.widths,
            faults == Seq::new(
                part@.scopes.len(),
                |i: int| same_scope_spec(full@, part@.scopes[i], t),
            ),
            forall|j: int| 0 <= j < i ==> (#[trigger] faults[j]) is None,
        decreases part.scopes@.len() - i,
    {
        let fault = same_scope(full, &part.scopes[i], t);
        assert(fault == faults[i as int]);
        if fault.is_some() {
            proof {
                lemma_earliest(faults, i as int);
            }
            return fault;
        }
        i += 1;
    }
    proof {
        lemma_no_fault(faults);
    }
    None
}

/// Separately examined factor properties, shared by ordinary factors and batches.
#[derive(Debug, Clone, Copy, PartialEq, Eq, Structural)]
pub enum FactorProperty {
    /// A finite, nonnegative cost that is the emitted least-squares objective.
    Cost,
    /// Emitted Jacobians against dual residual derivatives in right coordinates.
    Jacobians,
    /// The true cost gradient against the emitted one, also under reweighting. Emitted residuals
    /// are not differentiated, nor compared with the cost.
    LocalModel,
}

/// One case, which can be evaluated for selections of its factors, over real numbers and over
/// dual numbers with one seeded coordinate.
pub trait Evaluation<R: TestScalar> {
    spec fn evaluate_spec(&self, selection: Selection) -> Result<
        (R, CaptureView<R>),
        FactorFault<R::Wide>,
    >;

    spec fn lifted_spec(&self, selection: Selection, seed: Option<(usize, usize)>) -> Result<
        (R::Dual, CaptureView<R::Dual>),
        FactorFault<R::Wide>,
    >;

    /// Evaluate a selection.
    fn evaluate(&self, selection: Selection) -> (evaluated: Result<
        (R, Capture<R>),
        FactorFault<R::Wide>,
    >)
        ensures
            match evaluated {
                Ok((cost, capture)) => capture.wf() && self.evaluate_spec(selection) == Ok::<
                    _,
                    FactorFault<R::Wide>,
                >((cost, capture@)),
                Err(fault) => self.evaluate_spec(selection) == Err::<
                    (R, CaptureView<R>),
                    FactorFault<R::Wide>,
                >(fault),
            },
    ;

    /// Evaluate a selection with dual numbers.
    fn lifted(&self, selection: Selection, seed: Option<(usize, usize)>) -> (evaluated: Result<
        (R::Dual, Capture<R::Dual>),
        FactorFault<R::Wide>,
    >)
        ensures
            match evaluated {
                Ok((cost, capture)) => self.lifted_spec(selection, seed) == Ok::<
                    _,
                    FactorFault<R::Wide>,
                >((cost, capture@)),
                Err(fault) => self.lifted_spec(selection, seed) == Err::<
                    (R::Dual, CaptureView<R::Dual>),
                    FactorFault<R::Wide>,
                >(fault),
            },
    ;
}

/// The fault of one dual evaluation of a selection.
pub open spec fn seed_spec<R: TestScalar, E: Evaluation<R>>(
    case: E,
    selection: Selection,
    cost: R,
    view: CaptureView<R>,
    seed: Option<(usize, usize)>,
    t: Tolerance<R::Wide>,
    local: bool,
) -> Option<FactorFault<R::Wide>> {
    match case.lifted_spec(selection, seed) {
        Err(fault) => Some(fault),
        Ok((value, dual)) => dual_fault_spec(cost, view, value, dual, seed, t, local),
    }
}

/// The fault of the dual evaluations seeded in one variable.
pub open spec fn variable_seeds_spec<R: TestScalar, E: Evaluation<R>>(
    case: E,
    selection: Selection,
    cost: R,
    view: CaptureView<R>,
    variable: int,
    t: Tolerance<R::Wide>,
    local: bool,
) -> Option<FactorFault<R::Wide>> {
    earliest(
        Seq::new(
            view.widths[variable] as nat,
            |column: int|
                seed_spec::<R, E>(
                    case,
                    selection,
                    cost,
                    view,
                    Some((variable as usize, column as usize)),
                    t,
                    local,
                ),
        ),
    )
}

/// The fault of all dual evaluations: one without a seed, then one for each coordinate.
pub open spec fn seeds_spec<R: TestScalar, E: Evaluation<R>>(
    case: E,
    selection: Selection,
    cost: R,
    view: CaptureView<R>,
    t: Tolerance<R::Wide>,
    local: bool,
) -> Option<FactorFault<R::Wide>> {
    either(
        seed_spec::<R, E>(case, selection, cost, view, None, t, local),
        earliest(
            Seq::new(
                view.widths.len(),
                |variable: int|
                    variable_seeds_spec::<R, E>(
                        case,
                        selection,
                        cost,
                        view,
                        variable,
                        t,
                        local,
                    ),
            ),
        ),
    )
}

fn seed_fault<R: TestScalar, E: Evaluation<R>>(
    case: &E,
    selection: Selection,
    cost: R,
    capture: &Capture<R>,
    seed: Option<(usize, usize)>,
    t: Tolerance<R::Wide>,
    local: bool,
) -> (fault: Option<FactorFault<R::Wide>>)
    requires
        seed matches Some((variable, _)) ==> variable < capture.blocks@.len(),
    ensures
        fault == seed_spec::<R, E>(*case, selection, cost, capture@, seed, t, local),
{
    match case.lifted(selection, seed) {
        Err(fault) => Some(fault),
        Ok((value, dual)) => dual_fault(cost, capture, value, &dual, seed, t, local),
    }
}

fn variable_seeds<R: TestScalar, E: Evaluation<R>>(
    case: &E,
    selection: Selection,
    cost: R,
    capture: &Capture<R>,
    variable: usize,
    t: Tolerance<R::Wide>,
    local: bool,
) -> (fault: Option<FactorFault<R::Wide>>)
    requires
        capture.wf(),
        variable < capture.blocks@.len(),
    ensures
        fault == variable_seeds_spec::<R, E>(
            *case,
            selection,
            cost,
            capture@,
            variable as int,
            t,
            local,
        ),
{
    let ghost faults = Seq::new(
        capture@.widths[variable as int] as nat,
        |column: int|
            seed_spec::<R, E>(
                *case,
                selection,
                cost,
                capture@,
                Some((variable as int as usize, column as usize)),
                t,
                local,
            ),
    );
    let width: usize = capture.widths[variable];
    let mut column: usize = 0;
    while column < width
        invariant
            column <= width,
            width == capture@.widths[variable as int],
            variable < capture.blocks@.len(),
            faults == Seq::new(
                capture@.widths[variable as int] as nat,
                |column: int|
                    seed_spec::<R, E>(
                        *case,
                        selection,
                        cost,
                        capture@,
                        Some((variable as int as usize, column as usize)),
                        t,
                        local,
                    ),
            ),
            forall|j: int| 0 <= j < column ==> (#[trigger] faults[j]) is None,
        decreases width - column,
    {
        let seed = Some((variable, column));
        let fault = seed_fault(case, selection, cost, capture, seed, t, local);
        assert(fault == faults[column as int]);
        if fault.is_some() {
            proof {
                lemma_earliest(faults, column as int);
            }
            return fault;
        }
        column += 1;
    }
    proof {
        lemma_no_fault(faults);
    }
    None
}

fn seeds<R: TestScalar, E: Evaluation<R>>(
    case: &E,
    selection: Selection,
    cost: R,
    capture: &Capture<R>,
    t: Tolerance<R::Wide>,
    local: bool,
) -> (fault: Option<FactorFault<R::Wide>>)
    requires
        capture.wf(),
    ensures
        fault == seeds_spec::<R, E>(*case, selection, cost, capture@, t, local),
{
    let fault = seed_fault(case, selection, cost, capture, None, t, local);
    if fault.is_some() {
        return fault;
    }
    let ghost faults = Seq::new(
        capture@.widths.len(),
        |variable: int|
            variable_seeds_spec::<R, E>(*case, selection, cost, capture@, variable, t, local),
    );
    let mut variable: usize = 0;
    while variable < capture.widths.len()
        invariant
            variable <= capture.widths@.len(),
            capture.wf(),
            seed_spec::<R, E>(*case, selection, cost, capture@, None, t, local) is None,
            faults == Seq::new(
                capture@.widths.len(),
                |variable: int|
                    variable_seeds_spec::<R, E>(
                        *case,
                        selection,
                        cost,
                        capture@,
                        variable,
                        t,
                        local,
                    ),
            ),
            forall|j: int| 0 <= j < variable ==> (#[trigger] faults[j]) is None,
        decreases capture.widths@.len() - variable,
    {
        let fault = variable_seeds(case, selection, cost, capture, variable, t, local);
        assert(fault == faults[variable as int]);
        if fault.is_some() {
            proof {
                lemma_earliest(faults, variable as int);
            }
            return fault;
        }
        variable += 1;
    }
    proof {
        lemma_no_fault(faults);
    }
    None
}

/// The fault of a proper selection: its own cost and duals, its agreement with the full
/// evaluation, and no cost where nothing is selected.
pub open spec fn part_spec<R: TestScalar, E: Evaluation<R>>(
    case: E,
    full: CaptureView<R>,
    selection: Selection,
    property: FactorProperty,
    t: Tolerance<R::Wide>,
) -> Option<FactorFault<R::Wide>> {
    let local = property is LocalModel;
    match case.evaluate_spec(selection) {
        Err(fault) => Some(fault),
        Ok((cost, view)) => either(
            cost_fault_spec(cost, view, t, local),
            either(
                selection_fault_spec(full, view, t),
                either(
                    if selection is Empty {
                        agree_spec(
                            t,
                            FactorCheck::EmptyCost,
                            cost.test_value_spec(),
                            R::Wide::zero_spec(),
                        )
                    } else {
                        None
                    },
                    if property is Cost {
                        None
                    } else {
                        seeds_spec::<R, E>(case, selection, cost, view, t, local)
                    },
                ),
            ),
        ),
    }
}

/// Summed costs of the first `n` factors selected one at a time.
pub open spec fn singles_spec<R: TestScalar, E: Evaluation<R>>(case: E, n: int) -> R::Wide
    decreases n,
{
    if n <= 0 {
        R::Wide::zero_spec()
    } else {
        singles_spec::<R, E>(case, n - 1).plus_spec(
            case.evaluate_spec(Selection::One((n - 1) as usize))->Ok_0.0.test_value_spec(),
        )
    }
}

/// The fault of the empty selection and of every factor selected alone.
pub open spec fn parts_spec<R: TestScalar, E: Evaluation<R>>(
    case: E,
    full_cost: R,
    full: CaptureView<R>,
    property: FactorProperty,
    t: Tolerance<R::Wide>,
) -> Option<FactorFault<R::Wide>> {
    either(
        part_spec::<R, E>(case, full, Selection::Empty, property, t),
        either(
            earliest(
                Seq::new(
                    full.scopes.len(),
                    |i: int|
                        part_spec::<R, E>(case, full, Selection::One(i as usize), property, t),
                ),
            ),
            agree_spec(
                t,
                FactorCheck::SummedCost,
                full_cost.test_value_spec(),
                singles_spec::<R, E>(case, full.scopes.len() as int),
            ),
        ),
    )
}

/// The fault of one case of a factor or a batch.
pub open spec fn case_spec<R: TestScalar, E: Evaluation<R>>(
    case: E,
    batched: bool,
    property: FactorProperty,
    t: Tolerance<R::Wide>,
) -> Option<FactorFault<R::Wide>> {
    let local = property is LocalModel;
    match case.evaluate_spec(Selection::All) {
        Err(fault) => Some(fault),
        Ok((cost, full)) => either(
            cost_fault_spec(cost, full, t, local),
            either(
                if property is Cost {
                    None
                } else {
                    seeds_spec::<R, E>(case, Selection::All, cost, full, t, local)
                },
                if batched {
                    parts_spec::<R, E>(case, cost, full, property, t)
                } else {
                    None
                },
            ),
        ),
    }
}

fn part<R: TestScalar, E: Evaluation<R>>(
    case: &E,
    full: &Capture<R>,
    selection: Selection,
    property: FactorProperty,
    t: Tolerance<R::Wide>,
) -> (checked: Result<R, FactorFault<R::Wide>>)
    requires
        full.wf(),
    ensures
        match checked {
            Ok(cost) => {
                &&& part_spec::<R, E>(*case, full@, selection, property, t) is None
                &&& case.evaluate_spec(selection) is Ok
                &&& case.evaluate_spec(selection)->Ok_0.0 == cost
            },
            Err(fault) => part_spec::<R, E>(*case, full@, selection, property, t) == Some(fault),
        },
{
    let local = property == FactorProperty::LocalModel;
    let (cost, capture) = case.evaluate(selection)?;
    match cost_fault(cost, &capture, t, local) {
        Some(fault) => {
            return Err(fault);
        },
        None => {},
    }
    match selection_fault(full, &capture, t) {
        Some(fault) => {
            return Err(fault);
        },
        None => {},
    }
    if selection == Selection::Empty {
        match agree(t, FactorCheck::EmptyCost, cost.test_value(), R::Wide::zero()) {
            Some(fault) => {
                return Err(fault);
            },
            None => {},
        }
    }
    if property != FactorProperty::Cost {
        match seeds(case, selection, cost, &capture, t, local) {
            Some(fault) => {
                return Err(fault);
            },
            None => {},
        }
    }
    Ok(cost)
}

fn parts<R: TestScalar, E: Evaluation<R>>(
    case: &E,
    full_cost: R,
    full: &Capture<R>,
    property: FactorProperty,
    t: Tolerance<R::Wide>,
) -> (fault: Option<FactorFault<R::Wide>>)
    requires
        full.wf(),
    ensures
        fault == parts_spec::<R, E>(*case, full_cost, full@, property, t),
{
    match part(case, full, Selection::Empty, property, t) {
        Err(fault) => {
            return Some(fault);
        },
        Ok(_) => {},
    }
    let ghost faults = Seq::new(
        full@.scopes.len(),
        |i: int| part_spec::<R, E>(*case, full@, Selection::One(i as usize), property, t),
    );
    let mut sum = R::Wide::zero();
    let mut i: usize = 0;
    while i < full.scopes.len()
        invariant
            i <= full.scopes@.len(),
            full.wf(),
            part_spec::<R, E>(*case, full@, Selection::Empty, property, t) is None,
            sum == singles_spec::<R, E>(*case, i as int),
            faults == Seq::new(
                full@.scopes.len(),
                |i: int| part_spec::<R, E>(*case, full@, Selection::One(i as usize), property, t),
            ),
            forall|j: int| 0 <= j < i ==> (#[trigger] faults[j]) is None,
        decreases full.scopes@.len() - i,
    {
        match part(case, full, Selection::One(i), property, t) {
            Ok(cost) => {
                assert(faults[i as int] is None);
                sum = sum.plus(cost.test_value());
            },
            Err(fault) => {
                assert(faults[i as int] == Some(fault));
                proof {
                    lemma_earliest(faults, i as int);
                }
                return Some(fault);
            },
        }
        i += 1;
    }
    proof {
        lemma_no_fault(faults);
    }
    agree(t, FactorCheck::SummedCost, full_cost.test_value(), sum)
}

/// Examine one property of one case, for a batch also on the empty selection and on every
/// factor alone.
pub fn check_case<R: TestScalar, E: Evaluation<R>>(
    case: &E,
    batched: bool,
    property: FactorProperty,
    t: Tolerance<R::Wide>,
) -> (fault: Option<FactorFault<R::Wide>>)
    ensures
        fault == case_spec::<R, E>(*case, batched, property, t),
{
    let local = property == FactorProperty::LocalModel;
    let (cost, full) = match case.evaluate(Selection::All) {
        Ok(evaluated) => evaluated,
        Err(fault) => {
            return Some(fault);
        },
    };
    let fault = cost_fault(cost, &full, t, local);
    if fault.is_some() {
        return fault;
    }
    if property != FactorProperty::Cost {
        let fault = seeds(case, Selection::All, cost, &full, t, local);
        if fault.is_some() {
            return fault;
        }
    }
    if batched {
        parts(case, cost, &full, property, t)
    } else {
        None
    }
}

/// The fault of cases examined in order.
pub open spec fn cases_spec<R: TestScalar, E: Evaluation<R>>(
    cases: Seq<E>,
    batched: bool,
    property: FactorProperty,
    t: Tolerance<R::Wide>,
) -> Option<FactorFault<R::Wide>> {
    earliest(Seq::new(cases.len(), |i: int| case_spec::<R, E>(cases[i], batched, property, t)))
}

fn check_cases<R: TestScalar, E: Evaluation<R>>(
    cases: &[E],
    batched: bool,
    property: FactorProperty,
    t: Tolerance<R::Wide>,
) -> (fault: Option<FactorFault<R::Wide>>)
    ensures
        fault == cases_spec::<R, E>(cases@, batched, property, t),
{
    let ghost faults = Seq::new(
        cases@.len(),
        |i: int| case_spec::<R, E>(cases@[i], batched, property, t),
    );
    let mut i: usize = 0;
    while i < cases.len()
        invariant
            i <= cases@.len(),
            faults == Seq::new(
                cases@.len(),
                |i: int| case_spec::<R, E>(cases@[i], batched, property, t),
            ),
            forall|j: int| 0 <= j < i ==> (#[trigger] faults[j]) is None,
        decreases cases@.len() - i,
    {
        let fault = check_case(&cases[i], batched, property, t);
        assert(fault == faults[i as int]);
        if fault.is_some() {
            proof {
                lemma_earliest(faults, i as int);
            }
            return fault;
        }
        i += 1;
    }
    proof {
        lemma_no_fault(faults);
    }
    None
}

/// Examine one property of an ordinary factor on some cases. The first fault decides.
pub fn check_factor<R: TestScalar, E: Evaluation<R>>(
    cases: &[E],
    property: FactorProperty,
    t: Tolerance<R::Wide>,
) -> (fault: Option<FactorFault<R::Wide>>)
    ensures
        fault == cases_spec::<R, E>(cases@, false, property, t),
{
    check_cases(cases, false, property, t)
}

/// Examine one property of a batch on some cases, each with the full, the empty and every
/// single selection. The first fault decides.
pub fn check_factor_batch<R: TestScalar, E: Evaluation<R>>(
    cases: &[E],
    property: FactorProperty,
    t: Tolerance<R::Wide>,
) -> (fault: Option<FactorFault<R::Wide>>)
    ensures
        fault == cases_spec::<R, E>(cases@, true, property, t),
{
    check_cases(cases, true, property, t)
}

} // verus!
