//! Variables of several types, stored family by family.
use crate::backend::{all_finite, finite_values};
use crate::error::{EvaluationError, KeyError, SolverError};
use crate::index::KeySet;
use crate::dense::Slot;
use crate::key::{BlockId, LocalKey, PoolId, RawKey, StateKey};
use crate::layout::{Block, Layout};
use crate::pair::{Nothing, Pair};
use crate::reading::Readable;
use crate::scalar::Real;
use crate::storage::{retracted, Anchor, StatePool};
use crate::variable::Variable;
use vstd::prelude::*;
use vstd::slice::slice_subrange;

verus! {

/// Total width of a list of variables.
#[verifier::opaque]
pub open spec fn width_sum(blocks: Seq<(BlockId, nat)>) -> nat
    decreases blocks.len(),
{
    if blocks.len() == 0 {
        0
    } else {
        width_sum(blocks.drop_last()) + blocks.last().1
    }
}

/// Coordinates given to variables one after the other, from `offset` on.
pub open spec fn placed(blocks: Seq<(BlockId, nat)>, offset: nat) -> Seq<Block> {
    Seq::new(
        blocks.len(),
        |i: int|
            Block {
                id: blocks[i].0,
                offset: (offset + width_sum(blocks.take(i))) as usize,
                width: blocks[i].1 as usize,
            },
    )
}

/// The place of each listed variable.
pub open spec fn positions(blocks: Seq<(BlockId, nat)>) -> Map<RawKey, usize> {
    Map::new(
        |key: RawKey| exists|i: int| 0 <= i < blocks.len() && (#[trigger] blocks[i]).0.raw == key,
        |key: RawKey|
            (choose|i: int| 0 <= i < blocks.len() && (#[trigger] blocks[i]).0.raw == key) as usize,
    )
}

/// A layout indexes the variables placed in it by their place.
pub proof fn lemma_positions(layout: &Layout, blocks: Seq<(BlockId, nat)>)
    requires
        layout.blocks_wf(),
        layout.blocks@ == placed(blocks, 0),
    ensures
        layout.block_index@ == positions(blocks),
{
    let index = layout.block_index@;
    assert forall|key: RawKey| #[trigger] index.contains_key(key) <==> positions(
        blocks,
    ).contains_key(key) by {
        if index.contains_key(key) {
            let i = index[key] as int;
            assert(layout.blocks@[i].id.raw == key);
            assert(blocks[i].0.raw == key);
        }
        if positions(blocks).contains_key(key) {
            let i = choose|i: int| 0 <= i < blocks.len() && (#[trigger] blocks[i]).0.raw == key;
            assert(layout.blocks@[i].id.raw == key);
        }
    }
    assert forall|key: RawKey| #[trigger] index.contains_key(key) implies index[key] == positions(
        blocks,
    )[key] by {
        let i = choose|i: int| 0 <= i < blocks.len() && (#[trigger] blocks[i]).0.raw == key;
        assert(positions(blocks).contains_key(key));
        assert(layout.blocks@[i].id.raw == key);
    }
    assert(index =~= positions(blocks));
}

pub proof fn lemma_width_sum_add(a: Seq<(BlockId, nat)>, b: Seq<(BlockId, nat)>)
    ensures
        width_sum(a + b) == width_sum(a) + width_sum(b),
    decreases b.len(),
{
    reveal(width_sum);
    if b.len() == 0 {
        assert(a + b =~= a);
    } else {
        lemma_width_sum_add(a, b.drop_last());
        assert((a + b).drop_last() =~= a + b.drop_last());
    }
}

proof fn lemma_width_sum_equal(blocks: Seq<(BlockId, nat)>, width: nat)
    requires
        forall|i: int| 0 <= i < blocks.len() ==> (#[trigger] blocks[i]).1 == width,
    ensures
        width_sum(blocks) == blocks.len() * width,
    decreases blocks.len(),
{
    reveal(width_sum);
    if blocks.len() > 0 {
        lemma_width_sum_equal(blocks.drop_last(), width);
        let n = blocks.len();
        assert((n - 1) * width + width == n * width) by (nonlinear_arith);
    }
}

pub proof fn lemma_width_sum_prefix(blocks: Seq<(BlockId, nat)>, i: int)
    requires
        0 <= i <= blocks.len(),
    ensures
        width_sum(blocks.take(i)) <= width_sum(blocks),
        i < blocks.len() ==> width_sum(blocks.take(i + 1)) == width_sum(blocks.take(i))
            + blocks[i].1,
{
    assert(blocks =~= blocks.take(i) + blocks.skip(i));
    lemma_width_sum_add(blocks.take(i), blocks.skip(i));
    if i < blocks.len() {
        reveal(width_sum);
        assert(blocks.take(i + 1).drop_last() =~= blocks.take(i));
    }
}

/// A prior's reference to a variable, without the estimate it keeps.
pub struct AnchorTag {
    pub prior: RawKey,
    pub state: RawKey,
    pub column: usize,
}

/// The references of one prior.
pub open spec fn tags_of(tags: Seq<AnchorTag>, prior: RawKey) -> Seq<AnchorTag> {
    tags.filter(|tag: AnchorTag| tag.prior == prior)
}

/// The references of all priors but some.
pub open spec fn tags_except(tags: Seq<AnchorTag>, priors: Set<RawKey>) -> Seq<AnchorTag> {
    tags.filter(|tag: AnchorTag| !priors.contains(tag.prior))
}

/// How far a variable has moved from a prior's reference, and for derivatives the
/// matrix that maps its increments into the prior's coordinates.
pub struct AnchorDelta<R> {
    pub prior: RawKey,
    pub column: usize,
    pub delta: Vec<R>,
    pub chart: Vec<R>,
}

/// The mathematical content of an [`AnchorDelta`].
#[verifier::ext_equal]
pub struct AnchorView<R> {
    pub prior: RawKey,
    pub column: usize,
    pub delta: Seq<R>,
    pub chart: Seq<R>,
}

impl<R> View for AnchorDelta<R> {
    type V = AnchorView<R>;

    open spec fn view(&self) -> AnchorView<R> {
        AnchorView {
            prior: self.prior,
            column: self.column,
            delta: self.delta@,
            chart: self.chart@,
        }
    }
}

/// The mathematical contents of a list of movements.
pub open spec fn anchor_views<R>(deltas: Seq<AnchorDelta<R>>) -> Seq<AnchorView<R>> {
    Seq::new(deltas.len(), |i: int| deltas[i]@)
}

/// Whether a prior takes part: all of them do unless some are selected.
pub open spec fn chosen(selected: Option<Set<RawKey>>, prior: RawKey) -> bool {
    match selected {
        None => true,
        Some(priors) => priors.contains(prior),
    }
}

/// The set behind an optional selection.
pub open spec fn selected_set(selected: Option<&KeySet>) -> Option<Set<RawKey>> {
    match selected {
        None => None,
        Some(priors) => Some(priors@),
    }
}

/// Whether a prior takes part.
pub fn is_chosen(selected: Option<&KeySet>, prior: RawKey) -> (r: bool)
    requires
        selected matches Some(priors) ==> priors.wf(),
    ensures
        r == chosen(selected_set(selected), prior),
{
    match selected {
        None => true,
        Some(priors) => priors.contains(prior),
    }
}

/// Families of variables that a graph is built over.
///
/// Traversals visit the families in one fixed order and the variables of each in
/// dense order. Estimates, identities and prior anchors are separate concerns:
/// every operation says which of them it touches.
pub trait StateSchema: Readable + Sized {
    /// Scalar shared by all families.
    type Scalar: Real;

    /// One estimate for every variable.
    type Estimates;

    /// The references of all priors, with the estimates they keep.
    type References;

    /// No trial is staged.
    spec fn idle(&self) -> bool;

    spec fn pools(&self) -> Set<PoolId>;

    /// Live variables and their widths in traversal order.
    spec fn blocks(&self) -> Seq<(BlockId, nat)>;

    spec fn accepted(&self) -> Self::Estimates;

    spec fn current(&self) -> Self::Estimates;

    /// The accepted estimates moved by an increment.
    spec fn moved(&self, delta: Seq<Self::Scalar>) -> Self::Estimates;

    /// Identities and prior anchors are those of `other`.
    spec fn same_graph(&self, other: &Self) -> bool;

    /// Identities, and the anchors of priors outside `except`, are those of `other`.
    spec fn agrees(&self, other: &Self, except: Set<RawKey>) -> bool;

    spec fn anchored(&self) -> Seq<AnchorTag>;

    spec fn references(&self) -> Self::References;

    /// The references with those of a new prior, which keep the current estimate of every
    /// variable in the layout that is not about to be removed.
    spec fn captured(
        &self,
        prior: RawKey,
        layout: &Layout,
        remove: Set<RawKey>,
        offset: int,
    ) -> Self::References;

    /// The references of all priors but some.
    spec fn left(references: Self::References, priors: Set<RawKey>) -> Self::References;

    spec fn resolve_spec(&self, id: BlockId) -> Option<Result<(), KeyError>>;

    /// A fault among some identities: one that was retired or never issued. The first family
    /// that knows of one counts, and in it the first in the list.
    spec fn fault_spec(&self, ids: Seq<BlockId>) -> Option<KeyError>;

    spec fn deltas_spec(&self, selected: Option<Set<RawKey>>, derivatives: bool) -> Result<
        Seq<AnchorView<Self::Scalar>>,
        SolverError,
    >;

    /// Priors fail to move by a handle or an evaluation only.
    proof fn lemma_delta_errors(&self, selected: Option<Set<RawKey>>, derivatives: bool)
        ensures
            self.deltas_spec(selected, derivatives) matches Err(error) ==> error is Key
                || error is Evaluation,
    ;

    /// Every graph agrees with itself.
    proof fn lemma_reflexive(&self, except: Set<RawKey>)
        ensures
            self.agrees(self, except),
            self.same_graph(self),
            self.keeps_estimates(self),
    ;

    /// Where an increment leads depends on the accepted estimates alone.
    proof fn lemma_moved(&self, other: &Self, delta: Seq<Self::Scalar>)
        requires
            self.same_graph(other),
            self.accepted() == other.accepted(),
        ensures
            self.blocks() == other.blocks(),
            self.moved(delta) == other.moved(delta),
    ;

    /// Readers see the accepted estimates unless a trial is staged.
    proof fn lemma_idle(&self)
        requires
            self.idle(),
        ensures
            self.current() == self.accepted(),
    ;

    /// Being the same graph is an equivalence.
    proof fn lemma_same_graph(a: &Self, b: &Self, c: &Self)
        requires
            a.same_graph(b),
        ensures
            b.same_graph(c) ==> a.same_graph(c),
            b.same_graph(a),
    ;

    /// Graphs with the same current estimates look the same to evaluators and priors.
    proof fn lemma_reading(&self, other: &Self)
        requires
            self.same_graph(other),
            self.current() == other.current(),
        ensures
            self.reading() == other.reading(),
            forall|selected: Option<Set<RawKey>>, derivatives: bool| #[trigger]
                self.deltas_spec(selected, derivatives) == other.deltas_spec(selected, derivatives),
            forall|layout: &Layout, remove: Set<RawKey>| #[trigger]
                self.capturable(layout, remove) == other.capturable(layout, remove),
            self.references() == other.references(),
            forall|prior: RawKey, layout: &Layout, remove: Set<RawKey>, offset: int| #[trigger]
                self.captured(prior, layout, remove, offset) == other.captured(
                    prior,
                    layout,
                    remove,
                    offset,
                ),
    ;

    /// The same graph agrees whatever is excepted.
    proof fn lemma_graph_agrees(&self, other: &Self, except: Set<RawKey>)
        requires
            self.same_graph(other),
        ensures
            self.agrees(other, except),
    ;

    /// Agreement with a graph is agreement with the same graph.
    proof fn lemma_agrees_through(&self, middle: &Self, other: &Self, except: Set<RawKey>)
        requires
            self.agrees(middle, except),
            middle.same_graph(other),
        ensures
            self.agrees(other, except),
    ;

    /// Graphs that agree except for some priors have the same variables, and the same
    /// references of all other priors.
    proof fn lemma_agrees(&self, other: &Self, except: Set<RawKey>)
        requires
            self.agrees(other, except),
        ensures
            tags_except(self.anchored(), except) == tags_except(other.anchored(), except),
            self.blocks() == other.blocks(),
            forall|id: BlockId| #[trigger] self.resolve_spec(id) == other.resolve_spec(id),
    ;

    /// Estimates kept from a graph are kept from any graph with the same estimates.
    proof fn lemma_keeps(&self, middle: &Self, before: &Self, except: Set<RawKey>)
        requires
            self.keeps_estimates(middle),
            middle.agrees(before, except),
            middle.accepted() == before.accepted(),
        ensures
            self.keeps_estimates(before),
    ;

    /// Dropping what was anchored on top of a graph restores it.
    proof fn lemma_restored(before: &Self, during: &Self, after: &Self, except: Set<RawKey>)
        requires
            during.agrees(before, except),
            after.agrees(during, except),
            tags_except(before.anchored(), except) == before.anchored(),
            tags_except(after.anchored(), except) == after.anchored(),
        ensures
            after.same_graph(before),
    ;

    /// Identities of different variables differ, and all belong to these families.
    proof fn lemma_blocks(&self)
        requires
            self.wf(),
        ensures
            forall|i: int|
                0 <= i < self.blocks().len() ==> {
                    &&& self.pools().contains((#[trigger] self.blocks()[i]).0.raw.pool)
                    &&& self.resolve_spec(self.blocks()[i].0) == Some(Ok::<(), KeyError>(()))
                },
            forall|i: int, j: int|
                0 <= i < j < self.blocks().len() ==> (#[trigger] self.blocks()[i]).0 != (
                #[trigger] self.blocks()[j]).0,
            forall|id: BlockId| #[trigger]
                self.resolve_spec(id) is Some ==> self.pools().contains(id.raw.pool),
            forall|id: BlockId|
                #![trigger self.resolve_spec(id)]
                self.resolve_spec(id) == Some(Ok::<(), KeyError>(())) ==> exists|i: int|
                    0 <= i < self.blocks().len() && (#[trigger] self.blocks()[i]).0 == id,
    ;

    /// There is a fault exactly if some identity resolves to one.
    proof fn lemma_fault(&self, ids: Seq<BlockId>)
        requires
            self.wf(),
        ensures
            match self.fault_spec(ids) {
                Some(error) => exists|i: int|
                    0 <= i < ids.len() && self.resolve_spec(#[trigger] ids[i]) == Some(
                        Err::<(), KeyError>(error),
                    ),
                None => forall|i: int|
                    0 <= i < ids.len() ==> !(self.resolve_spec(#[trigger] ids[i]) matches Some(
                        Err(_),
                    )),
            },
    ;

    /// Find a fault among some identities.
    fn fault(&self, ids: &[BlockId]) -> (found: Option<KeyError>)
        requires
            self.wf(),
        ensures
            found == self.fault_spec(ids@),
    ;

    /// Resolve an identity in the family that issued it, if one did.
    fn resolve(&self, id: BlockId) -> (known: Option<Result<(), KeyError>>)
        requires
            self.wf(),
        ensures
            known == self.resolve_spec(id),
    ;

    /// Give every variable its coordinates, and make room for trials.
    fn arrange(&mut self, layout: &mut Layout) -> (arranged: Result<(), SolverError>)
        requires
            old(self).wf(),
            old(self).idle(),
            old(layout).wf(),
            forall|key: RawKey| #[trigger]
                old(layout).block_index@.contains_key(key) ==> !old(self).pools().contains(key.pool),
        ensures
            final(self).wf(),
            final(self).idle(),
            final(self).pools() == old(self).pools(),
            final(self).same_graph(old(self)),
            final(self).blocks() == old(self).blocks(),
            final(self).anchored() == old(self).anchored(),
            final(self).accepted() == old(self).accepted(),
            final(self).current() == old(self).current(),
            final(layout).wf(),
            final(layout).factors@ == old(layout).factors@,
            final(layout).factor_index@ == old(layout).factor_index@,
            final(layout).dependencies@ == old(layout).dependencies@,
            forall|key: RawKey| #[trigger]
                final(layout).block_index@.contains_key(key) ==> old(
                    layout,
                ).block_index@.contains_key(key) || old(self).pools().contains(key.pool),
            arranged == if old(layout).dimension + width_sum(old(self).blocks()) <= usize::MAX {
                Ok::<(), SolverError>(())
            } else {
                Err(SolverError::Evaluation(EvaluationError::DimensionMismatch))
            },
            arranged is Ok ==> {
                &&& final(layout).blocks@ == old(layout).blocks@ + placed(
                    old(self).blocks(),
                    old(layout).dimension as nat,
                )
                &&& final(layout).dimension == old(layout).dimension + width_sum(
                    old(self).blocks(),
                )
            },
    ;

    /// Stage a trial from the coordinates of an increment that start at `position`.
    ///
    /// Fails without enough coordinates; families staged before the failure stay so.
    fn stage(&mut self, delta: &[Self::Scalar], position: usize) -> (staged: Result<
        usize,
        EvaluationError,
    >)
        requires
            old(self).wf(),
            position <= delta@.len(),
        ensures
            final(self).wf(),
            final(self).pools() == old(self).pools(),
            final(self).same_graph(old(self)),
            final(self).blocks() == old(self).blocks(),
            final(self).anchored() == old(self).anchored(),
            final(self).accepted() == old(self).accepted(),
            match staged {
                Ok(end) => {
                    &&& end == position + width_sum(old(self).blocks())
                    &&& end <= delta@.len()
                    &&& final(self).current() == old(self).moved(
                        delta@.subrange(position as int, end as int),
                    )
                },
                Err(error) => {
                    &&& position + width_sum(old(self).blocks()) > delta@.len()
                    &&& error == EvaluationError::DimensionMismatch
                },
            },
    ;

    /// Make the current estimates the accepted ones.
    fn accept(&mut self)
        requires
            old(self).wf(),
        ensures
            final(self).wf(),
            final(self).idle(),
            final(self).pools() == old(self).pools(),
            final(self).same_graph(old(self)),
            final(self).blocks() == old(self).blocks(),
            final(self).anchored() == old(self).anchored(),
            final(self).accepted() == old(self).current(),
            final(self).current() == old(self).current(),
    ;

    /// Drop any trial.
    fn reject(&mut self)
        requires
            old(self).wf(),
        ensures
            final(self).wf(),
            final(self).idle(),
            final(self).pools() == old(self).pools(),
            final(self).same_graph(old(self)),
            final(self).blocks() == old(self).blocks(),
            final(self).anchored() == old(self).anchored(),
            final(self).accepted() == old(self).accepted(),
            final(self).current() == old(self).accepted(),
    ;

    /// Measure how far anchored variables have moved from the references of the
    /// selected priors.
    fn deltas(&self, selected: Option<&KeySet>, derivatives: bool) -> (deltas: Result<
        Vec<AnchorDelta<Self::Scalar>>,
        SolverError,
    >)
        requires
            self.wf(),
            selected matches Some(priors) ==> priors.wf(),
        ensures
            match deltas {
                Ok(deltas) => self.deltas_spec(selected_set(selected), derivatives) == Ok::<
                    Seq<AnchorView<Self::Scalar>>,
                    SolverError,
                >(anchor_views(deltas@)),
                Err(error) => self.deltas_spec(selected_set(selected), derivatives) == Err::<
                    Seq<AnchorView<Self::Scalar>>,
                    SolverError,
                >(error),
            },
    ;

    /// Every variable that keeps coordinates has a reference with finite coordinates.
    spec fn capturable(&self, layout: &Layout, remove: Set<RawKey>) -> bool;

    /// Estimates of live variables are those they had before.
    spec fn keeps_estimates(&self, before: &Self) -> bool;

    /// Anchor a prior at the current estimate of every variable in the layout that is
    /// not about to be removed.
    fn capture(
        &mut self,
        prior: RawKey,
        layout: &Layout,
        remove: &KeySet,
        offset: usize,
    ) -> (captured: Result<(), SolverError>)
        requires
            old(self).wf(),
            old(self).idle(),
            layout.blocks_wf(),
            remove.wf(),
            keeps_after(layout, remove@, offset as int),
            tags_of(old(self).anchored(), prior).len() == 0,
        ensures
            final(self).wf(),
            final(self).idle(),
            final(self).pools() == old(self).pools(),
            final(self).blocks() == old(self).blocks(),
            final(self).accepted() == old(self).accepted(),
            final(self).current() == old(self).current(),
            final(self).agrees(old(self), set![prior]),
            captured == if old(self).capturable(layout, remove@) {
                Ok::<(), SolverError>(())
            } else {
                Err(SolverError::Evaluation(EvaluationError::InvalidEvaluation))
            },
            captured is Ok ==> final(self).references() == old(self).captured(
                prior,
                layout,
                remove@,
                offset as int,
            ),
            captured is Ok ==> tags_of(final(self).anchored(), prior) == kept_tags(
                old(self).blocks(),
                layout,
                remove@,
                offset as int,
                prior,
                old(self).blocks().len() as int,
            ),
    ;

    /// Drop all anchors of the given priors.
    fn drop_anchors(&mut self, priors: &KeySet)
        requires
            old(self).wf(),
            old(self).idle(),
            priors.wf(),
        ensures
            final(self).wf(),
            final(self).idle(),
            final(self).pools() == old(self).pools(),
            final(self).blocks() == old(self).blocks(),
            final(self).accepted() == old(self).accepted(),
            final(self).current() == old(self).current(),
            final(self).agrees(old(self), priors@),
            final(self).anchored() == tags_except(old(self).anchored(), priors@),
            final(self).references() == Self::left(old(self).references(), priors@),
            forall|id: BlockId| #[trigger] final(self).resolve_spec(id) == old(self).resolve_spec(id),
    ;

    /// Remove the given variables; their handles become stale for good.
    fn remove(&mut self, remove: &KeySet)
        requires
            old(self).wf(),
            old(self).idle(),
            remove.wf(),
        ensures
            final(self).wf(),
            final(self).idle(),
            final(self).pools() == old(self).pools(),
            final(self).anchored() == old(self).anchored(),
            final(self).references() == old(self).references(),
            final(self).keeps_estimates(old(self)),
            forall|i: int|
                0 <= i < final(self).blocks().len() ==> old(self).blocks().contains(
                    #[trigger] final(self).blocks()[i],
                ),
            forall|id: BlockId| #[trigger]
                final(self).resolve_spec(id) == if old(self).resolve_spec(id) == Some(
                    Ok::<(), KeyError>(()),
                ) && remove@.contains(id.raw) {
                    Some(Err::<(), KeyError>(KeyError::Stale))
                } else {
                    old(self).resolve_spec(id)
                },
    ;
}

/// Blocks that are not removed lie at or after `offset`.
pub open spec fn keeps_after(layout: &Layout, remove: Set<RawKey>, offset: int) -> bool {
    forall|key: RawKey| #[trigger]
        layout.block_index@.contains_key(key) && !remove.contains(key)
            ==> layout.blocks@[layout.block_index@[key] as int].offset >= offset
}

/// References of a new prior to the first `n` listed variables, as far as they have
/// coordinates and stay.
pub open spec fn kept_tags(
    blocks: Seq<(BlockId, nat)>,
    layout: &Layout,
    remove: Set<RawKey>,
    offset: int,
    prior: RawKey,
    n: int,
) -> Seq<AnchorTag>
    decreases n,
{
    if n <= 0 {
        Seq::empty()
    } else {
        let before = kept_tags(blocks, layout, remove, offset, prior, n - 1);
        let raw = blocks[n - 1].0.raw;
        if layout.block_index@.contains_key(raw) && !remove.contains(raw) {
            before.push(
                AnchorTag {
                    prior,
                    state: raw,
                    column: (layout.blocks@[layout.block_index@[raw] as int].offset
                        - offset) as usize,
                },
            )
        } else {
            before
        }
    }
}

/// Anchors of all priors but some.
pub open spec fn kept_anchors<T>(anchors: Seq<Anchor<T>>, except: Set<RawKey>) -> Seq<Anchor<T>> {
    anchors.filter(|anchor: Anchor<T>| !except.contains(anchor.prior))
}

/// The reference that an anchor makes.
pub open spec fn tag<T>(anchor: Anchor<T>) -> AnchorTag {
    AnchorTag { prior: anchor.prior, state: anchor.state, column: anchor.column }
}

/// The references that anchors make.
pub open spec fn tags<T>(anchors: Seq<Anchor<T>>) -> Seq<AnchorTag> {
    Seq::new(anchors.len(), |i: int| tag(anchors[i]))
}

proof fn lemma_tags_filter<T>(anchors: Seq<Anchor<T>>, except: Set<RawKey>)
    ensures
        tags(kept_anchors(anchors, except)) == tags_except(tags(anchors), except),
    decreases anchors.len(),
{
    reveal(Seq::filter);
    if anchors.len() > 0 {
        lemma_tags_filter(anchors.drop_last(), except);
        assert(tags(anchors).drop_last() =~= tags(anchors.drop_last()));
        let kept = kept_anchors(anchors.drop_last(), except);
        if !except.contains(anchors.last().prior) {
            assert(tags(kept.push(anchors.last())) =~= tags(kept).push(tag(anchors.last())));
        }
    }
    assert(tags(kept_anchors(anchors, except)) =~= tags_except(tags(anchors), except));
}

impl<T: Variable> StatePool<T> {
    /// The movement of one anchored variable, or why it cannot be measured.
    pub open spec fn delta_spec(&self, index: int, derivatives: bool) -> Result<
        AnchorView<T::Scalar>,
        SolverError,
    > {
        let anchor = self.anchors@[index];
        match self.entries.lookup(anchor.state) {
            Err(error) => Err(SolverError::Key(error)),
            Ok(i) => {
                let delta = anchor.inverse.compose_spec(self.current()[i]).log_spec();
                let chart = if derivatives {
                    T::right_jacobian_inverse_spec(delta)
                } else {
                    Seq::empty()
                };
                if !all_finite(delta) || !all_finite(chart) {
                    Err(SolverError::Evaluation(EvaluationError::InvalidEvaluation))
                } else {
                    Ok(AnchorView { prior: anchor.prior, column: anchor.column, delta, chart })
                }
            },
        }
    }

    /// The movements of the first `n` anchors, as far as their priors take part.
    pub open spec fn deltas_upto(
        &self,
        selected: Option<Set<RawKey>>,
        derivatives: bool,
        n: int,
    ) -> Result<Seq<AnchorView<T::Scalar>>, SolverError>
        decreases n,
    {
        if n <= 0 {
            Ok(Seq::empty())
        } else {
            match self.deltas_upto(selected, derivatives, n - 1) {
                Err(error) => Err(error),
                Ok(before) => if !chosen(selected, self.anchors@[n - 1].prior) {
                    Ok(before)
                } else {
                    match self.delta_spec(n - 1, derivatives) {
                        Err(error) => Err(error),
                        Ok(delta) => Ok(before.push(delta)),
                    }
                },
            }
        }
    }

    proof fn lemma_deltas_errors(
        &self,
        selected: Option<Set<RawKey>>,
        derivatives: bool,
        n: int,
    )
        ensures
            self.deltas_upto(selected, derivatives, n) matches Err(error) ==> error is Key
                || error is Evaluation,
        decreases n,
    {
        if n > 0 {
            self.lemma_deltas_errors(selected, derivatives, n - 1);
        }
    }

    proof fn lemma_deltas_same(
        &self,
        other: &Self,
        selected: Option<Set<RawKey>>,
        derivatives: bool,
        n: int,
    )
        requires
            self.same_identities(other),
            self.current() == other.current(),
        ensures
            self.deltas_upto(selected, derivatives, n) == other.deltas_upto(
                selected,
                derivatives,
                n,
            ),
        decreases n,
    {
        if n > 0 {
            self.lemma_deltas_same(other, selected, derivatives, n - 1);
        }
    }

    proof fn lemma_deltas_fail(
        &self,
        selected: Option<Set<RawKey>>,
        derivatives: bool,
        n: int,
        m: int,
    )
        requires
            0 <= n <= m,
            self.deltas_upto(selected, derivatives, n) is Err,
        ensures
            self.deltas_upto(selected, derivatives, m) == self.deltas_upto(
                selected,
                derivatives,
                n,
            ),
        decreases m,
    {
        if n < m {
            self.lemma_deltas_fail(selected, derivatives, n, m - 1);
        }
    }

    /// Measure the movement of one anchored variable.
    fn delta(&self, index: usize, derivatives: bool) -> (delta: Result<
        AnchorDelta<T::Scalar>,
        SolverError,
    >)
        requires
            self.wf(),
            index < self.anchors@.len(),
        ensures
            match delta {
                Ok(delta) => self.delta_spec(index as int, derivatives) == Ok::<
                    AnchorView<T::Scalar>,
                    SolverError,
                >(delta@),
                Err(error) => self.delta_spec(index as int, derivatives) == Err::<
                    AnchorView<T::Scalar>,
                    SolverError,
                >(error),
            },
    {
        let anchor = &self.anchors[index];
        let value = match self.get(StateKey::from_raw(anchor.state)) {
            Err(error) => {
                return Err(SolverError::Key(error));
            },
            Ok(value) => value,
        };
        let delta = anchor.inverse.compose(value).log();
        if !finite_values(delta.as_slice()) {
            return Err(SolverError::Evaluation(EvaluationError::InvalidEvaluation));
        }
        let chart: Vec<T::Scalar> = if derivatives {
            T::right_jacobian_inverse(delta.as_slice())
        } else {
            Vec::new()
        };
        if !finite_values(chart.as_slice()) {
            return Err(SolverError::Evaluation(EvaluationError::InvalidEvaluation));
        }
        Ok(AnchorDelta { prior: anchor.prior, column: anchor.column, delta, chart })
    }

    /// A variable's own reference has finite coordinates.
    pub open spec fn has_reference(&self, index: int) -> bool {
        let value = self.current()[index];
        all_finite(value.inverse_spec().compose_spec(value).log_spec())
    }

    /// Whether a variable has coordinates and stays.
    pub open spec fn keeps_block(&self, layout: &Layout, remove: Set<RawKey>, index: int) -> bool {
        layout.block_index@.contains_key(self.block(index).raw) && !remove.contains(
            self.block(index).raw,
        )
    }

    /// Anchors of a new prior to the first `n` variables.
    pub open spec fn fresh_anchors(
        &self,
        prior: RawKey,
        layout: &Layout,
        remove: Set<RawKey>,
        offset: int,
        n: int,
    ) -> Seq<Anchor<T>>
        decreases n,
    {
        if n <= 0 {
            Seq::empty()
        } else {
            let before = self.fresh_anchors(prior, layout, remove, offset, n - 1);
            if self.keeps_block(layout, remove, n - 1) {
                let raw = self.block(n - 1).raw;
                before.push(
                    Anchor {
                        prior,
                        state: raw,
                        column: (layout.blocks@[layout.block_index@[raw] as int].offset
                            - offset) as usize,
                        inverse: self.current()[n - 1].inverse_spec(),
                    },
                )
            } else {
                before
            }
        }
    }

    proof fn lemma_fresh_tags(
        &self,
        prior: RawKey,
        layout: &Layout,
        remove: Set<RawKey>,
        offset: int,
        n: int,
    )
        requires
            0 <= n <= self.entries.keys@.len(),
        ensures
            tags(self.fresh_anchors(prior, layout, remove, offset, n)) == kept_tags(
                self.family(),
                layout,
                remove,
                offset,
                prior,
                n,
            ),
            forall|i: int|
                0 <= i < self.fresh_anchors(prior, layout, remove, offset, n).len() ==> (
                #[trigger] self.fresh_anchors(prior, layout, remove, offset, n)[i]).prior == prior,
        decreases n,
    {
        if n > 0 {
            self.lemma_fresh_tags(prior, layout, remove, offset, n - 1);
        }
        assert(tags(self.fresh_anchors(prior, layout, remove, offset, n)) =~= kept_tags(
            self.family(),
            layout,
            remove,
            offset,
            prior,
            n,
        ));
    }

    proof fn lemma_fresh_same(
        &self,
        other: &Self,
        prior: RawKey,
        layout: &Layout,
        remove: Set<RawKey>,
        offset: int,
        n: int,
    )
        requires
            self.same_identities(other),
            self.current() == other.current(),
        ensures
            self.fresh_anchors(prior, layout, remove, offset, n) == other.fresh_anchors(
                prior,
                layout,
                remove,
                offset,
                n,
            ),
        decreases n,
    {
        if n > 0 {
            self.lemma_fresh_same(other, prior, layout, remove, offset, n - 1);
        }
    }

    /// Live variables with their width, in dense order.
    pub open spec fn family(&self) -> Seq<(BlockId, nat)> {
        Seq::new(self.entries.keys@.len(), |i: int| (self.block(i), T::dof_spec()))
    }

    proof fn lemma_family_width(&self)
        ensures
            width_sum(self.family()) == self.entries.keys@.len() * T::dof_spec(),
    {
        lemma_width_sum_equal(self.family(), T::dof_spec());
    }
}

/// What evaluators can observe of one family: identities and current estimates.
#[verifier::ext_equal]
pub struct PoolReading<T> {
    pub id: PoolId,
    pub keys: Seq<LocalKey>,
    pub slots: Seq<Slot>,
    pub estimates: Seq<T>,
}

impl<T: Variable> Readable for StatePool<T> {
    type Reading = PoolReading<T>;

    open spec fn wf(&self) -> bool {
        StatePool::wf(self)
    }

    open spec fn reading(&self) -> PoolReading<T> {
        PoolReading {
            id: self.entries.id,
            keys: self.entries.keys@,
            slots: self.entries.slots@,
            estimates: StatePool::current(self),
        }
    }
}

impl<T: Variable> StatePool<T> {
    /// The first of the first `n` identities that this family retired or never issued.
    pub open spec fn fault_upto(&self, ids: Seq<BlockId>, n: int) -> Option<KeyError>
        decreases n,
    {
        if n <= 0 {
            None
        } else {
            match self.fault_upto(ids, n - 1) {
                Some(error) => Some(error),
                None => match self.validate_spec(ids[n - 1]) {
                    Some(Err(error)) => Some(error),
                    _ => None,
                },
            }
        }
    }

    proof fn lemma_fault_upto(&self, ids: Seq<BlockId>, n: int)
        requires
            0 <= n <= ids.len(),
        ensures
            match self.fault_upto(ids, n) {
                Some(error) => exists|i: int|
                    0 <= i < n && self.validate_spec(#[trigger] ids[i]) == Some(
                        Err::<(), KeyError>(error),
                    ),
                None => forall|i: int|
                    0 <= i < n ==> !(self.validate_spec(#[trigger] ids[i]) matches Some(Err(_))),
            },
        decreases n,
    {
        if n > 0 {
            self.lemma_fault_upto(ids, n - 1);
        }
    }

    proof fn lemma_fault_stands(&self, ids: Seq<BlockId>, n: int, m: int)
        requires
            0 <= n <= m,
            self.fault_upto(ids, n) is Some,
        ensures
            self.fault_upto(ids, m) == self.fault_upto(ids, n),
        decreases m,
    {
        if n < m {
            self.lemma_fault_stands(ids, n, m - 1);
        }
    }
}

impl<T: Variable> StateSchema for StatePool<T> {
    type Scalar = T::Scalar;

    type Estimates = Seq<T>;

    type References = Seq<Anchor<T>>;

    open spec fn idle(&self) -> bool {
        !self.trial_active
    }

    open spec fn pools(&self) -> Set<PoolId> {
        set![self.entries.id]
    }

    open spec fn blocks(&self) -> Seq<(BlockId, nat)> {
        self.family()
    }

    open spec fn accepted(&self) -> Seq<T> {
        self.entries.values@
    }

    open spec fn current(&self) -> Seq<T> {
        StatePool::current(self)
    }

    open spec fn moved(&self, delta: Seq<T::Scalar>) -> Seq<T> {
        retracted(self.entries.values@, delta)
    }

    open spec fn same_graph(&self, other: &Self) -> bool {
        self.same_identities(other)
    }

    open spec fn agrees(&self, other: &Self, except: Set<RawKey>) -> bool {
        &&& self.entries.id == other.entries.id
        &&& self.entries.keys@ == other.entries.keys@
        &&& self.entries.slots@ == other.entries.slots@
        &&& self.entries.free_slots@ == other.entries.free_slots@
        &&& kept_anchors(self.anchors@, except) == kept_anchors(other.anchors@, except)
    }

    open spec fn anchored(&self) -> Seq<AnchorTag> {
        tags(self.anchors@)
    }

    open spec fn references(&self) -> Seq<Anchor<T>> {
        self.anchors@
    }

    open spec fn captured(
        &self,
        prior: RawKey,
        layout: &Layout,
        remove: Set<RawKey>,
        offset: int,
    ) -> Seq<Anchor<T>> {
        self.anchors@ + self.fresh_anchors(
            prior,
            layout,
            remove,
            offset,
            self.entries.keys@.len() as int,
        )
    }

    open spec fn left(references: Seq<Anchor<T>>, priors: Set<RawKey>) -> Seq<Anchor<T>> {
        kept_anchors(references, priors)
    }

    open spec fn fault_spec(&self, ids: Seq<BlockId>) -> Option<KeyError> {
        self.fault_upto(ids, ids.len() as int)
    }

    open spec fn resolve_spec(&self, id: BlockId) -> Option<Result<(), KeyError>> {
        self.validate_spec(id)
    }

    open spec fn deltas_spec(&self, selected: Option<Set<RawKey>>, derivatives: bool) -> Result<
        Seq<AnchorView<T::Scalar>>,
        SolverError,
    > {
        self.deltas_upto(selected, derivatives, self.anchors@.len() as int)
    }

    open spec fn capturable(&self, layout: &Layout, remove: Set<RawKey>) -> bool {
        forall|i: int|
            0 <= i < self.entries.keys@.len() && #[trigger] self.keeps_block(layout, remove, i)
                ==> self.has_reference(i)
    }

    open spec fn keeps_estimates(&self, before: &Self) -> bool {
        forall|local: crate::key::LocalKey| #[trigger]
            self.entries.live(local) ==> {
                &&& before.entries.live(local)
                &&& self.entries.values@[self.entries.place(local)]
                    == before.entries.values@[before.entries.place(local)]
            }
    }

    proof fn lemma_moved(&self, other: &Self, delta: Seq<T::Scalar>) {
        assert(self.blocks() =~= other.blocks());
    }

    proof fn lemma_idle(&self) {
    }

    proof fn lemma_same_graph(a: &Self, b: &Self, c: &Self) {
    }

    proof fn lemma_agrees(&self, other: &Self, except: Set<RawKey>) {
        lemma_tags_filter(self.anchors@, except);
        lemma_tags_filter(other.anchors@, except);
        assert(self.blocks() =~= other.blocks());
    }

    proof fn lemma_keeps(&self, middle: &Self, before: &Self, except: Set<RawKey>) {
    }

    proof fn lemma_graph_agrees(&self, other: &Self, except: Set<RawKey>) {
    }

    proof fn lemma_agrees_through(&self, middle: &Self, other: &Self, except: Set<RawKey>) {
    }

    proof fn lemma_reading(&self, other: &Self) {
        assert forall|selected: Option<Set<RawKey>>, derivatives: bool| #[trigger]
            self.deltas_spec(selected, derivatives) == other.deltas_spec(selected, derivatives) by {
            self.lemma_deltas_same(other, selected, derivatives, self.anchors@.len() as int);
        }
        assert forall|prior: RawKey, layout: &Layout, remove: Set<RawKey>, offset: int| #[trigger]
            self.captured(prior, layout, remove, offset) == other.captured(
                prior,
                layout,
                remove,
                offset,
            ) by {
            self.lemma_fresh_same(
                other,
                prior,
                layout,
                remove,
                offset,
                self.entries.keys@.len() as int,
            );
        }
        assert forall|layout: &Layout, remove: Set<RawKey>| #[trigger]
            self.capturable(layout, remove) == other.capturable(layout, remove) by {
            assert forall|i: int| #[trigger]
                self.keeps_block(layout, remove, i) == other.keeps_block(layout, remove, i) by {}
            if self.capturable(layout, remove) {
                assert forall|i: int|
                    0 <= i < other.entries.keys@.len() && #[trigger] other.keeps_block(
                        layout,
                        remove,
                        i,
                    ) implies other.has_reference(i) by {
                    assert(self.keeps_block(layout, remove, i));
                }
            }
            if other.capturable(layout, remove) {
                assert forall|i: int|
                    0 <= i < self.entries.keys@.len() && #[trigger] self.keeps_block(
                        layout,
                        remove,
                        i,
                    ) implies self.has_reference(i) by {
                    assert(other.keeps_block(layout, remove, i));
                }
            }
        }
    }

    proof fn lemma_delta_errors(&self, selected: Option<Set<RawKey>>, derivatives: bool) {
        self.lemma_deltas_errors(selected, derivatives, self.anchors@.len() as int);
    }

    proof fn lemma_reflexive(&self, except: Set<RawKey>) {
    }

    proof fn lemma_restored(before: &Self, during: &Self, after: &Self, except: Set<RawKey>) {
        lemma_unfiltered(before.anchors@, except);
        lemma_unfiltered(after.anchors@, except);
    }

    proof fn lemma_blocks(&self) {
        assert forall|i: int| 0 <= i < self.blocks().len() implies {
            &&& self.pools().contains((#[trigger] self.blocks()[i]).0.raw.pool)
            &&& self.resolve_spec(self.blocks()[i].0) == Some(Ok::<(), KeyError>(()))
        } by {
            self.entries.lemma_live_position(self.entries.keys@[i], i);
        }
        assert forall|i: int, j: int| 0 <= i < j < self.blocks().len() implies (
        #[trigger] self.blocks()[i]).0 != (#[trigger] self.blocks()[j]).0 by {
            self.entries.lemma_live_slots_distinct(i, j);
        }
        assert forall|id: BlockId|
            #![trigger self.resolve_spec(id)]
            self.resolve_spec(id) == Some(Ok::<(), KeyError>(())) implies exists|i: int|
            0 <= i < self.blocks().len() && (#[trigger] self.blocks()[i]).0 == id by {
            let i = self.entries.keys@.index_of(id.raw.local);
            assert(self.entries.live(id.raw.local));
            assert(self.entries.keys@[i] == id.raw.local);
            assert(self.blocks()[i].0 == id);
        }
    }

    proof fn lemma_fault(&self, ids: Seq<BlockId>) {
        self.lemma_fault_upto(ids, ids.len() as int);
    }

    fn fault(&self, ids: &[BlockId]) -> (found: Option<KeyError>) {
        let mut i: usize = 0;
        while i < ids.len()
            invariant
                StatePool::wf(self),
                i <= ids@.len(),
                self.fault_upto(ids@, i as int) is None,
            decreases ids@.len() - i,
        {
            match self.validate(ids[i]) {
                Some(Err(error)) => {
                    proof {
                        self.lemma_fault_stands(ids@, i + 1, ids@.len() as int);
                    }
                    return Some(error);
                },
                _ => {},
            }
            i += 1;
        }
        None
    }

    fn resolve(&self, id: BlockId) -> (known: Option<Result<(), KeyError>>) {
        self.validate(id)
    }

    fn arrange(&mut self, layout: &mut Layout) -> (arranged: Result<(), SolverError>) {
        self.prepare_trial();
        let width: usize = T::dof();
        let ghost start = *layout;
        let ghost family = self.family();
        let mut i: usize = 0;
        proof {
            reveal(width_sum);
            assert(family.take(0) =~= Seq::<(BlockId, nat)>::empty());
            assert(placed(family.take(0), start.dimension as nat) =~= Seq::<Block>::empty());
            assert(layout.blocks@ =~= start.blocks@ + placed(
                family.take(0),
                start.dimension as nat,
            ));
            assert(family =~= old(self).family());
        }
        while i < self.entries.keys.len()
            invariant
                self.wf(),
                !self.trial_active,
                !old(self).trial_active,
                self.entries == old(self).entries,
                self.anchors == old(self).anchors,
                family == self.family(),
                family == old(self).family(),
                width == T::dof_spec(),
                i <= self.entries.keys@.len(),
                start == *old(layout),
                layout.wf(),
                layout.factors@ == start.factors@,
                layout.factor_index@ == start.factor_index@,
                layout.dependencies@ == start.dependencies@,
                layout.dimension == start.dimension + width_sum(family.take(i as int)),
                layout.blocks@ == start.blocks@ + placed(
                    family.take(i as int),
                    start.dimension as nat,
                ),
                forall|key: RawKey| #[trigger]
                    start.block_index@.contains_key(key) ==> key.pool != self.entries.id,
                forall|key: RawKey| #[trigger]
                    layout.block_index@.contains_key(key) ==> start.block_index@.contains_key(key)
                        || (exists|j: int| 0 <= j < i && (#[trigger] family[j]).0.raw == key),
            decreases self.entries.keys@.len() - i,
        {
            let raw = RawKey { pool: self.entries.id, local: self.entries.keys[i] };
            proof {
                lemma_width_sum_prefix(family, i as int);
                lemma_width_sum_prefix(family, i + 1);
                assert(family[i as int].0.raw == raw);
                if layout.block_index@.contains_key(raw) {
                    let j = choose|j: int| 0 <= j < i && (#[trigger] family[j]).0.raw == raw;
                    self.entries.lemma_live_slots_distinct(j, i as int);
                }
            }
            match layout.block(BlockId { raw }, width) {
                Ok(_) => {},
                Err(error) => {
                    proof {
                        assert forall|key: RawKey| #[trigger]
                            layout.block_index@.contains_key(key) implies start.block_index@.contains_key(
                            key,
                        ) || self.pools().contains(key.pool) by {}
                    }
                    return Err(error);
                },
            }
            proof {
                let added = placed(family.take(i as int), start.dimension as nat);
                let now = placed(family.take(i + 1), start.dimension as nat);
                assert forall|j: int| 0 <= j < i implies added[j] == now[j] by {
                    assert(family.take(i as int).take(j) =~= family.take(i + 1).take(j));
                }
                assert(family.take(i + 1).take(i as int) =~= family.take(i as int));
                assert(now =~= added.push(now[i as int]));
                assert(layout.blocks@ =~= start.blocks@ + now);
                assert forall|key: RawKey| #[trigger]
                    layout.block_index@.contains_key(key) implies start.block_index@.contains_key(
                    key,
                ) || (exists|j: int| 0 <= j < i + 1 && (#[trigger] family[j]).0.raw == key) by {
                    if key == raw {
                        assert(family[i as int].0.raw == key);
                    }
                }
            }
            i += 1;
        }
        proof {
            assert(family.take(i as int) =~= family);
            assert(family =~= old(self).family());
        }
        Ok(())
    }

    fn stage(&mut self, delta: &[T::Scalar], position: usize) -> (staged: Result<
        usize,
        EvaluationError,
    >) {
        proof {
            self.lemma_family_width();
            assert(self.entries.keys@.len() == self.entries.values@.len());
        }
        let available: usize = delta.len();
        let count: usize = match self.entries.keys.len().checked_mul(T::dof()) {
            Some(count) => count,
            None => {
                return Err(EvaluationError::DimensionMismatch);
            },
        };
        let end: usize = match position.checked_add(count) {
            Some(end) => end,
            None => {
                return Err(EvaluationError::DimensionMismatch);
            },
        };
        if end > available {
            return Err(EvaluationError::DimensionMismatch);
        }
        match StatePool::stage(self, slice_subrange(delta, position, end)) {
            Ok(_) => Ok(end),
            Err(error) => Err(error),
        }
    }

    fn accept(&mut self) {
        self.accept_trial();
    }

    fn reject(&mut self) {
        self.reject_trial();
    }

    fn deltas(&self, selected: Option<&KeySet>, derivatives: bool) -> (deltas: Result<
        Vec<AnchorDelta<T::Scalar>>,
        SolverError,
    >) {
        let mut deltas: Vec<AnchorDelta<T::Scalar>> = Vec::new();
        let ghost priors = selected_set(selected);
        let mut i: usize = 0;
        assert(anchor_views(deltas@) =~= Seq::<AnchorView<T::Scalar>>::empty());
        while i < self.anchors.len()
            invariant
                self.wf(),
                selected matches Some(priors) ==> priors.wf(),
                priors == selected_set(selected),
                i <= self.anchors@.len(),
                self.deltas_upto(priors, derivatives, i as int) == Ok::<
                    Seq<AnchorView<T::Scalar>>,
                    SolverError,
                >(anchor_views(deltas@)),
            decreases self.anchors@.len() - i,
        {
            if is_chosen(selected, self.anchors[i].prior) {
                match self.delta(i, derivatives) {
                    Ok(delta) => {
                        let ghost before = deltas@;
                        let ghost added = delta@;
                        deltas.push(delta);
                        assert(anchor_views(deltas@) =~= anchor_views(before).push(added));
                    },
                    Err(error) => {
                        proof {
                            self.lemma_deltas_fail(
                                priors,
                                derivatives,
                                i + 1,
                                self.anchors@.len() as int,
                            );
                        }
                        return Err(error);
                    },
                }
            }
            i += 1;
        }
        Ok(deltas)
    }

    fn capture(
        &mut self,
        prior: RawKey,
        layout: &Layout,
        remove: &KeySet,
        offset: usize,
    ) -> (captured: Result<(), SolverError>) {
        let mut anchors: Vec<Anchor<T>> = Vec::new();
        let mut i: usize = 0;
        while i < self.entries.keys.len()
            invariant
                self.wf(),
                !self.trial_active,
                *self == *old(self),
                layout.blocks_wf(),
                remove.wf(),
                keeps_after(layout, remove@, offset as int),
                i <= self.entries.keys@.len(),
                anchors@ == self.fresh_anchors(prior, layout, remove@, offset as int, i as int),
                forall|j: int|
                    0 <= j < i && #[trigger] self.keeps_block(layout, remove@, j)
                        ==> self.has_reference(j),
            decreases self.entries.keys@.len() - i,
        {
            let raw = RawKey { pool: self.entries.id, local: self.entries.keys[i] };
            assert(raw == self.block(i as int).raw);
            match layout.block_index.get(raw) {
                Some(position) => {
                    if !remove.contains(raw) {
                        assert(self.keeps_block(layout, remove@, i as int));
                        let value = &self.entries.values[i];
                        let inverse = value.inverse();
                        let own = inverse.compose(value).log();
                        if !finite_values(own.as_slice()) {
                            assert(!self.has_reference(i as int));
                            return Err(
                                SolverError::Evaluation(EvaluationError::InvalidEvaluation),
                            );
                        }
                        anchors.push(
                            Anchor {
                                prior,
                                state: raw,
                                column: layout.blocks[position].offset - offset,
                                inverse,
                            },
                        );
                    }
                },
                None => {},
            }
            i += 1;
        }
        let ghost fresh = anchors@;
        self.anchors.append(&mut anchors);
        proof {
            let before = old(self).anchors@;
            let n = self.entries.keys@.len() as int;
            old(self).lemma_fresh_tags(prior, layout, remove@, offset as int, n);
            lemma_appended(before, fresh, prior);
            assert(old(self).family() =~= self.family());
        }
        Ok(())
    }

    fn drop_anchors(&mut self, priors: &KeySet) {
        let ghost all = self.anchors@;
        let mut i: usize = 0;
        let ghost mut passed: int = 0;
        proof {
            reveal(Seq::filter);
            assert(all.take(0) =~= Seq::<Anchor<T>>::empty());
            assert(all.skip(0) =~= all);
            assert(self.anchors@ =~= kept_anchors(all.take(0), priors@) + all.skip(0));
        }
        while i < self.anchors.len()
            invariant
                self.wf(),
                !self.trial_active,
                self.entries == old(self).entries,
                all == old(self).anchors@,
                priors.wf(),
                0 <= passed <= all.len(),
                i == kept_anchors(all.take(passed), priors@).len(),
                self.anchors@ == kept_anchors(all.take(passed), priors@) + all.skip(passed),
            decreases all.len() - passed,
        {
            let ghost kept = kept_anchors(all.take(passed), priors@);
            proof {
                reveal(Seq::filter);
                assert(self.anchors@[i as int] == all[passed]);
                assert(all.take(passed + 1).drop_last() =~= all.take(passed));
                assert(all.take(passed + 1).last() == all[passed]);
            }
            if priors.contains(self.anchors[i].prior) {
                self.anchors.remove(i);
                assert(self.anchors@ =~= kept + all.skip(passed + 1));
            } else {
                assert(self.anchors@ =~= kept.push(all[passed]) + all.skip(passed + 1));
                i += 1;
            }
            proof {
                passed = passed + 1;
            }
        }
        proof {
            assert(all.take(passed) =~= all);
            assert(self.anchors@ =~= kept_anchors(all, priors@));
            lemma_tags_filter(all, priors@);
            lemma_filter_again(all, priors@);
            assert(self.family() =~= old(self).family());
        }
    }

    fn remove(&mut self, remove: &KeySet) {
        self.remove_selected(remove);
        proof {
            let before = old(self).entries;
            let after = self.entries;
            assert forall|id: BlockId| #[trigger] self.resolve_spec(id) == if old(
                self,
            ).resolve_spec(id) == Some(Ok::<(), KeyError>(())) && remove@.contains(id.raw) {
                Some(Err::<(), KeyError>(KeyError::Stale))
            } else {
                old(self).resolve_spec(id)
            } by {
                after.lemma_survivors(&before, remove@, id.raw.local);
            }
            assert forall|i: int| 0 <= i < self.blocks().len() implies old(
                self,
            ).blocks().contains(#[trigger] self.blocks()[i]) by {
                let local = after.keys@[i];
                assert(after.live(local));
                let j = before.keys@.index_of(local);
                assert(before.keys@[j] == local);
                assert(old(self).blocks()[j] == self.blocks()[i]);
            }
        }
    }
}

/// Filtering keeps a sequence all of whose items pass.
pub proof fn lemma_filter_all<A>(s: Seq<A>, pred: spec_fn(A) -> bool)
    requires
        forall|i: int| 0 <= i < s.len() ==> pred(#[trigger] s[i]),
    ensures
        s.filter(pred) == s,
    decreases s.len(),
{
    reveal(Seq::filter);
    if s.len() > 0 {
        assert forall|i: int| 0 <= i < s.drop_last().len() implies pred(
            #[trigger] s.drop_last()[i],
        ) by {
            assert(s.drop_last()[i] == s[i]);
        }
        lemma_filter_all(s.drop_last(), pred);
        assert(pred(s.last()));
        assert(s.drop_last().push(s.last()) =~= s);
    } else {
        assert(s.filter(pred) =~= s);
    }
}

/// Filtering empties a sequence none of whose items pass.
pub proof fn lemma_filter_none<A>(s: Seq<A>, pred: spec_fn(A) -> bool)
    requires
        forall|i: int| 0 <= i < s.len() ==> !pred(#[trigger] s[i]),
    ensures
        s.filter(pred) == Seq::<A>::empty(),
    decreases s.len(),
{
    reveal(Seq::filter);
    if s.len() > 0 {
        assert forall|i: int| 0 <= i < s.drop_last().len() implies !pred(
            #[trigger] s.drop_last()[i],
        ) by {
            assert(s.drop_last()[i] == s[i]);
        }
        lemma_filter_none(s.drop_last(), pred);
        assert(!pred(s.last()));
    } else {
        assert(s.filter(pred) =~= Seq::<A>::empty());
    }
}

proof fn lemma_unfiltered<T>(anchors: Seq<Anchor<T>>, except: Set<RawKey>)
    requires
        tags_except(tags(anchors), except) == tags(anchors),
    ensures
        kept_anchors(anchors, except) == anchors,
{
    let keep = |tag: AnchorTag| !except.contains(tag.prior);
    assert forall|i: int| 0 <= i < anchors.len() implies !except.contains(
        (#[trigger] anchors[i]).prior,
    ) by {
        tags(anchors).lemma_filter_pred(keep, i);
        assert(tags(anchors).filter(keep)[i] == tags(anchors)[i]);
        assert(tags(anchors)[i].prior == anchors[i].prior);
    }
    lemma_filter_all(anchors, |anchor: Anchor<T>| !except.contains(anchor.prior));
}

proof fn lemma_appended<T>(before: Seq<Anchor<T>>, fresh: Seq<Anchor<T>>, prior: RawKey)
    requires
        forall|i: int| 0 <= i < fresh.len() ==> (#[trigger] fresh[i]).prior == prior,
        tags_of(tags(before), prior).len() == 0,
    ensures
        tags_of(tags(before + fresh), prior) == tags(fresh),
        kept_anchors(before + fresh, set![prior]) == kept_anchors(before, set![prior]),
{
    let of = |tag: AnchorTag| tag.prior == prior;
    let keep = |anchor: Anchor<T>| !set![prior].contains(anchor.prior);
    assert(tags(before + fresh) =~= tags(before) + tags(fresh));
    Seq::filter_distributes_over_add(tags(before), tags(fresh), of);
    lemma_filter_all(tags(fresh), of);
    assert(tags(before).filter(of) =~= Seq::<AnchorTag>::empty());
    assert(tags_of(tags(before + fresh), prior) =~= tags(fresh));
    Seq::filter_distributes_over_add(before, fresh, keep);
    lemma_filter_none(fresh, keep);
    assert(kept_anchors(before + fresh, set![prior]) =~= kept_anchors(before, set![prior]));
}

proof fn lemma_filter_again<T>(anchors: Seq<Anchor<T>>, except: Set<RawKey>)
    ensures
        kept_anchors(kept_anchors(anchors, except), except) == kept_anchors(anchors, except),
{
    let keep = |anchor: Anchor<T>| !except.contains(anchor.prior);
    let kept = kept_anchors(anchors, except);
    assert forall|i: int| 0 <= i < kept.len() implies keep(#[trigger] kept[i]) by {
        anchors.lemma_filter_pred(keep, i);
    }
    lemma_filter_all(kept, keep);
}

proof fn lemma_placed_add(a: Seq<(BlockId, nat)>, b: Seq<(BlockId, nat)>, offset: nat)
    ensures
        placed(a + b, offset) == placed(a, offset) + placed(b, offset + width_sum(a)),
{
    assert forall|i: int| 0 <= i < (a + b).len() implies placed(a + b, offset)[i] == (placed(
        a,
        offset,
    ) + placed(b, offset + width_sum(a)))[i] by {
        if i < a.len() {
            assert((a + b).take(i) =~= a.take(i));
        } else {
            assert((a + b).take(i) =~= a + b.take(i - a.len()));
            lemma_width_sum_add(a, b.take(i - a.len()));
        }
    }
    assert(placed(a + b, offset) =~= placed(a, offset) + placed(b, offset + width_sum(a)));
}

proof fn lemma_kept_tags_add(
    a: Seq<(BlockId, nat)>,
    b: Seq<(BlockId, nat)>,
    layout: &Layout,
    remove: Set<RawKey>,
    offset: int,
    prior: RawKey,
    n: int,
)
    requires
        0 <= n <= b.len(),
    ensures
        kept_tags(a + b, layout, remove, offset, prior, a.len() + n) == kept_tags(
            a,
            layout,
            remove,
            offset,
            prior,
            a.len() as int,
        ) + kept_tags(b, layout, remove, offset, prior, n),
    decreases n,
{
    let left = kept_tags(a, layout, remove, offset, prior, a.len() as int);
    if n == 0 {
        lemma_kept_tags_prefix(a, b, layout, remove, offset, prior, a.len() as int);
        assert(left + kept_tags(b, layout, remove, offset, prior, 0) =~= left);
    } else {
        lemma_kept_tags_add(a, b, layout, remove, offset, prior, n - 1);
        assert((a + b)[a.len() + n - 1] == b[n - 1]);
        assert(kept_tags(a + b, layout, remove, offset, prior, a.len() + n) =~= left + kept_tags(
            b,
            layout,
            remove,
            offset,
            prior,
            n,
        ));
    }
}

proof fn lemma_kept_tags_prefix(
    a: Seq<(BlockId, nat)>,
    b: Seq<(BlockId, nat)>,
    layout: &Layout,
    remove: Set<RawKey>,
    offset: int,
    prior: RawKey,
    n: int,
)
    requires
        0 <= n <= a.len(),
    ensures
        kept_tags(a + b, layout, remove, offset, prior, n) == kept_tags(
            a,
            layout,
            remove,
            offset,
            prior,
            n,
        ),
    decreases n,
{
    if n > 0 {
        lemma_kept_tags_prefix(a, b, layout, remove, offset, prior, n - 1);
        assert((a + b)[n - 1] == a[n - 1]);
    }
}

proof fn lemma_tags_add(a: Seq<AnchorTag>, b: Seq<AnchorTag>, prior: RawKey, except: Set<RawKey>)
    ensures
        tags_of(a + b, prior) == tags_of(a, prior) + tags_of(b, prior),
        tags_except(a + b, except) == tags_except(a, except) + tags_except(b, except),
{
    Seq::filter_distributes_over_add(a, b, |tag: AnchorTag| tag.prior == prior);
    Seq::filter_distributes_over_add(a, b, |tag: AnchorTag| !except.contains(tag.prior));
}

proof fn lemma_tags_whole(a: Seq<AnchorTag>, b: Seq<AnchorTag>, except: Set<RawKey>)
    requires
        tags_except(a + b, except) == a + b,
    ensures
        tags_except(a, except) == a,
        tags_except(b, except) == b,
{
    let keep = |tag: AnchorTag| !except.contains(tag.prior);
    Seq::filter_distributes_over_add(a, b, keep);
    a.lemma_filter_len(keep);
    b.lemma_filter_len(keep);
    let left = a.filter(keep);
    let right = b.filter(keep);
    assert(left + right == a + b);
    assert(left.len() + right.len() == a.len() + b.len());
    let n = a.len();
    assert forall|i: int| 0 <= i < n implies left[i] == a[i] by {
        assert((left + right)[i] == left[i]);
        assert((a + b)[i] == a[i]);
    }
    assert forall|i: int| 0 <= i < b.len() implies right[i] == b[i] by {
        assert((left + right)[n + i] == right[i]);
        assert((a + b)[n + i] == b[i]);
    }
    assert(left =~= a);
    assert(right =~= b);
}

impl<A, B> Readable for Pair<A, B> where
    A: StateSchema,
    B: StateSchema<Scalar = <A as StateSchema>::Scalar>,
 {
    type Reading = (A::Reading, B::Reading);

    open spec fn wf(&self) -> bool {
        &&& self.first.wf()
        &&& self.second.wf()
        &&& self.first.pools().disjoint(self.second.pools())
    }

    open spec fn reading(&self) -> (A::Reading, B::Reading) {
        (self.first.reading(), self.second.reading())
    }
}

impl<A, B> StateSchema for Pair<A, B> where
    A: StateSchema,
    B: StateSchema<Scalar = <A as StateSchema>::Scalar>,
 {
    type Scalar = <A as StateSchema>::Scalar;

    type Estimates = (A::Estimates, B::Estimates);

    type References = (A::References, B::References);

    open spec fn idle(&self) -> bool {
        self.first.idle() && self.second.idle()
    }

    open spec fn pools(&self) -> Set<PoolId> {
        self.first.pools().union(self.second.pools())
    }

    open spec fn blocks(&self) -> Seq<(BlockId, nat)> {
        self.first.blocks() + self.second.blocks()
    }

    open spec fn accepted(&self) -> (A::Estimates, B::Estimates) {
        (self.first.accepted(), self.second.accepted())
    }

    open spec fn current(&self) -> (A::Estimates, B::Estimates) {
        (self.first.current(), self.second.current())
    }

    open spec fn moved(&self, delta: Seq<<A as StateSchema>::Scalar>) -> (
        A::Estimates,
        B::Estimates,
    ) {
        let width = width_sum(self.first.blocks()) as int;
        (self.first.moved(delta.take(width)), self.second.moved(delta.skip(width)))
    }

    open spec fn same_graph(&self, other: &Self) -> bool {
        self.first.same_graph(&other.first) && self.second.same_graph(&other.second)
    }

    open spec fn agrees(&self, other: &Self, except: Set<RawKey>) -> bool {
        self.first.agrees(&other.first, except) && self.second.agrees(&other.second, except)
    }

    open spec fn anchored(&self) -> Seq<AnchorTag> {
        self.first.anchored() + self.second.anchored()
    }

    open spec fn references(&self) -> (A::References, B::References) {
        (self.first.references(), self.second.references())
    }

    open spec fn captured(
        &self,
        prior: RawKey,
        layout: &Layout,
        remove: Set<RawKey>,
        offset: int,
    ) -> (A::References, B::References) {
        (
            self.first.captured(prior, layout, remove, offset),
            self.second.captured(prior, layout, remove, offset),
        )
    }

    open spec fn left(
        references: (A::References, B::References),
        priors: Set<RawKey>,
    ) -> (A::References, B::References) {
        (A::left(references.0, priors), B::left(references.1, priors))
    }

    open spec fn fault_spec(&self, ids: Seq<BlockId>) -> Option<KeyError> {
        match self.first.fault_spec(ids) {
            Some(error) => Some(error),
            None => self.second.fault_spec(ids),
        }
    }

    open spec fn resolve_spec(&self, id: BlockId) -> Option<Result<(), KeyError>> {
        match self.first.resolve_spec(id) {
            Some(known) => Some(known),
            None => self.second.resolve_spec(id),
        }
    }

    open spec fn deltas_spec(&self, selected: Option<Set<RawKey>>, derivatives: bool) -> Result<
        Seq<AnchorView<<A as StateSchema>::Scalar>>,
        SolverError,
    > {
        match self.first.deltas_spec(selected, derivatives) {
            Err(error) => Err(error),
            Ok(first) => match self.second.deltas_spec(selected, derivatives) {
                Err(error) => Err(error),
                Ok(second) => Ok(first + second),
            },
        }
    }

    open spec fn capturable(&self, layout: &Layout, remove: Set<RawKey>) -> bool {
        self.first.capturable(layout, remove) && self.second.capturable(layout, remove)
    }

    open spec fn keeps_estimates(&self, before: &Self) -> bool {
        self.first.keeps_estimates(&before.first) && self.second.keeps_estimates(&before.second)
    }

    proof fn lemma_moved(&self, other: &Self, delta: Seq<<A as StateSchema>::Scalar>) {
        let width = width_sum(self.first.blocks()) as int;
        self.first.lemma_moved(&other.first, delta.take(width));
        self.second.lemma_moved(&other.second, delta.skip(width));
    }

    proof fn lemma_idle(&self) {
        self.first.lemma_idle();
        self.second.lemma_idle();
    }

    proof fn lemma_same_graph(a: &Self, b: &Self, c: &Self) {
        A::lemma_same_graph(&a.first, &b.first, &c.first);
        B::lemma_same_graph(&a.second, &b.second, &c.second);
    }

    proof fn lemma_agrees(&self, other: &Self, except: Set<RawKey>) {
        self.first.lemma_agrees(&other.first, except);
        self.second.lemma_agrees(&other.second, except);
        let keep = |tag: AnchorTag| !except.contains(tag.prior);
        Seq::filter_distributes_over_add(self.first.anchored(), self.second.anchored(), keep);
        Seq::filter_distributes_over_add(other.first.anchored(), other.second.anchored(), keep);
    }

    proof fn lemma_keeps(&self, middle: &Self, before: &Self, except: Set<RawKey>) {
        self.first.lemma_keeps(&middle.first, &before.first, except);
        self.second.lemma_keeps(&middle.second, &before.second, except);
    }

    proof fn lemma_graph_agrees(&self, other: &Self, except: Set<RawKey>) {
        self.first.lemma_graph_agrees(&other.first, except);
        self.second.lemma_graph_agrees(&other.second, except);
    }

    proof fn lemma_agrees_through(&self, middle: &Self, other: &Self, except: Set<RawKey>) {
        self.first.lemma_agrees_through(&middle.first, &other.first, except);
        self.second.lemma_agrees_through(&middle.second, &other.second, except);
    }

    proof fn lemma_reading(&self, other: &Self) {
        self.first.lemma_reading(&other.first);
        self.second.lemma_reading(&other.second);
    }

    proof fn lemma_delta_errors(&self, selected: Option<Set<RawKey>>, derivatives: bool) {
        self.first.lemma_delta_errors(selected, derivatives);
        self.second.lemma_delta_errors(selected, derivatives);
    }

    proof fn lemma_reflexive(&self, except: Set<RawKey>) {
        self.first.lemma_reflexive(except);
        self.second.lemma_reflexive(except);
    }

    proof fn lemma_restored(before: &Self, during: &Self, after: &Self, except: Set<RawKey>) {
        lemma_tags_whole(before.first.anchored(), before.second.anchored(), except);
        lemma_tags_whole(after.first.anchored(), after.second.anchored(), except);
        A::lemma_restored(&before.first, &during.first, &after.first, except);
        B::lemma_restored(&before.second, &during.second, &after.second, except);
    }

    proof fn lemma_blocks(&self) {
        self.first.lemma_blocks();
        self.second.lemma_blocks();
        let a = self.first.blocks();
        let b = self.second.blocks();
        assert forall|i: int| 0 <= i < self.blocks().len() implies {
            &&& self.pools().contains((#[trigger] self.blocks()[i]).0.raw.pool)
            &&& self.resolve_spec(self.blocks()[i].0) == Some(Ok::<(), KeyError>(()))
        } by {
            if i < a.len() {
                assert(self.blocks()[i] == a[i]);
            } else {
                assert(self.blocks()[i] == b[i - a.len()]);
            }
        }
        assert forall|i: int, j: int| 0 <= i < j < self.blocks().len() implies (
        #[trigger] self.blocks()[i]).0 != (#[trigger] self.blocks()[j]).0 by {
            if j < a.len() {
                assert(self.blocks()[i] == a[i] && self.blocks()[j] == a[j]);
            } else if i >= a.len() {
                assert(self.blocks()[i] == b[i - a.len()]);
                assert(self.blocks()[j] == b[j - a.len()]);
            } else {
                assert(self.blocks()[i] == a[i]);
                assert(self.blocks()[j] == b[j - a.len()]);
            }
        }
        assert forall|id: BlockId|
            #![trigger self.resolve_spec(id)]
            self.resolve_spec(id) == Some(Ok::<(), KeyError>(())) implies exists|i: int|
            0 <= i < self.blocks().len() && (#[trigger] self.blocks()[i]).0 == id by {
            if self.first.resolve_spec(id) is Some {
                let i = choose|i: int| 0 <= i < a.len() && (#[trigger] a[i]).0 == id;
                assert(self.blocks()[i].0 == id);
            } else {
                let i = choose|i: int| 0 <= i < b.len() && (#[trigger] b[i]).0 == id;
                assert(self.blocks()[a.len() + i].0 == id);
            }
        }
    }

    proof fn lemma_fault(&self, ids: Seq<BlockId>) {
        self.first.lemma_fault(ids);
        self.second.lemma_fault(ids);
        self.first.lemma_blocks();
        self.second.lemma_blocks();
        match self.first.fault_spec(ids) {
            Some(error) => {
                let i = choose|i: int|
                    0 <= i < ids.len() && self.first.resolve_spec(#[trigger] ids[i]) == Some(
                        Err::<(), KeyError>(error),
                    );
                assert(self.resolve_spec(ids[i]) == Some(Err::<(), KeyError>(error)));
            },
            None => match self.second.fault_spec(ids) {
                Some(error) => {
                    let i = choose|i: int|
                        0 <= i < ids.len() && self.second.resolve_spec(#[trigger] ids[i]) == Some(
                            Err::<(), KeyError>(error),
                        );
                    assert(self.first.resolve_spec(ids[i]) is None);
                    assert(self.resolve_spec(ids[i]) == Some(Err::<(), KeyError>(error)));
                },
                None => {
                    assert forall|i: int| 0 <= i < ids.len() implies !(self.resolve_spec(
                        #[trigger] ids[i],
                    ) matches Some(Err(_))) by {
                        assert(!(self.first.resolve_spec(ids[i]) matches Some(Err(_))));
                        assert(!(self.second.resolve_spec(ids[i]) matches Some(Err(_))));
                    }
                },
            },
        }
    }

    fn fault(&self, ids: &[BlockId]) -> (found: Option<KeyError>) {
        match self.first.fault(ids) {
            Some(error) => Some(error),
            None => self.second.fault(ids),
        }
    }

    fn resolve(&self, id: BlockId) -> (known: Option<Result<(), KeyError>>) {
        match self.first.resolve(id) {
            Some(known) => Some(known),
            None => self.second.resolve(id),
        }
    }

    fn arrange(&mut self, layout: &mut Layout) -> (arranged: Result<(), SolverError>) {
        proof {
            lemma_width_sum_add(self.first.blocks(), self.second.blocks());
            lemma_placed_add(
                self.first.blocks(),
                self.second.blocks(),
                layout.dimension as nat,
            );
            self.second.lemma_reflexive(Set::empty());
        }
        let ghost start = layout.blocks@;
        match self.first.arrange(layout) {
            Ok(_) => {},
            Err(error) => {
                return Err(error);
            },
        }
        let arranged = self.second.arrange(layout);
        proof {
            if arranged is Ok {
                assert(layout.blocks@ =~= start + placed(
                    old(self).blocks(),
                    old(layout).dimension as nat,
                ));
            }
        }
        arranged
    }

    fn stage(&mut self, delta: &[<A as StateSchema>::Scalar], position: usize) -> (staged: Result<
        usize,
        EvaluationError,
    >) {
        proof {
            lemma_width_sum_add(self.first.blocks(), self.second.blocks());
            self.second.lemma_reflexive(Set::empty());
        }
        let middle: usize = match self.first.stage(delta, position) {
            Ok(middle) => middle,
            Err(error) => {
                return Err(error);
            },
        };
        let staged = self.second.stage(delta, middle);
        proof {
            if let Ok(end) = staged {
                let whole = delta@.subrange(position as int, end as int);
                let width = width_sum(old(self).first.blocks()) as int;
                assert(whole.take(width) =~= delta@.subrange(position as int, middle as int));
                assert(whole.skip(width) =~= delta@.subrange(middle as int, end as int));
            }
        }
        staged
    }

    fn accept(&mut self) {
        self.first.accept();
        self.second.accept();
    }

    fn reject(&mut self) {
        self.first.reject();
        self.second.reject();
    }

    fn deltas(&self, selected: Option<&KeySet>, derivatives: bool) -> (deltas: Result<
        Vec<AnchorDelta<<A as StateSchema>::Scalar>>,
        SolverError,
    >) {
        let mut deltas = match self.first.deltas(selected, derivatives) {
            Ok(deltas) => deltas,
            Err(error) => {
                return Err(error);
            },
        };
        let mut more = match self.second.deltas(selected, derivatives) {
            Ok(more) => more,
            Err(error) => {
                return Err(error);
            },
        };
        let ghost a = deltas@;
        let ghost b = more@;
        deltas.append(&mut more);
        assert(anchor_views(deltas@) =~= anchor_views(a) + anchor_views(b));
        Ok(deltas)
    }

    fn capture(
        &mut self,
        prior: RawKey,
        layout: &Layout,
        remove: &KeySet,
        offset: usize,
    ) -> (captured: Result<(), SolverError>) {
        proof {
            let a = self.first.anchored();
            let b = self.second.anchored();
            lemma_tags_add(a, b, prior, set![prior]);
            self.second.lemma_reflexive(set![prior]);
        }
        match self.first.capture(prior, layout, remove, offset) {
            Ok(_) => {},
            Err(error) => {
                return Err(error);
            },
        }
        let captured = self.second.capture(prior, layout, remove, offset);
        proof {
            if captured is Ok {
                let a = old(self).first.blocks();
                let b = old(self).second.blocks();
                lemma_tags_add(
                    self.first.anchored(),
                    self.second.anchored(),
                    prior,
                    set![prior],
                );
                lemma_kept_tags_add(
                    a,
                    b,
                    layout,
                    remove@,
                    offset as int,
                    prior,
                    b.len() as int,
                );
            }
        }
        captured
    }

    fn drop_anchors(&mut self, priors: &KeySet) {
        proof {
            lemma_tags_add(
                self.first.anchored(),
                self.second.anchored(),
                arbitrary(),
                priors@,
            );
        }
        self.first.drop_anchors(priors);
        self.second.drop_anchors(priors);
    }

    fn remove(&mut self, remove: &KeySet) {
        proof {
            self.first.lemma_blocks();
            self.second.lemma_blocks();
        }
        self.first.remove(remove);
        self.second.remove(remove);
        proof {
            let a = old(self).first.blocks();
            let b = old(self).second.blocks();
            assert forall|i: int| 0 <= i < self.blocks().len() implies old(
                self,
            ).blocks().contains(#[trigger] self.blocks()[i]) by {
                let block = self.blocks()[i];
                if i < self.first.blocks().len() {
                    assert(a.contains(self.first.blocks()[i]));
                    let j = a.index_of(block);
                    assert(old(self).blocks()[j] == block);
                } else {
                    assert(b.contains(self.second.blocks()[i - self.first.blocks().len()]));
                    let j = b.index_of(block);
                    assert(old(self).blocks()[a.len() + j] == block);
                }
            }
        }
    }
}

impl<R: Real> Readable for Nothing<R> {
    type Reading = ();

    open spec fn wf(&self) -> bool {
        true
    }

    open spec fn reading(&self) -> () {
        ()
    }
}

impl<R: Real> StateSchema for Nothing<R> {
    type Scalar = R;

    type Estimates = ();

    type References = ();

    open spec fn idle(&self) -> bool {
        true
    }

    open spec fn pools(&self) -> Set<PoolId> {
        Set::empty()
    }

    open spec fn blocks(&self) -> Seq<(BlockId, nat)> {
        Seq::empty()
    }

    open spec fn accepted(&self) -> () {
        ()
    }

    open spec fn current(&self) -> () {
        ()
    }

    open spec fn moved(&self, delta: Seq<R>) -> () {
        ()
    }

    open spec fn same_graph(&self, other: &Self) -> bool {
        true
    }

    open spec fn agrees(&self, other: &Self, except: Set<RawKey>) -> bool {
        true
    }

    open spec fn anchored(&self) -> Seq<AnchorTag> {
        Seq::empty()
    }

    open spec fn references(&self) -> () {
        ()
    }

    open spec fn captured(
        &self,
        prior: RawKey,
        layout: &Layout,
        remove: Set<RawKey>,
        offset: int,
    ) -> () {
        ()
    }

    open spec fn left(references: (), priors: Set<RawKey>) -> () {
        ()
    }

    open spec fn fault_spec(&self, ids: Seq<BlockId>) -> Option<KeyError> {
        None
    }

    open spec fn resolve_spec(&self, id: BlockId) -> Option<Result<(), KeyError>> {
        None
    }

    open spec fn deltas_spec(&self, selected: Option<Set<RawKey>>, derivatives: bool) -> Result<
        Seq<AnchorView<R>>,
        SolverError,
    > {
        Ok(Seq::empty())
    }

    open spec fn capturable(&self, layout: &Layout, remove: Set<RawKey>) -> bool {
        true
    }

    open spec fn keeps_estimates(&self, before: &Self) -> bool {
        true
    }

    proof fn lemma_moved(&self, other: &Self, delta: Seq<R>) {
    }

    proof fn lemma_idle(&self) {
    }

    proof fn lemma_same_graph(a: &Self, b: &Self, c: &Self) {
    }

    proof fn lemma_agrees(&self, other: &Self, except: Set<RawKey>) {
    }

    proof fn lemma_keeps(&self, middle: &Self, before: &Self, except: Set<RawKey>) {
    }

    proof fn lemma_graph_agrees(&self, other: &Self, except: Set<RawKey>) {
    }

    proof fn lemma_agrees_through(&self, middle: &Self, other: &Self, except: Set<RawKey>) {
    }

    proof fn lemma_reading(&self, other: &Self) {
    }

    proof fn lemma_delta_errors(&self, selected: Option<Set<RawKey>>, derivatives: bool) {
    }

    proof fn lemma_reflexive(&self, except: Set<RawKey>) {
    }

    proof fn lemma_restored(before: &Self, during: &Self, after: &Self, except: Set<RawKey>) {
    }

    proof fn lemma_blocks(&self) {
    }

    proof fn lemma_fault(&self, ids: Seq<BlockId>) {
    }

    fn fault(&self, ids: &[BlockId]) -> (found: Option<KeyError>) {
        None
    }

    fn resolve(&self, id: BlockId) -> (known: Option<Result<(), KeyError>>) {
        None
    }

    fn arrange(&mut self, layout: &mut Layout) -> (arranged: Result<(), SolverError>) {
        proof {
            reveal(width_sum);
            assert(layout.blocks@ + placed(self.blocks(), layout.dimension as nat)
                =~= layout.blocks@);
        }
        Ok(())
    }

    fn stage(&mut self, delta: &[R], position: usize) -> (staged: Result<usize, EvaluationError>) {
        proof {
            reveal(width_sum);
        }
        Ok(position)
    }

    fn accept(&mut self) {
    }

    fn reject(&mut self) {
    }

    fn deltas(&self, selected: Option<&KeySet>, derivatives: bool) -> (deltas: Result<
        Vec<AnchorDelta<R>>,
        SolverError,
    >) {
        let deltas: Vec<AnchorDelta<R>> = Vec::new();
        assert(anchor_views(deltas@) =~= Seq::<AnchorView<R>>::empty());
        Ok(deltas)
    }

    fn capture(
        &mut self,
        prior: RawKey,
        layout: &Layout,
        remove: &KeySet,
        offset: usize,
    ) -> (captured: Result<(), SolverError>) {
        Ok(())
    }

    fn drop_anchors(&mut self, priors: &KeySet) {
        proof {
            lemma_filter_all(
                Seq::<AnchorTag>::empty(),
                |tag: AnchorTag| !priors@.contains(tag.prior),
            );
        }
    }

    fn remove(&mut self, remove: &KeySet) {
    }
}

} // verus!
