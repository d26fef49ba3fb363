//! Square-root elimination of variables into priors with fixed references.
use crate::backend::LeastSquaresBackend;
use crate::elimination::{reduce, reduced_spec, PivotedQr, ReducedView, Rows, RowsView};
use crate::error::{EvaluationError, KeyError, SolverError};
use crate::families::{collected_run, plan_run, FactorSchema, Incidence};
use crate::front::{
    affected_set, all_incidence, front_blocks, isolate, isolated_spec, kept, listed,
    prior_incidence, share, touched_set, touches, Front,
};
use crate::index::KeySet;
use crate::key::{BlockId, FactorId, LocalKey, RawKey};
use crate::layout::{Block, Layout};
use crate::optimization::{unplanned, untouched, Workspace};
use crate::priors::{Prior, PriorBlock, PriorView, Priors};
use crate::scalar::Real;
use crate::linearization::LinearizationSink;
use crate::sink::CheckedSink;
use crate::states::{
    keeps_after, kept_tags, lemma_filter_all, lemma_filter_none, lemma_width_sum_add,
    lemma_width_sum_prefix, positions, tags_except, tags_of, width_sum, AnchorTag, StateSchema,
};
use crate::storage::{checked_cost, checked_cost_spec};
use vstd::prelude::*;

verus! {

/// Numerical controls of marginalization.
#[derive(Debug, Clone, Copy)]
pub struct MarginalizationOptions<R> {
    /// Relative cutoff for the pivoted diagonal of the eliminated columns; at least zero
    /// and below one. Without one, machine epsilon times the larger matrix dimension.
    /// Directions below the cutoff count as zero. Nothing is damped or regularized.
    pub relative_rank_tolerance: Option<R>,
}

impl<R: Real> MarginalizationOptions<R> {
    /// The cutoff that the precision suggests.
    pub fn defaults() -> (options: Self)
        ensures
            options.relative_rank_tolerance is None,
    {
        MarginalizationOptions { relative_rank_tolerance: None }
    }

    /// A usable cutoff, if there is one.
    pub open spec fn valid(self) -> bool {
        match self.relative_rank_tolerance {
            None => true,
            Some(tolerance) => {
                &&& tolerance.finite_spec()
                &&& !tolerance.below_spec(R::zero_spec())
                &&& !R::one_spec().at_most_spec(tolerance)
            },
        }
    }

    /// Reject an unusable cutoff.
    pub fn validate(&self) -> (valid: Result<(), SolverError>)
        ensures
            valid == if self.valid() {
                Ok::<(), SolverError>(())
            } else {
                Err(SolverError::InvalidRankTolerance)
            },
    {
        match self.relative_rank_tolerance {
            None => Ok(()),
            Some(tolerance) => {
                if !tolerance.is_finite() || tolerance.below(R::zero()) || R::one().at_most(
                    tolerance,
                ) {
                    Err(SolverError::InvalidRankTolerance)
                } else {
                    Ok(())
                }
            },
        }
    }
}

/// Dimensions and edits of a successful marginalization.
#[derive(Debug, Clone, Copy, PartialEq, Eq, Structural)]
pub struct MarginalizationReport {
    /// Number of distinct removed variables.
    pub removed_states: usize,
    /// Number of removed coordinates.
    pub removed_dof: usize,
    /// Number of absorbed factors and batch payloads.
    pub absorbed_factors: usize,
    /// Number of absorbed priors.
    pub absorbed_priors: usize,
    /// Number of coordinates that the new prior is over.
    pub separator_dof: usize,
    /// Numerical rank of the eliminated columns.
    pub eliminated_rank: usize,
    /// Residual rows of the new prior.
    pub prior_rows: usize,
}

impl MarginalizationReport {
    /// Nothing was done.
    pub open spec fn blank_spec() -> Self {
        MarginalizationReport {
            removed_states: 0,
            removed_dof: 0,
            absorbed_factors: 0,
            absorbed_priors: 0,
            separator_dof: 0,
            eliminated_rank: 0,
            prior_rows: 0,
        }
    }
}

impl Default for MarginalizationReport {
    fn default() -> (report: Self)
        ensures
            report == Self::blank_spec(),
    {
        MarginalizationReport {
            removed_states: 0,
            removed_dof: 0,
            absorbed_factors: 0,
            absorbed_priors: 0,
            separator_dof: 0,
            eliminated_rank: 0,
            prior_rows: 0,
        }
    }
}

/// Every reference belongs to a live prior.
pub open spec fn grounded<S: StateSchema>(states: S, priors: Priors<S::Scalar>) -> bool {
    forall|i: int|
        0 <= i < states.anchored().len() ==> priors.entries.lookup(
            (#[trigger] states.anchored()[i]).prior,
        ) is Ok
}

/// Every planned factor was emitted, or is a prior.
pub open spec fn accounted<R: Real>(layout: &Layout, priors: Priors<R>, seen: Seq<bool>) -> bool {
    forall|f: int|
        0 <= f < layout.factors@.len() ==> seen[f] || priors.entries.lookup(
            (#[trigger] layout.factors@[f]).id.raw,
        ) is Ok
}

/// The rows of all affected factors and priors at the current estimates, or why there are
/// none. Every affected factor must be emitted, and nothing refused.
pub open spec fn gathered_spec<S: StateSchema, F: FactorSchema<S, Scalar = S::Scalar>>(
    layout: &Layout,
    states: S,
    factors: F,
    priors: Priors<S::Scalar>,
    affected: Set<RawKey>,
) -> Result<RowsView<S::Scalar>, SolverError> {
    let picked = factors.picked(states.reading(), layout.factor_index@);
    let start = Rows::<S::Scalar>::empty_spec((), layout.dimension as nat);
    if layout.dimension == usize::MAX {
        Err(SolverError::Evaluation(EvaluationError::DimensionMismatch))
    } else {
        match collected_run::<Rows<S::Scalar>>(
            layout,
            untouched(layout, start),
            picked,
            picked.len() as int,
        ) {
            Err(error) => Err(error),
            Ok(reached) => if reached.failed || !accounted(layout, priors, reached.seen) {
                Err(SolverError::Evaluation(EvaluationError::InvalidEmission))
            } else {
                match priors.evaluated(states, true, Some(affected)) {
                    Err(error) => Err(error),
                    Ok(views) => match priors.rows_run::<Rows<S::Scalar>>(
                        layout,
                        reached.model,
                        views,
                        Some(affected),
                        views.len() as int,
                    ) {
                        Err(error) => Err(SolverError::Evaluation(error)),
                        Ok(rows) => Ok(rows),
                    },
                }
            },
        }
    }
}

impl CheckedSink {
    /// Whether every planned factor was emitted, or is a prior.
    fn accounts<R: Real>(&self, layout: &Layout, priors: &Priors<R>) -> (all: bool)
        requires
            self.wf(layout),
            priors.wf(),
        ensures
            all == accounted(layout, *priors, self.seen@),
    {
        let mut f: usize = 0;
        while f < layout.factors.len()
            invariant
                self.wf(layout),
                priors.wf(),
                f <= layout.factors@.len(),
                forall|g: int|
                    0 <= g < f ==> self.seen@[g] || priors.entries.lookup(
                        (#[trigger] layout.factors@[g]).id.raw,
                    ) is Ok,
            decreases layout.factors@.len() - f,
        {
            if !self.seen[f] && priors.entries.index(layout.factors[f].id.raw).is_err() {
                assert(priors.entries.lookup(layout.factors@[f as int].id.raw) is Err);
                return false;
            }
            f += 1;
        }
        true
    }
}

/// Collect the rows of all affected factors and priors at the current estimates.
fn gather<S: StateSchema, F: FactorSchema<S, Scalar = S::Scalar>>(
    work: &mut Workspace<Rows<S::Scalar>>,
    states: &S,
    factors: &mut F,
    priors: &mut Priors<S::Scalar>,
    affected: &KeySet,
) -> (gathered: Result<(), SolverError>)
    requires
        old(work).wf(),
        states.wf(),
        old(factors).wf(),
        old(priors).wf(),
        affected.wf(),
    ensures
        final(work).layout == old(work).layout,
        final(factors).wf(),
        final(factors).same_factors(old(factors)),
        final(priors).wf(),
        final(priors).same_priors(old(priors)),
        match gathered_spec(&old(work).layout, *states, *old(factors), *old(priors), affected@) {
            Err(error) => gathered == Err::<(), SolverError>(error),
            Ok(rows) => {
                &&& gathered is Ok
                &&& final(work).backend@ == rows
                &&& final(work).backend.wf()
                &&& final(work).backend.dimension == old(work).layout.dimension
            },
        },
{
    proof {
        factors.lemma_same_reflexive();
    }
    match work.backend.prepare(work.layout.dimension) {
        Ok(_) => {},
        Err(error) => {
            return Err(error);
        },
    }
    work.backend.clear();
    work.checks = CheckedSink::new(&work.layout);
    proof {
        assert(work.checks.seen@ =~= Seq::new(work.layout.factors@.len(), |f: int| false));
        assert(work.progress() == untouched(
            &work.layout,
            Rows::<S::Scalar>::empty_spec((), work.layout.dimension as nat),
        ));
    }
    match factors.collect(states, work) {
        Ok(_) => {},
        Err(error) => {
            return Err(error);
        },
    }
    if work.checks.failed || !work.checks.accounts(&work.layout, priors) {
        return Err(SolverError::Evaluation(EvaluationError::InvalidEmission));
    }
    priors.linearize(states, &mut work.backend, &work.layout, Some(affected))
}

/// The columns of a new prior, one run for each variable that stays.
pub open spec fn prior_blocks(stays: Seq<(BlockId, nat)>) -> Seq<PriorBlock> {
    Seq::new(
        stays.len(),
        |k: int|
            PriorBlock {
                id: stays[k].0,
                start: width_sum(stays.take(k)) as usize,
                len: stays[k].1 as usize,
            },
    )
}

/// The variables of a front that stay.
pub open spec fn staying(
    blocks: Seq<(BlockId, nat)>,
    all: Seq<Incidence>,
    ids: Seq<BlockId>,
) -> Seq<(BlockId, nat)> {
    let remove = listed(ids);
    share(blocks, remove, touched_set(all, remove, all.len() as int), false)
}

/// The first coordinates of a front belong to the variables that go, the others to those
/// that stay.
pub proof fn lemma_front_order(
    front: &Front,
    blocks: Seq<(BlockId, nat)>,
    all: Seq<Incidence>,
    ids: Seq<BlockId>,
)
    requires
        front.describes(blocks, all, ids),
    ensures
        ({
            let stays = staying(blocks, all, ids);
            let n = front.layout.blocks@.len() - stays.len();
            &&& 0 <= n
            &&& front.layout.dimension == front.removed_dof + width_sum(stays)
            &&& keeps_after(&front.layout, front.remove@, front.removed_dof as int)
            &&& forall|i: int|
                #![trigger front.layout.blocks@[i]]
                0 <= i < front.layout.blocks@.len() ==> {
                    &&& front.remove@.contains(front.layout.blocks@[i].id.raw) <==> i < n
                    &&& i >= n ==> front.layout.blocks@[i] == (Block {
                        id: stays[i - n].0,
                        offset: (front.removed_dof + width_sum(stays.take(i - n))) as usize,
                        width: stays[i - n].1 as usize,
                    })
                }
            &&& forall|k: int|
                0 <= k < stays.len() ==> front.removed_dof + width_sum(#[trigger] stays.take(k))
                    + stays[k].1 <= front.layout.dimension
        }),
{
    let remove = listed(ids);
    let touched = touched_set(all, remove, all.len() as int);
    let goes = share(blocks, remove, touched, true);
    let stays = share(blocks, remove, touched, false);
    let both = goes + stays;
    let n = goes.len() as int;
    let layout = front.layout;
    lemma_width_sum_add(goes, stays);
    assert forall|i: int|
        #![trigger layout.blocks@[i]]
        0 <= i < layout.blocks@.len() implies {
        &&& remove.contains(layout.blocks@[i].id.raw) <==> i < n
        &&& i >= n ==> layout.blocks@[i] == (Block {
            id: stays[i - n].0,
            offset: (front.removed_dof + width_sum(stays.take(i - n))) as usize,
            width: stays[i - n].1 as usize,
        })
    } by {
        if i < n {
            let pred = |block: (BlockId, nat)| {
                crate::front::belongs(remove, touched, true, block.0.raw)
            };
            blocks.lemma_filter_pred(pred, i);
            assert(both[i] == goes[i]);
        } else {
            let pred = |block: (BlockId, nat)| {
                crate::front::belongs(remove, touched, false, block.0.raw)
            };
            blocks.lemma_filter_pred(pred, i - n);
            assert(both[i] == stays[i - n]);
            assert(both.take(i) =~= goes + stays.take(i - n));
            lemma_width_sum_add(goes, stays.take(i - n));
        }
    }
    assert forall|k: int| 0 <= k < stays.len() implies front.removed_dof + width_sum(
        #[trigger] stays.take(k),
    ) + stays[k].1 <= layout.dimension by {
        lemma_width_sum_prefix(stays, k);
        lemma_width_sum_prefix(stays, k + 1);
    }
    assert forall|key: RawKey| #[trigger]
        layout.block_index@.contains_key(key) && !remove.contains(key) implies layout.blocks@[
    layout.block_index@[key] as int].offset >= front.removed_dof by {
        let i = layout.block_index@[key] as int;
        assert(layout.blocks@[i].id.raw == key);
        lemma_width_sum_prefix(stays, i - n);
        lemma_width_sum_prefix(stays, i - n + 1);
    }
}

/// The columns of the new prior.
fn columns_of(
    front: &Front,
    Ghost(blocks): Ghost<Seq<(BlockId, nat)>>,
    Ghost(all): Ghost<Seq<Incidence>>,
    Ghost(ids): Ghost<Seq<BlockId>>,
) -> (columns: Vec<PriorBlock>)
    requires
        front.describes(blocks, all, ids),
    ensures
        columns@ == prior_blocks(staying(blocks, all, ids)),
        forall|k: int|
            0 <= k < columns@.len() ==> (#[trigger] columns@[k]).start + columns@[k].len
                <= front.layout.dimension - front.removed_dof,
{
    let ghost stays = staying(blocks, all, ids);
    let ghost n = front.layout.blocks@.len() - stays.len();
    proof {
        lemma_front_order(front, blocks, all, ids);
    }
    let mut columns: Vec<PriorBlock> = Vec::new();
    let mut i: usize = 0;
    while i < front.layout.blocks.len()
        invariant
            front.remove.wf(),
            stays == staying(blocks, all, ids),
            n == front.layout.blocks@.len() - stays.len(),
            0 <= n,
            front.layout.dimension == front.removed_dof + width_sum(stays),
            forall|i: int|
                #![trigger front.layout.blocks@[i]]
                0 <= i < front.layout.blocks@.len() ==> {
                    &&& front.remove@.contains(front.layout.blocks@[i].id.raw) <==> i < n
                    &&& i >= n ==> front.layout.blocks@[i] == (Block {
                        id: stays[i - n].0,
                        offset: (front.removed_dof + width_sum(stays.take(i - n))) as usize,
                        width: stays[i - n].1 as usize,
                    })
                },
            forall|k: int|
                0 <= k < stays.len() ==> front.removed_dof + width_sum(#[trigger] stays.take(k))
                    + stays[k].1 <= front.layout.dimension,
            i <= front.layout.blocks@.len(),
            columns@.len() == if i < n {
                0
            } else {
                i - n
            },
            forall|k: int|
                0 <= k < columns@.len() ==> (#[trigger] columns@[k]) == prior_blocks(stays)[k],
        decreases front.layout.blocks@.len() - i,
    {
        let block = front.layout.blocks[i];
        if !front.remove.contains(block.id.raw) {
            proof {
                let k = i - n;
                assert(front.removed_dof + width_sum(stays.take(k)) + stays[k].1
                    <= front.layout.dimension);
            }
            columns.push(
                PriorBlock {
                    id: block.id,
                    start: block.offset - front.removed_dof,
                    len: block.width,
                },
            );
        }
        i += 1;
    }
    proof {
        assert(columns@ =~= prior_blocks(stays));
        assert forall|k: int| 0 <= k < columns@.len() implies (#[trigger] columns@[k]).start
            + columns@[k].len <= front.layout.dimension - front.removed_dof by {
            assert(front.removed_dof + width_sum(stays.take(k)) + stays[k].1
                <= front.layout.dimension);
        }
    }
    columns
}

/// Planned factors have different identities, all of them indexed.
proof fn lemma_plan_distinct(index: Map<RawKey, usize>, all: Seq<Incidence>, n: int)
    requires
        0 <= n <= all.len(),
        plan_run(index, unplanned(), all, n) is Some,
    ensures
        plan_run(index, unplanned(), all, n)->Some_0.factors.len() == n,
        forall|i: int|
            0 <= i < n ==> {
                &&& plan_run(index, unplanned(), all, n)->Some_0.index.contains_key(
                    (#[trigger] all[i]).id.raw,
                )
                &&& plan_run(index, unplanned(), all, n)->Some_0.factors[i].id == all[i].id
            },
        forall|i: int, j: int|
            0 <= i < j < n ==> (#[trigger] all[i]).id.raw != (#[trigger] all[j]).id.raw,
    decreases n,
{
    if n > 0 {
        lemma_plan_distinct(index, all, n - 1);
    }
}

/// Count the affected priors among the planned factors of a front.
fn count_priors<R: Real>(
    layout: &Layout,
    priors: &Priors<R>,
    Ghost(fore): Ghost<Seq<Incidence>>,
    Ghost(index): Ghost<Map<RawKey, usize>>,
    Ghost(remove): Ghost<Set<RawKey>>,
    Ghost(front): Ghost<Map<RawKey, usize>>,
) -> (count: usize)
    requires
        priors.wf(),
        plan_run(
            index,
            unplanned(),
            fore + prior_incidence(*priors),
            (fore + prior_incidence(*priors)).len() as int,
        ) is Some,
        plan_run(
            front,
            unplanned(),
            kept(fore + prior_incidence(*priors), remove),
            kept(fore + prior_incidence(*priors), remove).len() as int,
        ) == Some(layout.planned()),
    ensures
        count == kept(prior_incidence(*priors), remove).len(),
        layout.factors@.len() == kept(fore, remove).len() + count,
{
    let ghost hind = prior_incidence(*priors);
    let ghost all = fore + hind;
    let ghost some = kept(all, remove);
    let ghost first = kept(fore, remove).len() as int;
    let ghost pred = |factor: Incidence| touches(factor, remove);
    proof {
        Seq::filter_distributes_over_add(fore, hind, pred);
        lemma_plan_distinct(index, all, all.len() as int);
        lemma_plan_distinct(front, some, some.len() as int);
        assert forall|f: int| 0 <= f < some.len() implies (priors.entries.lookup(
            (#[trigger] some[f]).id.raw,
        ) is Ok <==> f >= first) by {
            let key = some[f].id.raw;
            if f < first {
                assert(some[f] == kept(fore, remove)[f]);
                lemma_filter_source(fore, pred, f);
                let a = choose|a: int| 0 <= a < fore.len() && fore[a] == fore.filter(pred)[f];
                assert(all[a].id.raw == key);
                if priors.entries.lookup(key) is Ok {
                    let i = priors.entries.keys@.index_of(key.local);
                    assert(priors.entries.live(key.local));
                    assert(priors.entries.keys@[i] == key.local);
                    assert(hind[i].id.raw == key);
                    assert(all[fore.len() + i] == hind[i]);
                    assert(all[a].id.raw != all[fore.len() + i].id.raw);
                }
            } else {
                assert(some[f] == kept(hind, remove)[f - first]);
                lemma_filter_source(hind, pred, f - first);
                let a = choose|a: int|
                    0 <= a < hind.len() && hind[a] == hind.filter(pred)[f - first];
                assert(key == priors.id(a));
                priors.entries.lemma_live_position(priors.entries.keys@[a], a);
            }
        }
    }
    let mut count: usize = 0;
    let mut f: usize = 0;
    while f < layout.factors.len()
        invariant
            priors.wf(),
            some.len() == layout.factors@.len(),
            forall|f: int|
                0 <= f < some.len() ==> layout.factors@[f].id == (#[trigger] some[f]).id,
            forall|f: int|
                0 <= f < some.len() ==> (priors.entries.lookup((#[trigger] some[f]).id.raw) is Ok
                    <==> f >= first),
            0 <= first <= some.len(),
            f <= layout.factors@.len(),
            count == if f < first {
                0
            } else {
                f - first
            },
        decreases layout.factors@.len() - f,
    {
        assert(layout.factors@[f as int].id == some[f as int].id);
        if priors.entries.index(layout.factors[f].id.raw).is_ok() {
            count += 1;
        }
        f += 1;
    }
    count
}

/// What is filtered out of a list comes from it.
proof fn lemma_filter_source<A>(s: Seq<A>, pred: spec_fn(A) -> bool, i: int)
    requires
        0 <= i < s.filter(pred).len(),
    ensures
        exists|a: int| 0 <= a < s.len() && #[trigger] s[a] == s.filter(pred)[i],
    decreases s.len(),
{
    reveal(Seq::filter);
    if s.len() > 0 {
        let shorter = s.drop_last();
        if i < shorter.filter(pred).len() {
            lemma_filter_source(shorter, pred, i);
            let a = choose|a: int|
                0 <= a < shorter.len() && #[trigger] shorter[a] == shorter.filter(pred)[i];
            assert(s[a] == shorter[a]);
        } else {
            assert(s[s.len() - 1] == s.filter(pred)[i]);
        }
    }
}

/// Factors after the affected ones are gone: their handles are stale for good, all other
/// factors keep their handles and payloads, and all batches their handles and models.
pub open spec fn factors_left<S: StateSchema, F: FactorSchema<S>>(
    before: F,
    after: F,
    affected: Set<RawKey>,
) -> bool {
    &&& after.pools() == before.pools()
    &&& after.keeps(&before)
    &&& after.same_batches(&before)
    &&& forall|id: FactorId| #[trigger]
        after.resolve_spec(id) == if before.resolve_spec(id) == Some(Ok::<(), KeyError>(()))
            && affected.contains(id.raw) {
            Some(Err::<(), KeyError>(KeyError::Stale))
        } else {
            before.resolve_spec(id)
        }
    &&& forall|i: int|
        0 <= i < after.incidence().len() ==> before.incidence().contains(
            #[trigger] after.incidence()[i],
        )
    &&& forall|i: int|
        0 <= i < before.incidence().len() && !affected.contains(
            (#[trigger] before.incidence()[i]).id.raw,
        ) ==> after.incidence().contains(before.incidence()[i])
}

/// Variables after some are gone: their handles are stale for good, all other variables
/// keep their estimates.
pub open spec fn states_left<S: StateSchema>(before: S, after: S, remove: Set<RawKey>) -> bool {
    &&& after.pools() == before.pools()
    &&& after.keeps_estimates(&before)
    &&& forall|i: int|
        0 <= i < after.blocks().len() ==> before.blocks().contains(#[trigger] after.blocks()[i])
    &&& forall|id: BlockId| #[trigger]
        after.resolve_spec(id) == if before.resolve_spec(id) == Some(Ok::<(), KeyError>(()))
            && remove.contains(id.raw) {
            Some(Err::<(), KeyError>(KeyError::Stale))
        } else {
            before.resolve_spec(id)
        }
}

/// What a prior says, without its cached evaluation.
pub open spec fn same_prior<R>(a: PriorView<R>, b: PriorView<R>) -> bool {
    &&& a.blocks == b.blocks
    &&& a.rows == b.rows
    &&& a.cols == b.cols
    &&& a.a == b.a
    &&& a.b == b.b
}

/// Priors after the affected ones are replaced by a new one, unless that has no rows.
pub open spec fn priors_left<R: Real>(
    before: Priors<R>,
    after: Priors<R>,
    affected: Set<RawKey>,
    prior: PriorView<R>,
    constant: R,
) -> bool {
    let new = before.entries.next_local();
    &&& after.entries.id == before.entries.id
    &&& after.constant == constant
    &&& forall|local: LocalKey| #[trigger]
        after.entries.live(local) <==> {
            ||| before.entries.live(local) && !affected.contains(
                RawKey { pool: before.entries.id, local },
            )
            ||| prior.rows > 0 && local == new
        }
    &&& forall|local: LocalKey| #[trigger]
        after.entries.live(local) && before.entries.live(local) ==> same_prior(
            after.entries.values@[after.entries.place(local)]@,
            before.entries.values@[before.entries.place(local)]@,
        )
    &&& forall|local: LocalKey| #[trigger]
        before.entries.live(local) && !after.entries.live(local) ==> after.entries.retired(local)
    &&& prior.rows > 0 ==> after.entries.values@[after.entries.place(new)]@ == prior
}

/// Replace the affected priors by a new one.
fn replace_priors<R: Real>(
    priors: &mut Priors<R>,
    affected: &KeySet,
    prior: Prior<R>,
    constant: R,
)
    requires
        old(priors).wf(),
        old(priors).entries.room(1),
        affected.wf(),
        !affected@.contains(
            RawKey { pool: old(priors).entries.id, local: old(priors).entries.next_local() },
        ),
        prior@.wf(),
    ensures
        final(priors).wf(),
        priors_left(*old(priors), *final(priors), affected@, prior@, constant),
{
    let ghost before = priors.entries;
    let ghost new = before.next_local();
    let keeps = prior.rows > 0;
    let key = priors.entries.insert(prior);
    let ghost middle = priors.entries;
    priors.entries.remove_selected(affected);
    let ghost left = priors.entries;
    proof {
        before.lemma_next_local();
        assert forall|local: LocalKey| #[trigger] left.live(local) <==> {
            ||| before.live(local) && !affected@.contains(RawKey { pool: before.id, local })
            ||| local == new
        } by {
            middle.lemma_inserted(&before, prior, local);
            left.lemma_survivors(&middle, affected@, local);
        }
        assert forall|local: LocalKey| #[trigger]
            left.live(local) implies left.values@[left.place(local)] == if local == new {
            prior
        } else {
            before.values@[before.place(local)]
        } by {
            middle.lemma_inserted(&before, prior, local);
            left.lemma_survivors(&middle, affected@, local);
        }
        assert forall|local: LocalKey| #[trigger]
            before.live(local) && !left.live(local) implies left.retired(local) by {
            middle.lemma_inserted(&before, prior, local);
            left.lemma_survivors(&middle, affected@, local);
        }
        assert forall|i: int| 0 <= i < left.values@.len() implies (#[trigger] left.values@[i])@.wf() by {
            let local = left.keys@[i];
            left.lemma_live_position(local, i);
            if local != new {
                before.lemma_resident(local);
                assert(before.values@[before.place(local)]@.wf());
            }
        }
        left.lemma_resident(new);
        assert(left.live(new));
    }
    priors.constant = constant;
    if !keeps {
        match priors.entries.remove(key) {
            Ok(_) => {},
            Err(_) => {
                assert(false);
            },
        }
        proof {
            let after = priors.entries;
            after.lemma_retired_is_stale(new);
            let gone = left.keys@.index_of(new);
            assert(left.keys@[gone] == new);
            crate::dense::lemma_swap_removed(left.keys@, gone);
            crate::dense::lemma_swap_removed(left.values@, gone);
            let last = left.keys@.len() - 1;
            assert forall|local: LocalKey| #[trigger]
                after.live(local) implies after.values@[after.place(local)] == left.values@[left.place(
                local,
            )] by {
                after.lemma_resident(local);
                let to = after.place(local);
                let from = if to == gone {
                    last
                } else {
                    to
                };
                assert(after.keys@[to] == local);
                assert(left.keys@[from] == local);
                left.lemma_live_position(local, from);
            }
            assert forall|i: int| 0 <= i < after.values@.len() implies (
            #[trigger] after.values@[i])@.wf() by {
                let from = if i == gone {
                    last
                } else {
                    i
                };
                assert(after.values@[i] == left.values@[from]);
            }
            assert forall|local: LocalKey| #[trigger]
                before.live(local) && !after.live(local) implies after.retired(local) by {
                if left.live(local) {
                    assert(local == new);
                }
            }
        }
    }
}

/// Filtering twice is filtering by both, in either order.
proof fn lemma_filter_both<A>(s: Seq<A>, p: spec_fn(A) -> bool, q: spec_fn(A) -> bool)
    ensures
        s.filter(p).filter(q) == s.filter(q).filter(p),
    decreases s.len(),
{
    reveal(Seq::filter);
    if s.len() > 0 {
        let shorter = s.drop_last();
        let last = s.last();
        lemma_filter_both(shorter, p, q);
        let a = shorter.filter(p);
        let b = shorter.filter(q);
        assert(a.push(last).drop_last() =~= a);
        assert(b.push(last).drop_last() =~= b);
    } else {
        assert(s.filter(p) =~= s);
        assert(s.filter(q) =~= s);
    }
}

/// The references after the affected priors are gone: those of the new prior, and those
/// that all others had.
pub open spec fn anchors_left(
    before: Seq<AnchorTag>,
    after: Seq<AnchorTag>,
    affected: Set<RawKey>,
    key: RawKey,
    fresh: Seq<AnchorTag>,
) -> bool {
    &&& tags_of(after, key) == fresh
    &&& tags_except(after, set![key]) == tags_except(before, affected)
}

/// Dropping the references of affected priors keeps those of the new one.
proof fn lemma_anchors_left(
    before: Seq<AnchorTag>,
    captured: Seq<AnchorTag>,
    affected: Set<RawKey>,
    key: RawKey,
    fresh: Seq<AnchorTag>,
)
    requires
        !affected.contains(key),
        tags_of(before, key).len() == 0,
        tags_of(captured, key) == fresh,
        tags_except(captured, set![key]) == tags_except(before, set![key]),
    ensures
        anchors_left(before, tags_except(captured, affected), affected, key, fresh),
        forall|i: int|
            0 <= i < tags_except(captured, affected).len() ==> {
                let tag = #[trigger] tags_except(captured, affected)[i];
                &&& !affected.contains(tag.prior)
                &&& tag.prior == key && fresh.len() > 0 || before.contains(tag)
            },
{
    let mine = |tag: AnchorTag| tag.prior == key;
    let others = |tag: AnchorTag| !set![key].contains(tag.prior);
    let kept = |tag: AnchorTag| !affected.contains(tag.prior);
    lemma_filter_both(captured, kept, mine);
    lemma_filter_both(captured, kept, others);
    assert forall|i: int| 0 <= i < fresh.len() implies kept(#[trigger] fresh[i]) by {
        captured.lemma_filter_pred(mine, i);
    }
    lemma_filter_all(fresh, kept);
    assert(before.filter(others) == before) by {
        assert forall|i: int| 0 <= i < before.len() implies others(#[trigger] before[i]) by {
            if mine(before[i]) {
                before.lemma_filter_contains(mine, i);
                assert(tags_of(before, key).contains(before[i]));
            }
        }
        lemma_filter_all(before, others);
    }
    let after = captured.filter(kept);
    assert forall|i: int| 0 <= i < after.len() implies {
        let tag = #[trigger] after[i];
        &&& !affected.contains(tag.prior)
        &&& tag.prior == key && fresh.len() > 0 || before.contains(tag)
    } by {
        captured.lemma_filter_pred(kept, i);
        lemma_filter_source(captured, kept, i);
        let a = choose|a: int| 0 <= a < captured.len() && #[trigger] captured[a] == after[i];
        if mine(captured[a]) {
            captured.lemma_filter_contains(mine, a);
            assert(fresh.contains(captured[a]));
        } else {
            captured.lemma_filter_contains(others, a);
            assert(captured.filter(others).contains(captured[a]));
        }
    }
}

/// What eliminating the variables of a front leaves, and the constant then; or why the
/// variables cannot be eliminated.
pub open spec fn eliminated_spec<
    S: StateSchema,
    F: FactorSchema<S, Scalar = S::Scalar>,
    Q: PivotedQr<S::Scalar>,
>(
    kernel: Q,
    states: S,
    factors: F,
    priors: Priors<S::Scalar>,
    front: &Front,
    tolerance: Option<S::Scalar>,
) -> Result<(ReducedView<S::Scalar>, S::Scalar), SolverError> {
    match gathered_spec(&front.layout, states, factors, priors, front.affected@) {
        Err(error) => Err(error),
        Ok(rows) => match reduced_spec(kernel, rows, front.removed_dof as nat, tolerance) {
            Err(error) => Err(error),
            Ok(reduced) => match checked_cost_spec(
                Ok(priors.constant.plus_spec(reduced.constant)),
            ) {
                Err(error) => Err(error),
                Ok(constant) => if reduced.prior.rows > 0 && !states.capturable(
                    &front.layout,
                    front.remove@,
                ) {
                    Err(SolverError::Evaluation(EvaluationError::InvalidEvaluation))
                } else {
                    Ok((reduced, constant))
                },
            },
        },
    }
}

/// The report of a successful marginalization.
pub open spec fn report_spec<S: StateSchema, F: FactorSchema<S>>(
    states: S,
    factors: F,
    priors: Priors<S::Scalar>,
    ids: Seq<BlockId>,
    front: &Front,
    reduced: ReducedView<S::Scalar>,
) -> MarginalizationReport {
    let remove = listed(ids);
    MarginalizationReport {
        removed_states: remove.len() as usize,
        removed_dof: front.removed_dof,
        absorbed_factors: kept(factors.incidence(), remove).len() as usize,
        absorbed_priors: kept(prior_incidence(priors), remove).len() as usize,
        separator_dof: (front.layout.dimension - front.removed_dof) as usize,
        eliminated_rank: reduced.rank as usize,
        prior_rows: reduced.prior.rows as usize,
    }
}

/// Nothing but cached evaluations has changed.
pub open spec fn unchanged<S: StateSchema, F: FactorSchema<S>>(
    states: S,
    factors: F,
    priors: Priors<S::Scalar>,
    after_states: S,
    after_factors: F,
    after_priors: Priors<S::Scalar>,
) -> bool {
    &&& after_states.same_graph(&states)
    &&& after_states.accepted() == states.accepted()
    &&& after_states.current() == states.current()
    &&& after_factors.same_factors(&factors)
    &&& after_priors.same_priors(&priors)
}

/// How a marginalization of some variables ends, given the affected part of the graph: in a
/// report and a smaller graph, or in an error and the same graph.
pub open spec fn marginalized<
    S: StateSchema,
    F: FactorSchema<S, Scalar = S::Scalar>,
    Q: PivotedQr<S::Scalar>,
>(
    kernel: Q,
    states: S,
    factors: F,
    priors: Priors<S::Scalar>,
    ids: Seq<BlockId>,
    tolerance: Option<S::Scalar>,
    front: Front,
    outcome: Result<MarginalizationReport, SolverError>,
    after_states: S,
    after_factors: F,
    after_priors: Priors<S::Scalar>,
) -> bool {
    let all = all_incidence(factors, priors);
    let key = RawKey { pool: priors.entries.id, local: priors.entries.next_local() };
    &&& front.describes(states.blocks(), all, ids)
    &&& match eliminated_spec(kernel, states, factors, priors, &front, tolerance) {
        Err(error) => {
            &&& outcome == Err::<MarginalizationReport, SolverError>(error)
            &&& unchanged(states, factors, priors, after_states, after_factors, after_priors)
        },
        Ok((reduced, constant)) => {
            &&& outcome == Ok::<MarginalizationReport, SolverError>(
                report_spec(states, factors, priors, ids, &front, reduced),
            )
            &&& states_left(states, after_states, listed(ids))
            &&& anchors_left(
                states.anchored(),
                after_states.anchored(),
                front.affected@,
                key,
                if reduced.prior.rows > 0 {
                    kept_tags(
                        states.blocks(),
                        &front.layout,
                        listed(ids),
                        front.removed_dof as int,
                        key,
                        states.blocks().len() as int,
                    )
                } else {
                    Seq::empty()
                },
            )
            &&& after_states.references() == S::left(
                if reduced.prior.rows > 0 {
                    states.captured(key, &front.layout, listed(ids), front.removed_dof as int)
                } else {
                    states.references()
                },
                front.affected@,
            )
            &&& factors_left::<S, F>(factors, after_factors, front.affected@)
            &&& priors_left(
                priors,
                after_priors,
                front.affected@,
                PriorView {
                    blocks: prior_blocks(staying(states.blocks(), all, ids)),
                    ..reduced.prior
                },
                constant,
            )
        },
    }
}

/// How a request to marginalize some variables ends. Invalid options, and a selection that
/// cannot be isolated, are refused; an empty selection changes nothing.
pub open spec fn ran<
    S: StateSchema,
    F: FactorSchema<S, Scalar = S::Scalar>,
    Q: PivotedQr<S::Scalar>,
>(
    kernel: Q,
    states: S,
    factors: F,
    priors: Priors<S::Scalar>,
    ids: Seq<BlockId>,
    options: MarginalizationOptions<S::Scalar>,
    outcome: Result<MarginalizationReport, SolverError>,
    after_states: S,
    after_factors: F,
    after_priors: Priors<S::Scalar>,
) -> bool {
    if !options.valid() {
        &&& outcome == Err::<MarginalizationReport, SolverError>(SolverError::InvalidRankTolerance)
        &&& unchanged(states, factors, priors, after_states, after_factors, after_priors)
    } else if ids.len() == 0 {
        &&& outcome == Ok::<MarginalizationReport, SolverError>(MarginalizationReport::blank_spec())
        &&& unchanged(states, factors, priors, after_states, after_factors, after_priors)
    } else {
        match isolated_spec(states, factors, priors, ids) {
            Err(error) => {
                &&& outcome == Err::<MarginalizationReport, SolverError>(error)
                &&& unchanged(states, factors, priors, after_states, after_factors, after_priors)
            },
            Ok(_) => exists|front: Front| #[trigger]
                marginalized(
                    kernel,
                    states,
                    factors,
                    priors,
                    ids,
                    options.relative_rank_tolerance,
                    front,
                    outcome,
                    after_states,
                    after_factors,
                    after_priors,
                ),
        }
    }
}

/// Nobody refers to a prior that is not there yet.
proof fn lemma_no_references<S: StateSchema>(states: S, priors: Priors<S::Scalar>)
    requires
        grounded(states, priors),
        priors.wf(),
        priors.entries.room(1),
    ensures
        tags_of(
            states.anchored(),
            RawKey { pool: priors.entries.id, local: priors.entries.next_local() },
        ).len() == 0,
{
    let key = RawKey { pool: priors.entries.id, local: priors.entries.next_local() };
    priors.entries.lemma_next_local();
    lemma_filter_none(states.anchored(), |tag: AnchorTag| tag.prior == key);
}

/// The affected factors and priors were all stored before.
proof fn lemma_new_unaffected<S: StateSchema, F: FactorSchema<S>>(
    factors: F,
    priors: Priors<S::Scalar>,
    remove: Set<RawKey>,
)
    requires
        factors.wf(),
        priors.wf(),
        priors.entries.room(1),
        !factors.pools().contains(priors.entries.id),
    ensures
        ({
            let all = all_incidence::<S, F>(factors, priors);
            !affected_set(all, remove, all.len() as int).contains(
                RawKey { pool: priors.entries.id, local: priors.entries.next_local() },
            )
        }),
{
    let all = all_incidence::<S, F>(factors, priors);
    let key = RawKey { pool: priors.entries.id, local: priors.entries.next_local() };
    priors.entries.lemma_next_local();
    factors.lemma_incidence();
    if affected_set(all, remove, all.len() as int).contains(key) {
        let k = choose|k: int|
            0 <= k < all.len() && (#[trigger] all[k]).id.raw == key && touches(all[k], remove);
        let n = factors.incidence().len();
        if k < n {
            assert(all[k] == factors.incidence()[k]);
            assert(factors.resolve_spec(all[k].id) is Some);
        } else {
            assert(all[k] == prior_incidence(priors)[k - n]);
            assert(priors.entries.keys@[k - n] == key.local);
            assert(priors.entries.live(key.local));
        }
    }
}

/// Cached evaluations make no difference to what is left of priors.
proof fn lemma_priors_left<R: Real>(
    before: Priors<R>,
    evaluated: Priors<R>,
    after: Priors<R>,
    affected: Set<RawKey>,
    prior: PriorView<R>,
    constant: R,
)
    requires
        before.wf(),
        evaluated.same_priors(&before),
        priors_left(evaluated, after, affected, prior, constant),
    ensures
        priors_left(before, after, affected, prior, constant),
{
    assert forall|local: LocalKey| #[trigger]
        after.entries.live(local) && before.entries.live(local) implies same_prior(
        after.entries.values@[after.entries.place(local)]@,
        before.entries.values@[before.entries.place(local)]@,
    ) by {
        let i = before.entries.place(local);
        before.entries.lemma_resident(local);
        assert(evaluated.entries.live(local));
        assert(evaluated.views()[i].blocks == before.views()[i].blocks);
    }
    assert forall|local: LocalKey| #[trigger]
        after.entries.live(local) <==> {
            ||| before.entries.live(local) && !affected.contains(
                RawKey { pool: before.entries.id, local },
            )
            ||| prior.rows > 0 && local == before.entries.next_local()
        } by {
        assert(evaluated.entries.live(local) == before.entries.live(local));
    }
    assert forall|local: LocalKey| #[trigger]
        before.entries.live(local) && !after.entries.live(local) implies after.entries.retired(
        local,
    ) by {
        assert(evaluated.entries.live(local));
    }
}

/// Dropping the references that were just captured restores the graph.
proof fn lemma_undone<S: StateSchema>(before: &S, during: &S, after: &S, key: RawKey)
    requires
        during.agrees(before, set![key]),
        after.agrees(during, set![key]),
        tags_of(before.anchored(), key).len() == 0,
        after.anchored() == tags_except(during.anchored(), set![key]),
    ensures
        after.same_graph(before),
        after.anchored() == before.anchored(),
{
    during.lemma_agrees(before, set![key]);
    let others = |tag: AnchorTag| !set![key].contains(tag.prior);
    let mine = |tag: AnchorTag| tag.prior == key;
    assert forall|i: int| 0 <= i < before.anchored().len() implies others(
        #[trigger] before.anchored()[i],
    ) by {
        if mine(before.anchored()[i]) {
            before.anchored().lemma_filter_contains(mine, i);
            assert(tags_of(before.anchored(), key).contains(before.anchored()[i]));
        }
    }
    lemma_filter_all(before.anchored(), others);
    assert forall|i: int| 0 <= i < after.anchored().len() implies others(
        #[trigger] after.anchored()[i],
    ) by {
        during.anchored().lemma_filter_pred(others, i);
    }
    lemma_filter_all(after.anchored(), others);
    S::lemma_restored(before, during, after, set![key]);
}

/// Eliminates variables from a graph.
pub struct Marginalizer<Q> {
    pub kernel: Q,
}

impl<Q> Marginalizer<Q> {
    /// A reusable marginalizer over the given factorization.
    pub fn new(kernel: Q) -> (marginalizer: Self)
        ensures
            marginalizer.kernel == kernel,
    {
        Marginalizer { kernel }
    }

    /// Store a new prior in the place of what was eliminated.
    fn commit<S: StateSchema, F: FactorSchema<S, Scalar = S::Scalar>>(
        states: &mut S,
        factors: &mut F,
        priors: &mut Priors<S::Scalar>,
        front: &Front,
        prior: Prior<S::Scalar>,
        constant: S::Scalar,
        Ghost(before): Ghost<S>,
        Ghost(fresh): Ghost<Seq<AnchorTag>>,
    )
        requires
            old(states).wf(),
            old(states).idle(),
            old(factors).wf(),
            old(priors).wf(),
            old(priors).entries.room(1),
            front.remove.wf(),
            front.affected.wf(),
            prior@.wf(),
            !front.affected@.contains(
                RawKey { pool: old(priors).entries.id, local: old(priors).entries.next_local() },
            ),
            old(states).pools() == before.pools(),
            old(states).accepted() == before.accepted(),
            old(states).agrees(
                &before,
                set![
                    RawKey { pool: old(priors).entries.id, local: old(priors).entries.next_local() },
                ],
            ),
            grounded(before, *old(priors)),
            tags_of(
                old(states).anchored(),
                RawKey { pool: old(priors).entries.id, local: old(priors).entries.next_local() },
            ) == fresh,
            fresh.len() > 0 ==> prior.rows > 0,
        ensures
            final(states).wf(),
            final(states).idle(),
            states_left(before, *final(states), front.remove@),
            anchors_left(
                before.anchored(),
                final(states).anchored(),
                front.affected@,
                RawKey { pool: old(priors).entries.id, local: old(priors).entries.next_local() },
                fresh,
            ),
            final(states).references() == S::left(old(states).references(), front.affected@),
            final(factors).wf(),
            factors_left::<S, F>(*old(factors), *final(factors), front.affected@),
            final(priors).wf(),
            priors_left(*old(priors), *final(priors), front.affected@, prior@, constant),
            grounded(*final(states), *final(priors)),
    {
        let ghost key = RawKey {
            pool: priors.entries.id,
            local: priors.entries.next_local(),
        };
        let ghost captured = *states;
        proof {
            lemma_no_references(before, *priors);
            captured.lemma_agrees(&before, set![key]);
            lemma_anchors_left(
                before.anchored(),
                captured.anchored(),
                front.affected@,
                key,
                fresh,
            );
        }
        replace_priors(priors, &front.affected, prior, constant);
        factors.remove_selected(&front.affected);
        states.drop_anchors(&front.affected);
        let ghost dropped = *states;
        states.remove(&front.remove);
        proof {
            states.lemma_keeps(&dropped, &captured, front.affected@);
            states.lemma_keeps(&captured, &before, set![key]);
            let after = priors.entries;
            let earlier = old(priors).entries;
            earlier.lemma_next_local();
            assert forall|i: int| 0 <= i < states.anchored().len() implies after.lookup(
                (#[trigger] states.anchored()[i]).prior,
            ) is Ok by {
                let tag = states.anchored()[i];
                assert(tag == tags_except(captured.anchored(), front.affected@)[i]);
                if tag.prior == key && fresh.len() > 0 {
                    assert(after.live(key.local));
                } else {
                    let j = before.anchored().index_of(tag);
                    assert(before.anchored()[j] == tag);
                    assert(earlier.lookup(tag.prior) is Ok);
                    assert(after.live(tag.prior.local));
                }
                after.lemma_resident(tag.prior.local);
            }
        }
    }

    /// Eliminate variables, with every factor and prior over one of them, into one prior
    /// over what else those were over.
    ///
    /// Estimates that stay are not moved. If anything fails, nothing changes. The prior
    /// depends on how the kernel factors the collected rows.
    pub fn run<S: StateSchema, F: FactorSchema<S, Scalar = S::Scalar>>(
        &mut self,
        states: &mut S,
        factors: &mut F,
        priors: &mut Priors<S::Scalar>,
        remove: &[BlockId],
        options: &MarginalizationOptions<S::Scalar>,
    ) -> (outcome: Result<MarginalizationReport, SolverError>) where Q: PivotedQr<S::Scalar>
        requires
            old(states).wf(),
            old(states).idle(),
            old(factors).wf(),
            old(priors).wf(),
            old(priors).entries.room(1),
            !old(factors).pools().contains(old(priors).entries.id),
            grounded(*old(states), *old(priors)),
        ensures
            final(states).wf(),
            final(states).idle(),
            final(states).pools() == old(states).pools(),
            final(factors).wf(),
            final(factors).pools() == old(factors).pools(),
            final(priors).wf(),
            final(priors).entries.id == old(priors).entries.id,
            grounded(*final(states), *final(priors)),
            final(self).kernel == old(self).kernel,
            ran(
                old(self).kernel,
                *old(states),
                *old(factors),
                *old(priors),
                remove@,
                *options,
                outcome,
                *final(states),
                *final(factors),
                *final(priors),
            ),
    {
        let ghost blocks = states.blocks();
        let ghost all = all_incidence::<S, F>(*factors, *priors);
        let ghost key = RawKey {
            pool: priors.entries.id,
            local: priors.entries.next_local(),
        };
        proof {
            states.lemma_reflexive(Set::empty());
            factors.lemma_same_reflexive();
        }
        match options.validate() {
            Ok(_) => {},
            Err(error) => {
                return Err(error);
            },
        }
        if remove.len() == 0 {
            return Ok(MarginalizationReport::default());
        }
        let mut front = match isolate(states, factors, priors, remove) {
            Ok(front) => front,
            Err(error) => {
                return Err(error);
            },
        };
        let ghost arranged = *states;
        proof {
            states.lemma_reading(old(states));
            lemma_no_references(*old(states), *priors);
            lemma_new_unaffected::<S, F>(*factors, *priors, front.remove@);
            lemma_front_order(&front, blocks, all, remove@);
            arranged.lemma_graph_agrees(old(states), set![key]);
            arranged.lemma_agrees(old(states), set![key]);
        }
        let mut work = Workspace::new(Rows::new());
        let ghost layout = front.layout;
        std::mem::swap(&mut work.layout, &mut front.layout);
        let gathered = gather(&mut work, states, factors, priors, &front.affected);
        std::mem::swap(&mut work.layout, &mut front.layout);
        assert(front.layout == layout);
        proof {
            factors.lemma_same_factors(old(factors));
            assert(priors.entries.lookup(key) == old(priors).entries.lookup(key));
            assert(gathered_spec(
                &front.layout,
                arranged,
                *old(factors),
                *old(priors),
                front.affected@,
            ) == gathered_spec(
                &front.layout,
                *old(states),
                *old(factors),
                *old(priors),
                front.affected@,
            ));
        }
        let rows = match gathered {
            Ok(_) => work.backend,
            Err(error) => {
                let outcome: Result<MarginalizationReport, SolverError> = Err(error);
                assert(marginalized(
                    self.kernel,
                    *old(states),
                    *old(factors),
                    *old(priors),
                    remove@,
                    options.relative_rank_tolerance,
                    front,
                    outcome,
                    *states,
                    *factors,
                    *priors,
                ));
                return outcome;
            },
        };
        let reduced = match reduce(
            &self.kernel,
            &rows,
            front.removed_dof,
            options.relative_rank_tolerance,
        ) {
            Ok(reduced) => reduced,
            Err(error) => {
                let outcome: Result<MarginalizationReport, SolverError> = Err(error);
                assert(marginalized(
                    self.kernel,
                    *old(states),
                    *old(factors),
                    *old(priors),
                    remove@,
                    options.relative_rank_tolerance,
                    front,
                    outcome,
                    *states,
                    *factors,
                    *priors,
                ));
                return outcome;
            },
        };
        let ghost view = reduced@;
        let constant = match checked_cost(Ok(priors.constant.plus(reduced.constant))) {
            Ok(constant) => constant,
            Err(error) => {
                let outcome: Result<MarginalizationReport, SolverError> = Err(error);
                assert(marginalized(
                    self.kernel,
                    *old(states),
                    *old(factors),
                    *old(priors),
                    remove@,
                    options.relative_rank_tolerance,
                    front,
                    outcome,
                    *states,
                    *factors,
                    *priors,
                ));
                return outcome;
            },
        };
        proof {
            assert(prior_incidence(*priors) =~= prior_incidence(*old(priors)));
        }
        let absorbed_priors: usize = count_priors(
            &front.layout,
            priors,
            Ghost(old(factors).incidence()),
            Ghost(positions(blocks)),
            Ghost(front.remove@),
            Ghost(
                positions(
                    front_blocks(
                        blocks,
                        front.remove@,
                        touched_set(all, front.remove@, all.len() as int),
                    ),
                ),
            ),
        );
        let report = MarginalizationReport {
            removed_states: front.remove.len(),
            removed_dof: front.removed_dof,
            absorbed_factors: front.layout.factors.len() - absorbed_priors,
            absorbed_priors,
            separator_dof: front.layout.dimension - front.removed_dof,
            eliminated_rank: reduced.rank,
            prior_rows: reduced.prior.rows,
        };
        assert(report == report_spec::<S, F>(
            *old(states),
            *old(factors),
            *old(priors),
            remove@,
            &front,
            view,
        ));
        let mut prior = reduced.prior;
        prior.blocks = columns_of(&front, Ghost(blocks), Ghost(all), Ghost(remove@));
        assert(prior@ =~= (PriorView {
            blocks: prior_blocks(staying(blocks, all, remove@)),
            ..view.prior
        }));
        let ghost mut fresh = Seq::<AnchorTag>::empty();
        assert(tags_of(arranged.anchored(), key) =~= Seq::<AnchorTag>::empty());
        if prior.rows > 0 {
            let new = priors.entries.next_key();
            match states.capture(new, &front.layout, &front.remove, front.removed_dof) {
                Ok(_) => {},
                Err(error) => {
                    let ghost during = *states;
                    let mut only = KeySet::new();
                    only.insert(new);
                    assert(only@ =~= set![key]);
                    states.drop_anchors(&only);
                    proof {
                        lemma_undone(&arranged, &during, states, key);
                        S::lemma_same_graph(states, &arranged, old(states));
                    }
                    let outcome: Result<MarginalizationReport, SolverError> = Err(error);
                    assert(marginalized(
                        self.kernel,
                        *old(states),
                        *old(factors),
                        *old(priors),
                        remove@,
                        options.relative_rank_tolerance,
                        front,
                        outcome,
                        *states,
                        *factors,
                        *priors,
                    ));
                    return outcome;
                },
            }
            proof {
                fresh = tags_of(states.anchored(), key);
            }
        }
        let ghost gathered_priors = *priors;
        let ghost gathered_factors = *factors;
        proof {
            if prior.rows == 0 {
                states.lemma_reflexive(set![key]);
            }
            states.lemma_agrees_through(&arranged, old(states), set![key]);
        }
        Self::commit(
            states,
            factors,
            priors,
            &front,
            prior,
            constant,
            Ghost(*old(states)),
            Ghost(fresh),
        );
        proof {
            lemma_priors_left(
                *old(priors),
                gathered_priors,
                *priors,
                front.affected@,
                prior@,
                constant,
            );
            factors.lemma_keeps_through(&gathered_factors, old(factors));
        }
        let outcome: Result<MarginalizationReport, SolverError> = Ok(report);
        assert(marginalized(
            self.kernel,
            *old(states),
            *old(factors),
            *old(priors),
            remove@,
            options.relative_rank_tolerance,
            front,
            outcome,
            *states,
            *factors,
            *priors,
        ));
        outcome
    }
}

} // verus!
