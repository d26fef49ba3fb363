//! The part of a graph that eliminating some variables touches.
use crate::error::{EvaluationError, KeyError, SolverError};
use crate::families::{
    lemma_plan_add, lemma_plan_refused, plan_run, plan_step, FactorSchema, Incidence, Planned,
};
use crate::index::KeySet;
use crate::key::{BlockId, FactorId, RawKey};
use crate::layout::{all_known, distinct_positions, Block, Layout};
use crate::optimization::unplanned;
use crate::priors::{PriorView, Priors};
use crate::scalar::Real;
use crate::states::{
    lemma_positions, lemma_width_sum_add, lemma_width_sum_prefix, placed, positions, width_sum,
    StateSchema,
};
use vstd::prelude::*;

verus! {

/// The identities in a list.
pub open spec fn listed(ids: Seq<BlockId>) -> Set<RawKey> {
    Set::new(|key: RawKey| exists|i: int| 0 <= i < ids.len() && (#[trigger] ids[i]).raw == key)
}

/// Collect the identities in a list, each once.
pub fn distinct(ids: &[BlockId]) -> (set: KeySet)
    ensures
        set.wf(),
        set@ == listed(ids@),
{
    let mut set = KeySet::new();
    let mut i: usize = 0;
    assert(set@ =~= listed(ids@.take(0)));
    while i < ids.len()
        invariant
            set.wf(),
            i <= ids@.len(),
            set@ == listed(ids@.take(i as int)),
        decreases ids@.len() - i,
    {
        set.insert(ids[i].raw);
        proof {
            let shorter = ids@.take(i as int);
            let longer = ids@.take(i + 1);
            assert forall|key: RawKey| listed(longer).contains(key) <==> listed(shorter).insert(
                ids@[i as int].raw,
            ).contains(key) by {
                if listed(longer).contains(key) {
                    let k = choose|k: int| 0 <= k < longer.len() && (#[trigger] longer[k]).raw == key;
                    if k < i {
                        assert(shorter[k].raw == key);
                    }
                }
                if listed(shorter).contains(key) {
                    let k = choose|k: int|
                        0 <= k < shorter.len() && (#[trigger] shorter[k]).raw == key;
                    assert(longer[k].raw == key);
                }
                assert(longer[i as int] == ids@[i as int]);
            }
            assert(listed(longer) =~= listed(shorter).insert(ids@[i as int].raw));
        }
        i += 1;
    }
    assert(ids@.take(i as int) =~= ids@);
    set
}

/// Every identity must be live in one of the families. A faulty identity of a family is
/// reported before one of a later family, and before one that no family issued.
pub open spec fn validated_spec<S: StateSchema>(states: S, ids: Seq<BlockId>) -> Result<
    (),
    SolverError,
> {
    match states.fault_spec(ids) {
        Some(error) => Err(SolverError::Key(error)),
        None => if exists|i: int|
            0 <= i < ids.len() && states.resolve_spec(#[trigger] ids[i]) is None {
            Err(SolverError::Key(KeyError::ForeignSolver))
        } else {
            Ok(())
        },
    }
}

/// Check that every identity is live in one of the families.
pub fn validate<S: StateSchema>(states: &S, ids: &[BlockId]) -> (valid: Result<(), SolverError>)
    requires
        states.wf(),
    ensures
        valid == validated_spec(*states, ids@),
        valid is Ok ==> forall|i: int|
            0 <= i < ids@.len() ==> states.resolve_spec(#[trigger] ids@[i]) == Some(
                Ok::<(), KeyError>(()),
            ),
{
    proof {
        states.lemma_fault(ids@);
    }
    match states.fault(ids) {
        Some(error) => {
            return Err(SolverError::Key(error));
        },
        None => {},
    }
    let mut i: usize = 0;
    while i < ids.len()
        invariant
            states.wf(),
            i <= ids@.len(),
            states.fault_spec(ids@) is None,
            forall|k: int|
                0 <= k < ids@.len() ==> !(states.resolve_spec(#[trigger] ids@[k]) matches Some(
                    Err(_),
                )),
            forall|k: int|
                0 <= k < i ==> states.resolve_spec(#[trigger] ids@[k]) == Some(
                    Ok::<(), KeyError>(()),
                ),
        decreases ids@.len() - i,
    {
        let known = states.resolve(ids[i]);
        if known.is_none() {
            return Err(SolverError::Key(KeyError::ForeignSolver));
        }
        assert(known->Some_0->Ok_0 == ());
        i += 1;
    }
    Ok(())
}

/// The variables of one prior.
pub open spec fn prior_variables<R>(prior: PriorView<R>) -> Seq<BlockId> {
    Seq::new(prior.blocks.len(), |k: int| prior.blocks[k].id)
}

/// Priors as factors over their variables.
pub open spec fn prior_incidence<R: Real>(priors: Priors<R>) -> Seq<Incidence> {
    Seq::new(
        priors.views().len(),
        |i: int|
            Incidence {
                id: FactorId { raw: priors.id(i) },
                variables: prior_variables(priors.views()[i]),
            },
    )
}

/// Every factor and prior of a graph.
pub open spec fn all_incidence<S: StateSchema, F: FactorSchema<S>>(
    factors: F,
    priors: Priors<S::Scalar>,
) -> Seq<Incidence> {
    factors.incidence() + prior_incidence(priors)
}

/// Plan every prior as a factor.
pub fn plan_priors<R: Real>(layout: &mut Layout, priors: &Priors<R>) -> (planned: Result<
    (),
    SolverError,
>)
    requires
        old(layout).wf(),
        priors.wf(),
    ensures
        final(layout).wf(),
        final(layout).dimension == old(layout).dimension,
        final(layout).blocks@ == old(layout).blocks@,
        final(layout).block_index@ == old(layout).block_index@,
        match plan_run(
            old(layout).block_index@,
            old(layout).planned(),
            prior_incidence(*priors),
            prior_incidence(*priors).len() as int,
        ) {
            None => planned == Err::<(), SolverError>(
                SolverError::Evaluation(EvaluationError::InvalidEmission),
            ),
            Some(after) => planned is Ok && final(layout).planned() == after,
        },
{
    let ghost incidence = prior_incidence(*priors);
    let mut i: usize = 0;
    while i < priors.entries.values.len()
        invariant
            priors.wf(),
            incidence == prior_incidence(*priors),
            i <= priors.entries.values@.len(),
            layout.wf(),
            layout.dimension == old(layout).dimension,
            layout.blocks@ == old(layout).blocks@,
            layout.block_index@ == old(layout).block_index@,
            plan_run(old(layout).block_index@, old(layout).planned(), incidence, i as int) == Some(
                layout.planned(),
            ),
        decreases priors.entries.values@.len() - i,
    {
        let raw = RawKey { pool: priors.entries.id, local: priors.entries.keys[i] };
        let prior = &priors.entries.values[i];
        assert(priors.views()[i as int] == prior@);
        let mut variables: Vec<BlockId> = Vec::new();
        let mut k: usize = 0;
        while k < prior.blocks.len()
            invariant
                k <= prior.blocks@.len(),
                variables@.len() == k,
                forall|j: int| 0 <= j < k ==> #[trigger] variables@[j] == prior.blocks@[j].id,
            decreases prior.blocks@.len() - k,
        {
            variables.push(prior.blocks[k].id);
            k += 1;
        }
        proof {
            assert(variables@ =~= prior_variables(prior@));
            assert(incidence[i as int].variables == variables@);
            assert(incidence[i as int].id == (FactorId { raw }));
        }
        let ghost before = layout.planned();
        match layout.factor(FactorId { raw }, variables.as_slice()) {
            Ok(_) => {
                assert(layout.planned() =~= plan_step(
                    old(layout).block_index@,
                    before,
                    incidence[i as int],
                )->Some_0);
            },
            Err(error) => {
                proof {
                    lemma_plan_refused(
                        old(layout).block_index@,
                        old(layout).planned(),
                        incidence,
                        i + 1,
                        incidence.len() as int,
                    );
                }
                return Err(error);
            },
        }
        i += 1;
    }
    Ok(())
}

/// A factor over one of the given variables.
pub open spec fn touches(factor: Incidence, remove: Set<RawKey>) -> bool {
    exists|v: int|
        0 <= v < factor.variables.len() && remove.contains((#[trigger] factor.variables[v]).raw)
}

/// Those of the first `n` factors that are over one of the given variables.
pub open spec fn affected_set(all: Seq<Incidence>, remove: Set<RawKey>, n: int) -> Set<RawKey> {
    Set::new(
        |key: RawKey|
            exists|k: int|
                0 <= k < n && (#[trigger] all[k]).id.raw == key && touches(all[k], remove),
    )
}

/// The variables of those of the first `n` factors that are over one of the given
/// variables.
pub open spec fn touched_set(all: Seq<Incidence>, remove: Set<RawKey>, n: int) -> Set<RawKey> {
    Set::new(
        |key: RawKey|
            exists|k: int, v: int|
                #![trigger all[k].variables[v]]
                0 <= k < n && 0 <= v < all[k].variables.len() && touches(all[k], remove)
                    && all[k].variables[v].raw == key,
    )
}

/// A planned factor has the identity and the variables it was planned with.
pub open spec fn plans(
    index: Map<RawKey, usize>,
    planned: Planned,
    factor: Incidence,
    f: int,
) -> bool {
    let plan = planned.factors[f];
    &&& plan.id == factor.id
    &&& plan.start <= plan.end <= planned.dependencies.len()
    &&& planned.dependencies.subrange(plan.start as int, plan.end as int) == distinct_positions(
        index,
        factor.variables,
        factor.variables.len() as int,
    )
    &&& all_known(index, factor.variables)
}

/// Everything planned is planned with its own variables.
proof fn lemma_plans(index: Map<RawKey, usize>, all: Seq<Incidence>, n: int)
    requires
        0 <= n <= all.len(),
        plan_run(index, unplanned(), all, n) matches Some(planned) && planned.dependencies.len()
            <= usize::MAX,
    ensures
        plan_run(index, unplanned(), all, n)->Some_0.factors.len() == n,
        forall|f: int|
            0 <= f < n ==> plans(
                index,
                plan_run(index, unplanned(), all, n)->Some_0,
                #[trigger] all[f],
                f,
            ),
    decreases n,
{
    if n > 0 {
        let before = plan_run(index, unplanned(), all, n - 1)->Some_0;
        let after = plan_run(index, unplanned(), all, n)->Some_0;
        lemma_plans(index, all, n - 1);
        assert forall|f: int| 0 <= f < n implies plans(index, after, #[trigger] all[f], f) by {
            if f < n - 1 {
                let plan = before.factors[f];
                assert(plans(index, before, all[f], f));
                assert(after.factors[f] == plan);
                assert(after.dependencies.subrange(plan.start as int, plan.end as int)
                    =~= before.dependencies.subrange(plan.start as int, plan.end as int));
            } else {
                let added = distinct_positions(
                    index,
                    all[f].variables,
                    all[f].variables.len() as int,
                );
                assert(after.dependencies.subrange(
                    before.dependencies.len() as int,
                    (before.dependencies.len() + added.len()) as int,
                ) =~= added);
            }
        }
    }
}

/// A variable is listed exactly where its position is.
proof fn lemma_listed_position(
    index: Map<RawKey, usize>,
    variables: Seq<BlockId>,
    n: int,
    position: usize,
)
    requires
        0 <= n <= variables.len(),
        all_known(index, variables),
    ensures
        distinct_positions(index, variables, n).contains(position) <==> exists|v: int|
            0 <= v < n && index[(#[trigger] variables[v]).raw] == position,
    decreases n,
{
    if n > 0 {
        lemma_listed_position(index, variables, n - 1, position);
        let before = distinct_positions(index, variables, n - 1);
        let after = distinct_positions(index, variables, n);
        let last = index[variables[n - 1].raw];
        assert(index.contains_key(variables[n - 1].raw));
        if before.contains(position) {
            let k = before.index_of(position);
            assert(after[k] == position);
        }
        if last == position && !before.contains(position) {
            assert(after[after.len() - 1] == position);
        }
        if after.contains(position) {
            let k = after.index_of(position);
            if k < before.len() {
                assert(before[k] == position);
            } else {
                assert(index[variables[n - 1].raw] == position);
            }
        }
        if exists|v: int| 0 <= v < n && index[(#[trigger] variables[v]).raw] == position {
            let v = choose|v: int| 0 <= v < n && index[(#[trigger] variables[v]).raw] == position;
            if v < n - 1 {
                assert(index[variables[v].raw] == position);
                assert(before.contains(position));
            } else {
                lemma_listed_position(index, variables, n - 1, last);
            }
        }
    }
}

/// Whether a factor over the given variables is affected, judged by its planned positions.
proof fn lemma_touches(layout: &Layout, factor: Incidence, f: int, remove: Set<RawKey>)
    requires
        layout.wf(),
        0 <= f < layout.factors@.len(),
        plans(layout.block_index@, layout.planned(), factor, f),
    ensures
        touches(factor, remove) <==> exists|d: int|
            0 <= d < layout.deps(f).len() && remove.contains(
                layout.blocks@[(#[trigger] layout.deps(f)[d]) as int].id.raw,
            ),
{
    let index = layout.block_index@;
    let variables = factor.variables;
    let deps = layout.deps(f);
    if touches(factor, remove) {
        let v = choose|v: int|
            0 <= v < variables.len() && remove.contains((#[trigger] variables[v]).raw);
        let position = index[variables[v].raw];
        lemma_listed_position(index, variables, variables.len() as int, position);
        assert(index[variables[v].raw] == position);
        let d = deps.index_of(position);
        assert(index.contains_key(variables[v].raw));
        assert(remove.contains(layout.blocks@[deps[d] as int].id.raw));
    }
    if exists|d: int|
        0 <= d < deps.len() && remove.contains(
            layout.blocks@[(#[trigger] deps[d]) as int].id.raw,
        ) {
        let d = choose|d: int|
            0 <= d < deps.len() && remove.contains(
                layout.blocks@[(#[trigger] deps[d]) as int].id.raw,
            );
        lemma_listed_position(index, variables, variables.len() as int, deps[d]);
        assert(deps.contains(deps[d]));
        let v = choose|v: int|
            0 <= v < variables.len() && index[(#[trigger] variables[v]).raw] == deps[d];
        assert(index.contains_key(variables[v].raw));
        assert(remove.contains(variables[v].raw));
    }
}

/// Find the factors over the given variables, and all variables they are over.
fn affected(full: &Layout, remove: &KeySet, Ghost(all): Ghost<Seq<Incidence>>) -> (found: (
    KeySet,
    KeySet,
))
    requires
        full.wf(),
        remove.wf(),
        plan_run(full.block_index@, unplanned(), all, all.len() as int) == Some(full.planned()),
    ensures
        found.0.wf(),
        found.1.wf(),
        found.0@ == affected_set(all, remove@, all.len() as int),
        found.1@ == touched_set(all, remove@, all.len() as int),
{
    let mut hit = KeySet::new();
    let mut near = KeySet::new();
    proof {
        assert(full.dependencies@.len() == full.dependencies.len());
        lemma_plans(full.block_index@, all, all.len() as int);
        assert(hit@ =~= affected_set(all, remove@, 0));
        assert(near@ =~= touched_set(all, remove@, 0));
    }
    let mut f: usize = 0;
    while f < full.factors.len()
        invariant
            full.wf(),
            remove.wf(),
            hit.wf(),
            near.wf(),
            full.factors@.len() == all.len(),
            forall|k: int|
                0 <= k < all.len() ==> plans(
                    full.block_index@,
                    full.planned(),
                    #[trigger] all[k],
                    k,
                ),
            f <= full.factors@.len(),
            hit@ == affected_set(all, remove@, f as int),
            near@ == touched_set(all, remove@, f as int),
        decreases full.factors@.len() - f,
    {
        let plan = full.factors[f];
        let ghost deps = full.deps(f as int);
        assert(plans(full.block_index@, full.planned(), all[f as int], f as int));
        let mut any = false;
        let mut d: usize = plan.start;
        while d < plan.end
            invariant
                full.wf(),
                remove.wf(),
                plan == full.factors@[f as int],
                f < full.factors@.len(),
                deps == full.deps(f as int),
                plan.end <= full.dependencies@.len(),
                plan.start <= d <= plan.end,
                any <==> (exists|e: int|
                    0 <= e < d - plan.start && remove@.contains(
                        full.blocks@[(#[trigger] deps[e]) as int].id.raw,
                    )),
            decreases plan.end - d,
        {
            assert(deps[d - plan.start] == full.dependencies@[d as int]);
            if remove.contains(full.blocks[full.dependencies[d]].id.raw) {
                any = true;
            }
            d += 1;
        }
        proof {
            lemma_touches(full, all[f as int], f as int, remove@);
            lemma_affected_grows(all, remove@, f as int);
        }
        assert(any == touches(all[f as int], remove@));
        if any {
            hit.insert(plan.id.raw);
            let ghost before = near@;
            let mut d: usize = plan.start;
            while d < plan.end
                invariant
                    full.wf(),
                    near.wf(),
                    plan == full.factors@[f as int],
                    f < full.factors@.len(),
                    deps == full.deps(f as int),
                    plan.end <= full.dependencies@.len(),
                    plan.start <= d <= plan.end,
                    forall|key: RawKey| #[trigger]
                        near@.contains(key) <==> before.contains(key) || exists|e: int|
                            0 <= e < d - plan.start && full.blocks@[(
                            #[trigger] deps[e]) as int].id.raw == key,
                decreases plan.end - d,
            {
                assert(deps[d - plan.start] == full.dependencies@[d as int]);
                near.insert(full.blocks[full.dependencies[d]].id.raw);
                d += 1;
            }
            proof {
                lemma_touched_grows(full, all, remove@, f as int);
                assert(near@ =~= touched_set(all, remove@, f + 1));
            }
        } else {
            proof {
                assert(touched_set(all, remove@, f + 1) =~= touched_set(all, remove@, f as int)) by {
                    assert forall|key: RawKey| touched_set(all, remove@, f + 1).contains(
                        key,
                    ) implies touched_set(all, remove@, f as int).contains(key) by {
                        let (k, v) = choose|k: int, v: int|
                            #![trigger all[k].variables[v]]
                            0 <= k < f + 1 && 0 <= v < all[k].variables.len() && touches(
                                all[k],
                                remove@,
                            ) && all[k].variables[v].raw == key;
                        assert(all[k].variables[v].raw == key);
                    }
                }
            }
        }
        f += 1;
    }
    (hit, near)
}

proof fn lemma_affected_grows(all: Seq<Incidence>, remove: Set<RawKey>, f: int)
    requires
        0 <= f < all.len(),
    ensures
        affected_set(all, remove, f + 1) == if touches(all[f], remove) {
            affected_set(all, remove, f).insert(all[f].id.raw)
        } else {
            affected_set(all, remove, f)
        },
{
    let before = affected_set(all, remove, f);
    let after = affected_set(all, remove, f + 1);
    assert forall|key: RawKey| #[trigger] after.contains(key) <==> before.contains(key) || (touches(
        all[f],
        remove,
    ) && all[f].id.raw == key) by {
        if after.contains(key) {
            let k = choose|k: int|
                0 <= k < f + 1 && (#[trigger] all[k]).id.raw == key && touches(all[k], remove);
            if k < f {
                assert(all[k].id.raw == key);
            }
        }
        if before.contains(key) {
            let k = choose|k: int|
                0 <= k < f && (#[trigger] all[k]).id.raw == key && touches(all[k], remove);
            assert(all[k].id.raw == key);
        }
    }
    assert(after =~= if touches(all[f], remove) {
        before.insert(all[f].id.raw)
    } else {
        before
    });
}

proof fn lemma_touched_grows(full: &Layout, all: Seq<Incidence>, remove: Set<RawKey>, f: int)
    requires
        full.wf(),
        0 <= f < all.len(),
        f < full.factors@.len(),
        plans(full.block_index@, full.planned(), all[f], f),
        touches(all[f], remove),
    ensures
        forall|key: RawKey| #[trigger]
            touched_set(all, remove, f + 1).contains(key) <==> touched_set(
                all,
                remove,
                f,
            ).contains(key) || exists|e: int|
                0 <= e < full.deps(f).len() && full.blocks@[(
                #[trigger] full.deps(f)[e]) as int].id.raw == key,
{
    let index = full.block_index@;
    let variables = all[f].variables;
    let deps = full.deps(f);
    let before = touched_set(all, remove, f);
    let after = touched_set(all, remove, f + 1);
    assert forall|key: RawKey| #[trigger] after.contains(key) <==> before.contains(key) || exists|e:
        int| 0 <= e < deps.len() && full.blocks@[(#[trigger] deps[e]) as int].id.raw == key by {
        if after.contains(key) {
            let (k, v) = choose|k: int, v: int|
                #![trigger all[k].variables[v]]
                0 <= k < f + 1 && 0 <= v < all[k].variables.len() && touches(all[k], remove)
                    && all[k].variables[v].raw == key;
            if k < f {
                assert(all[k].variables[v].raw == key);
            } else {
                assert(variables[v].raw == key);
                assert(index.contains_key(variables[v].raw));
                let position = index[key];
                lemma_listed_position(index, variables, variables.len() as int, position);
                let e = deps.index_of(position);
                assert(full.blocks@[deps[e] as int].id.raw == key);
            }
        }
        if before.contains(key) {
            let (k, v) = choose|k: int, v: int|
                #![trigger all[k].variables[v]]
                0 <= k < f && 0 <= v < all[k].variables.len() && touches(all[k], remove)
                    && all[k].variables[v].raw == key;
            assert(all[k].variables[v].raw == key);
        }
        if exists|e: int| 0 <= e < deps.len() && full.blocks@[(#[trigger] deps[e]) as int].id.raw
            == key {
            let e = choose|e: int|
                0 <= e < deps.len() && full.blocks@[(#[trigger] deps[e]) as int].id.raw == key;
            lemma_listed_position(index, variables, variables.len() as int, deps[e]);
            assert(deps.contains(deps[e]));
            let v = choose|v: int|
                0 <= v < variables.len() && index[(#[trigger] variables[v]).raw] == deps[e];
            assert(index.contains_key(variables[v].raw));
            assert(all[f].variables[v].raw == key);
        }
    }
}

/// Whether a variable is among those that go, or among the touched ones that stay.
pub open spec fn belongs(
    remove: Set<RawKey>,
    touched: Set<RawKey>,
    goes: bool,
    key: RawKey,
) -> bool {
    remove.contains(key) == goes && (goes || touched.contains(key))
}

/// The variables that go, or the touched ones that stay.
pub open spec fn share(
    blocks: Seq<(BlockId, nat)>,
    remove: Set<RawKey>,
    touched: Set<RawKey>,
    goes: bool,
) -> Seq<(BlockId, nat)> {
    blocks.filter(|block: (BlockId, nat)| belongs(remove, touched, goes, block.0.raw))
}

/// The variables that go, followed by the touched ones that stay.
pub open spec fn front_blocks(
    blocks: Seq<(BlockId, nat)>,
    remove: Set<RawKey>,
    touched: Set<RawKey>,
) -> Seq<(BlockId, nat)> {
    share(blocks, remove, touched, true) + share(blocks, remove, touched, false)
}

/// Both shares together are no wider than all variables.
proof fn lemma_share_widths(
    blocks: Seq<(BlockId, nat)>,
    remove: Set<RawKey>,
    touched: Set<RawKey>,
)
    ensures
        width_sum(share(blocks, remove, touched, true)) + width_sum(
            share(blocks, remove, touched, false),
        ) <= width_sum(blocks),
    decreases blocks.len(),
{
    reveal(width_sum);
    reveal(Seq::filter);
    if blocks.len() > 0 {
        let shorter = blocks.drop_last();
        lemma_share_widths(shorter, remove, touched);
        let last = blocks.last();
        let goes = share(shorter, remove, touched, true);
        let stays = share(shorter, remove, touched, false);
        assert(goes.push(last).drop_last() =~= goes);
        assert(stays.push(last).drop_last() =~= stays);
    }
}

/// A prefix has no wider a share.
proof fn lemma_share_prefix(
    blocks: Seq<(BlockId, nat)>,
    remove: Set<RawKey>,
    touched: Set<RawKey>,
    goes: bool,
    i: int,
)
    requires
        0 <= i < blocks.len(),
    ensures
        width_sum(share(blocks.take(i + 1), remove, touched, goes)) <= width_sum(
            share(blocks, remove, touched, goes),
        ),
        share(blocks.take(i + 1), remove, touched, goes) == if belongs(
            remove,
            touched,
            goes,
            blocks[i].0.raw,
        ) {
            share(blocks.take(i), remove, touched, goes).push(blocks[i])
        } else {
            share(blocks.take(i), remove, touched, goes)
        },
{
    let pred = |block: (BlockId, nat)| belongs(remove, touched, goes, block.0.raw);
    let head = blocks.take(i + 1);
    let tail = blocks.skip(i + 1);
    assert(blocks =~= head + tail);
    Seq::filter_distributes_over_add(head, tail, pred);
    lemma_width_sum_add(head.filter(pred), tail.filter(pred));
    reveal(Seq::filter);
    assert(head.drop_last() =~= blocks.take(i));
    assert(head.last() == blocks[i]);
}

/// Adding a variable places it behind the others.
proof fn lemma_placed_push(blocks: Seq<(BlockId, nat)>, block: (BlockId, nat))
    requires
        width_sum(blocks) + block.1 <= usize::MAX,
    ensures
        placed(blocks.push(block), 0) == placed(blocks, 0).push(
            Block { id: block.0, offset: width_sum(blocks) as usize, width: block.1 as usize },
        ),
        width_sum(blocks.push(block)) == width_sum(blocks) + block.1,
{
    reveal(width_sum);
    let longer = blocks.push(block);
    assert(longer.drop_last() =~= blocks);
    assert(longer.take(blocks.len() as int) =~= blocks);
    assert forall|i: int| 0 <= i < blocks.len() implies longer.take(i) =~= #[trigger] blocks.take(
        i,
    ) by {}
    assert(placed(longer, 0) =~= placed(blocks, 0).push(
        Block { id: block.0, offset: width_sum(blocks) as usize, width: block.1 as usize },
    )) by {
        assert forall|i: int| 0 <= i < blocks.len() implies #[trigger] placed(longer, 0)[i]
            == placed(blocks, 0)[i] by {
            assert(longer.take(i) =~= blocks.take(i));
        }
    }
}

/// Place one share of the variables of a layout behind those already placed.
fn place_share(
    layout: &mut Layout,
    full: &Layout,
    remove: &KeySet,
    touched: &KeySet,
    goes: bool,
    Ghost(blocks): Ghost<Seq<(BlockId, nat)>>,
    Ghost(before): Ghost<Seq<(BlockId, nat)>>,
)
    requires
        old(layout).wf(),
        old(layout).blocks@ == placed(before, 0),
        old(layout).dimension == width_sum(before),
        remove.wf(),
        touched.wf(),
        full.blocks@ == placed(blocks, 0),
        width_sum(blocks) <= usize::MAX,
        width_sum(before) + width_sum(share(blocks, remove@, touched@, goes)) <= usize::MAX,
        forall|i: int, j: int|
            0 <= i < j < blocks.len() ==> (#[trigger] blocks[i]).0 != (#[trigger] blocks[j]).0,
        forall|key: RawKey| #[trigger]
            old(layout).block_index@.contains_key(key) ==> !belongs(remove@, touched@, goes, key),
    ensures
        final(layout).wf(),
        final(layout).planned() == old(layout).planned(),
        final(layout).blocks@ == placed(before + share(blocks, remove@, touched@, goes), 0),
        final(layout).dimension == width_sum(before + share(blocks, remove@, touched@, goes)),
        forall|key: RawKey| #[trigger]
            final(layout).block_index@.contains_key(key) ==> old(layout).block_index@.contains_key(
                key,
            ) || belongs(remove@, touched@, goes, key),
{
    let mut i: usize = 0;
    proof {
        reveal(Seq::filter);
        assert(blocks.take(0) =~= Seq::<(BlockId, nat)>::empty());
        assert(before + share(blocks.take(0), remove@, touched@, goes) =~= before);
    }
    while i < full.blocks.len()
        invariant
            layout.wf(),
            layout.planned() == old(layout).planned(),
            remove.wf(),
            touched.wf(),
            full.blocks@ == placed(blocks, 0),
            width_sum(blocks) <= usize::MAX,
            width_sum(before) + width_sum(share(blocks, remove@, touched@, goes)) <= usize::MAX,
            forall|i: int, j: int|
                0 <= i < j < blocks.len() ==> (#[trigger] blocks[i]).0 != (#[trigger] blocks[j]).0,
            forall|key: RawKey| #[trigger]
                old(layout).block_index@.contains_key(key) ==> !belongs(
                    remove@,
                    touched@,
                    goes,
                    key,
                ),
            i <= full.blocks@.len(),
            layout.blocks@ == placed(
                before + share(blocks.take(i as int), remove@, touched@, goes),
                0,
            ),
            layout.dimension == width_sum(
                before + share(blocks.take(i as int), remove@, touched@, goes),
            ),
            forall|key: RawKey| #[trigger]
                layout.block_index@.contains_key(key) ==> {
                    ||| old(layout).block_index@.contains_key(key)
                    ||| belongs(remove@, touched@, goes, key) && exists|j: int|
                        0 <= j < i && (#[trigger] blocks[j]).0.raw == key
                },
        decreases full.blocks@.len() - i,
    {
        let block = full.blocks[i];
        let ghost so_far = share(blocks.take(i as int), remove@, touched@, goes);
        proof {
            lemma_width_sum_prefix(blocks, i as int);
            lemma_width_sum_prefix(blocks, i + 1);
            lemma_share_prefix(blocks, remove@, touched@, goes, i as int);
            lemma_width_sum_add(before, so_far);
            lemma_width_sum_add(
                before,
                share(blocks.take(i + 1), remove@, touched@, goes),
            );
            assert(block.id == blocks[i as int].0);
            assert(block.width == blocks[i as int].1);
        }
        let ghost was = layout.block_index@;
        if remove.contains(block.id.raw) == goes && (goes || touched.contains(block.id.raw)) {
            proof {
                assert(before + so_far.push(blocks[i as int]) =~= (before + so_far).push(
                    blocks[i as int],
                ));
                assert(width_sum(so_far.push(blocks[i as int])) == width_sum(so_far)
                    + blocks[i as int].1) by {
                    reveal(width_sum);
                    assert(so_far.push(blocks[i as int]).drop_last() =~= so_far);
                }
                lemma_placed_push(before + so_far, blocks[i as int]);
                if layout.block_index@.contains_key(block.id.raw) {
                    let j = choose|j: int|
                        0 <= j < i && (#[trigger] blocks[j]).0.raw == block.id.raw;
                    assert(blocks[j].0 != blocks[i as int].0);
                }
            }
            match layout.block(block.id, block.width) {
                Ok(_) => {},
                Err(_) => {
                    assert(false);
                },
            }
            assert(blocks[i as int].0.raw == block.id.raw);
        }
        assert forall|key: RawKey| #[trigger] layout.block_index@.contains_key(key) implies {
            ||| old(layout).block_index@.contains_key(key)
            ||| belongs(remove@, touched@, goes, key) && exists|j: int|
                0 <= j < i + 1 && (#[trigger] blocks[j]).0.raw == key
        } by {
            if was.contains_key(key) {
                if !old(layout).block_index@.contains_key(key) {
                    let j = choose|j: int| 0 <= j < i && (#[trigger] blocks[j]).0.raw == key;
                    assert(blocks[j].0.raw == key);
                }
            } else {
                assert(blocks[i as int].0.raw == key);
            }
        }
        i += 1;
    }
    assert(blocks.take(i as int) =~= blocks);
}

/// The factors over one of the given variables.
pub open spec fn kept(all: Seq<Incidence>, remove: Set<RawKey>) -> Seq<Incidence> {
    all.filter(|factor: Incidence| touches(factor, remove))
}

/// The variables at planned positions.
pub open spec fn variables_at(layout: &Layout, positions: Seq<usize>) -> Seq<BlockId> {
    Seq::new(positions.len(), |d: int| layout.blocks@[positions[d] as int].id)
}

/// Listing variables by their distinct positions in one layout makes no difference to their
/// positions in another.
proof fn lemma_distinct_twice(
    full: &Layout,
    index: Map<RawKey, usize>,
    variables: Seq<BlockId>,
    n: int,
)
    requires
        full.wf(),
        0 <= n <= variables.len(),
        all_known(full.block_index@, variables),
        all_known(index, variables),
        forall|a: RawKey, b: RawKey|
            index.contains_key(a) && index.contains_key(b) && #[trigger] index[a]
                == #[trigger] index[b] ==> a == b,
    ensures
        ({
            let first = distinct_positions(full.block_index@, variables, n);
            let named = variables_at(full, first);
            distinct_positions(index, named, named.len() as int) == distinct_positions(
                index,
                variables,
                n,
            )
        }),
    decreases n,
{
    if n > 0 {
        lemma_distinct_twice(full, index, variables, n - 1);
        let here = full.block_index@;
        let before = distinct_positions(here, variables, n - 1);
        let after = distinct_positions(here, variables, n);
        let named = variables_at(full, before);
        let last = variables[n - 1];
        assert(here.contains_key(last.raw));
        assert(index.contains_key(last.raw));
        let position = here[last.raw];
        lemma_listed_position(here, variables, n - 1, position);
        lemma_listed_position(index, variables, n - 1, index[last.raw]);
        let other = distinct_positions(index, variables, n - 1);
        if before.contains(position) {
            let v = choose|v: int|
                0 <= v < n - 1 && here[(#[trigger] variables[v]).raw] == position;
            assert(here.contains_key(variables[v].raw));
            assert(variables[v].raw == last.raw);
            assert(index[variables[v].raw] == index[last.raw]);
            assert(other.contains(index[last.raw]));
        } else {
            assert(after =~= before.push(position));
            assert(full.blocks@[position as int].id.raw == last.raw);
            assert(variables_at(full, after) =~= named.push(full.blocks@[position as int].id));
            let longer = named.push(full.blocks@[position as int].id);
            lemma_distinct_prefix(index, named, longer, named.len() as int);
            if other.contains(index[last.raw]) {
                let v = choose|v: int|
                    0 <= v < n - 1 && index[(#[trigger] variables[v]).raw] == index[last.raw];
                assert(index.contains_key(variables[v].raw));
                assert(variables[v].raw == last.raw);
                assert(here[variables[v].raw] == position);
            }
            assert(longer[longer.len() - 1].raw == last.raw);
        }
    } else {
        let none = distinct_positions(full.block_index@, variables, 0);
        assert(variables_at(full, none).len() == 0);
    }
}

proof fn lemma_distinct_prefix(
    index: Map<RawKey, usize>,
    a: Seq<BlockId>,
    b: Seq<BlockId>,
    n: int,
)
    requires
        n <= a.len(),
        n <= b.len(),
        forall|i: int| 0 <= i < n ==> a[i] == #[trigger] b[i],
    ensures
        distinct_positions(index, a, n) == distinct_positions(index, b, n),
    decreases n,
{
    if n > 0 {
        lemma_distinct_prefix(index, a, b, n - 1);
        assert(a[n - 1] == b[n - 1]);
    }
}

proof fn lemma_kept_prefix(all: Seq<Incidence>, remove: Set<RawKey>, f: int)
    requires
        0 <= f < all.len(),
    ensures
        kept(all.take(f + 1), remove) == if touches(all[f], remove) {
            kept(all.take(f), remove).push(all[f])
        } else {
            kept(all.take(f), remove)
        },
{
    reveal(Seq::filter);
    assert(all.take(f + 1).drop_last() =~= all.take(f));
    assert(all.take(f + 1).last() == all[f]);
}

proof fn lemma_plan_same_prefix(
    index: Map<RawKey, usize>,
    a: Seq<Incidence>,
    b: Seq<Incidence>,
    n: int,
)
    requires
        n <= a.len(),
        n <= b.len(),
        forall|i: int| 0 <= i < n ==> a[i] == #[trigger] b[i],
    ensures
        plan_run(index, unplanned(), a, n) == plan_run(index, unplanned(), b, n),
    decreases n,
{
    if n > 0 {
        lemma_plan_same_prefix(index, a, b, n - 1);
        assert(a[n - 1] == b[n - 1]);
    }
}

/// Plan the affected factors of a layout in another one, which has all their variables.
fn plan_kept(
    layout: &mut Layout,
    full: &Layout,
    affected: &KeySet,
    Ghost(all): Ghost<Seq<Incidence>>,
    Ghost(remove): Ghost<Set<RawKey>>,
)
    requires
        full.wf(),
        plan_run(full.block_index@, unplanned(), all, all.len() as int) == Some(full.planned()),
        affected.wf(),
        affected@ == affected_set(all, remove, all.len() as int),
        old(layout).wf(),
        old(layout).planned() == unplanned(),
        forall|k: int, v: int|
            #![trigger all[k].variables[v]]
            0 <= k < all.len() && 0 <= v < all[k].variables.len() && touches(all[k], remove)
                ==> old(layout).block_index@.contains_key(all[k].variables[v].raw),
    ensures
        final(layout).wf(),
        final(layout).dimension == old(layout).dimension,
        final(layout).blocks@ == old(layout).blocks@,
        final(layout).block_index@ == old(layout).block_index@,
        plan_run(
            final(layout).block_index@,
            unplanned(),
            kept(all, remove),
            kept(all, remove).len() as int,
        ) == Some(final(layout).planned()),
        forall|key: RawKey| #[trigger]
            final(layout).factor_index@.contains_key(key) ==> affected@.contains(key),
{
    proof {
        assert(full.dependencies@.len() == full.dependencies.len());
        lemma_plans(full.block_index@, all, all.len() as int);
        reveal(Seq::filter);
        assert(all.take(0) =~= Seq::<Incidence>::empty());
        assert(kept(all.take(0), remove) =~= Seq::<Incidence>::empty());
    }
    let mut f: usize = 0;
    while f < full.factors.len()
        invariant
            full.wf(),
            full.factors@.len() == all.len(),
            forall|k: int|
                0 <= k < all.len() ==> plans(
                    full.block_index@,
                    full.planned(),
                    #[trigger] all[k],
                    k,
                ),
            affected.wf(),
            affected@ == affected_set(all, remove, all.len() as int),
            layout.wf(),
            layout.dimension == old(layout).dimension,
            layout.blocks@ == old(layout).blocks@,
            layout.block_index@ == old(layout).block_index@,
            forall|k: int, v: int|
                #![trigger all[k].variables[v]]
                0 <= k < all.len() && 0 <= v < all[k].variables.len() && touches(all[k], remove)
                    ==> layout.block_index@.contains_key(all[k].variables[v].raw),
            f <= full.factors@.len(),
            plan_run(
                layout.block_index@,
                unplanned(),
                kept(all.take(f as int), remove),
                kept(all.take(f as int), remove).len() as int,
            ) == Some(layout.planned()),
            forall|key: RawKey| #[trigger]
                layout.factor_index@.contains_key(key) ==> affected@.contains(key) && exists|k:
                    int| 0 <= k < f && (#[trigger] all[k]).id.raw == key,
        decreases full.factors@.len() - f,
    {
        let plan = full.factors[f];
        let ghost deps = full.deps(f as int);
        let ghost factor = all[f as int];
        proof {
            assert(plans(full.block_index@, full.planned(), factor, f as int));
            lemma_kept_prefix(all, remove, f as int);
            assert(affected@.contains(plan.id.raw) <==> touches(factor, remove)) by {
                if affected@.contains(plan.id.raw) {
                    let k = choose|k: int|
                        0 <= k < all.len() && (#[trigger] all[k]).id.raw == plan.id.raw && touches(
                            all[k],
                            remove,
                        );
                    assert(plans(full.block_index@, full.planned(), all[k], k));
                    assert(full.factors@[k].id == plan.id);
                    assert(full.factor_index@[plan.id.raw] == k);
                    assert(full.factor_index@[plan.id.raw] == f);
                }
                if touches(factor, remove) {
                    assert(all[f as int].id.raw == plan.id.raw);
                }
            }
        }
        if affected.contains(plan.id.raw) {
            let mut variables: Vec<BlockId> = Vec::new();
            let mut d: usize = plan.start;
            while d < plan.end
                invariant
                    full.wf(),
                    plan == full.factors@[f as int],
                    f < full.factors@.len(),
                    deps == full.deps(f as int),
                    plan.end <= full.dependencies@.len(),
                    plan.start <= d <= plan.end,
                    variables@.len() == d - plan.start,
                    forall|e: int|
                        0 <= e < d - plan.start ==> #[trigger] variables@[e]
                            == full.blocks@[deps[e] as int].id,
                decreases plan.end - d,
            {
                assert(deps[d - plan.start] == full.dependencies@[d as int]);
                variables.push(full.blocks[full.dependencies[d]].id);
                d += 1;
            }
            let ghost index = layout.block_index@;
            let ghost before = layout.planned();
            let ghost shorter = kept(all.take(f as int), remove);
            proof {
                assert(variables@ =~= variables_at(full, deps));
                let named = factor.variables;
                assert(all_known(index, named)) by {
                    assert forall|v: int| 0 <= v < named.len() implies index.contains_key(
                        (#[trigger] named[v]).raw,
                    ) by {
                        assert(all[f as int].variables[v] == named[v]);
                    }
                }
                lemma_distinct_twice(full, index, named, named.len() as int);
                assert(all_known(index, variables@)) by {
                    assert forall|e: int| 0 <= e < variables@.len() implies index.contains_key(
                        (#[trigger] variables@[e]).raw,
                    ) by {
                        lemma_listed_position(
                            full.block_index@,
                            named,
                            named.len() as int,
                            deps[e],
                        );
                        assert(deps.contains(deps[e]));
                        let v = choose|v: int|
                            0 <= v < named.len() && full.block_index@[(#[trigger] named[v]).raw]
                                == deps[e];
                        assert(full.block_index@.contains_key(named[v].raw));
                        assert(index.contains_key(named[v].raw));
                    }
                }
                if layout.factor_index@.contains_key(plan.id.raw) {
                    let k = choose|k: int|
                        0 <= k < f && (#[trigger] all[k]).id.raw == plan.id.raw;
                    assert(plans(full.block_index@, full.planned(), all[k], k));
                    assert(full.factors@[k].id == plan.id);
                    assert(full.factor_index@[plan.id.raw] == k);
                    assert(full.factor_index@[plan.id.raw] == f);
                }
            }
            match layout.factor(plan.id, variables.as_slice()) {
                Ok(_) => {},
                Err(_) => {
                    assert(false);
                },
            }
            proof {
                let longer = kept(all.take(f + 1), remove);
                assert(layout.planned() =~= plan_step(index, before, factor)->Some_0);
                lemma_plan_same_prefix(index, shorter, longer, shorter.len() as int);
                assert(longer[longer.len() - 1] == factor);
                assert(all[f as int].id.raw == plan.id.raw);
            }
        }
        f += 1;
    }
    assert(all.take(f as int) =~= all);
}

/// A variable that belongs to the front is placed in it.
proof fn lemma_front_has(
    layout: &Layout,
    blocks: Seq<(BlockId, nat)>,
    remove: Set<RawKey>,
    touched: Set<RawKey>,
    key: RawKey,
)
    requires
        layout.wf(),
        layout.blocks@ == placed(front_blocks(blocks, remove, touched), 0),
        exists|i: int| 0 <= i < blocks.len() && (#[trigger] blocks[i]).0.raw == key,
        remove.contains(key) || touched.contains(key),
    ensures
        layout.block_index@.contains_key(key),
{
    let i = choose|i: int| 0 <= i < blocks.len() && (#[trigger] blocks[i]).0.raw == key;
    let goes = remove.contains(key);
    let pred = |block: (BlockId, nat)| belongs(remove, touched, goes, block.0.raw);
    blocks.lemma_filter_contains(pred, i);
    let part = share(blocks, remove, touched, goes);
    let k = part.index_of(blocks[i]);
    let front = front_blocks(blocks, remove, touched);
    let at = if goes {
        k
    } else {
        share(blocks, remove, touched, true).len() + k
    };
    assert(front[at] == blocks[i]);
    assert(layout.blocks@[at].id.raw == key);
}

/// The affected part of a graph: which variables go, which factors and priors are over one
/// of them, and the coordinates of all their variables, those that go first.
pub struct Front {
    pub remove: KeySet,
    pub affected: KeySet,
    pub layout: Layout,
    pub removed_dof: usize,
}

impl Front {
    /// This is the part of the graph that is affected by removing the listed variables.
    pub open spec fn describes(
        &self,
        blocks: Seq<(BlockId, nat)>,
        all: Seq<Incidence>,
        ids: Seq<BlockId>,
    ) -> bool {
        let remove = listed(ids);
        let front = front_blocks(blocks, remove, touched_set(all, remove, all.len() as int));
        &&& self.remove.wf()
        &&& self.remove@ == remove
        &&& self.affected.wf()
        &&& self.affected@ == affected_set(all, remove, all.len() as int)
        &&& self.layout.wf()
        &&& self.layout.blocks@ == placed(front, 0)
        &&& self.layout.dimension == width_sum(front)
        &&& self.removed_dof == width_sum(
            share(blocks, remove, touched_set(all, remove, all.len() as int), true),
        )
        &&& plan_run(
            positions(front),
            unplanned(),
            kept(all, remove),
            kept(all, remove).len() as int,
        ) == Some(self.layout.planned())
    }
}

/// Whether the part of a graph that is affected by removing the listed variables can be
/// found, or why not.
pub open spec fn isolated_spec<S: StateSchema, F: FactorSchema<S>>(
    states: S,
    factors: F,
    priors: Priors<S::Scalar>,
    ids: Seq<BlockId>,
) -> Result<(), SolverError> {
    let all = all_incidence(factors, priors);
    match validated_spec(states, ids) {
        Err(error) => Err(error),
        Ok(_) => if width_sum(states.blocks()) > usize::MAX {
            Err(SolverError::Evaluation(EvaluationError::DimensionMismatch))
        } else if plan_run(
            positions(states.blocks()),
            unplanned(),
            all,
            all.len() as int,
        ) is None {
            Err(SolverError::Evaluation(EvaluationError::InvalidEmission))
        } else {
            Ok(())
        },
    }
}

/// Find the part of a graph that is affected by removing the listed variables.
pub fn isolate<S: StateSchema, F: FactorSchema<S>>(
    states: &mut S,
    factors: &F,
    priors: &Priors<S::Scalar>,
    ids: &[BlockId],
) -> (isolated: Result<Front, SolverError>)
    requires
        old(states).wf(),
        old(states).idle(),
        factors.wf(),
        priors.wf(),
    ensures
        final(states).wf(),
        final(states).idle(),
        final(states).pools() == old(states).pools(),
        final(states).same_graph(old(states)),
        final(states).blocks() == old(states).blocks(),
        final(states).anchored() == old(states).anchored(),
        final(states).accepted() == old(states).accepted(),
        final(states).current() == old(states).current(),
        match isolated_spec(*old(states), *factors, *priors, ids@) {
            Err(error) => isolated == Err::<Front, SolverError>(error),
            Ok(_) => isolated matches Ok(front) && front.describes(
                old(states).blocks(),
                all_incidence(*factors, *priors),
                ids@,
            ),
        },
{
    let ghost blocks = states.blocks();
    let ghost all = all_incidence(*factors, *priors);
    proof {
        states.lemma_reflexive(Set::empty());
        states.lemma_blocks();
    }
    let remove = distinct(ids);
    match validate(states, ids) {
        Ok(_) => {},
        Err(error) => {
            return Err(error);
        },
    }
    let mut full = Layout::new();
    assert(full.planned() =~= unplanned());
    match states.arrange(&mut full) {
        Ok(_) => {},
        Err(error) => {
            return Err(error);
        },
    }
    proof {
        assert(full.blocks@ =~= placed(blocks, 0));
        lemma_positions(&full, blocks);
        lemma_plan_add(
            full.block_index@,
            unplanned(),
            factors.incidence(),
            prior_incidence(*priors),
            prior_incidence(*priors).len() as int,
        );
    }
    match factors.plan(&mut full) {
        Ok(_) => {},
        Err(error) => {
            return Err(error);
        },
    }
    match plan_priors(&mut full, priors) {
        Ok(_) => {},
        Err(error) => {
            return Err(error);
        },
    }
    let (hit, near) = affected(&full, &remove, Ghost(all));
    let mut layout = Layout::new();
    let ghost none = Seq::<(BlockId, nat)>::empty();
    let ghost goes = share(blocks, remove@, near@, true);
    proof {
        reveal(width_sum);
        assert(layout.planned() =~= unplanned());
        assert(layout.blocks@ =~= placed(none, 0));
        lemma_share_widths(blocks, remove@, near@);
        assert(none + goes =~= goes);
    }
    place_share(&mut layout, &full, &remove, &near, true, Ghost(blocks), Ghost(none));
    let removed_dof: usize = layout.dimension;
    place_share(&mut layout, &full, &remove, &near, false, Ghost(blocks), Ghost(goes));
    proof {
        assert forall|k: int, v: int|
            #![trigger all[k].variables[v]]
            0 <= k < all.len() && 0 <= v < all[k].variables.len() && touches(
                all[k],
                remove@,
            ) implies layout.block_index@.contains_key(all[k].variables[v].raw) by {
            let key = all[k].variables[v].raw;
            assert(full.dependencies@.len() == full.dependencies.len());
            lemma_plans(full.block_index@, all, all.len() as int);
            assert(plans(full.block_index@, full.planned(), all[k], k));
            assert(full.block_index@.contains_key(all[k].variables[v].raw));
            assert(near@.contains(key));
            lemma_front_has(&layout, blocks, remove@, near@, key);
        }
    }
    plan_kept(&mut layout, &full, &hit, Ghost(all), Ghost(remove@));
    proof {
        lemma_positions(&layout, front_blocks(blocks, remove@, near@));
    }
    Ok(Front { remove, affected: hit, layout, removed_dof })
}

} // verus!
