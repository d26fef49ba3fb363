//! What holds across several operations of a graph.
use crate::access::{around, FactorAccess, PoolAccess, StateAccess, StateStore};
use crate::algebra::{
    lemma_negate_order, lemma_order, lemma_plus, lemma_quotient_order, lemma_times,
    lemma_times_order, lemma_times_zero, ordered_at, ordered_field,
};
use crate::backend::{max_magnitude, DampedLeastSquaresBackend, LeastSquaresBackend};
use crate::elimination::PivotedQr;
use crate::error::{KeyError, SolverError};
use crate::factor_store::FactorStore;
use crate::factors::Factor;
use crate::families::{plan_run, FactorSchema, Incidence, Planned};
use crate::front::{all_incidence, listed, touches, Front};
use crate::gauss_newton;
use crate::gauss_newton::{
    cost_before, cost_converged, estimates_before, finished, goes_on, going, GaussNewton, Round,
};
use crate::kernels::Triangular;
use crate::key::{BlockId, FactorId, FactorKey, RawKey, StateKey};
use crate::layout::Layout;
use crate::levenberg_marquardt;
use crate::levenberg_marquardt::{lm_finished, opening_state, LevenbergMarquardt, LmRound};
use crate::marginalization::{
    marginalized, ran, unchanged, MarginalizationOptions, MarginalizationReport,
};
use crate::optimization::{
    lemma_total_stable, model_spec, opened_spec, total_spec, unplanned, OptimizeOptions,
    OptimizeReport, TerminationReason,
};
use crate::priors::Priors;
use crate::problem::{factor_added, factor_removed, live, state_added, state_set, Problem};
use crate::scalar::Real;
use crate::states::{positions, width_sum, StateSchema};
use crate::storage::{checked_cost_spec, FactorPool, StatePool};
use crate::variable::Variable;
use vstd::prelude::*;

verus! {

/// A stored variable reads back as it was stored, and every handle that was live before reads
/// as before.
pub proof fn lemma_added_reads_back<
    S: StateSchema,
    F: FactorSchema<S, Scalar = S::Scalar>,
    Q: PivotedQr<S::Scalar>,
    K: Triangular<S::Scalar>,
    T: Variable,
    I,
>(
    before: Problem<S, F, Q, K>,
    after: Problem<S, F, Q, K>,
    value: T,
    key: StateKey<T>,
    other: StateKey<T>,
) where S: StateAccess<T, I>
    requires
        before.wf(),
        after.wf(),
        state_added::<S, F, Q, K, T, I>(before, after, value, key),
    ensures
        StateStore::<T, I>::get_spec(&after.states, key) == Ok::<T, KeyError>(value),
        StateStore::<T, I>::get_spec(&before.states, other) is Ok ==> StateStore::<T, I>::get_spec(
            &after.states,
            other,
        ) == StateStore::<T, I>::get_spec(&before.states, other),
{
    StateAccess::<T, I>::lemma_family(&before.states);
    StateAccess::<T, I>::lemma_family(&after.states);
    let was = PoolAccess::<StatePool<T>, I>::pool_spec(&before.states);
    let now = PoolAccess::<StatePool<T>, I>::pool_spec(&after.states);
    let last = was.entries.keys@.len() as int;
    assert(now.entries.keys@[last] == key.raw.local);
    now.entries.lemma_live_position(key.raw.local, last);
    if was.entries.lookup(other.raw) is Ok {
        let index = was.entries.keys@.index_of(other.raw.local);
        assert(was.entries.keys@[index] == other.raw.local);
        assert(now.entries.keys@[index] == other.raw.local);
        now.entries.lemma_live_position(other.raw.local, index);
    }
}

/// A replaced estimate reads back as it was set, and every other handle reads as before; a
/// refused replacement changes no estimate.
pub proof fn lemma_set_reads_back<
    S: StateSchema,
    F: FactorSchema<S, Scalar = S::Scalar>,
    Q: PivotedQr<S::Scalar>,
    K: Triangular<S::Scalar>,
    T: Variable,
    I,
>(
    before: Problem<S, F, Q, K>,
    after: Problem<S, F, Q, K>,
    key: StateKey<T>,
    value: T,
    set: Result<(), KeyError>,
    other: StateKey<T>,
) where S: StateAccess<T, I>
    requires
        before.wf(),
        after.wf(),
        state_set::<S, F, Q, K, T, I>(before, after, key, value, set),
    ensures
        set is Ok ==> StateStore::<T, I>::get_spec(&after.states, key) == Ok::<T, KeyError>(value),
        set is Err || other.raw != key.raw ==> StateStore::<T, I>::get_spec(&after.states, other)
            == StateStore::<T, I>::get_spec(&before.states, other),
{
    StateAccess::<T, I>::lemma_family(&before.states);
    StateAccess::<T, I>::lemma_family(&after.states);
}

/// Handles of another graph are recognized as such.
pub proof fn lemma_foreign_handles<S: StateSchema, T: Variable, I>(states: S, key: StateKey<T>) where
    S: StateAccess<T, I>,

    requires
        key.raw.pool != PoolAccess::<StatePool<T>, I>::pool_spec(&states).entries.id,
    ensures
        StateStore::<T, I>::get_spec(&states, key) == Err::<T, KeyError>(KeyError::ForeignSolver),
{
}

/// The handle of a removed factor is stale, and every other handle, that of a batch among them,
/// means what it meant.
pub proof fn lemma_removed_is_stale<
    S: StateSchema,
    F: FactorSchema<S, Scalar = S::Scalar>,
    Q: PivotedQr<S::Scalar>,
    K: Triangular<S::Scalar>,
    P,
    I,
>(
    before: Problem<S, F, Q, K>,
    after: Problem<S, F, Q, K>,
    factor: FactorKey<P>,
    removed: Result<(), SolverError>,
    other: FactorId,
) where F: FactorStore<S, P, I>
    requires
        factor_removed::<S, F, Q, K, P, I>(before, after, factor, removed),
        removed is Ok,
    ensures
        after.factors.resolve_spec(FactorId { raw: factor.raw }) == Some(
            Err::<(), KeyError>(KeyError::Stale),
        ),
        other.raw != factor.raw ==> after.factors.resolve_spec(other)
            == before.factors.resolve_spec(other),
        after.factors.keeps(&before.factors),
        after.factors.same_batches(&before.factors),
        after.states == before.states,
{
}

/// A marginalization that fails, or is asked for nothing, changes neither estimates nor factors
/// nor priors.
pub proof fn lemma_failed_marginalization<
    S: StateSchema,
    F: FactorSchema<S, Scalar = S::Scalar>,
    Q: PivotedQr<S::Scalar>,
>(
    kernel: Q,
    states: S,
    factors: F,
    priors: Priors<S::Scalar>,
    ids: Seq<BlockId>,
    options: MarginalizationOptions<S::Scalar>,
    outcome: Result<MarginalizationReport, SolverError>,
    after_states: S,
    after_factors: F,
    after_priors: Priors<S::Scalar>,
)
    requires
        ran(
            kernel,
            states,
            factors,
            priors,
            ids,
            options,
            outcome,
            after_states,
            after_factors,
            after_priors,
        ),
        outcome is Err || ids.len() == 0,
    ensures
        unchanged(states, factors, priors, after_states, after_factors, after_priors),
{
}

/// After a marginalization, the handles of the removed variables and of every factor over one of
/// them are stale. All other variables keep their handles and estimates, all other factors keep
/// their handles and payloads, and all batches keep their handles and models.
pub proof fn lemma_marginalized_is_stale<
    S: StateSchema,
    F: FactorSchema<S, Scalar = S::Scalar>,
    Q: PivotedQr<S::Scalar>,
>(
    kernel: Q,
    states: S,
    factors: F,
    priors: Priors<S::Scalar>,
    ids: Seq<BlockId>,
    options: MarginalizationOptions<S::Scalar>,
    outcome: Result<MarginalizationReport, SolverError>,
    after_states: S,
    after_factors: F,
    after_priors: Priors<S::Scalar>,
    id: BlockId,
    i: int,
)
    requires
        factors.wf(),
        ran(
            kernel,
            states,
            factors,
            priors,
            ids,
            options,
            outcome,
            after_states,
            after_factors,
            after_priors,
        ),
        outcome is Ok,
        ids.len() > 0,
        live(states, id),
        0 <= i < factors.incidence().len(),
    ensures
        after_states.keeps_estimates(&states),
        after_factors.keeps(&factors),
        after_factors.same_batches(&factors),
        ids.contains(id) ==> after_states.resolve_spec(id) == Some(
            Err::<(), KeyError>(KeyError::Stale),
        ),
        !ids.contains(id) ==> live(after_states, id),
        ({
            let factor = factors.incidence()[i];
            if touches(factor, listed(ids)) {
                after_factors.resolve_spec(factor.id) == Some(
                    Err::<(), KeyError>(KeyError::Stale),
                )
            } else {
                after_factors.incidence().contains(factor)
            }
        }),
{
    let front = choose|front: Front| #[trigger]
        marginalized(
            kernel,
            states,
            factors,
            priors,
            ids,
            options.relative_rank_tolerance,
            front,
            outcome,
            after_states,
            after_factors,
            after_priors,
        );
    let all = all_incidence::<S, F>(factors, priors);
    let factor = factors.incidence()[i];
    assert(all[i] == factor);
    factors.lemma_incidence();
    lemma_planned_distinct(
        positions(states.blocks()),
        unplanned(),
        all,
        all.len() as int,
    );
    if !touches(factor, listed(ids)) && front.affected@.contains(factor.id.raw) {
        let k = choose|k: int|
            0 <= k < all.len() && (#[trigger] all[k]).id.raw == factor.id.raw && touches(
                all[k],
                listed(ids),
            );
        assert(all[k].id.raw != all[i].id.raw);
    }
}

/// Factors that can be planned together are distinct.
proof fn lemma_planned_distinct(
    blocks: Map<RawKey, usize>,
    planned: Planned,
    incidence: Seq<Incidence>,
    n: int,
)
    requires
        0 <= n <= incidence.len(),
        plan_run(blocks, planned, incidence, n) is Some,
    ensures
        forall|k: int|
            0 <= k < n ==> plan_run(blocks, planned, incidence, n)->0.index.contains_key(
                (#[trigger] incidence[k]).id.raw,
            ),
        forall|j: int, k: int|
            0 <= j < n && 0 <= k < n && j != k ==> (#[trigger] incidence[j]).id.raw != (
            #[trigger] incidence[k]).id.raw,
    decreases n,
{
    if n > 0 {
        lemma_planned_distinct(blocks, planned, incidence, n - 1);
    }
}

/// The gradient of the objective, linearized at some estimates of a graph, is within a tolerance.
pub open spec fn stationary<
    S: StateSchema,
    F: FactorSchema<S, Scalar = S::Scalar>,
    B: LeastSquaresBackend<Scalar = S::Scalar>,
>(
    shape: B::Shape,
    layout: &Layout,
    states: S,
    factors: F,
    priors: Priors<S::Scalar>,
    tolerance: S::Scalar,
) -> bool {
    &&& model_spec::<S, F, B>(shape, layout, states, factors, priors) matches Ok(model)
    &&& B::gradient_norm_spec(model) matches Ok(gradient)
    &&& gradient.at_most_spec(tolerance)
}

/// On a graph with variables, Levenberg-Marquardt succeeds only at estimates whose gradient it
/// has found to be within the tolerance.
pub proof fn lemma_damped_success_is_stationary<
    S: StateSchema,
    F: FactorSchema<S, Scalar = S::Scalar>,
    B: DampedLeastSquaresBackend<Scalar = S::Scalar>,
>(
    before: LevenbergMarquardt<B>,
    after: LevenbergMarquardt<B>,
    states: S,
    factors: F,
    priors: Priors<S::Scalar>,
    options: OptimizeOptions<S::Scalar>,
    outcome: Result<OptimizeReport<S::Scalar>, SolverError>,
    accepted: S::Estimates,
) -> (reached: (S, Priors<S::Scalar>))
    requires
        levenberg_marquardt::optimized(
            before,
            after,
            states,
            factors,
            priors,
            options,
            outcome,
            accepted,
        ),
        outcome is Ok,
        width_sum(states.blocks()) > 0,
    ensures
        outcome->Ok_0.termination == TerminationReason::GradientTolerance,
        reached.0.same_graph(&states),
        reached.0.accepted() == accepted,
        reached.0.current() == accepted,
        reached.1.same_priors(&priors),
        stationary::<S, F, B>(
            before.work.backend.shape(),
            &after.work.layout,
            reached.0,
            factors,
            reached.1,
            options.gradient_tolerance,
        ),
{
    let initial = opened_spec(before.work.backend, states, factors, priors)->Ok_0;
    let state = opening_state(before.options, initial, priors.constant);
    let (rounds, last) = choose|rounds: Seq<LmRound<S, B>>, last: LmRound<S, B>| #[trigger]
        lm_finished::<S, F, B>(
            before.work.backend.shape(),
            &after.work.layout,
            options,
            before.options,
            states,
            factors,
            priors,
            state,
            rounds,
            last,
            outcome,
            after.statistics,
            after.progress@,
            accepted,
        );
    (last.states, last.priors)
}

/// On a graph with variables, Gauss-Newton succeeds only for one of its criteria: the gradient at
/// the accepted estimates is within its tolerance, or a step was, or the last step led to a cost
/// of zero, or to one that did not rise and fell by little relative to what it was. The report
/// gives the objective at the first and at the accepted estimates.
pub proof fn lemma_success_meets_a_criterion<
    S: StateSchema,
    F: FactorSchema<S, Scalar = S::Scalar>,
    B: LeastSquaresBackend<Scalar = S::Scalar>,
>(
    before: GaussNewton<B>,
    after: GaussNewton<B>,
    states: S,
    factors: F,
    priors: Priors<S::Scalar>,
    options: OptimizeOptions<S::Scalar>,
    outcome: Result<OptimizeReport<S::Scalar>, SolverError>,
    accepted: S::Estimates,
) -> (reached: (Round<S, B>, S::Scalar))
    requires
        gauss_newton::optimized(
            before,
            after,
            states,
            factors,
            priors,
            options,
            outcome,
            accepted,
        ),
        outcome is Ok,
        width_sum(states.blocks()) > 0,
    ensures
        total_spec(states, factors, priors) matches Ok(first) && outcome->Ok_0.initial_cost
            == first.plus_spec(priors.constant),
        priors.wf() && states.idle() ==> total_spec(
            reached.0.states,
            factors,
            reached.0.priors,
        ) == Ok::<S::Scalar, SolverError>(reached.1),
        reached.0.states.same_graph(&states),
        reached.0.priors.same_priors(&priors),
        match outcome->Ok_0.termination {
            TerminationReason::NoVariables => false,
            TerminationReason::GradientTolerance => {
                &&& reached.0.states.accepted() == accepted
                &&& stationary::<S, F, B>(
                    before.work.backend.shape(),
                    &after.work.layout,
                    reached.0.states,
                    factors,
                    reached.0.priors,
                    options.gradient_tolerance,
                )
            },
            TerminationReason::StepTolerance => {
                &&& reached.0.states.accepted() == accepted
                &&& reached.0.answer matches Ok(delta)
                &&& max_magnitude(delta, delta.len() as int).at_most_spec(options.step_tolerance)
            },
            TerminationReason::CostTolerance => {
                &&& reached.0.trial.current() == accepted
                &&& total_spec(reached.0.trial, factors, reached.0.priors) matches Ok(cost)
                &&& outcome->Ok_0.final_cost == cost.plus_spec(priors.constant)
                &&& cost_converged(reached.1, cost, options.cost_tolerance)
                &&& cost.same_spec(<S::Scalar as Real>::zero_spec()) || (
                <S::Scalar as Real>::zero_spec().at_most_spec(reached.1.minus_spec(cost))
                    && reached.1.minus_spec(cost).over_spec(
                    reached.1.max_spec(<S::Scalar as Real>::one_spec()),
                ).at_most_spec(options.cost_tolerance))
            },
        },
        !(outcome->Ok_0.termination is CostTolerance) ==> outcome->Ok_0.final_cost
            == reached.1.plus_spec(priors.constant),
{
    let initial = opened_spec(before.work.backend, states, factors, priors)->Ok_0;
    let (rounds, last) = choose|rounds: Seq<Round<S, B>>, last: Round<S, B>| #[trigger]
        finished::<S, F, B>(
            before.work.backend.shape(),
            &after.work.layout,
            options,
            states,
            factors,
            priors,
            initial,
            rounds,
            last,
            outcome,
            accepted,
        );
    let n = rounds.len() as int;
    if n == 0 {
        if priors.wf() && states.idle() {
            states.lemma_idle();
            lemma_total_stable(last.states, states, factors, last.priors, priors);
        }
    } else {
        assert(goes_on::<S, F, B>(
            before.work.backend.shape(),
            &after.work.layout,
            options,
            states,
            factors,
            priors,
            initial,
            rounds,
            n - 1,
        ));
        let previous = rounds[n - 1];
        S::lemma_same_graph(&previous.trial, &states, &states);
        S::lemma_same_graph(&last.states, &states, &previous.trial);
        lemma_total_stable(last.states, previous.trial, factors, last.priors, previous.priors);
    }
    (last, cost_before(initial, factors, rounds, n))
}

/// A cost that rose is no convergence, unless it is zero; and one that is within a tolerance is
/// within any larger one. Stated over an ordered field.
pub proof fn lemma_rise_is_no_convergence<R: Real>(before: R, after: R, tolerance: R, larger: R)
    requires
        ordered_field::<R>(),
    ensures
        before.below_spec(after) && after != R::zero_spec() ==> !cost_converged(
            before,
            after,
            tolerance,
        ),
        after == R::zero_spec() ==> cost_converged(before, after, tolerance),
        before == after && R::zero_spec().at_most_spec(tolerance) ==> cost_converged(
            before,
            after,
            tolerance,
        ),
        after.at_most_spec(before) && R::one_spec().at_most_spec(before) ==> (cost_converged(
            before,
            after,
            tolerance,
        ) <==> after == R::zero_spec() || before.minus_spec(after).at_most_spec(
            tolerance.times_spec(before),
        )),
        after.at_most_spec(before) && before.at_most_spec(R::one_spec()) ==> (cost_converged(
            before,
            after,
            tolerance,
        ) <==> after == R::zero_spec() || before.minus_spec(after).at_most_spec(tolerance)),
        cost_converged(before, after, tolerance) && tolerance.at_most_spec(larger)
            ==> cost_converged(before, after, larger),
{
    let zero = R::zero_spec();
    let one = R::one_spec();
    let decrease = before.minus_spec(after);
    let scale = before.max_spec(one);
    lemma_negate_order(after, before);
    lemma_order(before, after, zero);
    lemma_order(after, before, zero);
    assert(ordered_at(after, zero, zero));
    lemma_plus(before, before, before);
    lemma_order(zero, one, scale);
    lemma_order(before, one, zero);
    lemma_order(one, before, zero);
    lemma_order(one, one, zero);
    lemma_order(zero, zero, zero);
    lemma_quotient_order(decrease, scale, tolerance);
    lemma_order(decrease.over_spec(scale), tolerance, larger);
    lemma_times(tolerance, one, one);
    lemma_times_zero(scale);
    if zero.at_most_spec(tolerance) {
        lemma_times_order(zero, scale, tolerance);
    }
    lemma_times(tolerance, scale, one);
    lemma_times_zero(tolerance);
}


/// The cost behind the handle of an added factor is the cost of that factor, once that is known
/// to be finite and nonnegative.
pub proof fn lemma_added_factor_costs<
    S: StateSchema,
    F: FactorSchema<S, Scalar = S::Scalar>,
    Q: PivotedQr<S::Scalar>,
    K: Triangular<S::Scalar>,
    T: Factor<S, Scalar = S::Scalar>,
    I,
>(
    before: Problem<S, F, Q, K>,
    after: Problem<S, F, Q, K>,
    factor: T,
    added: Result<FactorKey<T>, SolverError>,
    reading: S::Reading,
) where F: FactorAccess<S, FactorPool<T>, I>
    requires
        before.wf(),
        after.wf(),
        factor_added::<S, F, Q, K, T, I>(before, after, factor, added),
        added is Ok,
    ensures
        PoolAccess::<FactorPool<T>, I>::pool_spec(&after.factors).factor_cost_spec::<S>(
            reading,
            added->Ok_0,
        ) == checked_cost_spec(factor.cost_spec(reading)),
{
    FactorAccess::<S, FactorPool<T>, I>::lemma_part(&before.factors);
    FactorAccess::<S, FactorPool<T>, I>::lemma_part(&after.factors);
    let was = PoolAccess::<FactorPool<T>, I>::pool_spec(&before.factors);
    let now = PoolAccess::<FactorPool<T>, I>::pool_spec(&after.factors);
    let last = was.factors().len() as int;
    assert(now.wf());
    assert(now.factors().len() == last + 1);
    assert(now.factors()[last] == (FactorId { raw: added->Ok_0.raw }, factor));
    assert(now.entries.keys@[last] == added->Ok_0.raw.local);
    now.entries.lemma_live_position(added->Ok_0.raw.local, last);
}

/// Where Gauss-Newton fails, the estimates are those that its last completed step has reached, or
/// those it began with.
pub proof fn lemma_failure_keeps_accepted<
    S: StateSchema,
    F: FactorSchema<S, Scalar = S::Scalar>,
    B: LeastSquaresBackend<Scalar = S::Scalar>,
>(
    before: GaussNewton<B>,
    after: GaussNewton<B>,
    states: S,
    factors: F,
    priors: Priors<S::Scalar>,
    options: OptimizeOptions<S::Scalar>,
    outcome: Result<OptimizeReport<S::Scalar>, SolverError>,
    accepted: S::Estimates,
) -> (rounds: Seq<Round<S, B>>)
    requires
        gauss_newton::optimized(
            before,
            after,
            states,
            factors,
            priors,
            options,
            outcome,
            accepted,
        ),
        outcome is Err,
    ensures
        accepted == estimates_before(states, rounds, rounds.len() as int),
        rounds.len() > 0 ==> going::<S, F, B>(
            before.work.backend.shape(),
            &after.work.layout,
            options,
            states,
            factors,
            priors,
            opened_spec(before.work.backend, states, factors, priors)->Ok_0,
            rounds,
        ),
{
    if accepted == states.accepted() {
        Seq::empty()
    } else {
        let initial = opened_spec(before.work.backend, states, factors, priors)->Ok_0;
        let (rounds, last) = choose|rounds: Seq<Round<S, B>>, last: Round<S, B>| #[trigger]
            finished::<S, F, B>(
                before.work.backend.shape(),
                &after.work.layout,
                options,
                states,
                factors,
                priors,
                initial,
                rounds,
                last,
                outcome,
                accepted,
            );
        rounds
    }
}

/// A factor that a marginalization leaves costs what it did, whatever the estimates.
pub proof fn lemma_survivor_costs_the_same<
    S: StateSchema,
    F: FactorSchema<S, Scalar = S::Scalar>,
    Q: PivotedQr<S::Scalar>,
    P,
    I,
>(
    kernel: Q,
    states: S,
    factors: F,
    priors: Priors<S::Scalar>,
    ids: Seq<BlockId>,
    options: MarginalizationOptions<S::Scalar>,
    outcome: Result<MarginalizationReport, SolverError>,
    after_states: S,
    after_factors: F,
    after_priors: Priors<S::Scalar>,
    reading: S::Reading,
    key: FactorKey<P>,
) where F: FactorStore<S, P, I>
    requires
        factors.wf(),
        after_factors.wf(),
        ran(
            kernel,
            states,
            factors,
            priors,
            ids,
            options,
            outcome,
            after_states,
            after_factors,
            after_priors,
        ),
        after_factors.stores(key) is Ok,
    ensures
        factors.stores(key) is Ok,
        after_factors.factor_cost_spec(reading, key) == factors.factor_cost_spec(reading, key),
{
    if unchanged(states, factors, priors, after_states, after_factors, after_priors) {
        after_factors.lemma_same_factors(&factors);
    }
    after_factors.lemma_kept_cost(&factors, reading, key);
}

/// Removing a factor that was just added leaves the factors that were there before, at the
/// costs they had.
pub proof fn lemma_removal_undoes_addition<
    S: StateSchema,
    F: FactorSchema<S, Scalar = S::Scalar>,
    Q: PivotedQr<S::Scalar>,
    K: Triangular<S::Scalar>,
    T: Factor<S, Scalar = S::Scalar>,
    I,
    P,
    J,
>(
    before: Problem<S, F, Q, K>,
    middle: Problem<S, F, Q, K>,
    after: Problem<S, F, Q, K>,
    factor: T,
    added: Result<FactorKey<T>, SolverError>,
    removed: Result<(), SolverError>,
    listed: Incidence,
    reading: S::Reading,
    other: FactorKey<P>,
) where F: FactorAccess<S, FactorPool<T>, I> + FactorStore<S, T, I> + FactorStore<S, P, J>
    requires
        before.wf(),
        middle.wf(),
        after.wf(),
        factor_added::<S, F, Q, K, T, I>(before, middle, factor, added),
        added is Ok,
        factor_removed::<S, F, Q, K, T, I>(middle, after, added->Ok_0, removed),
        removed is Ok,
    ensures
        after.states == before.states,
        after.priors == before.priors,
        before.factors.incidence().contains(listed) <==> after.factors.incidence().contains(
            listed,
        ),
        FactorStore::<S, P, J>::stores(&before.factors, other) is Ok && FactorStore::<
            S,
            P,
            J,
        >::stores(&after.factors, other) is Ok ==> FactorStore::<S, P, J>::factor_cost_spec(
            &after.factors,
            reading,
            other,
        ) == FactorStore::<S, P, J>::factor_cost_spec(&before.factors, reading, other),
{
    if FactorStore::<S, P, J>::stores(&before.factors, other) is Ok && FactorStore::<
        S,
        P,
        J,
    >::stores(&after.factors, other) is Ok {
        FactorStore::<S, P, J>::lemma_kept_cost(&before.factors, &middle.factors, reading, other);
        FactorStore::<S, P, J>::lemma_kept_cost(&after.factors, &middle.factors, reading, other);
    }
    let id = FactorId { raw: added->Ok_0.raw };
    let was = PoolAccess::<FactorPool<T>, I>::pool_spec(&before.factors);
    let now = PoolAccess::<FactorPool<T>, I>::pool_spec(&middle.factors);
    FactorAccess::<S, FactorPool<T>, I>::lemma_part(&before.factors);
    before.factors.lemma_incidence();
    let old_part = FactorSchema::<S>::incidence(&was);
    let new_part = FactorSchema::<S>::incidence(&now);
    let (head, tail) = choose|head: Seq<Incidence>, tail: Seq<Incidence>|
        around(
            before.factors.incidence(),
            old_part,
            middle.factors.incidence(),
            new_part,
            head,
            tail,
        );
    assert(now.factors().len() == was.factors().len() + 1);
    assert(old_part.len() == was.factors().len() && new_part.len() == now.factors().len());
    assert forall|k: int| 0 <= k < old_part.len() implies old_part[k] == new_part[k] by {
        assert(was.factors()[k] == now.factors()[k]);
    }
    assert(new_part[old_part.len() as int].id == id) by {
        assert(now.factors()[old_part.len() as int].0 == id);
    }
    let all = before.factors.incidence();
    let full = middle.factors.incidence();
    if all.contains(listed) {
        let k = all.index_of(listed);
        assert(all[k] == listed);
        assert(listed.id != id) by {
            if listed.id == id {
                was.entries.lemma_resident(id.raw.local);
            }
        }
        let at = if k < head.len() + old_part.len() {
            k
        } else {
            k + 1
        };
        assert(full[at] == listed);
    }
    if after.factors.incidence().contains(listed) {
        let k = after.factors.incidence().index_of(listed);
        assert(after.factors.incidence()[k] == listed);
        let at = full.index_of(listed);
        assert(full[at] == listed);
        if at < head.len() + old_part.len() {
            assert(all[at] == listed);
        } else if at > head.len() + old_part.len() {
            assert(all[at - 1] == listed);
        }
    }
}

} // verus!
