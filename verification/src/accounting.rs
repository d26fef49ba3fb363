//! What the diagnostics of a Levenberg-Marquardt call account for, however it ended.
use crate::backend::{DampedLeastSquaresBackend, LeastSquaresBackend};
use crate::error::{EvaluationError, SolverError};
use crate::families::{cost_run, FactorSchema};
use crate::kernels::{Bidiagonalization, Clock, ConjugateGradient, Triangular};
use crate::layout::Layout;
use crate::levenberg_marquardt::{
    asked, checked_spec, lemma_retried_tally, lemma_round_tally, lemma_run_tally,
    lemma_trials_fit, lm_estimates, lm_finished, lm_follows, lm_run, opening_state, optimized,
    retried, round_spec, tallied, Attempt, LevenbergMarquardt, LmOptions, LmRound, LmState,
    LmVerdict,
};
use crate::lsmr::Lsmr;
use crate::optimization::{model_spec, opened_spec, total_spec, OptimizeOptions, OptimizeReport};
use crate::priors::{PriorView, Priors};
use crate::scalar::Real;
use crate::schur::Schur;
use crate::states::{width_sum, AnchorView, StateSchema};
use vstd::prelude::*;

verus! {

/// The method gave up: its limit of steps or of attempts was reached, or it stalled.
pub open spec fn gives_up(error: SolverError) -> bool {
    error is NoProgress || error is NoConvergence
}

/// A backend that leaves giving up to the method: its own errors are others.
pub open spec fn defers<B: DampedLeastSquaresBackend>() -> bool {
    &&& forall|backend: B, dimension: nat| #[trigger]
        backend.prepare_spec(dimension) matches Err(error) ==> !gives_up(error)
    &&& forall|model: B::Model| #[trigger]
        B::gradient_norm_spec(model) matches Err(error) ==> !gives_up(error)
    &&& forall|before: B, after: B, floor: B::Scalar, prepared: Result<(), SolverError>|
        #[trigger] B::scaled(before, after, floor, prepared) ==> (prepared matches Err(error)
            ==> !gives_up(error))
    &&& forall|
        before: B,
        after: B,
        lambda: B::Scalar,
        step: Result<(Seq<B::Scalar>, B::Scalar), SolverError>,
    | #[trigger]
        B::answers_damped(before, after, lambda, step) ==> (step matches Err(error) ==> !gives_up(
            error,
        ))
}

/// The sparse iterative backend leaves giving up to the method.
pub proof fn lemma_lsmr_defers<R: Real, K: Triangular<R> + Bidiagonalization<R> + Clock>()
    ensures
        defers::<Lsmr<R, K>>(),
{
}

/// The eliminating backend leaves giving up to the method.
pub proof fn lemma_schur_defers<R: Real, K: Triangular<R> + ConjugateGradient<R> + Clock>()
    ensures
        defers::<Schur<R, K>>(),
{
}

/// A damping with which a linearization may begin: the initial one, or one held to both bounds.
pub open spec fn begins<R: Real>(controls: LmOptions<R>, lambda: R) -> bool {
    ||| lambda == controls.initial_damping
    ||| exists|x: R|
        lambda == (#[trigger] x.max_spec(controls.min_damping)).min_spec(controls.max_damping)
}

/// The damping after `n` rejections in a row, and the factor by which the next one grows it.
pub open spec fn grown<R: Real>(controls: LmOptions<R>, lambda: R, n: int) -> (R, R)
    decreases n,
{
    if n <= 0 {
        (lambda, R::ratio_spec(2, 1))
    } else {
        let (before, growth) = grown(controls, lambda, n - 1);
        (
            before.times_spec(growth).min_spec(controls.max_damping),
            growth.times_spec(R::ratio_spec(2, 1)).min_spec(
                controls.max_damping.max_spec(R::ratio_spec(2, 1)),
            ),
        )
    }
}

/// A damping that a call may use: one with which a linearization begins, grown after each of
/// some rejections, at most to the upper bound.
pub open spec fn usable<R: Real>(controls: LmOptions<R>, lambda: R) -> bool {
    exists|begun: R, n: int|
        0 <= n && begins(controls, begun) && lambda == (#[trigger] grown(controls, begun, n)).0
}

/// A damping between its bounds.
pub open spec fn within<R: Real>(controls: LmOptions<R>, lambda: R) -> bool {
    !lambda.below_spec(controls.min_damping) && !controls.max_damping.below_spec(lambda)
}

/// What scalars must have of an order for the bounds to bound: a value held to both lies
/// between them, doubling and capping a factor of at least two leaves such a factor, and such a
/// factor grows a bounded value to a bounded one.
pub open spec fn bounding<R: Real>(controls: LmOptions<R>) -> bool {
    let two = R::ratio_spec(2, 1);
    &&& !two.below_spec(two)
    &&& forall|x: R|
        within(
            controls,
            (#[trigger] x.max_spec(controls.min_damping)).min_spec(controls.max_damping),
        )
    &&& forall|growth: R|
        !growth.below_spec(two) ==> !(#[trigger] growth.times_spec(two)).min_spec(
            controls.max_damping.max_spec(two),
        ).below_spec(two)
    &&& forall|x: R, growth: R|
        within(controls, x) && !growth.below_spec(two) ==> within(
            controls,
            (#[trigger] x.times_spec(growth)).min_spec(controls.max_damping),
        )
}

/// Where the bounds bound, every damping that a call may use lies between them.
pub proof fn lemma_usable_within<R: Real>(controls: LmOptions<R>, lambda: R)
    requires
        controls.valid(),
        bounding(controls),
        usable(controls, lambda),
    ensures
        within(controls, lambda),
{
    let (begun, n) = choose|begun: R, n: int|
        0 <= n && begins(controls, begun) && lambda == (#[trigger] grown(controls, begun, n)).0;
    lemma_grown_within(controls, begun, n);
}

proof fn lemma_grown_within<R: Real>(controls: LmOptions<R>, begun: R, n: int)
    requires
        controls.valid(),
        bounding(controls),
        begins(controls, begun),
    ensures
        within(controls, grown(controls, begun, n).0),
        !grown(controls, begun, n).1.below_spec(R::ratio_spec(2, 1)),
    decreases n,
{
    if n > 0 {
        lemma_grown_within(controls, begun, n - 1);
    }
}

proof fn lemma_moved_errors<R: Real>(
    priors: &Priors<R>,
    views: Seq<PriorView<R>>,
    deltas: Seq<AnchorView<R>>,
    derivatives: bool,
    n: int,
)
    ensures
        priors.moved_views(views, deltas, derivatives, n) matches Err(error) ==> error is Key
            || error is Evaluation,
    decreases n,
{
    if n > 0 {
        lemma_moved_errors(priors, views, deltas, derivatives, n - 1);
    }
}

proof fn lemma_cost_errors<R: Real>(
    total: R,
    terms: Seq<Result<R, EvaluationError>>,
    n: int,
)
    ensures
        cost_run(total, terms, n) matches Err(error) ==> error is Evaluation,
    decreases n,
{
    if n > 0 {
        lemma_cost_errors(total, terms, n - 1);
    }
}

/// The objective fails by a handle or an evaluation only.
proof fn lemma_total_errors<S: StateSchema, F: FactorSchema<S, Scalar = S::Scalar>>(
    states: S,
    factors: F,
    priors: Priors<S::Scalar>,
)
    ensures
        total_spec(states, factors, priors) matches Err(error) ==> error is Key
            || error is Evaluation,
{
    let terms = factors.cost_terms(states.reading());
    lemma_cost_errors(<S::Scalar as Real>::zero_spec(), terms, terms.len() as int);
    states.lemma_delta_errors(None, false);
    if let Ok(deltas) = states.deltas_spec(None, false) {
        lemma_moved_errors(
            &priors,
            priors.reset_views(None),
            deltas,
            false,
            deltas.len() as int,
        );
    }
}

/// A linearization fails by a handle or an evaluation only.
proof fn lemma_model_errors<
    S: StateSchema,
    F: FactorSchema<S, Scalar = S::Scalar>,
    B: LeastSquaresBackend<Scalar = S::Scalar>,
>(shape: B::Shape, layout: &Layout, states: S, factors: F, priors: Priors<S::Scalar>)
    ensures
        model_spec::<S, F, B>(shape, layout, states, factors, priors) matches Err(error) ==> error
            is Key || error is Evaluation,
{
    states.lemma_delta_errors(None, true);
    if let Ok(deltas) = states.deltas_spec(None, true) {
        lemma_moved_errors(
            &priors,
            priors.reset_views(None),
            deltas,
            true,
            deltas.len() as int,
        );
    }
}

proof fn lemma_retried_damping<S: StateSchema, F: FactorSchema<S, Scalar = S::Scalar>, B>(
    dimension: nat,
    options: OptimizeOptions<S::Scalar>,
    controls: LmOptions<S::Scalar>,
    factors: F,
    priors: Priors<S::Scalar>,
    state: LmState<S::Scalar>,
    attempts: Seq<Attempt<S, B>>,
    n: int,
)
    requires
        0 <= n,
    ensures
        retried(dimension, options, controls, factors, priors, state, attempts, n) matches Some(
            (after, growth),
        ) ==> {
            &&& (after.lambda, growth) == grown(controls, state.lambda, n)
            &&& after.current == state.current
            &&& after.statistics.cost == state.statistics.cost
        },
    decreases n,
{
    if n > 0 {
        lemma_retried_damping(
            dimension,
            options,
            controls,
            factors,
            priors,
            state,
            attempts,
            n - 1,
        );
    }
}

/// The diagnostics between two rounds: a usable damping, the one to begin with next, and the
/// objective at the accepted estimates.
pub open spec fn accounted<R: Real>(
    controls: LmOptions<R>,
    constant: R,
    state: LmState<R>,
) -> bool {
    &&& begins(controls, state.lambda)
    &&& usable(controls, state.statistics.damping)
    &&& state.statistics.cost == Some(state.current.plus_spec(constant))
}

/// What a round leaves of that, and what it means that the method gives up in it.
proof fn lemma_round_accounts<
    S: StateSchema,
    F: FactorSchema<S, Scalar = S::Scalar>,
    B: DampedLeastSquaresBackend<Scalar = S::Scalar>,
>(
    shape: B::Shape,
    layout: &Layout,
    options: OptimizeOptions<S::Scalar>,
    controls: LmOptions<S::Scalar>,
    states: S,
    factors: F,
    priors: Priors<S::Scalar>,
    estimates: S::Estimates,
    state: LmState<S::Scalar>,
    round: LmRound<S, B>,
)
    requires
        accounted(controls, priors.constant, state),
        lm_follows::<S, F, B>(
            shape,
            layout,
            options,
            controls,
            states,
            factors,
            priors,
            estimates,
            state,
            round,
        ),
    ensures
        ({
            let (verdict, after) = round_spec::<S, F, B>(
                shape,
                layout,
                options,
                controls,
                factors,
                state,
                round,
            );
            &&& usable(controls, after.statistics.damping)
            &&& match verdict {
                LmVerdict::Accept => {
                    let trial = round.attempts.last().trial;
                    &&& accounted(controls, priors.constant, after)
                    &&& trial.same_graph(&states)
                    &&& total_spec(trial, factors, round.priors) == Ok::<S::Scalar, SolverError>(
                        after.current,
                    )
                },
                _ => after.statistics.cost == state.statistics.cost,
            }
            &&& defers::<B>() ==> (verdict matches LmVerdict::Fail(error) ==> {
                &&& gives_up(error) && tallied(state.statistics) && state.statistics.attempts
                    + controls.max_trials <= usize::MAX ==> tallied(after.statistics)
                &&& error is NoConvergence ==> after.statistics.accepted_steps
                    == options.max_iterations
            })
        }),
{
    lemma_model_errors::<S, F, B>(shape, layout, round.states, factors, round.priors);
    assert(grown(controls, state.lambda, 0).0 == state.lambda);
    if let Ok(begun) = checked_spec::<S, F, B>(shape, layout, options, factors, state, round) {
        let dimension = layout.dimension as nat;
        let n = round.attempts.len() as int;
        lemma_retried_damping(
            dimension,
            options,
            controls,
            factors,
            round.priors,
            begun,
            round.attempts,
            n - 1,
        );
        if tallied(begun.statistics) && begun.statistics.attempts + controls.max_trials
            <= usize::MAX {
            lemma_retried_tally(
                dimension,
                options,
                controls,
                factors,
                round.priors,
                begun,
                round.attempts,
                n - 1,
            );
        }
        assert(asked(
            dimension,
            options,
            controls,
            factors,
            round.priors,
            begun,
            round.scaled,
            round.attempts,
            n - 1,
        ));
        lemma_total_errors(round.attempts[n - 1].trial, factors, round.priors);
        if round.attempts[n - 1].trial.same_graph(&round.states) {
            S::lemma_same_graph(&round.attempts[n - 1].trial, &round.states, &states);
        }
    }
}

/// The accepted objective is that of the given graph at the given estimates.
pub open spec fn costs<S: StateSchema, F: FactorSchema<S, Scalar = S::Scalar>>(
    states: S,
    factors: F,
    priors: Priors<S::Scalar>,
    estimates: S::Estimates,
    cost: S::Scalar,
) -> bool {
    exists|x: S, p: Priors<S::Scalar>|
        {
            &&& x.same_graph(&states)
            &&& x.current() == estimates
            &&& p.same_priors(&priors)
            &&& #[trigger] total_spec(x, factors, p) == Ok::<S::Scalar, SolverError>(cost)
        }
}

proof fn lemma_run_accounts<
    S: StateSchema,
    F: FactorSchema<S, Scalar = S::Scalar>,
    B: DampedLeastSquaresBackend<Scalar = S::Scalar>,
>(
    shape: B::Shape,
    layout: &Layout,
    options: OptimizeOptions<S::Scalar>,
    controls: LmOptions<S::Scalar>,
    states: S,
    factors: F,
    priors: Priors<S::Scalar>,
    initial: LmState<S::Scalar>,
    rounds: Seq<LmRound<S, B>>,
    n: int,
)
    requires
        0 <= n,
        accounted(controls, priors.constant, initial),
        costs(states, factors, priors, states.accepted(), initial.current),
        lm_run::<S, F, B>(
            shape,
            layout,
            options,
            controls,
            states,
            factors,
            priors,
            initial,
            rounds,
            n,
        ) is Some,
    ensures
        ({
            let state = lm_run::<S, F, B>(
                shape,
                layout,
                options,
                controls,
                states,
                factors,
                priors,
                initial,
                rounds,
                n,
            )->Some_0;
            &&& accounted(controls, priors.constant, state)
            &&& costs(states, factors, priors, lm_estimates(states, rounds, n), state.current)
        }),
    decreases n,
{
    if n > 0 {
        let before = lm_run::<S, F, B>(
            shape,
            layout,
            options,
            controls,
            states,
            factors,
            priors,
            initial,
            rounds,
            n - 1,
        )->Some_0;
        lemma_run_accounts::<S, F, B>(
            shape,
            layout,
            options,
            controls,
            states,
            factors,
            priors,
            initial,
            rounds,
            n - 1,
        );
        lemma_round_accounts::<S, F, B>(
            shape,
            layout,
            options,
            controls,
            states,
            factors,
            priors,
            lm_estimates(states, rounds, n - 1),
            before,
            rounds[n - 1],
        );
        let trial = rounds[n - 1].attempts.last().trial;
        assert(total_spec(trial, factors, rounds[n - 1].priors) is Ok);
    }
}

/// What the diagnostics account for after a call on a graph with coordinates that succeeded or
/// gave up: each attempt was rejected or accepted, and there were no more than the limit per
/// linearization; the damping is one that the controls allow, between its bounds where these
/// bound; the accepted objective is that of the estimates reached, which are the first ones
/// unless a step was accepted; and the limit of steps was reached if the call says so. Stated
/// where the counters cannot wrap, of backends that leave giving up to the method.
pub proof fn lemma_call_accounts<
    S: StateSchema,
    F: FactorSchema<S, Scalar = S::Scalar>,
    B: DampedLeastSquaresBackend<Scalar = S::Scalar>,
>(
    before: LevenbergMarquardt<B>,
    after: LevenbergMarquardt<B>,
    states: S,
    factors: F,
    priors: Priors<S::Scalar>,
    options: OptimizeOptions<S::Scalar>,
    outcome: Result<OptimizeReport<S::Scalar>, SolverError>,
    accepted: S::Estimates,
)
    requires
        optimized(before, after, states, factors, priors, options, outcome, accepted),
        options.valid(),
        before.options.valid(),
        states.idle(),
        width_sum(states.blocks()) != 0,
        outcome matches Err(error) ==> gives_up(error),
        defers::<B>(),
        (options.max_iterations + 1) * before.options.max_trials <= usize::MAX,
    ensures
        ({
            let now = after.statistics;
            &&& tallied(now)
            &&& now.attempts <= now.linearizations * before.options.max_trials
            &&& usable(before.options, now.damping)
            &&& bounding(before.options) ==> within(before.options, now.damping)
            &&& exists|cost: S::Scalar|
                {
                    &&& #[trigger] costs(states, factors, priors, accepted, cost)
                    &&& now.cost == Some(cost.plus_spec(priors.constant))
                }
            &&& now.accepted_steps == 0 ==> accepted == states.accepted()
            &&& outcome == Err::<OptimizeReport<S::Scalar>, SolverError>(
                SolverError::NoConvergence,
            ) ==> now.accepted_steps == options.max_iterations
        }),
{
    let controls = before.options;
    lemma_total_errors(states, factors, priors);
    let opened = opened_spec(before.work.backend, states, factors, priors);
    assert(opened is Ok);
    let initial = opening_state(controls, opened->Ok_0, priors.constant);
    let shape = before.work.backend.shape();
    let layout = &after.work.layout;
    let (rounds, last) = choose|rounds: Seq<LmRound<S, B>>, last: LmRound<S, B>| #[trigger]
        lm_finished::<S, F, B>(
            shape,
            layout,
            options,
            controls,
            states,
            factors,
            priors,
            initial,
            rounds,
            last,
            outcome,
            after.statistics,
            after.progress@,
            accepted,
        );
    let n = rounds.len() as int;
    let state = lm_run::<S, F, B>(
        shape,
        layout,
        options,
        controls,
        states,
        factors,
        priors,
        initial,
        rounds,
        n,
    )->Some_0;
    states.lemma_reflexive(Set::empty());
    states.lemma_idle();
    assert(grown(controls, controls.initial_damping, 0).0 == controls.initial_damping);
    assert(total_spec(states, factors, priors) is Ok);
    lemma_run_accounts::<S, F, B>(
        shape,
        layout,
        options,
        controls,
        states,
        factors,
        priors,
        initial,
        rounds,
        n,
    );
    lemma_run_tally::<S, F, B>(
        shape,
        layout,
        options,
        controls,
        states,
        factors,
        priors,
        initial,
        rounds,
        n,
    );
    lemma_trials_fit(n, options.max_iterations as int, controls.max_trials as int);
    lemma_round_accounts::<S, F, B>(
        shape,
        layout,
        options,
        controls,
        states,
        factors,
        priors,
        lm_estimates(states, rounds, n),
        state,
        last,
    );
    lemma_round_tally::<S, F, B>(
        shape,
        layout,
        options,
        controls,
        states,
        factors,
        priors,
        lm_estimates(states, rounds, n),
        state,
        last,
    );
    if bounding(controls) {
        lemma_usable_within(controls, after.statistics.damping);
    }
}

} // verus!
