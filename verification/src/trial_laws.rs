//! When optimizers accept, retry, stop and give up.
use crate::algebra::{lemma_order, lemma_quotient_order, ordered_field};
use crate::backend::{max_magnitude, LeastSquaresBackend};
use crate::error::{EvaluationError, SolverError};
use crate::families::FactorSchema;
use crate::gauss_newton::{finished, goes_on, proposal, verdict, Round, Verdict};
use crate::graph_laws::lemma_norm_inf;
use crate::layout::Layout;
use crate::levenberg_marquardt::{
    attempt_spec, round_spec, Attempt, AttemptEnd, LmOptions, LmRound, LmState, LmVerdict,
    TrialFailure,
};
use crate::optimization::{
    model_spec, total_spec, OptimizeOptions, OptimizeReport, TerminationReason,
};
use crate::priors::Priors;
use crate::scalar::Real;
use crate::states::StateSchema;
use vstd::prelude::*;

verus! {

/// Every coordinate of a step is no larger than a tolerance.
pub open spec fn small<R: Real>(delta: Seq<R>, tolerance: R) -> bool {
    forall|i: int| 0 <= i < delta.len() ==> (#[trigger] delta[i]).abs_spec().at_most_spec(tolerance)
}

/// Steps with an infinity norm within a tolerance are the small ones.
pub proof fn lemma_small<R: Real>(delta: Seq<R>, tolerance: R)
    requires
        ordered_field::<R>(),
        R::zero_spec().at_most_spec(tolerance),
    ensures
        max_magnitude(delta, delta.len() as int).at_most_spec(tolerance) <==> small(
            delta,
            tolerance,
        ),
{
    let n = delta.len() as int;
    let norm = max_magnitude(delta, n);
    lemma_norm_inf(delta, n);
    if norm.at_most_spec(tolerance) {
        assert forall|i: int| 0 <= i < n implies (#[trigger] delta[i]).abs_spec().at_most_spec(
            tolerance,
        ) by {
            lemma_order(delta[i].abs_spec(), norm, tolerance);
        }
    }
    if small(delta, tolerance) && norm != R::zero_spec() {
        let i = choose|i: int| 0 <= i < n && norm == (#[trigger] delta[i]).abs_spec();
        assert(delta[i].abs_spec().at_most_spec(tolerance));
    }
}

/// An accepted attempt stalls where there is a step tolerance that no coordinate of its step
/// exceeds, and the cost decreased by no more than the cost tolerance of what it was, or of one
/// if it was less; a cost tolerance of zero asks nothing of the cost.
pub proof fn lemma_accepted_attempt_stalls<
    S: StateSchema,
    F: FactorSchema<S, Scalar = S::Scalar>,
    B,
>(
    dimension: nat,
    options: OptimizeOptions<S::Scalar>,
    controls: LmOptions<S::Scalar>,
    factors: F,
    priors: Priors<S::Scalar>,
    state: LmState<S::Scalar>,
    growth: S::Scalar,
    attempt: Attempt<S, B>,
    after: LmState<S::Scalar>,
)
    requires
        ordered_field::<S::Scalar>(),
        attempt_spec(dimension, options, controls, factors, priors, state, growth, attempt)
            == AttemptEnd::Accepted(after),
    ensures
        ({
            let zero = <S::Scalar as Real>::zero_spec();
            let one = <S::Scalar as Real>::one_spec();
            let scale = state.current.max_spec(one);
            let decrease = state.current.minus_spec(after.current);
            after.stalled <==> {
                &&& zero.below_spec(options.step_tolerance)
                &&& small(attempt.answer->Ok_0.0, options.step_tolerance)
                &&& options.cost_tolerance == zero || decrease.at_most_spec(
                    options.cost_tolerance.times_spec(scale),
                )
            }
        }),
{
    let zero = <S::Scalar as Real>::zero_spec();
    let one = <S::Scalar as Real>::one_spec();
    let delta = attempt.answer->Ok_0.0;
    let scale = state.current.max_spec(one);
    let decrease = state.current.minus_spec(after.current);
    assert(crate::algebra::ordered_at(options.cost_tolerance, zero, zero));
    lemma_order(zero, options.step_tolerance, zero);
    if zero.below_spec(options.step_tolerance) {
        lemma_small(delta, options.step_tolerance);
    }
    lemma_order(state.current, one, one);
    lemma_order(one, state.current, one);
    lemma_order(zero, one, scale);
    lemma_quotient_order(decrease, scale, options.cost_tolerance);
}

/// What an attempt comes to that no trial cost decides: a system that cannot be solved, a
/// prediction that is not finite and positive, and estimates that cannot be evaluated are
/// retried or give up; any other failure, and a step that does not fit, ends the call.
pub proof fn lemma_attempt_without_cost<
    S: StateSchema,
    F: FactorSchema<S, Scalar = S::Scalar>,
    B,
>(
    dimension: nat,
    options: OptimizeOptions<S::Scalar>,
    controls: LmOptions<S::Scalar>,
    factors: F,
    priors: Priors<S::Scalar>,
    state: LmState<S::Scalar>,
    growth: S::Scalar,
    attempt: Attempt<S, B>,
)
    ensures
        ({
            let end = attempt_spec(
                dimension,
                options,
                controls,
                factors,
                priors,
                state,
                growth,
                attempt,
            );
            let zero = <S::Scalar as Real>::zero_spec();
            let why = match end {
                AttemptEnd::Retry(after, _) => after.statistics.last_rejection,
                AttemptEnd::Exhausted(after) => after.statistics.last_rejection,
                _ => None,
            };
            match attempt.answer {
                Err(error) => if error == SolverError::LinearSolveFailed {
                    why == Some(TrialFailure::LinearSolve)
                } else {
                    end matches AttemptEnd::Fail(found, _) && found == error
                },
                Ok((delta, predicted)) => if delta.len() != dimension {
                    end matches AttemptEnd::Fail(found, _) && found == SolverError::Evaluation(
                        EvaluationError::DimensionMismatch,
                    )
                } else if exists|i: int|
                    0 <= i < delta.len() && !(#[trigger] delta[i]).finite_spec() {
                    end matches AttemptEnd::Fail(found, _) && found
                        == SolverError::LinearSolveFailed
                } else if !predicted.finite_spec() || predicted.at_most_spec(zero) {
                    why == Some(TrialFailure::Prediction)
                } else {
                    match total_spec(attempt.trial, factors, priors) {
                        Err(error) => if error == SolverError::Evaluation(
                            EvaluationError::InvalidEvaluation,
                        ) {
                            why == Some(TrialFailure::InvalidEvaluation)
                        } else {
                            end matches AttemptEnd::Fail(found, _) && found == error
                        },
                        Ok(_) => end is Accepted || why == Some(TrialFailure::PoorAgreement),
                    }
                },
            }
        }),
{
}

/// How a round of the damped method begins: it stops where the gradient is small enough, gives up
/// where the last step stalled or no steps are left, and only otherwise tries.
pub proof fn lemma_round_begins<
    S: StateSchema,
    F: FactorSchema<S, Scalar = S::Scalar>,
    B: LeastSquaresBackend<Scalar = S::Scalar>,
>(
    shape: B::Shape,
    layout: &Layout,
    options: OptimizeOptions<S::Scalar>,
    controls: LmOptions<S::Scalar>,
    factors: F,
    state: LmState<S::Scalar>,
    round: LmRound<S, B>,
    gradient: S::Scalar,
)
    requires
        model_spec::<S, F, B>(shape, layout, round.states, factors, round.priors) matches Ok(model)
            && B::gradient_norm_spec(model) == Ok::<S::Scalar, SolverError>(gradient),
    ensures
        ({
            let (verdict, after) = round_spec::<S, F, B>(
                shape,
                layout,
                options,
                controls,
                factors,
                state,
                round,
            );
            &&& verdict is Stop <==> gradient.at_most_spec(options.gradient_tolerance)
            &&& verdict matches LmVerdict::Stop(reason) ==> reason
                == TerminationReason::GradientTolerance && after.current == state.current
                && after.lambda == state.lambda
            &&& verdict !is Stop && state.stalled ==> verdict == LmVerdict::Fail(
                SolverError::NoProgress,
            )
            &&& verdict !is Stop && !state.stalled && state.statistics.accepted_steps
                == options.max_iterations ==> verdict == LmVerdict::Fail(
                SolverError::NoConvergence,
            )
            &&& verdict is Accept ==> !state.stalled && state.statistics.accepted_steps
                != options.max_iterations && round.damping is Ok
        }),
{
}

/// How a round of the full-step method ends: it stops where the gradient or every coordinate of
/// the step is small enough, gives up where no steps are left, and otherwise takes the step
/// whatever it costs, as long as that can be evaluated.
pub proof fn lemma_full_step_round<
    S: StateSchema,
    F: FactorSchema<S, Scalar = S::Scalar>,
    B: LeastSquaresBackend<Scalar = S::Scalar>,
>(
    shape: B::Shape,
    layout: &Layout,
    options: OptimizeOptions<S::Scalar>,
    factors: F,
    cost: S::Scalar,
    iterations: nat,
    round: Round<S, B>,
    gradient: S::Scalar,
)
    requires
        ordered_field::<S::Scalar>(),
        options.valid(),
        model_spec::<S, F, B>(shape, layout, round.states, factors, round.priors) matches Ok(model)
            && B::gradient_norm_spec(model) == Ok::<S::Scalar, SolverError>(gradient),
    ensures
        ({
            let found = verdict::<S, F, B>(
                shape,
                layout,
                options,
                factors,
                cost,
                iterations,
                round,
            );
            if gradient.at_most_spec(options.gradient_tolerance) {
                found == Verdict::<S::Scalar>::Stop(TerminationReason::GradientTolerance)
            } else if iterations == options.max_iterations {
                found == Verdict::<S::Scalar>::Fail(SolverError::NoConvergence)
            } else {
                match round.answer {
                    Err(error) => found == Verdict::<S::Scalar>::Fail(error),
                    Ok(delta) => if delta.len() != layout.dimension || exists|i: int|
                        0 <= i < delta.len() && !(#[trigger] delta[i]).finite_spec() {
                        found == Verdict::<S::Scalar>::Fail(SolverError::LinearSolveFailed)
                    } else if small(delta, options.step_tolerance) {
                        found == Verdict::<S::Scalar>::Stop(TerminationReason::StepTolerance)
                    } else {
                        match total_spec(round.trial, factors, round.priors) {
                            Err(error) => found == Verdict::<S::Scalar>::Fail(error),
                            Ok(trial) => found matches Verdict::Accept { cost: reached, .. }
                                && reached == trial,
                        }
                    },
                }
            }
        }),
{
    let zero = <S::Scalar as Real>::zero_spec();
    if round.answer is Ok {
        let delta = round.answer->Ok_0;
        lemma_order(options.step_tolerance, zero, zero);
        lemma_order(zero, options.step_tolerance, zero);
        lemma_small(delta, options.step_tolerance);
    }
}

/// The full-step method takes no more steps than it may, and reports how many it took.
pub proof fn lemma_iterations_bounded<
    S: StateSchema,
    F: FactorSchema<S, Scalar = S::Scalar>,
    B: LeastSquaresBackend<Scalar = S::Scalar>,
>(
    shape: B::Shape,
    layout: &Layout,
    options: OptimizeOptions<S::Scalar>,
    states: S,
    factors: F,
    priors: Priors<S::Scalar>,
    initial: S::Scalar,
    rounds: Seq<Round<S, B>>,
    last: Round<S, B>,
    outcome: Result<OptimizeReport<S::Scalar>, SolverError>,
    estimates: S::Estimates,
)
    requires
        finished::<S, F, B>(
            shape,
            layout,
            options,
            states,
            factors,
            priors,
            initial,
            rounds,
            last,
            outcome,
            estimates,
        ),
    ensures
        rounds.len() <= options.max_iterations,
        outcome matches Ok(report) ==> report.iterations <= options.max_iterations
            && report.iterations == rounds.len() + if report.termination
            == TerminationReason::CostTolerance {
            1int
        } else {
            0int
        },
{
    if rounds.len() > options.max_iterations {
        let k = options.max_iterations as int;
        assert(goes_on::<S, F, B>(
            shape,
            layout,
            options,
            states,
            factors,
            priors,
            initial,
            rounds,
            k,
        ));
        assert(proposal::<S, F, B>(shape, layout, options, factors, k as nat, rounds[k]) is Err);
        assert(false);
    }
}

} // verus!
