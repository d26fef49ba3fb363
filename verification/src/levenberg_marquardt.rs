//! Levenberg-Marquardt with scaled diagonal damping and gain-ratio acceptance.
use crate::algebra::{
    lemma_bounds_order, lemma_cube_order, lemma_negate, lemma_negate_order, lemma_order,
    lemma_plus, lemma_plus_order, lemma_positive_times_order, lemma_quotient_order,
    lemma_small_ratios, lemma_times, lemma_times_order, lemma_times_zero, ordered_at,
    ordered_field,
};
use crate::backend::{
    all_finite, holds, max_magnitude, norm_inf, DampedLeastSquaresBackend, LeastSquaresBackend,
};
use crate::covariance::{
    computed_view, extraction_spec, CovarianceBackend, CovarianceOptimizer, CovarianceWorkspace,
};
use crate::error::{EvaluationError, SolverError};
use crate::families::FactorSchema;
use crate::gauss_newton::report_spec;
use crate::kernels::Triangular;
use crate::key::BlockId;
use crate::layout::Layout;
use crate::optimization::{
    at_hand, checked_total, cost_spec, laid_out, lemma_total_stable, model_spec, opened_spec,
    prepared_spec, same_problem, total_spec, up_to_date, OptimizeOptions, OptimizeReport,
    Optimizer, TerminationReason, Workspace,
};
use crate::priors::Priors;
use crate::scalar::Real;
use crate::states::{width_sum, StateSchema};
use vstd::prelude::*;

verus! {

/// Damping and retry controls of [`LevenbergMarquardt`].
#[derive(Debug, Clone, Copy)]
pub struct LmOptions<R> {
    /// Damping that each call starts with.
    pub initial_damping: R,
    /// Positive lower bound of the damping.
    pub min_damping: R,
    /// Finite upper bound of the damping.
    pub max_damping: R,
    /// Positive floor of the Jacobian column norms that scale the damping.
    pub min_column_norm: R,
    /// Least ratio of actual to predicted decrease, strictly between zero and one.
    pub acceptance_threshold: R,
    /// Greatest number of solves per linearization; must be positive.
    pub max_trials: usize,
}

/// A control is finite and positive.
pub open spec fn is_positive<R: Real>(value: R) -> bool {
    value.finite_spec() && !value.at_most_spec(R::zero_spec())
}

/// Whether a control is finite and positive.
fn positive<R: Real>(value: R) -> (r: bool)
    ensures
        r == is_positive(value),
{
    value.is_finite() && !value.at_most(R::zero())
}

impl<R: Real> LmOptions<R> {
    /// The controls to use unless there is a reason for others.
    pub fn defaults() -> (options: Self)
        ensures
            options == Self::defaults_spec(),
    {
        LmOptions {
            initial_damping: R::ratio(1, 1_000),
            min_damping: R::ratio(1, 1_000_000_000_000),
            max_damping: R::ratio(1_000_000_000_000, 1),
            min_column_norm: R::ratio(1, 1_000_000),
            acceptance_threshold: R::ratio(1, 10_000),
            max_trials: 16,
        }
    }

    pub open spec fn defaults_spec() -> Self {
        LmOptions {
            initial_damping: R::ratio_spec(1, 1_000),
            min_damping: R::ratio_spec(1, 1_000_000_000_000),
            max_damping: R::ratio_spec(1_000_000_000_000, 1),
            min_column_norm: R::ratio_spec(1, 1_000_000),
            acceptance_threshold: R::ratio_spec(1, 10_000),
            max_trials: 16,
        }
    }

    /// Positive controls, the initial damping within its bounds, a threshold below one.
    pub open spec fn valid(self) -> bool {
        &&& self.max_trials != 0
        &&& is_positive(self.initial_damping)
        &&& is_positive(self.min_damping)
        &&& is_positive(self.max_damping)
        &&& is_positive(self.min_column_norm)
        &&& is_positive(self.acceptance_threshold)
        &&& !self.initial_damping.below_spec(self.min_damping)
        &&& !self.max_damping.below_spec(self.initial_damping)
        &&& !R::one_spec().at_most_spec(self.acceptance_threshold)
    }

    /// Reject unusable controls.
    pub fn validate(&self) -> (valid: Result<(), SolverError>)
        ensures
            valid == if self.valid() {
                Ok::<(), SolverError>(())
            } else {
                Err(SolverError::InvalidOptions)
            },
    {
        if self.max_trials == 0 || !positive(self.initial_damping) || !positive(self.min_damping)
            || !positive(self.max_damping) || !positive(self.min_column_norm) || !positive(
            self.acceptance_threshold,
        ) || self.initial_damping.below(self.min_damping) || self.max_damping.below(
            self.initial_damping,
        ) || R::one().at_most(self.acceptance_threshold) {
            return Err(SolverError::InvalidOptions);
        }
        Ok(())
    }
}

/// Why an attempt was rejected.
#[derive(Debug, Clone, Copy, PartialEq, Eq, Structural)]
pub enum TrialFailure {
    /// The backend could not produce a step.
    LinearSolve,
    /// The undamped model predicts no finite, positive decrease.
    Prediction,
    /// The trial estimates cannot be evaluated.
    InvalidEvaluation,
    /// The cost decreased too little for what was predicted.
    PoorAgreement,
}

/// Diagnostics of the most recent call, whether it succeeded or not.
///
/// Counters wrap around.
#[derive(Debug, Clone, Copy)]
pub struct LmStatistics<R> {
    /// Linearizations at accepted estimates, including final convergence checks.
    pub linearizations: usize,
    /// Linear solves, including rejected and failed ones.
    pub attempts: usize,
    /// Rejected attempts; all leave the accepted estimates alone.
    pub rejected_steps: usize,
    /// Accepted steps.
    pub accepted_steps: usize,
    /// Evaluations of the objective, including the first and failed ones.
    pub cost_evaluations: usize,
    /// Damping of the last attempt, or the initial damping before any attempt.
    pub damping: R,
    /// Accepted objective, including the constant of the priors.
    pub cost: Option<R>,
    /// Gradient norm at the last linearization.
    pub gradient_norm: Option<R>,
    /// Norm of the last step that was solved, accepted or not.
    pub step_norm: Option<R>,
    /// The most recent rejection, kept even if a later attempt succeeds.
    pub last_rejection: Option<TrialFailure>,
}

impl<R: Real> LmStatistics<R> {
    /// Nothing happened yet.
    pub open spec fn blank_spec() -> Self {
        LmStatistics {
            linearizations: 0,
            attempts: 0,
            rejected_steps: 0,
            accepted_steps: 0,
            cost_evaluations: 0,
            damping: R::zero_spec(),
            cost: None,
            gradient_norm: None,
            step_norm: None,
            last_rejection: None,
        }
    }

    /// Nothing happened yet.
    pub fn blank() -> (statistics: Self)
        ensures
            statistics == Self::blank_spec(),
    {
        LmStatistics {
            linearizations: 0,
            attempts: 0,
            rejected_steps: 0,
            accepted_steps: 0,
            cost_evaluations: 0,
            damping: R::zero(),
            cost: None,
            gradient_norm: None,
            step_norm: None,
            last_rejection: None,
        }
    }
}

/// Where a call stands between two attempts.
#[derive(Debug, Clone, Copy)]
pub struct LmState<R> {
    pub statistics: LmStatistics<R>,
    /// Damping of the next attempt.
    pub lambda: R,
    /// Objective at the accepted estimates, without the constant of the priors.
    pub current: R,
    /// The last accepted step was too small to go on without a convergence check.
    pub stalled: bool,
}

/// How an attempt ends.
pub enum AttemptEnd<R> {
    /// The call fails.
    Fail(SolverError, LmState<R>),
    /// The attempt is rejected; the next one grows the damping by the given factor.
    Retry(LmState<R>, R),
    /// The attempt is rejected, and the damping cannot grow.
    Exhausted(LmState<R>),
    /// The step is accepted.
    Accepted(LmState<R>),
}

impl<R: Real> LmState<R> {
    /// The state once an attempt has begun.
    pub open spec fn attempted_spec(self) -> Self {
        LmState {
            statistics: LmStatistics {
                attempts: self.statistics.attempts.wrapping_add(1),
                damping: self.lambda,
                ..self.statistics
            },
            ..self
        }
    }

    /// The state once an attempt has begun.
    fn attempted(self) -> (state: Self)
        ensures
            state == self.attempted_spec(),
    {
        let mut state = self;
        state.statistics.attempts = state.statistics.attempts.wrapping_add(1);
        state.statistics.damping = state.lambda;
        state
    }

    /// The state once a step of a given norm was solved.
    pub open spec fn solved_spec(self, norm: R) -> Self {
        LmState { statistics: LmStatistics { step_norm: Some(norm), ..self.statistics }, ..self }
    }

    /// The state once a trial is being evaluated.
    pub open spec fn evaluated_spec(self) -> Self {
        LmState {
            statistics: LmStatistics {
                cost_evaluations: self.statistics.cost_evaluations.wrapping_add(1),
                ..self.statistics
            },
            ..self
        }
    }

    /// How a rejected attempt ends.
    pub open spec fn rejected_spec(
        self,
        controls: LmOptions<R>,
        growth: R,
        why: TrialFailure,
    ) -> AttemptEnd<R> {
        let state = LmState {
            statistics: LmStatistics {
                rejected_steps: self.statistics.rejected_steps.wrapping_add(1),
                last_rejection: Some(why),
                ..self.statistics
            },
            ..self
        };
        if self.lambda.same_spec(controls.max_damping) {
            AttemptEnd::Exhausted(state)
        } else {
            AttemptEnd::Retry(
                LmState {
                    lambda: self.lambda.times_spec(growth).min_spec(controls.max_damping),
                    ..state
                },
                growth.times_spec(R::ratio_spec(2, 1)).min_spec(
                    controls.max_damping.max_spec(R::ratio_spec(2, 1)),
                ),
            )
        }
    }

    /// Reject an attempt.
    fn rejected(self, controls: &LmOptions<R>, growth: R, why: TrialFailure) -> (end: AttemptEnd<R>)
        ensures
            end == self.rejected_spec(*controls, growth, why),
    {
        let mut state = self;
        state.statistics.rejected_steps = state.statistics.rejected_steps.wrapping_add(1);
        state.statistics.last_rejection = Some(why);
        if state.lambda.same(controls.max_damping) {
            return AttemptEnd::Exhausted(state);
        }
        state.lambda = state.lambda.times(growth).min(controls.max_damping);
        let two = R::ratio(2, 1);
        AttemptEnd::Retry(state, growth.times(two).min(controls.max_damping.max(two)))
    }

    /// Actual decrease over predicted decrease, at most two.
    pub open spec fn gain_spec(self, value: R, predicted: R) -> R {
        self.current.minus_spec(value).over_spec(predicted).min_spec(R::ratio_spec(2, 1))
    }

    /// The damping after a step with the given gain: smaller the better the model agreed.
    pub open spec fn relaxed_spec(self, controls: LmOptions<R>, gain: R) -> R {
        let x = R::ratio_spec(2, 1).times_spec(gain.min_spec(R::one_spec())).minus_spec(
            R::one_spec(),
        );
        let update = R::one_spec().minus_spec(x.times_spec(x).times_spec(x)).max_spec(
            R::ratio_spec(1, 3),
        );
        self.lambda.times_spec(update).max_spec(controls.min_damping).min_spec(
            controls.max_damping,
        )
    }

    /// The damping after a step with the given gain.
    fn relaxed(self, controls: &LmOptions<R>, gain: R) -> (lambda: R)
        ensures
            lambda == self.relaxed_spec(*controls, gain),
    {
        let x = R::ratio(2, 1).times(gain.min(R::one())).minus(R::one());
        let update = R::one().minus(x.times(x).times(x)).max(R::ratio(1, 3));
        self.lambda.times(update).max(controls.min_damping).min(controls.max_damping)
    }

    /// A step of this norm and decrease calls for a convergence check before going on.
    pub open spec fn stalls_spec(self, options: OptimizeOptions<R>, norm: R, actual: R) -> bool {
        &&& R::zero_spec().below_spec(options.step_tolerance)
        &&& norm.at_most_spec(options.step_tolerance)
        &&& (options.cost_tolerance.same_spec(R::zero_spec()) || actual.over_spec(
            self.current.max_spec(R::one_spec()),
        ).at_most_spec(options.cost_tolerance))
    }

    /// Whether a step calls for a convergence check before going on.
    fn stalls(self, options: &OptimizeOptions<R>, norm: R, actual: R) -> (r: bool)
        ensures
            r == self.stalls_spec(*options, norm, actual),
    {
        R::zero().below(options.step_tolerance) && norm.at_most(options.step_tolerance) && (
        options.cost_tolerance.same(R::zero()) || actual.over(self.current.max(R::one())).at_most(
            options.cost_tolerance,
        ))
    }

    /// How an attempt ends whose trial has the given cost.
    pub open spec fn weighed_spec(
        self,
        options: OptimizeOptions<R>,
        controls: LmOptions<R>,
        constant: R,
        growth: R,
        norm: R,
        predicted: R,
        value: R,
    ) -> AttemptEnd<R> {
        let actual = self.current.minus_spec(value);
        let gain = self.gain_spec(value, predicted);
        if R::zero_spec().below_spec(actual) && controls.acceptance_threshold.at_most_spec(gain) {
            AttemptEnd::Accepted(
                LmState {
                    statistics: LmStatistics {
                        accepted_steps: self.statistics.accepted_steps.wrapping_add(1),
                        cost: Some(value.plus_spec(constant)),
                        ..self.statistics
                    },
                    lambda: self.relaxed_spec(controls, gain),
                    current: value,
                    stalled: self.stalls_spec(options, norm, actual),
                },
            )
        } else {
            self.rejected_spec(controls, growth, TrialFailure::PoorAgreement)
        }
    }

    /// Accept or reject an attempt whose trial has the given cost.
    fn weighed(
        self,
        options: &OptimizeOptions<R>,
        controls: &LmOptions<R>,
        constant: R,
        growth: R,
        norm: R,
        predicted: R,
        value: R,
    ) -> (end: AttemptEnd<R>)
        ensures
            end == self.weighed_spec(
                *options,
                *controls,
                constant,
                growth,
                norm,
                predicted,
                value,
            ),
    {
        let actual = self.current.minus(value);
        let gain = actual.over(predicted).min(R::ratio(2, 1));
        if !R::zero().below(actual) || !controls.acceptance_threshold.at_most(gain) {
            return self.rejected(controls, growth, TrialFailure::PoorAgreement);
        }
        let mut state = self;
        state.statistics.accepted_steps = state.statistics.accepted_steps.wrapping_add(1);
        state.statistics.cost = Some(value.plus(constant));
        state.lambda = self.relaxed(controls, gain);
        state.stalled = self.stalls(options, norm, actual);
        state.current = value;
        AttemptEnd::Accepted(state)
    }
}

/// Damping follows agreement. Over an ordered field: a step that did at least what the model
/// predicted leaves a third of the damping, held to its bounds; a step that did half of it
/// leaves the damping as it was, held to its bounds; and a better step never leaves more.
pub proof fn lemma_damping_follows_agreement<R: Real>(
    state: LmState<R>,
    controls: LmOptions<R>,
    gain: R,
    better: R,
)
    requires
        ordered_field::<R>(),
        R::zero_spec().at_most_spec(state.lambda),
    ensures
        R::one_spec().at_most_spec(gain) ==> state.relaxed_spec(controls, gain)
            == state.lambda.times_spec(R::ratio_spec(1, 3)).max_spec(
            controls.min_damping,
        ).min_spec(controls.max_damping),
        gain == R::ratio_spec(1, 2) ==> state.relaxed_spec(controls, gain)
            == state.lambda.max_spec(controls.min_damping).min_spec(controls.max_damping),
        gain.at_most_spec(better) ==> state.relaxed_spec(controls, better).at_most_spec(
            state.relaxed_spec(controls, gain),
        ),
        R::ratio_spec(1, 2).at_most_spec(gain) ==> state.relaxed_spec(
            controls,
            gain,
        ).at_most_spec(state.lambda.max_spec(controls.min_damping)),
{
    let zero = R::zero_spec();
    let one = R::one_spec();
    let half = R::ratio_spec(1, 2);
    let third = R::ratio_spec(1, 3);
    let lambda = state.lambda;
    lemma_small_ratios::<R>();
    lemma_order(third, one, zero);
    lemma_order(zero, third, zero);
    if one.at_most_spec(gain) {
        lemma_full_agreement(state, controls, gain);
    }
    lemma_half_agreement(state, controls);
    if gain.at_most_spec(better) {
        lemma_better_agreement(state, controls, gain, better);
    }
    if half.at_most_spec(gain) {
        lemma_better_agreement(state, controls, half, gain);
        let held = lambda.max_spec(controls.min_damping);
        lemma_order(held, controls.max_damping, zero);
        lemma_order(controls.max_damping, held, zero);
        lemma_order(held, held, held);
        lemma_order(
            state.relaxed_spec(controls, gain),
            state.relaxed_spec(controls, half),
            held,
        );
    }
}

proof fn lemma_full_agreement<R: Real>(state: LmState<R>, controls: LmOptions<R>, gain: R)
    requires
        ordered_field::<R>(),
        R::one_spec().at_most_spec(gain),
    ensures
        state.relaxed_spec(controls, gain) == state.lambda.times_spec(
            R::ratio_spec(1, 3),
        ).max_spec(controls.min_damping).min_spec(controls.max_damping),
{
    let zero = R::zero_spec();
    let one = R::one_spec();
    let two = R::ratio_spec(2, 1);
    let third = R::ratio_spec(1, 3);
    lemma_small_ratios::<R>();
    lemma_order(one, gain, zero);
    lemma_times(two, one, one);
    lemma_plus(one, one, one.negate_spec());
    lemma_plus(two, one, one);
    lemma_plus(one, zero, zero);
    assert(two.minus_spec(one) == one);
    lemma_times(one, one, one);
    lemma_order(zero, third, zero);
}

proof fn lemma_half_agreement<R: Real>(state: LmState<R>, controls: LmOptions<R>)
    requires
        ordered_field::<R>(),
    ensures
        state.relaxed_spec(controls, R::ratio_spec(1, 2)) == state.lambda.max_spec(
            controls.min_damping,
        ).min_spec(controls.max_damping),
{
    let zero = R::zero_spec();
    let one = R::one_spec();
    let two = R::ratio_spec(2, 1);
    let half = R::ratio_spec(1, 2);
    let third = R::ratio_spec(1, 3);
    lemma_small_ratios::<R>();
    lemma_order(half, one, zero);
    lemma_plus(one, one, one);
    lemma_times_zero(zero);
    lemma_plus(one, zero, zero);
    lemma_negate(zero, zero);
    assert(one.minus_spec(zero) == one);
    lemma_order(third, one, zero);
    lemma_times(state.lambda, one, one);
}

proof fn lemma_better_agreement<R: Real>(
    state: LmState<R>,
    controls: LmOptions<R>,
    gain: R,
    better: R,
)
    requires
        ordered_field::<R>(),
        R::zero_spec().at_most_spec(state.lambda),
        gain.at_most_spec(better),
    ensures
        state.relaxed_spec(controls, better).at_most_spec(state.relaxed_spec(controls, gain)),
{
    let zero = R::zero_spec();
    let one = R::one_spec();
    let two = R::ratio_spec(2, 1);
    let third = R::ratio_spec(1, 3);
    let lambda = state.lambda;
    let (p, q) = (gain.min_spec(one), better.min_spec(one));
    let (x, y) = (
        two.times_spec(p).minus_spec(one),
        two.times_spec(q).minus_spec(one),
    );
    let (u, v) = (x.times_spec(x).times_spec(x), y.times_spec(y).times_spec(y));
    let (a, b) = (
        one.minus_spec(u).max_spec(third),
        one.minus_spec(v).max_spec(third),
    );
    lemma_small_ratios::<R>();
    lemma_bounds_order(gain, better, one);
    lemma_order(zero, one, two);
    lemma_order(zero, two, zero);
    lemma_times_order(p, q, two);
    lemma_plus_order(two.times_spec(p), two.times_spec(q), one.negate_spec());
    lemma_plus(two.times_spec(p), one, one);
    lemma_plus(two.times_spec(q), one, one);
    lemma_cube_order(x, y);
    lemma_negate_order(u, v);
    lemma_plus_order(v.negate_spec(), u.negate_spec(), one);
    lemma_plus(one, u, u);
    lemma_plus(one, v, v);
    lemma_bounds_order(one.minus_spec(v), one.minus_spec(u), third);
    lemma_times_order(b, a, lambda);
    lemma_bounds_order(lambda.times_spec(b), lambda.times_spec(a), controls.min_damping);
    lemma_bounds_order(
        lambda.times_spec(b).max_spec(controls.min_damping),
        lambda.times_spec(a).max_spec(controls.min_damping),
        controls.max_damping,
    );
}

/// What a backend answered, as it was before and after that, and the graph with the step
/// staged. The trial does not matter where no step was tried.
pub struct Attempt<S: StateSchema, B> {
    pub before: B,
    pub after: B,
    pub answer: Result<(Seq<S::Scalar>, S::Scalar), SolverError>,
    pub trial: S,
}

/// The step that an answer leads to try: complete, finite and promising.
pub open spec fn tries<R: Real>(
    dimension: nat,
    answer: Result<(Seq<R>, R), SolverError>,
) -> Option<Seq<R>> {
    match answer {
        Err(_) => None,
        Ok((delta, predicted)) => if delta.len() == dimension && all_finite(delta)
            && predicted.finite_spec() && !predicted.at_most_spec(R::zero_spec()) {
            Some(delta)
        } else {
            None
        },
    }
}

/// How an attempt ends.
pub open spec fn attempt_spec<S: StateSchema, F: FactorSchema<S, Scalar = S::Scalar>, B>(
    dimension: nat,
    options: OptimizeOptions<S::Scalar>,
    controls: LmOptions<S::Scalar>,
    factors: F,
    priors: Priors<S::Scalar>,
    state: LmState<S::Scalar>,
    growth: S::Scalar,
    attempt: Attempt<S, B>,
) -> AttemptEnd<S::Scalar> {
    let begun = state.attempted_spec();
    match attempt.answer {
        Err(SolverError::LinearSolveFailed) => begun.rejected_spec(
            controls,
            growth,
            TrialFailure::LinearSolve,
        ),
        Err(error) => AttemptEnd::Fail(error, begun),
        Ok((delta, predicted)) => if delta.len() != dimension {
            AttemptEnd::Fail(SolverError::Evaluation(EvaluationError::DimensionMismatch), begun)
        } else if !all_finite(delta) {
            AttemptEnd::Fail(SolverError::LinearSolveFailed, begun)
        } else {
            let norm = max_magnitude(delta, delta.len() as int);
            let solved = begun.solved_spec(norm);
            if !predicted.finite_spec() || predicted.at_most_spec(
                <S::Scalar as Real>::zero_spec(),
            ) {
                solved.rejected_spec(controls, growth, TrialFailure::Prediction)
            } else {
                let evaluated = solved.evaluated_spec();
                match total_spec(attempt.trial, factors, priors) {
                    Err(SolverError::Evaluation(EvaluationError::InvalidEvaluation)) =>
                        evaluated.rejected_spec(controls, growth, TrialFailure::InvalidEvaluation),
                    Err(error) => AttemptEnd::Fail(error, evaluated),
                    Ok(value) => evaluated.weighed_spec(
                        options,
                        controls,
                        priors.constant,
                        growth,
                        norm,
                        predicted,
                        value,
                    ),
                }
            }
        },
    }
}

/// The state and growth after the first `n` attempts, all of which lead to another one.
pub open spec fn retried<S: StateSchema, F: FactorSchema<S, Scalar = S::Scalar>, B>(
    dimension: nat,
    options: OptimizeOptions<S::Scalar>,
    controls: LmOptions<S::Scalar>,
    factors: F,
    priors: Priors<S::Scalar>,
    state: LmState<S::Scalar>,
    attempts: Seq<Attempt<S, B>>,
    n: int,
) -> Option<(LmState<S::Scalar>, S::Scalar)>
    decreases n,
{
    if n <= 0 {
        Some((state, <S::Scalar as Real>::ratio_spec(2, 1)))
    } else {
        match retried(dimension, options, controls, factors, priors, state, attempts, n - 1) {
            None => None,
            Some((before, growth)) => match attempt_spec(
                dimension,
                options,
                controls,
                factors,
                priors,
                before,
                growth,
                attempts[n - 1],
            ) {
                AttemptEnd::Retry(after, grown) => Some((after, grown)),
                _ => None,
            },
        }
    }
}

/// One linearization of the graph and the attempts that followed from it. `backend` holds the
/// linear model, is `scaled` once its damping scales were derived, and `damping` is how it took
/// to that.
pub struct LmRound<S: StateSchema, B> {
    pub states: S,
    pub priors: Priors<S::Scalar>,
    pub backend: B,
    pub scaled: B,
    pub damping: Result<(), SolverError>,
    pub attempts: Seq<Attempt<S, B>>,
}

/// What becomes of one round.
pub enum LmVerdict {
    /// The method fails; the estimates of the round stay.
    Fail(SolverError),
    /// The estimates of the round meet a criterion.
    Stop(TerminationReason),
    /// The last attempt became the accepted estimates.
    Accept,
}

/// The state with which a round begins its attempts, or how it ends without one.
pub open spec fn checked_spec<
    S: StateSchema,
    F: FactorSchema<S, Scalar = S::Scalar>,
    B: LeastSquaresBackend<Scalar = S::Scalar>,
>(
    shape: B::Shape,
    layout: &Layout,
    options: OptimizeOptions<S::Scalar>,
    factors: F,
    state: LmState<S::Scalar>,
    round: LmRound<S, B>,
) -> Result<LmState<S::Scalar>, (LmVerdict, LmState<S::Scalar>)> {
    let counted = LmState {
        statistics: LmStatistics {
            linearizations: state.statistics.linearizations.wrapping_add(1),
            ..state.statistics
        },
        ..state
    };
    match model_spec::<S, F, B>(shape, layout, round.states, factors, round.priors) {
        Err(error) => Err((LmVerdict::Fail(error), counted)),
        Ok(model) => match B::gradient_norm_spec(model) {
            Err(error) => Err((LmVerdict::Fail(error), counted)),
            Ok(gradient) => {
                let known = LmState {
                    statistics: LmStatistics {
                        gradient_norm: Some(gradient),
                        ..counted.statistics
                    },
                    ..counted
                };
                if gradient.at_most_spec(options.gradient_tolerance) {
                    Err((LmVerdict::Stop(TerminationReason::GradientTolerance), known))
                } else if state.stalled {
                    Err((LmVerdict::Fail(SolverError::NoProgress), known))
                } else if state.statistics.accepted_steps == options.max_iterations {
                    Err((LmVerdict::Fail(SolverError::NoConvergence), known))
                } else {
                    match round.damping {
                        Err(error) => Err((LmVerdict::Fail(error), known)),
                        Ok(_) => Ok(known),
                    }
                }
            },
        },
    }
}

/// How the attempts of a round end, given the state they began with: the last one decides.
pub open spec fn attempts_end<S: StateSchema, F: FactorSchema<S, Scalar = S::Scalar>, B>(
    dimension: nat,
    options: OptimizeOptions<S::Scalar>,
    controls: LmOptions<S::Scalar>,
    factors: F,
    priors: Priors<S::Scalar>,
    state: LmState<S::Scalar>,
    attempts: Seq<Attempt<S, B>>,
) -> Option<AttemptEnd<S::Scalar>> {
    let n = attempts.len() as int;
    if n == 0 {
        None
    } else {
        match retried(dimension, options, controls, factors, priors, state, attempts, n - 1) {
            None => None,
            Some((before, growth)) => Some(
                attempt_spec(
                    dimension,
                    options,
                    controls,
                    factors,
                    priors,
                    before,
                    growth,
                    attempts[n - 1],
                ),
            ),
        }
    }
}

/// How a round ends, and the state it leaves.
pub open spec fn round_spec<
    S: StateSchema,
    F: FactorSchema<S, Scalar = S::Scalar>,
    B: LeastSquaresBackend<Scalar = S::Scalar>,
>(
    shape: B::Shape,
    layout: &Layout,
    options: OptimizeOptions<S::Scalar>,
    controls: LmOptions<S::Scalar>,
    factors: F,
    state: LmState<S::Scalar>,
    round: LmRound<S, B>,
) -> (LmVerdict, LmState<S::Scalar>) {
    match checked_spec::<S, F, B>(shape, layout, options, factors, state, round) {
        Err(ended) => ended,
        Ok(begun) => match attempts_end(
            layout.dimension as nat,
            options,
            controls,
            factors,
            round.priors,
            begun,
            round.attempts,
        )->Some_0 {
            AttemptEnd::Fail(error, after) => (LmVerdict::Fail(error), after),
            AttemptEnd::Retry(after, _) => (LmVerdict::Fail(SolverError::NoProgress), after),
            AttemptEnd::Exhausted(after) => (LmVerdict::Fail(SolverError::NoProgress), after),
            AttemptEnd::Accepted(after) => (LmVerdict::Accept, after),
        },
    }
}

/// The trial of an attempt is the given graph moved by the step it tries.
pub open spec fn stages<S: StateSchema, B>(
    dimension: nat,
    states: S,
    attempt: Attempt<S, B>,
) -> bool {
    tries(dimension, attempt.answer) matches Some(delta) ==> {
        &&& attempt.trial.same_graph(&states)
        &&& attempt.trial.current() == states.moved(delta)
    }
}

/// Where the gradient calls for a step and steps are left, the backend was asked to derive the
/// damping scales of the model of the round.
pub open spec fn derived<
    S: StateSchema,
    F: FactorSchema<S, Scalar = S::Scalar>,
    B: DampedLeastSquaresBackend<Scalar = S::Scalar>,
>(
    shape: B::Shape,
    layout: &Layout,
    options: OptimizeOptions<S::Scalar>,
    controls: LmOptions<S::Scalar>,
    factors: F,
    state: LmState<S::Scalar>,
    round: LmRound<S, B>,
) -> bool {
    model_spec::<S, F, B>(shape, layout, round.states, factors, round.priors) matches Ok(model)
        ==> B::gradient_norm_spec(model) matches Ok(gradient) ==> !gradient.at_most_spec(
        options.gradient_tolerance,
    ) && !state.stalled && state.statistics.accepted_steps != options.max_iterations ==> {
        &&& holds(round.backend, shape, model)
        &&& B::scaled(round.backend, round.scaled, controls.min_column_norm, round.damping)
    }
}

/// Attempt `a` of a round asked the backend, as the attempt before it left it, to solve under
/// the damping that had been reached.
pub open spec fn asked<
    S: StateSchema,
    F: FactorSchema<S, Scalar = S::Scalar>,
    B: DampedLeastSquaresBackend<Scalar = S::Scalar>,
>(
    dimension: nat,
    options: OptimizeOptions<S::Scalar>,
    controls: LmOptions<S::Scalar>,
    factors: F,
    priors: Priors<S::Scalar>,
    begun: LmState<S::Scalar>,
    scaled: B,
    attempts: Seq<Attempt<S, B>>,
    a: int,
) -> bool {
    &&& attempts[a].before == if a == 0 {
        scaled
    } else {
        attempts[a - 1].after
    }
    &&& retried(dimension, options, controls, factors, priors, begun, attempts, a) matches Some((
        state,
        _,
    )) && B::answers_damped(attempts[a].before, attempts[a].after, state.lambda, attempts[a].answer)
}

/// A round starts at the given estimates, asks the backend for its steps, stages those it
/// tries, and attempts until one decides or the limit is reached.
pub open spec fn lm_follows<
    S: StateSchema,
    F: FactorSchema<S, Scalar = S::Scalar>,
    B: DampedLeastSquaresBackend<Scalar = S::Scalar>,
>(
    shape: B::Shape,
    layout: &Layout,
    options: OptimizeOptions<S::Scalar>,
    controls: LmOptions<S::Scalar>,
    states: S,
    factors: F,
    priors: Priors<S::Scalar>,
    estimates: S::Estimates,
    state: LmState<S::Scalar>,
    round: LmRound<S, B>,
) -> bool {
    &&& round.states.same_graph(&states)
    &&& round.states.accepted() == estimates
    &&& round.states.current() == estimates
    &&& round.priors.same_priors(&priors)
    &&& forall|a: int|
        0 <= a < round.attempts.len() ==> stages(
            layout.dimension as nat,
            round.states,
            #[trigger] round.attempts[a],
        )
    &&& derived::<S, F, B>(shape, layout, options, controls, factors, state, round)
    &&& checked_spec::<S, F, B>(shape, layout, options, factors, state, round) matches Ok(begun) ==> {
        &&& 1 <= round.attempts.len() <= controls.max_trials
        &&& forall|a: int|
            0 <= a < round.attempts.len() ==> #[trigger] asked(
                layout.dimension as nat,
                options,
                controls,
                factors,
                round.priors,
                begun,
                round.scaled,
                round.attempts,
                a,
            )
        &&& attempts_end(
            layout.dimension as nat,
            options,
            controls,
            factors,
            round.priors,
            begun,
            round.attempts,
        ) matches Some(end) && (end is Retry ==> round.attempts.len() == controls.max_trials)
    }
}

/// The estimates from which a round starts.
pub open spec fn lm_estimates<S: StateSchema, B>(
    states: S,
    rounds: Seq<LmRound<S, B>>,
    n: int,
) -> S::Estimates {
    if n <= 0 {
        states.accepted()
    } else {
        rounds[n - 1].attempts.last().trial.current()
    }
}

/// The state after the first `n` rounds, all of which follow from the one before and accept
/// a step.
pub open spec fn lm_run<
    S: StateSchema,
    F: FactorSchema<S, Scalar = S::Scalar>,
    B: DampedLeastSquaresBackend<Scalar = S::Scalar>,
>(
    shape: B::Shape,
    layout: &Layout,
    options: OptimizeOptions<S::Scalar>,
    controls: LmOptions<S::Scalar>,
    states: S,
    factors: F,
    priors: Priors<S::Scalar>,
    initial: LmState<S::Scalar>,
    rounds: Seq<LmRound<S, B>>,
    n: int,
) -> Option<LmState<S::Scalar>>
    decreases n,
{
    if n <= 0 {
        Some(initial)
    } else {
        match lm_run::<S, F, B>(
            shape,
            layout,
            options,
            controls,
            states,
            factors,
            priors,
            initial,
            rounds,
            n - 1,
        ) {
            None => None,
            Some(before) => {
                let (verdict, after) = round_spec::<S, F, B>(
                    shape,
                    layout,
                    options,
                    controls,
                    factors,
                    before,
                    rounds[n - 1],
                );
                if verdict is Accept && lm_follows::<S, F, B>(
                    shape,
                    layout,
                    options,
                    controls,
                    states,
                    factors,
                    priors,
                    lm_estimates(states, rounds, n - 1),
                    before,
                    rounds[n - 1],
                ) {
                    Some(after)
                } else {
                    None
                }
            },
        }
    }
}

/// The diagnostics after each of the rounds.
pub open spec fn lm_progress<
    S: StateSchema,
    F: FactorSchema<S, Scalar = S::Scalar>,
    B: DampedLeastSquaresBackend<Scalar = S::Scalar>,
>(
    shape: B::Shape,
    layout: &Layout,
    options: OptimizeOptions<S::Scalar>,
    controls: LmOptions<S::Scalar>,
    states: S,
    factors: F,
    priors: Priors<S::Scalar>,
    initial: LmState<S::Scalar>,
    rounds: Seq<LmRound<S, B>>,
    progress: Seq<LmStatistics<S::Scalar>>,
) -> bool {
    &&& progress.len() == rounds.len()
    &&& forall|k: int|
        0 <= k < progress.len() ==> (lm_run::<S, F, B>(
            shape,
            layout,
            options,
            controls,
            states,
            factors,
            priors,
            initial,
            rounds,
            k + 1,
        ) matches Some(state) && #[trigger] progress[k] == state.statistics)
}

/// How a call ends after the given rounds and one more: with which outcome and diagnostics,
/// and at which estimates.
pub open spec fn lm_finished<
    S: StateSchema,
    F: FactorSchema<S, Scalar = S::Scalar>,
    B: DampedLeastSquaresBackend<Scalar = S::Scalar>,
>(
    shape: B::Shape,
    layout: &Layout,
    options: OptimizeOptions<S::Scalar>,
    controls: LmOptions<S::Scalar>,
    states: S,
    factors: F,
    priors: Priors<S::Scalar>,
    initial: LmState<S::Scalar>,
    rounds: Seq<LmRound<S, B>>,
    last: LmRound<S, B>,
    outcome: Result<OptimizeReport<S::Scalar>, SolverError>,
    statistics: LmStatistics<S::Scalar>,
    progress: Seq<LmStatistics<S::Scalar>>,
    estimates: S::Estimates,
) -> bool {
    let n = rounds.len() as int;
    lm_run::<S, F, B>(
        shape,
        layout,
        options,
        controls,
        states,
        factors,
        priors,
        initial,
        rounds,
        n,
    ) matches Some(state) && {
        let (verdict, after) = round_spec::<S, F, B>(
            shape,
            layout,
            options,
            controls,
            factors,
            state,
            last,
        );
        &&& lm_follows::<S, F, B>(
            shape,
            layout,
            options,
            controls,
            states,
            factors,
            priors,
            lm_estimates(states, rounds, n),
            state,
            last,
        )
        &&& estimates == last.states.accepted()
        &&& statistics == after.statistics
        &&& lm_progress::<S, F, B>(
            shape,
            layout,
            options,
            controls,
            states,
            factors,
            priors,
            initial,
            rounds,
            progress,
        )
        &&& match verdict {
            LmVerdict::Fail(error) => outcome == Err::<OptimizeReport<S::Scalar>, SolverError>(
                error,
            ),
            LmVerdict::Stop(reason) => outcome == Ok::<OptimizeReport<S::Scalar>, SolverError>(
                report_spec(initial.current, state.current, priors.constant, n as nat, reason),
            ),
            LmVerdict::Accept => false,
        }
    }
}

proof fn lemma_attempt_stable<S: StateSchema, F: FactorSchema<S, Scalar = S::Scalar>, B>(
    dimension: nat,
    options: OptimizeOptions<S::Scalar>,
    controls: LmOptions<S::Scalar>,
    factors: F,
    p: Priors<S::Scalar>,
    q: Priors<S::Scalar>,
    state: LmState<S::Scalar>,
    growth: S::Scalar,
    attempt: Attempt<S, B>,
)
    requires
        p.wf(),
        q.wf(),
        p.same_priors(&q),
    ensures
        attempt_spec(dimension, options, controls, factors, p, state, growth, attempt)
            == attempt_spec(dimension, options, controls, factors, q, state, growth, attempt),
{
    attempt.trial.lemma_reflexive(Set::empty());
    lemma_total_stable(attempt.trial, attempt.trial, factors, p, q);
}

proof fn lemma_retried_prefix<S: StateSchema, F: FactorSchema<S, Scalar = S::Scalar>, B>(
    dimension: nat,
    options: OptimizeOptions<S::Scalar>,
    controls: LmOptions<S::Scalar>,
    factors: F,
    priors: Priors<S::Scalar>,
    state: LmState<S::Scalar>,
    attempts: Seq<Attempt<S, B>>,
    longer: Seq<Attempt<S, B>>,
    n: int,
)
    requires
        n <= attempts.len(),
        n <= longer.len(),
        forall|a: int| 0 <= a < n ==> attempts[a] == #[trigger] longer[a],
    ensures
        retried(dimension, options, controls, factors, priors, state, attempts, n) == retried(
            dimension,
            options,
            controls,
            factors,
            priors,
            state,
            longer,
            n,
        ),
    decreases n,
{
    if n > 0 {
        lemma_retried_prefix(
            dimension,
            options,
            controls,
            factors,
            priors,
            state,
            attempts,
            longer,
            n - 1,
        );
        assert(attempts[n - 1] == longer[n - 1]);
    }
}

/// One more attempt under the damping that was reached.
proof fn lemma_asked<
    S: StateSchema,
    F: FactorSchema<S, Scalar = S::Scalar>,
    B: DampedLeastSquaresBackend<Scalar = S::Scalar>,
>(
    dimension: nat,
    options: OptimizeOptions<S::Scalar>,
    controls: LmOptions<S::Scalar>,
    factors: F,
    priors: Priors<S::Scalar>,
    begun: LmState<S::Scalar>,
    scaled: B,
    attempts: Seq<Attempt<S, B>>,
    attempt: Attempt<S, B>,
)
    requires
        forall|a: int|
            0 <= a < attempts.len() ==> #[trigger] asked(
                dimension,
                options,
                controls,
                factors,
                priors,
                begun,
                scaled,
                attempts,
                a,
            ),
        attempt.before == if attempts.len() == 0 {
            scaled
        } else {
            attempts.last().after
        },
        retried(
            dimension,
            options,
            controls,
            factors,
            priors,
            begun,
            attempts,
            attempts.len() as int,
        ) matches Some((state, _)) && B::answers_damped(
            attempt.before,
            attempt.after,
            state.lambda,
            attempt.answer,
        ),
    ensures
        forall|a: int|
            0 <= a <= attempts.len() ==> #[trigger] asked(
                dimension,
                options,
                controls,
                factors,
                priors,
                begun,
                scaled,
                attempts.push(attempt),
                a,
            ),
{
    let longer = attempts.push(attempt);
    assert forall|a: int| 0 <= a <= attempts.len() implies #[trigger] asked(
        dimension,
        options,
        controls,
        factors,
        priors,
        begun,
        scaled,
        longer,
        a,
    ) by {
        lemma_retried_prefix(
            dimension,
            options,
            controls,
            factors,
            priors,
            begun,
            attempts,
            longer,
            a,
        );
        if a < attempts.len() {
            assert(asked(
                dimension,
                options,
                controls,
                factors,
                priors,
                begun,
                scaled,
                attempts,
                a,
            ));
        }
    }
}

/// The state in which a call begins its rounds.
pub open spec fn opening_state<R: Real>(controls: LmOptions<R>, initial: R, constant: R) -> LmState<
    R,
> {
    LmState {
        statistics: LmStatistics {
            damping: controls.initial_damping,
            cost_evaluations: 1,
            cost: Some(initial.plus_spec(constant)),
            ..LmStatistics::blank_spec()
        },
        lambda: controls.initial_damping,
        current: initial,
        stalled: false,
    }
}

proof fn lemma_lm_prefix<
    S: StateSchema,
    F: FactorSchema<S, Scalar = S::Scalar>,
    B: DampedLeastSquaresBackend<Scalar = S::Scalar>,
>(
    shape: B::Shape,
    layout: &Layout,
    options: OptimizeOptions<S::Scalar>,
    controls: LmOptions<S::Scalar>,
    states: S,
    factors: F,
    priors: Priors<S::Scalar>,
    initial: LmState<S::Scalar>,
    rounds: Seq<LmRound<S, B>>,
    longer: Seq<LmRound<S, B>>,
    n: int,
)
    requires
        n <= rounds.len(),
        n <= longer.len(),
        forall|k: int| 0 <= k < n ==> rounds[k] == #[trigger] longer[k],
    ensures
        lm_run::<S, F, B>(
            shape,
            layout,
            options,
            controls,
            states,
            factors,
            priors,
            initial,
            rounds,
            n,
        ) == lm_run::<S, F, B>(
            shape,
            layout,
            options,
            controls,
            states,
            factors,
            priors,
            initial,
            longer,
            n,
        ),
    decreases n,
{
    if n > 0 {
        lemma_lm_prefix::<S, F, B>(
            shape,
            layout,
            options,
            controls,
            states,
            factors,
            priors,
            initial,
            rounds,
            longer,
            n - 1,
        );
        assert(rounds[n - 1] == longer[n - 1]);
        assert(n > 1 ==> rounds[n - 2] == longer[n - 2]);
    }
}

proof fn lemma_lm_progress<
    S: StateSchema,
    F: FactorSchema<S, Scalar = S::Scalar>,
    B: DampedLeastSquaresBackend<Scalar = S::Scalar>,
>(
    shape: B::Shape,
    layout: &Layout,
    options: OptimizeOptions<S::Scalar>,
    controls: LmOptions<S::Scalar>,
    states: S,
    factors: F,
    priors: Priors<S::Scalar>,
    initial: LmState<S::Scalar>,
    rounds: Seq<LmRound<S, B>>,
    round: LmRound<S, B>,
    progress: Seq<LmStatistics<S::Scalar>>,
    after: LmState<S::Scalar>,
)
    requires
        lm_progress::<S, F, B>(
            shape,
            layout,
            options,
            controls,
            states,
            factors,
            priors,
            initial,
            rounds,
            progress,
        ),
        lm_run::<S, F, B>(
            shape,
            layout,
            options,
            controls,
            states,
            factors,
            priors,
            initial,
            rounds.push(round),
            rounds.len() as int + 1,
        ) == Some(after),
    ensures
        lm_progress::<S, F, B>(
            shape,
            layout,
            options,
            controls,
            states,
            factors,
            priors,
            initial,
            rounds.push(round),
            progress.push(after.statistics),
        ),
{
    let longer = rounds.push(round);
    let shown = progress.push(after.statistics);
    assert forall|k: int| 0 <= k < shown.len() implies (lm_run::<S, F, B>(
        shape,
        layout,
        options,
        controls,
        states,
        factors,
        priors,
        initial,
        longer,
        k + 1,
    ) matches Some(state) && #[trigger] shown[k] == state.statistics) by {
        if k < rounds.len() {
            lemma_lm_prefix::<S, F, B>(
                shape,
                layout,
                options,
                controls,
                states,
                factors,
                priors,
                initial,
                rounds,
                longer,
                k + 1,
            );
            assert(shown[k] == progress[k]);
        }
    }
}

/// Levenberg-Marquardt over a replaceable damped backend.
///
/// One linearization serves all attempts that follow it. Only steps that strictly decrease
/// the cost, and agree with the model, are accepted; a rejected trial leaves the accepted
/// estimates alone. Only a small gradient is convergence: a small accepted step leads to a
/// fresh gradient check, and to `NoProgress` if that fails.
pub struct LevenbergMarquardt<B: LeastSquaresBackend> {
    pub options: LmOptions<B::Scalar>,
    pub work: Workspace<B>,
    pub statistics: LmStatistics<B::Scalar>,
    /// The diagnostics right after each accepted step of the most recent call.
    pub progress: Vec<LmStatistics<B::Scalar>>,
}

/// How an optimization ends, from what it started with.
pub open spec fn optimized<
    S: StateSchema,
    F: FactorSchema<S, Scalar = S::Scalar>,
    B: DampedLeastSquaresBackend<Scalar = S::Scalar>,
>(
    before: LevenbergMarquardt<B>,
    after: LevenbergMarquardt<B>,
    states: S,
    factors: F,
    priors: Priors<S::Scalar>,
    options: OptimizeOptions<S::Scalar>,
    outcome: Result<OptimizeReport<S::Scalar>, SolverError>,
    accepted: S::Estimates,
) -> bool {
    &&& !options.valid() || !before.options.valid() ==> {
        &&& outcome == Err::<OptimizeReport<S::Scalar>, SolverError>(
            SolverError::InvalidOptions,
        )
        &&& after.statistics == LmStatistics::<S::Scalar>::blank_spec()
        &&& after.progress@.len() == 0
        &&& accepted == states.accepted()
    }
    &&& options.valid() && before.options.valid() ==> match opened_spec(
        before.work.backend,
        states,
        factors,
        priors,
    ) {
        Err(error) => {
            &&& outcome == Err::<OptimizeReport<S::Scalar>, SolverError>(error)
            &&& after.statistics == (LmStatistics {
                damping: before.options.initial_damping,
                cost_evaluations: if prepared_spec(before.work.backend, states, factors) is Ok {
                    1
                } else {
                    0
                },
                ..LmStatistics::<S::Scalar>::blank_spec()
            })
            &&& after.progress@.len() == 0
            &&& accepted == states.accepted()
        },
        Ok(initial) => {
            let state = opening_state(before.options, initial, priors.constant);
            if width_sum(states.blocks()) == 0 {
                &&& outcome == Ok::<OptimizeReport<S::Scalar>, SolverError>(
                    report_spec(
                        initial,
                        initial,
                        priors.constant,
                        0,
                        TerminationReason::NoVariables,
                    ),
                )
                &&& after.statistics == state.statistics
                &&& after.progress@.len() == 0
                &&& accepted == states.accepted()
            } else {
                &&& laid_out(&after.work.layout, &states, &factors)
                &&& exists|rounds: Seq<LmRound<S, B>>, last: LmRound<S, B>| #[trigger]
                    lm_finished::<S, F, B>(
                        before.work.backend.shape(),
                        &after.work.layout,
                        options,
                        before.options,
                        states,
                        factors,
                        priors,
                        state,
                        rounds,
                        last,
                        outcome,
                        after.statistics,
                        after.progress@,
                        accepted,
                    )
            }
        },
    }
}

impl<B: DampedLeastSquaresBackend> LevenbergMarquardt<B> {
    /// A reusable optimizer over the given backend, with default controls.
    pub fn new(backend: B) -> (method: Self)
        requires
            backend.wf(),
        ensures
            method.work.wf(),
            method.work.backend == backend,
            method.statistics == LmStatistics::<B::Scalar>::blank_spec(),
            method.progress@.len() == 0,
            method.options == LmOptions::<B::Scalar>::defaults_spec(),
    {
        LevenbergMarquardt {
            options: LmOptions::defaults(),
            work: Workspace::new(backend),
            statistics: LmStatistics::blank(),
            progress: Vec::new(),
        }
    }

    /// Diagnostics of the most recent call.
    pub fn statistics(&self) -> (statistics: LmStatistics<B::Scalar>)
        ensures
            statistics == self.statistics,
    {
        self.statistics
    }

    /// The backend, for its diagnostics.
    pub fn backend(&self) -> (backend: &B)
        ensures
            *backend == self.work.backend,
    {
        &self.work.backend
    }

    /// Solve under the current damping and try the step.
    fn attempt<S: StateSchema<Scalar = B::Scalar>, F: FactorSchema<S, Scalar = B::Scalar>>(
        &mut self,
        states: &mut S,
        factors: &F,
        priors: &mut Priors<B::Scalar>,
        options: &OptimizeOptions<B::Scalar>,
        state: LmState<B::Scalar>,
        growth: B::Scalar,
    ) -> (result: (AttemptEnd<B::Scalar>, Ghost<Attempt<S, B>>))
        requires
            old(self).work.prepared(old(states), factors),
            old(self).work.backend.usable(),
            old(states).wf(),
            old(states).idle(),
            old(states).current() == old(states).accepted(),
            factors.wf(),
            old(priors).wf(),
        ensures
            final(self).work.prepared(final(states), factors),
            final(self).work.backend.usable(),
            final(self).work.layout == old(self).work.layout,
            final(self).work.backend.shape() == old(self).work.backend.shape(),
            final(self).work.backend.model() == old(self).work.backend.model(),
            final(self).options == old(self).options,
            final(self).progress == old(self).progress,
            final(states).wf(),
            final(states).idle(),
            final(states).same_graph(old(states)),
            final(states).blocks() == old(states).blocks(),
            final(states).current() == final(states).accepted(),
            final(states).accepted() == if result.0 is Accepted {
                result.1@.trial.current()
            } else {
                old(states).accepted()
            },
            final(self).work.current == (old(self).work.current && !(result.0 is Accepted)),
            forall|model: B::Model|
                old(self).work.backend.keeps(model) ==> #[trigger] final(self).work.backend.keeps(
                    model,
                ),
            final(priors).wf(),
            final(priors).same_priors(old(priors)),
            tries(old(self).work.layout.dimension as nat, result.1@.answer) matches Some(delta)
                ==> {
                &&& result.1@.trial.same_graph(old(states))
                &&& result.1@.trial.current() == old(states).moved(delta)
            },
            result.1@.before == old(self).work.backend,
            result.1@.after == final(self).work.backend,
            B::answers_damped(
                result.1@.before,
                result.1@.after,
                state.lambda,
                result.1@.answer,
            ),
            result.0 == attempt_spec(
                old(self).work.layout.dimension as nat,
                *options,
                old(self).options,
                *factors,
                *old(priors),
                state,
                growth,
                result.1@,
            ),
    {
        proof {
            states.lemma_reflexive(Set::empty());
        }
        let begun = state.attempted();
        let ghost before = self.work.backend;
        let step = match self.work.backend.solve_damped(state.lambda) {
            Ok(step) => step,
            Err(error) => {
                let ghost failed = Attempt {
                    before,
                    after: self.work.backend,
                    answer: Err(error),
                    trial: *states,
                };
                return match error {
                    SolverError::LinearSolveFailed => (
                        begun.rejected(&self.options, growth, TrialFailure::LinearSolve),
                        Ghost(failed),
                    ),
                    _ => (AttemptEnd::Fail(error, begun), Ghost(failed)),
                };
            },
        };
        let delta = step.delta;
        let predicted = step.predicted_reduction;
        let ghost untried = Attempt {
            before,
            after: self.work.backend,
            answer: Ok((delta@, predicted)),
            trial: *states,
        };
        if delta.len() != self.work.layout.dimension {
            return (
                AttemptEnd::Fail(
                    SolverError::Evaluation(EvaluationError::DimensionMismatch),
                    begun,
                ),
                Ghost(untried),
            );
        }
        let norm = match norm_inf(delta.as_slice()) {
            Ok(norm) => norm,
            Err(_) => {
                return (AttemptEnd::Fail(SolverError::LinearSolveFailed, begun), Ghost(untried));
            },
        };
        let mut solved = begun;
        solved.statistics.step_norm = Some(norm);
        assert(solved == begun.solved_spec(norm));
        if !predicted.is_finite() || predicted.at_most(<B::Scalar as Real>::zero()) {
            return (
                solved.rejected(&self.options, growth, TrialFailure::Prediction),
                Ghost(untried),
            );
        }
        match states.stage(delta.as_slice(), 0) {
            Ok(_) => {},
            Err(_) => {
                assert(false);
            },
        }
        assert(delta@.subrange(0, delta@.len() as int) =~= delta@);
        let mut evaluated = solved;
        evaluated.statistics.cost_evaluations =
        evaluated.statistics.cost_evaluations.wrapping_add(1);
        assert(evaluated == solved.evaluated_spec());
        let ghost tried = Attempt { trial: *states, ..untried };
        let value = checked_total(states, factors, priors);
        let end = match value {
            Err(SolverError::Evaluation(EvaluationError::InvalidEvaluation)) => evaluated.rejected(
                &self.options,
                growth,
                TrialFailure::InvalidEvaluation,
            ),
            Err(error) => AttemptEnd::Fail(error, evaluated),
            Ok(value) => evaluated.weighed(
                options,
                &self.options,
                priors.constant,
                growth,
                norm,
                predicted,
                value,
            ),
        };
        if let AttemptEnd::Accepted(_) = end {
            states.accept();
            self.work.current = false;
        } else {
            states.reject();
        }
        proof {
            S::lemma_same_graph(states, &tried.trial, old(states));
        }
        (end, Ghost(tried))
    }

    /// Linearize, check for convergence, and attempt steps until one is accepted.
    fn round<S: StateSchema<Scalar = B::Scalar>, F: FactorSchema<S, Scalar = B::Scalar>>(
        &mut self,
        states: &mut S,
        factors: &F,
        priors: &mut Priors<B::Scalar>,
        options: &OptimizeOptions<B::Scalar>,
        state: LmState<B::Scalar>,
    ) -> (result: ((LmVerdict, LmState<B::Scalar>), Ghost<LmRound<S, B>>))
        requires
            old(self).work.prepared(old(states), factors),
            old(self).options.valid(),
            old(states).wf(),
            old(states).idle(),
            old(states).current() == old(states).accepted(),
            factors.wf(),
            old(priors).wf(),
        ensures
            final(self).work.prepared(final(states), factors),
            final(self).work.layout == old(self).work.layout,
            final(self).work.backend.shape() == old(self).work.backend.shape(),
            final(self).options == old(self).options,
            final(self).progress == old(self).progress,
            final(states).wf(),
            final(states).idle(),
            final(states).same_graph(old(states)),
            final(states).blocks() == old(states).blocks(),
            final(states).current() == final(states).accepted(),
            final(states).accepted() == if result.0.0 is Accept {
                result.1@.attempts.last().trial.current()
            } else {
                old(states).accepted()
            },
            final(priors).wf(),
            final(priors).same_priors(old(priors)),
            result.1@.states == *old(states),
            result.1@.priors == *old(priors),
            result.0.0 is Accept ==> !final(self).work.current,
            final(self).work.current ==> at_hand(
                final(self).work,
                *old(states),
                *factors,
                *old(priors),
            ),
            lm_follows::<S, F, B>(
                old(self).work.backend.shape(),
                &old(self).work.layout,
                *options,
                old(self).options,
                *old(states),
                *factors,
                *old(priors),
                old(states).accepted(),
                state,
                result.1@,
            ),
            result.0 == round_spec::<S, F, B>(
                old(self).work.backend.shape(),
                &old(self).work.layout,
                *options,
                old(self).options,
                *factors,
                state,
                result.1@,
            ),
            result.0.0 is Accept ==> total_spec(
                result.1@.attempts.last().trial,
                *factors,
                *old(priors),
            ) == Ok::<B::Scalar, SolverError>(result.0.1.current)
                && result.0.1.statistics.accepted_steps
                == state.statistics.accepted_steps.wrapping_add(1)
                && state.statistics.accepted_steps != options.max_iterations,
    {
        proof {
            states.lemma_reflexive(Set::empty());
        }
        let ghost unasked = LmRound {
            states: *states,
            priors: *priors,
            backend: self.work.backend,
            scaled: self.work.backend,
            damping: Ok(()),
            attempts: Seq::empty(),
        };
        let mut now = state;
        now.statistics.linearizations = now.statistics.linearizations.wrapping_add(1);
        match self.work.linearize(states, factors, priors) {
            Ok(_) => {},
            Err(error) => {
                return ((LmVerdict::Fail(error), now), Ghost(unasked));
            },
        }
        let gradient = match self.work.backend.gradient_norm() {
            Ok(gradient) => gradient,
            Err(error) => {
                return ((LmVerdict::Fail(error), now), Ghost(unasked));
            },
        };
        now.statistics.gradient_norm = Some(gradient);
        if gradient.at_most(options.gradient_tolerance) {
            return ((LmVerdict::Stop(TerminationReason::GradientTolerance), now), Ghost(unasked));
        }
        if now.stalled {
            return ((LmVerdict::Fail(SolverError::NoProgress), now), Ghost(unasked));
        }
        if now.statistics.accepted_steps == options.max_iterations {
            return ((LmVerdict::Fail(SolverError::NoConvergence), now), Ghost(unasked));
        }
        let ghost backend = self.work.backend;
        let damping = self.work.backend.prepare_damping(self.options.min_column_norm);
        match damping {
            Ok(_) => {},
            Err(error) => {
                return (
                    (LmVerdict::Fail(error), now),
                    Ghost(
                        LmRound {
                            backend,
                            scaled: self.work.backend,
                            damping,
                            ..unasked
                        },
                    ),
                );
            },
        }
        let ghost scaled = self.work.backend;
        let ghost blank = LmRound { backend, scaled, damping, ..unasked };
        let ghost layout = self.work.layout;
        let ghost shape = self.work.backend.shape();
        let ghost dimension = layout.dimension as nat;
        let ghost controls = self.options;
        let ghost begun = now;
        let ghost mut attempts: Seq<Attempt<S, B>> = Seq::empty();
        assert(checked_spec::<S, F, B>(shape, &layout, *options, *factors, state, blank) == Ok::<
            LmState<B::Scalar>,
            (LmVerdict, LmState<B::Scalar>),
        >(begun));
        let mut growth = <B::Scalar as Real>::ratio(2, 1);
        let mut trial: usize = 0;
        while trial < self.options.max_trials
            invariant
                self.options == controls,
                self.progress == old(self).progress,
                controls == old(self).options,
                controls.valid(),
                self.work.prepared(states, factors),
                self.work.layout == layout,
                self.work.backend.shape() == shape,
                layout == old(self).work.layout,
                shape == old(self).work.backend.shape(),
                dimension == layout.dimension,
                states.wf(),
                states.idle(),
                states.same_graph(old(states)),
                states.blocks() == old(states).blocks(),
                states.current() == states.accepted(),
                states.accepted() == old(states).accepted(),
                factors.wf(),
                priors.wf(),
                priors.same_priors(old(priors)),
                old(priors).wf(),
                blank.states == *old(states),
                blank.priors == *old(priors),
                blank.damping is Ok,
                blank.scaled == scaled,
                derived::<S, F, B>(shape, &layout, *options, controls, *factors, state, blank),
                at_hand(self.work, *old(states), *factors, *old(priors)),
                self.work.backend == if trial == 0 {
                    scaled
                } else {
                    attempts[trial - 1].after
                },
                forall|a: int|
                    0 <= a < attempts.len() ==> #[trigger] asked(
                        dimension,
                        *options,
                        controls,
                        *factors,
                        *old(priors),
                        begun,
                        scaled,
                        attempts,
                        a,
                    ),
                old(states).same_graph(old(states)),
                old(states).current() == old(states).accepted(),
                state.statistics.accepted_steps != options.max_iterations,
                begun.statistics.accepted_steps == state.statistics.accepted_steps,
                trial <= controls.max_trials,
                attempts.len() == trial,
                forall|a: int|
                    0 <= a < attempts.len() ==> stages(
                        dimension,
                        *old(states),
                        #[trigger] attempts[a],
                    ),
                retried(
                    dimension,
                    *options,
                    controls,
                    *factors,
                    *old(priors),
                    begun,
                    attempts,
                    trial as int,
                ) == Some((now, growth)),
                now.statistics.accepted_steps == begun.statistics.accepted_steps,
                trial > 0 ==> attempts_end(
                    dimension,
                    *options,
                    controls,
                    *factors,
                    *old(priors),
                    begun,
                    attempts,
                ) == Some(AttemptEnd::Retry(now, growth)),
                checked_spec::<S, F, B>(shape, &layout, *options, *factors, state, blank) == Ok::<
                    LmState<B::Scalar>,
                    (LmVerdict, LmState<B::Scalar>),
                >(begun),
            decreases controls.max_trials - trial,
        {
            let ghost before = *states;
            let ghost used = *priors;
            let (end, Ghost(attempt)) = self.attempt(states, factors, priors, options, now, growth);
            let ghost longer = attempts.push(attempt);
            let ghost round = LmRound { attempts: longer, ..blank };
            proof {
                S::lemma_same_graph(states, &before, old(states));
                lemma_attempt_stable(
                    dimension,
                    *options,
                    controls,
                    *factors,
                    used,
                    *old(priors),
                    now,
                    growth,
                    attempt,
                );
                lemma_retried_prefix(
                    dimension,
                    *options,
                    controls,
                    *factors,
                    *old(priors),
                    begun,
                    attempts,
                    longer,
                    trial as int,
                );
                assert(stages(dimension, *old(states), attempt)) by {
                    if let Some(delta) = tries(dimension, attempt.answer) {
                        S::lemma_same_graph(&attempt.trial, &before, old(states));
                        before.lemma_moved(old(states), delta);
                    }
                }
                assert(attempts_end(
                    dimension,
                    *options,
                    controls,
                    *factors,
                    *old(priors),
                    begun,
                    longer,
                ) == Some(end));
                lemma_asked(
                    dimension,
                    *options,
                    controls,
                    *factors,
                    *old(priors),
                    begun,
                    scaled,
                    attempts,
                    attempt,
                );
                assert(checked_spec::<S, F, B>(shape, &layout, *options, *factors, state, round) == Ok::<
                    LmState<B::Scalar>,
                    (LmVerdict, LmState<B::Scalar>),
                >(begun));
                attempts = longer;
            }
            match end {
                AttemptEnd::Fail(error, after) => {
                    return ((LmVerdict::Fail(error), after), Ghost(round));
                },
                AttemptEnd::Exhausted(after) => {
                    return ((LmVerdict::Fail(SolverError::NoProgress), after), Ghost(round));
                },
                AttemptEnd::Accepted(after) => {
                    return ((LmVerdict::Accept, after), Ghost(round));
                },
                AttemptEnd::Retry(after, grown) => {
                    now = after;
                    growth = grown;
                },
            }
            trial += 1;
        }
        let ghost round = LmRound { attempts, ..blank };
        assert(checked_spec::<S, F, B>(shape, &layout, *options, *factors, state, round) == Ok::<
            LmState<B::Scalar>,
            (LmVerdict, LmState<B::Scalar>),
        >(begun));
        ((LmVerdict::Fail(SolverError::NoProgress), now), Ghost(round))
    }

    /// Optimize to convergence.
    ///
    /// Unless the call fails early, it runs rounds of one linearization and some attempts
    /// each; how they end depends on what the backend answers.
    #[verifier::rlimit(50)]
    pub fn optimize<S: StateSchema<Scalar = B::Scalar>, F: FactorSchema<S, Scalar = B::Scalar>>(
        &mut self,
        states: &mut S,
        factors: &F,
        priors: &mut Priors<B::Scalar>,
        options: &OptimizeOptions<B::Scalar>,
    ) -> (outcome: Result<OptimizeReport<B::Scalar>, SolverError>)
        requires
            old(self).work.wf(),
            old(states).wf(),
            old(states).idle(),
            old(states).current() == old(states).accepted(),
            factors.wf(),
            old(priors).wf(),
        ensures
            final(self).work.wf(),
            final(self).options == old(self).options,
            final(states).wf(),
            final(states).idle(),
            final(states).same_graph(old(states)),
            final(states).blocks() == old(states).blocks(),
            final(states).current() == final(states).accepted(),
            final(priors).wf(),
            final(priors).same_priors(old(priors)),
            optimized(
                *old(self),
                *final(self),
                *old(states),
                *factors,
                *old(priors),
                *options,
                outcome,
                final(states).accepted(),
            ),
            outcome is Ok ==> {
                &&& final(self).work.prepared(final(states), factors)
                &&& up_to_date(final(self).work, *final(states), *factors, *final(priors))
            },
            outcome matches Ok(report) ==> {
                &&& report.iterations <= options.max_iterations
                &&& report.iterations == final(self).statistics.accepted_steps
                &&& cost_spec(*final(states), *factors, *final(priors)) matches Ok(cost)
                    && report.final_cost == cost.plus_spec(old(priors).constant)
            },
    {
        proof {
            old(states).lemma_reflexive(Set::empty());
        }
        self.statistics = LmStatistics::blank();
        self.progress = Vec::new();
        match options.validate() {
            Ok(_) => {},
            Err(error) => {
                return Err(error);
            },
        }
        match self.options.validate() {
            Ok(_) => {},
            Err(error) => {
                return Err(error);
            },
        }
        self.statistics.damping = self.options.initial_damping;
        match self.work.prepare(states, factors) {
            Ok(_) => {},
            Err(error) => {
                return Err(error);
            },
        }
        self.statistics.cost_evaluations = 1;
        proof {
            lemma_total_stable(*states, *old(states), *factors, *priors, *old(priors));
        }
        let initial = match checked_total(states, factors, priors) {
            Ok(initial) => initial,
            Err(error) => {
                return Err(error);
            },
        };
        let constant = priors.constant;
        self.statistics.cost = Some(initial.plus(constant));
        let mut state = LmState {
            statistics: self.statistics,
            lambda: self.options.initial_damping,
            current: initial,
            stalled: false,
        };
        let ghost begun = state;
        assert(begun == opening_state(old(self).options, initial, constant));
        proof {
            lemma_total_stable(*states, *old(states), *factors, *priors, *old(priors));
        }
        if self.work.layout.dimension == 0 {
            return Ok(
                OptimizeReport {
                    iterations: 0,
                    initial_cost: initial.plus(constant),
                    final_cost: initial.plus(constant),
                    termination: TerminationReason::NoVariables,
                },
            );
        }
        let ghost layout = self.work.layout;
        let ghost shape = self.work.backend.shape();
        let ghost controls = self.options;
        let ghost mut rounds: Seq<LmRound<S, B>> = Seq::empty();
        loop
            invariant
                options.valid(),
                controls.valid(),
                self.options == controls,
                controls == old(self).options,
                self.work.prepared(states, factors),
                self.work.layout == layout,
                self.work.backend.shape() == shape,
                shape == old(self).work.backend.shape(),
                states.wf(),
                states.idle(),
                states.same_graph(old(states)),
                states.blocks() == old(states).blocks(),
                states.current() == states.accepted(),
                factors.wf(),
                priors.wf(),
                priors.same_priors(old(priors)),
                old(priors).wf(),
                constant == old(priors).constant,
                width_sum(old(states).blocks()) != 0,
                opened_spec(
                    old(self).work.backend,
                    *old(states),
                    *factors,
                    *old(priors),
                ) == Ok::<B::Scalar, SolverError>(initial),
                begun == opening_state(controls, initial, constant),
                state.statistics.accepted_steps == rounds.len(),
                rounds.len() <= options.max_iterations,
                states.accepted() == lm_estimates(*old(states), rounds, rounds.len() as int),
                total_spec(*states, *factors, *priors) == Ok::<B::Scalar, SolverError>(
                    state.current,
                ),
                lm_run::<S, F, B>(
                    shape,
                    &layout,
                    *options,
                    controls,
                    *old(states),
                    *factors,
                    *old(priors),
                    begun,
                    rounds,
                    rounds.len() as int,
                ) == Some(state),
                lm_progress::<S, F, B>(
                    shape,
                    &layout,
                    *options,
                    controls,
                    *old(states),
                    *factors,
                    *old(priors),
                    begun,
                    rounds,
                    self.progress@,
                ),
            decreases options.max_iterations - rounds.len(),
        {
            let ghost before = *states;
            let ghost used = *priors;
            let ((verdict, after), Ghost(round)) = self.round(
                states,
                factors,
                priors,
                options,
                state,
            );
            self.statistics = after.statistics;
            proof {
                S::lemma_same_graph(states, &before, old(states));
            }
            assert(lm_follows::<S, F, B>(
                shape,
                &layout,
                *options,
                controls,
                *old(states),
                *factors,
                *old(priors),
                lm_estimates(*old(states), rounds, rounds.len() as int),
                state,
                round,
            ));
            match verdict {
                LmVerdict::Fail(error) => {
                    let outcome: Result<OptimizeReport<B::Scalar>, SolverError> = Err(error);
                    assert(lm_finished::<S, F, B>(
                        self.work.backend.shape(),
                        &self.work.layout,
                        *options,
                        old(self).options,
                        *old(states),
                        *factors,
                        *old(priors),
                        opening_state(old(self).options, initial, old(priors).constant),
                        rounds,
                        round,
                        outcome,
                        self.statistics,
                        self.progress@,
                        states.accepted(),
                    ));
                    return outcome;
                },
                LmVerdict::Stop(termination) => {
                    proof {
                        S::lemma_same_graph(states, &before, states);
                        lemma_total_stable(*states, before, *factors, *priors, used);
                        assert(same_problem(before, *states, used, *priors));
                    }
                    let outcome = Ok(
                        OptimizeReport {
                            iterations: after.statistics.accepted_steps,
                            initial_cost: initial.plus(constant),
                            final_cost: after.current.plus(constant),
                            termination,
                        },
                    );
                    assert(lm_finished::<S, F, B>(
                        self.work.backend.shape(),
                        &self.work.layout,
                        *options,
                        old(self).options,
                        *old(states),
                        *factors,
                        *old(priors),
                        opening_state(old(self).options, initial, old(priors).constant),
                        rounds,
                        round,
                        outcome,
                        self.statistics,
                        self.progress@,
                        states.accepted(),
                    ));
                    return outcome;
                },
                LmVerdict::Accept => {
                    proof {
                        let tried = round.attempts.last().trial;
                        S::lemma_same_graph(&tried, &before, states);
                        S::lemma_same_graph(states, &before, &tried);
                        lemma_total_stable(*states, tried, *factors, *priors, round.priors);
                        let longer = rounds.push(round);
                        lemma_lm_prefix::<S, F, B>(
                            shape,
                            &layout,
                            *options,
                            controls,
                            *old(states),
                            *factors,
                            *old(priors),
                            begun,
                            rounds,
                            longer,
                            rounds.len() as int,
                        );
                        assert(rounds.len() > 0 ==> longer[rounds.len() - 1] == rounds.last());
                        lemma_lm_progress::<S, F, B>(
                            shape,
                            &layout,
                            *options,
                            controls,
                            *old(states),
                            *factors,
                            *old(priors),
                            begun,
                            rounds,
                            round,
                            self.progress@,
                            after,
                        );
                        rounds = longer;
                    }
                    state = after;
                    self.progress.push(after.statistics);
                },
            }
        }
    }
}

/// A step is accepted only if it strictly decreases the objective, and by enough for what was
/// predicted; the state then holds the objective of its trial.
pub proof fn lemma_accepted_decreases<S: StateSchema, F: FactorSchema<S, Scalar = S::Scalar>, B>(
    dimension: nat,
    options: OptimizeOptions<S::Scalar>,
    controls: LmOptions<S::Scalar>,
    factors: F,
    priors: Priors<S::Scalar>,
    state: LmState<S::Scalar>,
    growth: S::Scalar,
    attempt: Attempt<S, B>,
)
    requires
        attempt_spec(dimension, options, controls, factors, priors, state, growth, attempt)
            is Accepted,
    ensures
        ({
            let after = attempt_spec(
                dimension,
                options,
                controls,
                factors,
                priors,
                state,
                growth,
                attempt,
            )->Accepted_0;
            let decrease = state.current.minus_spec(after.current);
            &&& <S::Scalar as Real>::zero_spec().below_spec(decrease)
            &&& attempt.answer is Ok
            &&& controls.acceptance_threshold.at_most_spec(
                decrease.over_spec(attempt.answer->Ok_0.1).min_spec(
                    <S::Scalar as Real>::ratio_spec(2, 1),
                ),
            )
            &&& total_spec(attempt.trial, factors, priors) == Ok::<S::Scalar, SolverError>(
                after.current,
            )
        }),
{
}

/// A damping held to its bounds.
pub open spec fn held<R: Real>(controls: LmOptions<R>, lambda: R) -> R {
    lambda.max_spec(controls.min_damping).min_spec(controls.max_damping)
}

/// What becomes of a trial that was evaluated, over an ordered field. It is accepted exactly if
/// its cost is lower, by at least the threshold's share of what was predicted. The damping then
/// falls to a third where the decrease was all that was predicted, stays where it was half of
/// that, and does not rise where it was more than half, each held to its bounds. A trial that is
/// not accepted leaves more damping, unless that is at its upper bound already.
pub proof fn lemma_trial_decides<S: StateSchema, F: FactorSchema<S, Scalar = S::Scalar>, B>(
    dimension: nat,
    options: OptimizeOptions<S::Scalar>,
    controls: LmOptions<S::Scalar>,
    factors: F,
    priors: Priors<S::Scalar>,
    state: LmState<S::Scalar>,
    growth: S::Scalar,
    attempt: Attempt<S, B>,
    predicted: S::Scalar,
    value: S::Scalar,
)
    requires
        ordered_field::<S::Scalar>(),
        controls.valid(),
        <S::Scalar as Real>::zero_spec().below_spec(state.lambda),
        state.lambda.at_most_spec(controls.max_damping),
        <S::Scalar as Real>::one_spec().below_spec(growth),
        tries(dimension, attempt.answer) is Some,
        attempt.answer->Ok_0.1 == predicted,
        total_spec(attempt.trial, factors, priors) == Ok::<S::Scalar, SolverError>(value),
    ensures
        ({
            let decrease = state.current.minus_spec(value);
            let half = <S::Scalar as Real>::ratio_spec(1, 2);
            let third = <S::Scalar as Real>::ratio_spec(1, 3);
            let end = attempt_spec(
                dimension,
                options,
                controls,
                factors,
                priors,
                state,
                growth,
                attempt,
            );
            &&& end is Accepted <==> value.below_spec(state.current)
                && controls.acceptance_threshold.times_spec(predicted).at_most_spec(decrease)
            &&& match end {
                AttemptEnd::Fail(_, _) => false,
                AttemptEnd::Accepted(after) => {
                    &&& after.current == value
                    &&& after.statistics.cost == Some(value.plus_spec(priors.constant))
                    &&& predicted.at_most_spec(decrease) ==> after.lambda == held(
                        controls,
                        state.lambda.times_spec(third),
                    )
                    &&& decrease == half.times_spec(predicted) ==> after.lambda == held(
                        controls,
                        state.lambda,
                    )
                    &&& half.times_spec(predicted).at_most_spec(decrease)
                        ==> after.lambda.at_most_spec(
                        state.lambda.max_spec(controls.min_damping),
                    )
                },
                AttemptEnd::Retry(after, next) => {
                    &&& after.current == state.current
                    &&& state.lambda != controls.max_damping
                    &&& state.lambda.below_spec(after.lambda)
                    &&& after.lambda.at_most_spec(controls.max_damping)
                    &&& after.lambda.at_most_spec(state.lambda.times_spec(growth))
                    &&& after.lambda == controls.max_damping || after.lambda
                        == state.lambda.times_spec(growth)
                    &&& next == growth.plus_spec(growth).min_spec(
                        controls.max_damping.max_spec(
                            <S::Scalar as Real>::one_spec().plus_spec(
                                <S::Scalar as Real>::one_spec(),
                            ),
                        ),
                    )
                },
                AttemptEnd::Exhausted(after) => {
                    &&& after.current == state.current
                    &&& state.lambda == controls.max_damping
                    &&& after.lambda == state.lambda
                },
            }
        }),
{
    let zero = <S::Scalar as Real>::zero_spec();
    let one = <S::Scalar as Real>::one_spec();
    let two = <S::Scalar as Real>::ratio_spec(2, 1);
    let half = <S::Scalar as Real>::ratio_spec(1, 2);
    let threshold = controls.acceptance_threshold;
    let decrease = state.current.minus_spec(value);
    let quotient = decrease.over_spec(predicted);
    let gain = quotient.min_spec(two);
    lemma_small_ratios::<S::Scalar>();
    lemma_order(zero, predicted, zero);
    lemma_order(predicted, zero, zero);
    lemma_negate_order(value, state.current);
    lemma_order(threshold, one, two);
    lemma_order(one, threshold, two);
    lemma_order(one, two, zero);
    lemma_order(quotient, two, threshold);
    lemma_order(two, quotient, threshold);
    lemma_order(threshold, two, quotient);
    lemma_order(threshold, gain, quotient);
    lemma_quotient_order(decrease, predicted, threshold);
    lemma_quotient_order(decrease, predicted, one);
    lemma_quotient_order(decrease, predicted, half);
    lemma_times(predicted, one, one);
    lemma_order(half, one, two);
    lemma_order(half, two, quotient);
    lemma_order(half, quotient, two);
    lemma_order(zero, state.lambda, zero);
    let evaluated = state.attempted_spec().solved_spec(
        max_magnitude(attempt.answer->Ok_0.0, attempt.answer->Ok_0.0.len() as int),
    ).evaluated_spec();
    lemma_damping_follows_agreement(evaluated, controls, gain, gain);
    // A trial that is not accepted.
    let lambda = state.lambda;
    let grown = lambda.times_spec(growth);
    lemma_positive_times_order(one, growth, lambda);
    lemma_times(lambda, one, one);
    lemma_times(lambda, growth, one);
    lemma_order(lambda, controls.max_damping, zero);
    lemma_order(grown, controls.max_damping, zero);
    lemma_order(controls.max_damping, grown, zero);
    lemma_order(controls.max_damping, controls.max_damping, zero);
    lemma_order(grown, grown, zero);
    assert(ordered_at(lambda, controls.max_damping, zero));
    lemma_times(growth, one, one);
}

/// Of two accepted trials of one step the better one leaves no more damping.
pub proof fn lemma_better_trial<S: StateSchema, F: FactorSchema<S, Scalar = S::Scalar>, B>(
    dimension: nat,
    options: OptimizeOptions<S::Scalar>,
    controls: LmOptions<S::Scalar>,
    factors: F,
    priors: Priors<S::Scalar>,
    state: LmState<S::Scalar>,
    growth: S::Scalar,
    worse: Attempt<S, B>,
    better: Attempt<S, B>,
)
    requires
        ordered_field::<S::Scalar>(),
        <S::Scalar as Real>::zero_spec().at_most_spec(state.lambda),
        worse.answer == better.answer,
        attempt_spec(dimension, options, controls, factors, priors, state, growth, worse)
            is Accepted,
        attempt_spec(dimension, options, controls, factors, priors, state, growth, better)
            is Accepted,
        total_spec(better.trial, factors, priors)->Ok_0.at_most_spec(
            total_spec(worse.trial, factors, priors)->Ok_0,
        ),
    ensures
        attempt_spec(
            dimension,
            options,
            controls,
            factors,
            priors,
            state,
            growth,
            better,
        )->Accepted_0.lambda.at_most_spec(
            attempt_spec(
                dimension,
                options,
                controls,
                factors,
                priors,
                state,
                growth,
                worse,
            )->Accepted_0.lambda,
        ),
{
    let zero = <S::Scalar as Real>::zero_spec();
    let two = <S::Scalar as Real>::ratio_spec(2, 1);
    let predicted = worse.answer->Ok_0.1;
    let high = total_spec(worse.trial, factors, priors)->Ok_0;
    let low = total_spec(better.trial, factors, priors)->Ok_0;
    let (less, more) = (state.current.minus_spec(high), state.current.minus_spec(low));
    lemma_order(zero, predicted, zero);
    lemma_order(predicted, zero, zero);
    lemma_negate_order(low, high);
    lemma_plus(state.current, low, low);
    lemma_plus(state.current, high, high);
    lemma_plus_order(high.negate_spec(), low.negate_spec(), state.current);
    lemma_quotient_order(less, predicted, zero);
    lemma_quotient_order(more, predicted, less.over_spec(predicted));
    lemma_bounds_order(less.over_spec(predicted), more.over_spec(predicted), two);
    let evaluated = state.attempted_spec().solved_spec(
        max_magnitude(worse.answer->Ok_0.0, worse.answer->Ok_0.0.len() as int),
    ).evaluated_spec();
    lemma_damping_follows_agreement(
        evaluated,
        controls,
        less.over_spec(predicted).min_spec(two),
        more.over_spec(predicted).min_spec(two),
    );
}

/// An attempt that is not accepted keeps the accepted objective.
pub proof fn lemma_rejected_keeps<S: StateSchema, F: FactorSchema<S, Scalar = S::Scalar>, B>(
    dimension: nat,
    options: OptimizeOptions<S::Scalar>,
    controls: LmOptions<S::Scalar>,
    factors: F,
    priors: Priors<S::Scalar>,
    state: LmState<S::Scalar>,
    growth: S::Scalar,
    attempt: Attempt<S, B>,
)
    ensures
        match attempt_spec(
            dimension,
            options,
            controls,
            factors,
            priors,
            state,
            growth,
            attempt,
        ) {
            AttemptEnd::Accepted(_) => true,
            AttemptEnd::Fail(_, after) | AttemptEnd::Exhausted(after) | AttemptEnd::Retry(
                after,
                _,
            ) => {
                &&& after.current == state.current
                &&& after.statistics.cost == state.statistics.cost
                &&& after.statistics.accepted_steps == state.statistics.accepted_steps
            },
        },
{
}

/// Diagnostics in which every attempt was either rejected or accepted.
pub open spec fn balanced<R>(statistics: LmStatistics<R>) -> bool {
    statistics.attempts == statistics.rejected_steps.wrapping_add(statistics.accepted_steps)
}

/// Unless the call fails in its middle, an attempt is counted once as rejected or accepted.
pub proof fn lemma_attempts_balance<S: StateSchema, F: FactorSchema<S, Scalar = S::Scalar>, B>(
    dimension: nat,
    options: OptimizeOptions<S::Scalar>,
    controls: LmOptions<S::Scalar>,
    factors: F,
    priors: Priors<S::Scalar>,
    state: LmState<S::Scalar>,
    growth: S::Scalar,
    attempt: Attempt<S, B>,
)
    requires
        balanced(state.statistics),
    ensures
        match attempt_spec(
            dimension,
            options,
            controls,
            factors,
            priors,
            state,
            growth,
            attempt,
        ) {
            AttemptEnd::Fail(_, _) => true,
            AttemptEnd::Accepted(after) | AttemptEnd::Exhausted(after) | AttemptEnd::Retry(
                after,
                _,
            ) => balanced(after.statistics),
        },
{
}

proof fn lemma_retried_keeps<S: StateSchema, F: FactorSchema<S, Scalar = S::Scalar>, B>(
    dimension: nat,
    options: OptimizeOptions<S::Scalar>,
    controls: LmOptions<S::Scalar>,
    factors: F,
    priors: Priors<S::Scalar>,
    state: LmState<S::Scalar>,
    attempts: Seq<Attempt<S, B>>,
    n: int,
)
    ensures
        retried(dimension, options, controls, factors, priors, state, attempts, n) matches Some(
            (after, _),
        ) ==> after.current == state.current,
    decreases n,
{
    if n > 0 {
        lemma_retried_keeps(
            dimension,
            options,
            controls,
            factors,
            priors,
            state,
            attempts,
            n - 1,
        );
    }
}

/// Counters of a call in which nothing failed in its middle: every attempt was either rejected
/// or accepted.
pub open spec fn tallied<R>(statistics: LmStatistics<R>) -> bool {
    statistics.attempts == statistics.rejected_steps + statistics.accepted_steps
}

pub proof fn lemma_retried_tally<S: StateSchema, F: FactorSchema<S, Scalar = S::Scalar>, B>(
    dimension: nat,
    options: OptimizeOptions<S::Scalar>,
    controls: LmOptions<S::Scalar>,
    factors: F,
    priors: Priors<S::Scalar>,
    state: LmState<S::Scalar>,
    attempts: Seq<Attempt<S, B>>,
    n: int,
)
    requires
        0 <= n,
        tallied(state.statistics),
        state.statistics.attempts + n <= usize::MAX,
    ensures
        retried(dimension, options, controls, factors, priors, state, attempts, n) matches Some(
            (after, _),
        ) ==> {
            &&& tallied(after.statistics)
            &&& after.statistics.attempts == state.statistics.attempts + n
            &&& after.statistics.accepted_steps == state.statistics.accepted_steps
            &&& after.statistics.linearizations == state.statistics.linearizations
        },
    decreases n,
{
    if n > 0 {
        lemma_retried_tally(
            dimension,
            options,
            controls,
            factors,
            priors,
            state,
            attempts,
            n - 1,
        );
    }
}

/// What a round adds to the counters: one linearization, and its attempts.
pub proof fn lemma_round_tally<
    S: StateSchema,
    F: FactorSchema<S, Scalar = S::Scalar>,
    B: DampedLeastSquaresBackend<Scalar = S::Scalar>,
>(
    shape: B::Shape,
    layout: &Layout,
    options: OptimizeOptions<S::Scalar>,
    controls: LmOptions<S::Scalar>,
    states: S,
    factors: F,
    priors: Priors<S::Scalar>,
    estimates: S::Estimates,
    state: LmState<S::Scalar>,
    round: LmRound<S, B>,
)
    requires
        tallied(state.statistics),
        state.statistics.linearizations < usize::MAX,
        state.statistics.accepted_steps <= options.max_iterations,
        state.statistics.attempts + controls.max_trials <= usize::MAX,
        lm_follows::<S, F, B>(
            shape,
            layout,
            options,
            controls,
            states,
            factors,
            priors,
            estimates,
            state,
            round,
        ),
    ensures
        ({
            let (verdict, after) = round_spec::<S, F, B>(
                shape,
                layout,
                options,
                controls,
                factors,
                state,
                round,
            );
            let now = after.statistics;
            &&& now.linearizations == state.statistics.linearizations + 1
            &&& now.attempts <= state.statistics.attempts + controls.max_trials
            &&& now.rejected_steps + now.accepted_steps <= now.attempts <= now.rejected_steps
                + now.accepted_steps + 1
            &&& !(verdict is Fail) ==> tallied(now)
            &&& verdict is Accept ==> now.accepted_steps == state.statistics.accepted_steps + 1
                && state.statistics.accepted_steps < options.max_iterations
            &&& !(verdict is Accept) ==> now.accepted_steps == state.statistics.accepted_steps
        }),
{
    if let Ok(begun) = checked_spec::<S, F, B>(shape, layout, options, factors, state, round) {
        lemma_retried_tally(
            layout.dimension as nat,
            options,
            controls,
            factors,
            round.priors,
            begun,
            round.attempts,
            round.attempts.len() - 1,
        );
    }
}

pub proof fn lemma_run_tally<
    S: StateSchema,
    F: FactorSchema<S, Scalar = S::Scalar>,
    B: DampedLeastSquaresBackend<Scalar = S::Scalar>,
>(
    shape: B::Shape,
    layout: &Layout,
    options: OptimizeOptions<S::Scalar>,
    controls: LmOptions<S::Scalar>,
    states: S,
    factors: F,
    priors: Priors<S::Scalar>,
    initial: LmState<S::Scalar>,
    rounds: Seq<LmRound<S, B>>,
    n: int,
)
    requires
        0 <= n,
        initial.statistics.linearizations == 0,
        initial.statistics.attempts == 0,
        initial.statistics.rejected_steps == 0,
        initial.statistics.accepted_steps == 0,
        (options.max_iterations + 1) * controls.max_trials <= usize::MAX,
        controls.max_trials > 0,
        lm_run::<S, F, B>(
            shape,
            layout,
            options,
            controls,
            states,
            factors,
            priors,
            initial,
            rounds,
            n,
        ) is Some,
    ensures
        ({
            let now = lm_run::<S, F, B>(
                shape,
                layout,
                options,
                controls,
                states,
                factors,
                priors,
                initial,
                rounds,
                n,
            )->Some_0.statistics;
            &&& n <= options.max_iterations
            &&& now.accepted_steps == n
            &&& now.linearizations == n
            &&& tallied(now)
            &&& now.attempts <= n * controls.max_trials
        }),
    decreases n,
{
    if n > 0 {
        let before = lm_run::<S, F, B>(
            shape,
            layout,
            options,
            controls,
            states,
            factors,
            priors,
            initial,
            rounds,
            n - 1,
        )->Some_0;
        lemma_run_tally::<S, F, B>(
            shape,
            layout,
            options,
            controls,
            states,
            factors,
            priors,
            initial,
            rounds,
            n - 1,
        );
        lemma_trials_fit(n - 1, options.max_iterations as int, controls.max_trials as int);
        lemma_round_tally::<S, F, B>(
            shape,
            layout,
            options,
            controls,
            states,
            factors,
            priors,
            lm_estimates(states, rounds, n - 1),
            before,
            rounds[n - 1],
        );
    }
}

pub proof fn lemma_trials_fit(n: int, limit: int, trials: int)
    requires
        0 <= n <= limit,
        0 < trials,
        (limit + 1) * trials <= usize::MAX,
    ensures
        n * trials + trials == (n + 1) * trials,
        (n + 1) * trials <= usize::MAX,
        limit < usize::MAX,
{
    assert(n * trials + trials == (n + 1) * trials) by (nonlinear_arith);
    assert((n + 1) * trials <= (limit + 1) * trials) by (nonlinear_arith)
        requires
            n <= limit,
            0 < trials,
    ;
    assert(limit + 1 <= (limit + 1) * trials) by (nonlinear_arith)
        requires
            0 <= limit,
            0 < trials,
    ;
}

/// How much a call does: it linearizes at most once per accepted step and once more, attempts
/// at most so many steps per linearization, and counts each attempt once as rejected or
/// accepted, but for one in whose middle it may fail. Stated where the counters cannot wrap.
pub proof fn lemma_call_tally<
    S: StateSchema,
    F: FactorSchema<S, Scalar = S::Scalar>,
    B: DampedLeastSquaresBackend<Scalar = S::Scalar>,
>(
    before: LevenbergMarquardt<B>,
    after: LevenbergMarquardt<B>,
    states: S,
    factors: F,
    priors: Priors<S::Scalar>,
    options: OptimizeOptions<S::Scalar>,
    outcome: Result<OptimizeReport<S::Scalar>, SolverError>,
    accepted: S::Estimates,
)
    requires
        optimized(before, after, states, factors, priors, options, outcome, accepted),
        (options.max_iterations + 1) * before.options.max_trials <= usize::MAX,
    ensures
        ({
            let now = after.statistics;
            &&& now.accepted_steps <= options.max_iterations
            &&& now.linearizations <= now.accepted_steps + 1
            &&& now.attempts <= now.linearizations * before.options.max_trials
            &&& now.rejected_steps + now.accepted_steps <= now.attempts <= now.rejected_steps
                + now.accepted_steps + 1
            &&& outcome is Ok ==> tallied(now)
        }),
{
    let controls = before.options;
    let opened = opened_spec(before.work.backend, states, factors, priors);
    if options.valid() && controls.valid() && opened is Ok && width_sum(states.blocks()) != 0 {
        let state = opening_state(controls, opened->Ok_0, priors.constant);
        let shape = before.work.backend.shape();
        let layout = &after.work.layout;
        let (rounds, last) = choose|rounds: Seq<LmRound<S, B>>, last: LmRound<S, B>| #[trigger]
            lm_finished::<S, F, B>(
                shape,
                layout,
                options,
                controls,
                states,
                factors,
                priors,
                state,
                rounds,
                last,
                outcome,
                after.statistics,
                after.progress@,
                accepted,
            );
        let n = rounds.len() as int;
        lemma_run_tally::<S, F, B>(
            shape,
            layout,
            options,
            controls,
            states,
            factors,
            priors,
            state,
            rounds,
            n,
        );
        lemma_trials_fit(n, options.max_iterations as int, controls.max_trials as int);
        lemma_round_tally::<S, F, B>(
            shape,
            layout,
            options,
            controls,
            states,
            factors,
            priors,
            lm_estimates(states, rounds, n),
            lm_run::<S, F, B>(
                shape,
                layout,
                options,
                controls,
                states,
                factors,
                priors,
                state,
                rounds,
                n,
            )->Some_0,
            last,
        );
    }
}

/// Along the accepted steps of a call the objective strictly decreases.
pub proof fn lemma_run_decreases<
    S: StateSchema,
    F: FactorSchema<S, Scalar = S::Scalar>,
    B: DampedLeastSquaresBackend<Scalar = S::Scalar>,
>(
    shape: B::Shape,
    layout: &Layout,
    options: OptimizeOptions<S::Scalar>,
    controls: LmOptions<S::Scalar>,
    states: S,
    factors: F,
    priors: Priors<S::Scalar>,
    initial: LmState<S::Scalar>,
    rounds: Seq<LmRound<S, B>>,
    n: int,
)
    requires
        0 < n <= rounds.len(),
        lm_run::<S, F, B>(
            shape,
            layout,
            options,
            controls,
            states,
            factors,
            priors,
            initial,
            rounds,
            n,
        ) is Some,
    ensures
        ({
            let before = lm_run::<S, F, B>(
                shape,
                layout,
                options,
                controls,
                states,
                factors,
                priors,
                initial,
                rounds,
                n - 1,
            );
            let after = lm_run::<S, F, B>(
                shape,
                layout,
                options,
                controls,
                states,
                factors,
                priors,
                initial,
                rounds,
                n,
            );
            &&& before is Some
            &&& <S::Scalar as Real>::zero_spec().below_spec(
                before->Some_0.current.minus_spec(after->Some_0.current),
            )
        }),
{
    let before = lm_run::<S, F, B>(
        shape,
        layout,
        options,
        controls,
        states,
        factors,
        priors,
        initial,
        rounds,
        n - 1,
    )->Some_0;
    let round = rounds[n - 1];
    let begun = checked_spec::<S, F, B>(shape, layout, options, factors, before, round)->Ok_0;
    lemma_retried_keeps(
        layout.dimension as nat,
        options,
        controls,
        factors,
        round.priors,
        begun,
        round.attempts,
        round.attempts.len() - 1,
    );
}

impl<S, F, B> Optimizer<S, F> for LevenbergMarquardt<B> where
    S: StateSchema,
    F: FactorSchema<S, Scalar = S::Scalar>,
    B: DampedLeastSquaresBackend<Scalar = S::Scalar>,
 {
    open spec fn ready(&self) -> bool {
        self.work.wf()
    }

    open spec fn optimized(
        before: Self,
        after: Self,
        states: S,
        factors: F,
        priors: Priors<S::Scalar>,
        options: OptimizeOptions<S::Scalar>,
        outcome: Result<OptimizeReport<S::Scalar>, SolverError>,
        accepted: S::Estimates,
    ) -> bool {
        optimized(before, after, states, factors, priors, options, outcome, accepted)
    }

    fn optimize(
        &mut self,
        states: &mut S,
        factors: &F,
        priors: &mut Priors<S::Scalar>,
        options: &OptimizeOptions<S::Scalar>,
    ) -> (outcome: Result<OptimizeReport<S::Scalar>, SolverError>) {
        LevenbergMarquardt::optimize(self, states, factors, priors, options)
    }
}

impl<S, F, K, B> CovarianceOptimizer<S, F, K> for LevenbergMarquardt<B> where
    S: StateSchema,
    F: FactorSchema<S, Scalar = S::Scalar>,
    K: Triangular<S::Scalar>,
    B: DampedLeastSquaresBackend<Scalar = S::Scalar> + CovarianceBackend<K>,
 {
    open spec fn extracted(
        method: Self,
        kernel: K,
        states: S,
        factors: F,
        priors: Priors<S::Scalar>,
        selection: Seq<BlockId>,
        tolerance: S::Scalar,
    ) -> Result<Seq<S::Scalar>, SolverError> {
        extraction_spec::<S, F, K, B>(
            method.work.backend.shape(),
            &method.work.layout,
            kernel,
            states,
            factors,
            priors,
            selection,
            tolerance,
        )
    }

    open spec fn reports_alike(method: Self, other: Self) -> bool {
        &&& method.options == other.options
        &&& method.statistics == other.statistics
        &&& method.progress == other.progress
    }

    fn optimize_covariance(
        &mut self,
        states: &mut S,
        factors: &F,
        priors: &mut Priors<S::Scalar>,
        options: &OptimizeOptions<S::Scalar>,
        blocks: &[BlockId],
        covariance: &mut CovarianceWorkspace<S::Scalar, K>,
    ) -> (outcome: Result<OptimizeReport<S::Scalar>, SolverError>) {
        let run = LevenbergMarquardt::optimize(self, states, factors, priors, options);
        let ghost middle = *self;
        let ghost reached = *priors;
        let ghost kernel = covariance.work.backend.kernel;
        let ghost tolerance = covariance.selected.options.relative_pivot_tolerance;
        assert(<Self as Optimizer<S, F>>::optimized(
            *old(self),
            middle,
            *old(states),
            *factors,
            *old(priors),
            *options,
            run,
            states.accepted(),
        ));
        let report = match run {
            Ok(report) => report,
            Err(error) => {
                let ghost extracted = <Self as CovarianceOptimizer<S, F, K>>::extracted(
                    middle,
                    kernel,
                    *states,
                    *factors,
                    reached,
                    blocks@,
                    tolerance,
                );
                return Err(error);
            },
        };
        let computed = self.work.covariance(states, factors, priors, blocks, covariance);
        proof {
            let p = choose|p: Priors<S::Scalar>|
                p.same_priors(&reached) && #[trigger] extraction_spec::<S, F, K, B>(
                    middle.work.backend.shape(),
                    &middle.work.layout,
                    kernel,
                    *states,
                    *factors,
                    p,
                    blocks@,
                    tolerance,
                ) == computed_view(computed, covariance.selected);
            assert(<Self as CovarianceOptimizer<S, F, K>>::extracted(
                middle,
                kernel,
                *states,
                *factors,
                p,
                blocks@,
                tolerance,
            ) == computed_view(computed, covariance.selected));
        }
        match computed {
            Ok(_) => Ok(report),
            Err(error) => Err(error),
        }
    }
}

} // verus!
