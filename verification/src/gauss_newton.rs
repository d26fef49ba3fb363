//! Full-step Gauss-Newton.
use crate::backend::{all_finite, holds, max_magnitude, norm_inf, LeastSquaresBackend};
use crate::covariance::{
    computed_view, extraction_spec, CovarianceBackend, CovarianceOptimizer, CovarianceWorkspace,
};
use crate::error::SolverError;
use crate::families::FactorSchema;
use crate::kernels::Triangular;
use crate::key::BlockId;
use crate::layout::Layout;
use crate::optimization::{
    at_hand, checked_total, cost_spec, laid_out, lemma_total_stable, model_spec, opened_spec,
    same_problem, total_spec, up_to_date, OptimizeOptions, OptimizeReport, Optimizer,
    TerminationReason, Workspace,
};
use crate::priors::Priors;
use crate::scalar::Real;
use crate::states::{width_sum, StateSchema};
use vstd::prelude::*;

verus! {

/// What becomes of one round.
pub enum Verdict<R> {
    /// The method fails; the estimates of the round stay.
    Fail(SolverError),
    /// The estimates of the round meet a criterion.
    Stop(TerminationReason),
    /// The trial becomes the accepted estimates, and may meet the cost criterion.
    Accept { cost: R, converged: bool },
}

/// One linearization of the graph and what followed from it.
///
/// `backend` holds the linear model, and is `solved` once it was asked for a step. `answer` is
/// the step that it returned, and `trial` the graph with that step staged; none of them
/// matters where the verdict falls without them.
pub struct Round<S: StateSchema, B> {
    pub states: S,
    pub priors: Priors<S::Scalar>,
    pub backend: B,
    pub solved: B,
    pub answer: Result<Seq<S::Scalar>, SolverError>,
    pub trial: S,
}

/// An accepted cost is zero, or has decreased, but little.
pub open spec fn cost_converged<R: Real>(before: R, after: R, tolerance: R) -> bool {
    let decrease = before.minus_spec(after);
    ||| after.same_spec(R::zero_spec())
    ||| R::zero_spec().at_most_spec(decrease) && decrease.over_spec(
        before.max_spec(R::one_spec()),
    ).at_most_spec(tolerance)
}

/// Whether an accepted cost is zero, or has decreased, but little.
pub fn has_converged<R: Real>(before: R, after: R, tolerance: R) -> (converged: bool)
    ensures
        converged == cost_converged(before, after, tolerance),
{
    let decrease = before.minus(after);
    after.same(R::zero()) || (R::zero().at_most(decrease) && decrease.over(
        before.max(R::one()),
    ).at_most(tolerance))
}

/// The step that a round tries, or its verdict where it comes to no trial.
pub open spec fn proposal<
    S: StateSchema,
    F: FactorSchema<S, Scalar = S::Scalar>,
    B: LeastSquaresBackend<Scalar = S::Scalar>,
>(
    shape: B::Shape,
    layout: &Layout,
    options: OptimizeOptions<S::Scalar>,
    factors: F,
    iterations: nat,
    round: Round<S, B>,
) -> Result<Seq<S::Scalar>, Verdict<S::Scalar>> {
    match model_spec::<S, F, B>(shape, layout, round.states, factors, round.priors) {
        Err(error) => Err(Verdict::Fail(error)),
        Ok(model) => match B::gradient_norm_spec(model) {
            Err(error) => Err(Verdict::Fail(error)),
            Ok(gradient) => if gradient.at_most_spec(options.gradient_tolerance) {
                Err(Verdict::Stop(TerminationReason::GradientTolerance))
            } else if iterations == options.max_iterations {
                Err(Verdict::Fail(SolverError::NoConvergence))
            } else {
                match round.answer {
                    Err(error) => Err(Verdict::Fail(error)),
                    Ok(delta) => if delta.len() != layout.dimension || !all_finite(delta) {
                        Err(Verdict::Fail(SolverError::LinearSolveFailed))
                    } else if max_magnitude(delta, delta.len() as int).at_most_spec(
                        options.step_tolerance,
                    ) {
                        Err(Verdict::Stop(TerminationReason::StepTolerance))
                    } else {
                        Ok(delta)
                    },
                }
            },
        },
    }
}

/// The verdict on a round that starts at a given cost after a number of accepted steps.
pub open spec fn verdict<
    S: StateSchema,
    F: FactorSchema<S, Scalar = S::Scalar>,
    B: LeastSquaresBackend<Scalar = S::Scalar>,
>(
    shape: B::Shape,
    layout: &Layout,
    options: OptimizeOptions<S::Scalar>,
    factors: F,
    cost: S::Scalar,
    iterations: nat,
    round: Round<S, B>,
) -> Verdict<S::Scalar> {
    match proposal::<S, F, B>(shape, layout, options, factors, iterations, round) {
        Err(verdict) => verdict,
        Ok(_) => match total_spec(round.trial, factors, round.priors) {
            Err(error) => Verdict::Fail(error),
            Ok(trial) => Verdict::Accept {
                cost: trial,
                converged: cost_converged(cost, trial, options.cost_tolerance),
            },
        },
    }
}

/// Where the gradient calls for a step and steps are left, the backend was asked to solve the
/// model of the round.
pub open spec fn consulted<
    S: StateSchema,
    F: FactorSchema<S, Scalar = S::Scalar>,
    B: LeastSquaresBackend<Scalar = S::Scalar>,
>(
    shape: B::Shape,
    layout: &Layout,
    options: OptimizeOptions<S::Scalar>,
    factors: F,
    iterations: nat,
    round: Round<S, B>,
) -> bool {
    model_spec::<S, F, B>(shape, layout, round.states, factors, round.priors) matches Ok(model)
        ==> B::gradient_norm_spec(model) matches Ok(gradient) ==> !gradient.at_most_spec(
        options.gradient_tolerance,
    ) && iterations != options.max_iterations ==> {
        &&& holds(round.backend, shape, model)
        &&& B::answers(round.backend, round.solved, round.answer)
    }
}

/// A round starts at the given estimates, asks the backend for its step and, if it comes to a
/// trial, stages it.
pub open spec fn follows<
    S: StateSchema,
    F: FactorSchema<S, Scalar = S::Scalar>,
    B: LeastSquaresBackend<Scalar = S::Scalar>,
>(
    shape: B::Shape,
    layout: &Layout,
    options: OptimizeOptions<S::Scalar>,
    states: S,
    factors: F,
    priors: Priors<S::Scalar>,
    estimates: S::Estimates,
    iterations: nat,
    round: Round<S, B>,
) -> bool {
    &&& round.states.same_graph(&states)
    &&& round.states.accepted() == estimates
    &&& round.states.current() == estimates
    &&& round.priors.same_priors(&priors)
    &&& round.priors.wf()
    &&& consulted::<S, F, B>(shape, layout, options, factors, iterations, round)
    &&& proposal::<S, F, B>(shape, layout, options, factors, iterations, round) matches Ok(delta) ==> {
        &&& round.trial.same_graph(&states)
        &&& round.trial.current() == round.states.moved(delta)
    }
}

/// The cost from which a round starts.
pub open spec fn cost_before<S: StateSchema, F: FactorSchema<S, Scalar = S::Scalar>, B>(
    initial: S::Scalar,
    factors: F,
    rounds: Seq<Round<S, B>>,
    n: int,
) -> S::Scalar {
    if n <= 0 {
        initial
    } else {
        total_spec(rounds[n - 1].trial, factors, rounds[n - 1].priors)->Ok_0
    }
}

/// The estimates from which a round starts.
pub open spec fn estimates_before<S: StateSchema, B>(
    states: S,
    rounds: Seq<Round<S, B>>,
    n: int,
) -> S::Estimates {
    if n <= 0 {
        states.accepted()
    } else {
        rounds[n - 1].trial.current()
    }
}

/// A round follows from the one before it, accepts its step and goes on.
pub open spec fn goes_on<
    S: StateSchema,
    F: FactorSchema<S, Scalar = S::Scalar>,
    B: LeastSquaresBackend<Scalar = S::Scalar>,
>(
    shape: B::Shape,
    layout: &Layout,
    options: OptimizeOptions<S::Scalar>,
    states: S,
    factors: F,
    priors: Priors<S::Scalar>,
    initial: S::Scalar,
    rounds: Seq<Round<S, B>>,
    k: int,
) -> bool {
    &&& follows::<S, F, B>(
        shape,
        layout,
        options,
        states,
        factors,
        priors,
        estimates_before(states, rounds, k),
        k as nat,
        rounds[k],
    )
    &&& verdict::<S, F, B>(
        shape,
        layout,
        options,
        factors,
        cost_before(initial, factors, rounds, k),
        k as nat,
        rounds[k],
    ) == (Verdict::Accept {
        cost: cost_before(initial, factors, rounds, k + 1),
        converged: false,
    })
}

/// Rounds that follow from each other, all of which accept their step and go on.
pub open spec fn going<
    S: StateSchema,
    F: FactorSchema<S, Scalar = S::Scalar>,
    B: LeastSquaresBackend<Scalar = S::Scalar>,
>(
    shape: B::Shape,
    layout: &Layout,
    options: OptimizeOptions<S::Scalar>,
    states: S,
    factors: F,
    priors: Priors<S::Scalar>,
    initial: S::Scalar,
    rounds: Seq<Round<S, B>>,
) -> bool {
    forall|k: int|
        0 <= k < rounds.len() ==> #[trigger] goes_on::<S, F, B>(
            shape,
            layout,
            options,
            states,
            factors,
            priors,
            initial,
            rounds,
            k,
        )
}

/// The report of a call that ends for a reason.
pub open spec fn report_spec<R: Real>(
    initial: R,
    last: R,
    constant: R,
    iterations: nat,
    termination: TerminationReason,
) -> OptimizeReport<R> {
    OptimizeReport {
        iterations: iterations as usize,
        initial_cost: initial.plus_spec(constant),
        final_cost: last.plus_spec(constant),
        termination,
    }
}

/// How a call ends after the given rounds and one more: with which outcome, and at which
/// estimates.
pub open spec fn finished<
    S: StateSchema,
    F: FactorSchema<S, Scalar = S::Scalar>,
    B: LeastSquaresBackend<Scalar = S::Scalar>,
>(
    shape: B::Shape,
    layout: &Layout,
    options: OptimizeOptions<S::Scalar>,
    states: S,
    factors: F,
    priors: Priors<S::Scalar>,
    initial: S::Scalar,
    rounds: Seq<Round<S, B>>,
    last: Round<S, B>,
    outcome: Result<OptimizeReport<S::Scalar>, SolverError>,
    estimates: S::Estimates,
) -> bool {
    let n = rounds.len();
    let before = cost_before(initial, factors, rounds, n as int);
    &&& going::<S, F, B>(shape, layout, options, states, factors, priors, initial, rounds)
    &&& follows::<S, F, B>(
        shape,
        layout,
        options,
        states,
        factors,
        priors,
        estimates_before(states, rounds, n as int),
        n,
        last,
    )
    &&& match verdict::<S, F, B>(shape, layout, options, factors, before, n, last) {
        Verdict::Fail(error) => {
            &&& outcome == Err::<OptimizeReport<S::Scalar>, SolverError>(error)
            &&& estimates == last.states.accepted()
        },
        Verdict::Stop(reason) => {
            &&& outcome == Ok::<OptimizeReport<S::Scalar>, SolverError>(
                report_spec(initial, before, priors.constant, n, reason),
            )
            &&& estimates == last.states.accepted()
        },
        Verdict::Accept { cost, converged } => {
            &&& converged
            &&& outcome == Ok::<OptimizeReport<S::Scalar>, SolverError>(
                report_spec(
                    initial,
                    cost,
                    priors.constant,
                    n + 1,
                    TerminationReason::CostTolerance,
                ),
            )
            &&& estimates == last.trial.current()
        },
    }
}

/// Full-step Gauss-Newton over a replaceable least-squares backend.
///
/// Finite full steps are accepted even if the cost increases. There is no damping and no
/// line search. A trial that cannot be evaluated restores the last accepted estimates.
/// Every call lays the graph out afresh, so edits between calls are safe.
pub struct GaussNewton<B> {
    pub work: Workspace<B>,
}

/// How an optimization ends, from what it started with.
pub open spec fn optimized<
    S: StateSchema,
    F: FactorSchema<S, Scalar = S::Scalar>,
    B: LeastSquaresBackend<Scalar = S::Scalar>,
>(
    before: GaussNewton<B>,
    after: GaussNewton<B>,
    states: S,
    factors: F,
    priors: Priors<S::Scalar>,
    options: OptimizeOptions<S::Scalar>,
    outcome: Result<OptimizeReport<S::Scalar>, SolverError>,
    accepted: S::Estimates,
) -> bool {
    &&& !options.valid() ==> {
        &&& outcome == Err::<OptimizeReport<S::Scalar>, SolverError>(
            SolverError::InvalidOptions,
        )
        &&& accepted == states.accepted()
    }
    &&& options.valid() ==> match opened_spec(
        before.work.backend,
        states,
        factors,
        priors,
    ) {
        Err(error) => {
            &&& outcome == Err::<OptimizeReport<S::Scalar>, SolverError>(error)
            &&& accepted == states.accepted()
        },
        Ok(initial) => if width_sum(states.blocks()) == 0 {
            &&& outcome == Ok::<OptimizeReport<S::Scalar>, SolverError>(
                report_spec(
                    initial,
                    initial,
                    priors.constant,
                    0,
                    TerminationReason::NoVariables,
                ),
            )
            &&& accepted == states.accepted()
        } else {
            &&& laid_out(&after.work.layout, &states, &factors)
            &&& exists|rounds: Seq<Round<S, B>>, last: Round<S, B>| #[trigger]
                finished::<S, F, B>(
                    before.work.backend.shape(),
                    &after.work.layout,
                    options,
                    states,
                    factors,
                    priors,
                    initial,
                    rounds,
                    last,
                    outcome,
                    accepted,
                )
        },
    }
}

impl<B: LeastSquaresBackend> GaussNewton<B> {
    /// A reusable optimizer over the given backend.
    pub fn new(backend: B) -> (method: Self)
        requires
            backend.wf(),
        ensures
            method.work.wf(),
            method.work.backend == backend,
    {
        GaussNewton { work: Workspace::new(backend) }
    }

    /// The backend, for its diagnostics.
    pub fn backend(&self) -> (backend: &B)
        ensures
            *backend == self.work.backend,
    {
        &self.work.backend
    }

    /// Linearize, solve and try the step.
    fn round<S: StateSchema<Scalar = B::Scalar>, F: FactorSchema<S, Scalar = B::Scalar>>(
        &mut self,
        states: &mut S,
        factors: &F,
        priors: &mut Priors<B::Scalar>,
        options: &OptimizeOptions<B::Scalar>,
        cost: B::Scalar,
        iterations: usize,
    ) -> (result: (Verdict<B::Scalar>, Ghost<Round<S, B>>))
        requires
            old(self).work.prepared(old(states), factors),
            old(states).wf(),
            old(states).idle(),
            old(states).current() == old(states).accepted(),
            factors.wf(),
            old(priors).wf(),
        ensures
            final(self).work.prepared(final(states), factors),
            final(self).work.layout == old(self).work.layout,
            final(self).work.backend.shape() == old(self).work.backend.shape(),
            final(states).wf(),
            final(states).idle(),
            final(states).same_graph(old(states)),
            final(states).blocks() == old(states).blocks(),
            final(states).current() == final(states).accepted(),
            final(states).accepted() == if result.0 is Accept {
                result.1@.trial.current()
            } else {
                old(states).accepted()
            },
            final(priors).wf(),
            final(priors).same_priors(old(priors)),
            result.1@.states == *old(states),
            result.1@.priors == *old(priors),
            result.0 is Accept ==> !final(self).work.current,
            final(self).work.current ==> at_hand(
                final(self).work,
                *old(states),
                *factors,
                *old(priors),
            ),
            follows::<S, F, B>(
                old(self).work.backend.shape(),
                &old(self).work.layout,
                *options,
                *old(states),
                *factors,
                *old(priors),
                old(states).accepted(),
                iterations as nat,
                result.1@,
            ),
            result.0 == verdict::<S, F, B>(
                old(self).work.backend.shape(),
                &old(self).work.layout,
                *options,
                *factors,
                cost,
                iterations as nat,
                result.1@,
            ),
    {
        let ghost untried = Round {
            states: *states,
            priors: *priors,
            backend: self.work.backend,
            solved: self.work.backend,
            answer: Err(SolverError::LinearSolveFailed),
            trial: *states,
        };
        proof {
            states.lemma_reflexive(Set::empty());
        }
        match self.work.linearize(states, factors, priors) {
            Ok(_) => {},
            Err(error) => {
                return (Verdict::Fail(error), Ghost(untried));
            },
        }
        let gradient = match self.work.backend.gradient_norm() {
            Ok(gradient) => gradient,
            Err(error) => {
                return (Verdict::Fail(error), Ghost(untried));
            },
        };
        if gradient.at_most(options.gradient_tolerance) {
            return (Verdict::Stop(TerminationReason::GradientTolerance), Ghost(untried));
        }
        if iterations == options.max_iterations {
            return (Verdict::Fail(SolverError::NoConvergence), Ghost(untried));
        }
        let ghost backend = self.work.backend;
        let delta = match self.work.backend.solve() {
            Ok(delta) => delta,
            Err(error) => {
                return (
                    Verdict::Fail(error),
                    Ghost(
                        Round { backend, solved: self.work.backend, answer: Err(error), ..untried },
                    ),
                );
            },
        };
        let ghost solved = Round {
            backend,
            solved: self.work.backend,
            answer: Ok(delta@),
            ..untried
        };
        if delta.len() != self.work.layout.dimension {
            return (Verdict::Fail(SolverError::LinearSolveFailed), Ghost(solved));
        }
        let norm = match norm_inf(delta.as_slice()) {
            Ok(norm) => norm,
            Err(_) => {
                return (Verdict::Fail(SolverError::LinearSolveFailed), Ghost(solved));
            },
        };
        if norm.at_most(options.step_tolerance) {
            return (Verdict::Stop(TerminationReason::StepTolerance), Ghost(solved));
        }
        match states.stage(delta.as_slice(), 0) {
            Ok(_) => {},
            Err(_) => {
                assert(false);
            },
        }
        assert(delta@.subrange(0, delta@.len() as int) =~= delta@);
        let ghost tried = Round { trial: *states, ..solved };
        proof {
            tried.trial.lemma_reflexive(Set::empty());
            lemma_total_stable(*states, tried.trial, *factors, *priors, tried.priors);
        }
        let trial = match checked_total(states, factors, priors) {
            Ok(trial) => trial,
            Err(error) => {
                states.reject();
                proof {
                    S::lemma_same_graph(states, &tried.trial, old(states));
                }
                return (Verdict::Fail(error), Ghost(tried));
            },
        };
        states.accept();
        proof {
            S::lemma_same_graph(states, &tried.trial, old(states));
        }
        self.work.current = false;
        let converged = has_converged(cost, trial, options.cost_tolerance);
        (Verdict::Accept { cost: trial, converged }, Ghost(tried))
    }

    /// Optimize to convergence.
    ///
    /// Unless the call fails early, it runs rounds of one linearization and one step each;
    /// the backend is asked for each of these steps.
    pub fn optimize<S: StateSchema<Scalar = B::Scalar>, F: FactorSchema<S, Scalar = B::Scalar>>(
        &mut self,
        states: &mut S,
        factors: &F,
        priors: &mut Priors<B::Scalar>,
        options: &OptimizeOptions<B::Scalar>,
    ) -> (outcome: Result<OptimizeReport<B::Scalar>, SolverError>)
        requires
            old(self).work.wf(),
            old(states).wf(),
            old(states).idle(),
            old(states).current() == old(states).accepted(),
            factors.wf(),
            old(priors).wf(),
        ensures
            final(self).work.wf(),
            final(states).wf(),
            final(states).idle(),
            final(states).same_graph(old(states)),
            final(states).blocks() == old(states).blocks(),
            final(states).current() == final(states).accepted(),
            final(priors).wf(),
            final(priors).same_priors(old(priors)),
            optimized(
                *old(self),
                *final(self),
                *old(states),
                *factors,
                *old(priors),
                *options,
                outcome,
                final(states).accepted(),
            ),
            outcome matches Ok(report) ==> {
                &&& report.iterations <= options.max_iterations
                &&& cost_spec(*final(states), *factors, *final(priors)) matches Ok(cost)
                    && report.final_cost == cost.plus_spec(old(priors).constant)
            },
            outcome is Ok ==> {
                &&& final(self).work.prepared(final(states), factors)
                &&& up_to_date(final(self).work, *final(states), *factors, *final(priors))
            },
    {
        proof {
            old(states).lemma_reflexive(Set::empty());
        }
        match options.validate() {
            Ok(_) => {},
            Err(error) => {
                return Err(error);
            },
        }
        let initial = match self.work.open(states, factors, priors) {
            Ok(initial) => initial,
            Err(error) => {
                return Err(error);
            },
        };
        let constant = priors.constant;
        proof {
            lemma_total_stable(*states, *old(states), *factors, *priors, *old(priors));
        }
        if self.work.layout.dimension == 0 {
            return Ok(
                OptimizeReport {
                    iterations: 0,
                    initial_cost: initial.plus(constant),
                    final_cost: initial.plus(constant),
                    termination: TerminationReason::NoVariables,
                },
            );
        }
        let ghost layout = self.work.layout;
        let ghost shape = self.work.backend.shape();
        let ghost mut rounds: Seq<Round<S, B>> = Seq::empty();
        let mut current = initial;
        let mut iterations: usize = 0;
        loop
            invariant
                options.valid(),
                self.work.prepared(states, factors),
                self.work.layout == layout,
                self.work.backend.shape() == shape,
                shape == old(self).work.backend.shape(),
                states.wf(),
                states.idle(),
                states.same_graph(old(states)),
                states.blocks() == old(states).blocks(),
                states.current() == states.accepted(),
                factors.wf(),
                priors.wf(),
                priors.same_priors(old(priors)),
                old(priors).wf(),
                constant == old(priors).constant,
                width_sum(old(states).blocks()) != 0,
                opened_spec(
                    old(self).work.backend,
                    *old(states),
                    *factors,
                    *old(priors),
                ) == Ok::<B::Scalar, SolverError>(initial),
                iterations <= options.max_iterations,
                iterations == rounds.len(),
                current == cost_before(initial, *factors, rounds, iterations as int),
                states.accepted() == estimates_before(*old(states), rounds, iterations as int),
                total_spec(*states, *factors, *priors) == Ok::<B::Scalar, SolverError>(current),
                going::<S, F, B>(
                    shape,
                    &layout,
                    *options,
                    *old(states),
                    *factors,
                    *old(priors),
                    initial,
                    rounds,
                ),
            decreases options.max_iterations - iterations,
        {
            let ghost before = *states;
            let ghost used = *priors;
            let (judged, Ghost(round)) = self.round(
                states,
                factors,
                priors,
                options,
                current,
                iterations,
            );
            proof {
                S::lemma_same_graph(states, &before, old(states));
                assert(follows::<S, F, B>(
                    shape,
                    &layout,
                    *options,
                    *old(states),
                    *factors,
                    *old(priors),
                    estimates_before(*old(states), rounds, iterations as int),
                    iterations as nat,
                    round,
                )) by {
                    if proposal::<S, F, B>(
                        shape,
                        &layout,
                        *options,
                        *factors,
                        iterations as nat,
                        round,
                    ) is Ok {
                        S::lemma_same_graph(&round.trial, &before, old(states));
                    }
                }
            }
            match judged {
                Verdict::Fail(error) => {
                    let outcome: Result<OptimizeReport<B::Scalar>, SolverError> = Err(error);
                    assert(finished::<S, F, B>(
                        shape,
                        &layout,
                        *options,
                        *old(states),
                        *factors,
                        *old(priors),
                        initial,
                        rounds,
                        round,
                        outcome,
                        states.accepted(),
                    ));
                    return outcome;
                },
                Verdict::Stop(termination) => {
                    proof {
                        S::lemma_same_graph(states, &before, states);
                        lemma_total_stable(*states, before, *factors, *priors, used);
                        assert(same_problem(before, *states, used, *priors));
                    }
                    let outcome = Ok(
                        OptimizeReport {
                            iterations,
                            initial_cost: initial.plus(constant),
                            final_cost: current.plus(constant),
                            termination,
                        },
                    );
                    assert(finished::<S, F, B>(
                        shape,
                        &layout,
                        *options,
                        *old(states),
                        *factors,
                        *old(priors),
                        initial,
                        rounds,
                        round,
                        outcome,
                        states.accepted(),
                    ));
                    return outcome;
                },
                Verdict::Accept { cost, converged } => {
                    proof {
                        S::lemma_same_graph(&round.trial, &before, states);
                        S::lemma_same_graph(states, &before, &round.trial);
                        lemma_total_stable(*states, round.trial, *factors, *priors, round.priors);
                    }
                    iterations += 1;
                    current = cost;
                    if converged {
                        let outcome = Ok(
                            OptimizeReport {
                                iterations,
                                initial_cost: initial.plus(constant),
                                final_cost: current.plus(constant),
                                termination: TerminationReason::CostTolerance,
                            },
                        );
                        assert(finished::<S, F, B>(
                            shape,
                            &layout,
                            *options,
                            *old(states),
                            *factors,
                            *old(priors),
                            initial,
                            rounds,
                            round,
                            outcome,
                            states.accepted(),
                        ));
                        return outcome;
                    }
                    proof {
                        let longer = rounds.push(round);
                        assert forall|k: int| 0 <= k < longer.len() implies #[trigger] goes_on::<
                            S,
                            F,
                            B,
                        >(
                            shape,
                            &layout,
                            *options,
                            *old(states),
                            *factors,
                            *old(priors),
                            initial,
                            longer,
                            k,
                        ) by {
                            if k < rounds.len() {
                                assert(goes_on::<S, F, B>(
                                    shape,
                                    &layout,
                                    *options,
                                    *old(states),
                                    *factors,
                                    *old(priors),
                                    initial,
                                    rounds,
                                    k,
                                ));
                                assert(longer[k] == rounds[k]);
                                assert(k > 0 ==> longer[k - 1] == rounds[k - 1]);
                            } else {
                                assert(k > 0 ==> longer[k - 1] == rounds[k - 1]);
                            }
                        }
                        rounds = longer;
                    }
                },
            }
        }
    }
}

impl<S, F, B> Optimizer<S, F> for GaussNewton<B> where
    S: StateSchema,
    F: FactorSchema<S, Scalar = S::Scalar>,
    B: LeastSquaresBackend<Scalar = S::Scalar>,
 {
    open spec fn ready(&self) -> bool {
        self.work.wf()
    }

    open spec fn optimized(
        before: Self,
        after: Self,
        states: S,
        factors: F,
        priors: Priors<S::Scalar>,
        options: OptimizeOptions<S::Scalar>,
        outcome: Result<OptimizeReport<S::Scalar>, SolverError>,
        accepted: S::Estimates,
    ) -> bool {
        optimized(before, after, states, factors, priors, options, outcome, accepted)
    }

    fn optimize(
        &mut self,
        states: &mut S,
        factors: &F,
        priors: &mut Priors<S::Scalar>,
        options: &OptimizeOptions<S::Scalar>,
    ) -> (outcome: Result<OptimizeReport<S::Scalar>, SolverError>) {
        GaussNewton::optimize(self, states, factors, priors, options)
    }
}

impl<S, F, K, B> CovarianceOptimizer<S, F, K> for GaussNewton<B> where
    S: StateSchema,
    F: FactorSchema<S, Scalar = S::Scalar>,
    K: Triangular<S::Scalar>,
    B: LeastSquaresBackend<Scalar = S::Scalar> + CovarianceBackend<K>,
 {
    open spec fn extracted(
        method: Self,
        kernel: K,
        states: S,
        factors: F,
        priors: Priors<S::Scalar>,
        selection: Seq<BlockId>,
        tolerance: S::Scalar,
    ) -> Result<Seq<S::Scalar>, SolverError> {
        extraction_spec::<S, F, K, B>(
            method.work.backend.shape(),
            &method.work.layout,
            kernel,
            states,
            factors,
            priors,
            selection,
            tolerance,
        )
    }

    open spec fn reports_alike(method: Self, other: Self) -> bool {
        true
    }

    fn optimize_covariance(
        &mut self,
        states: &mut S,
        factors: &F,
        priors: &mut Priors<S::Scalar>,
        options: &OptimizeOptions<S::Scalar>,
        blocks: &[BlockId],
        covariance: &mut CovarianceWorkspace<S::Scalar, K>,
    ) -> (outcome: Result<OptimizeReport<S::Scalar>, SolverError>) {
        let run = GaussNewton::optimize(self, states, factors, priors, options);
        let ghost middle = *self;
        let ghost reached = *priors;
        let ghost kernel = covariance.work.backend.kernel;
        let ghost tolerance = covariance.selected.options.relative_pivot_tolerance;
        assert(<Self as Optimizer<S, F>>::optimized(
            *old(self),
            middle,
            *old(states),
            *factors,
            *old(priors),
            *options,
            run,
            states.accepted(),
        ));
        let report = match run {
            Ok(report) => report,
            Err(error) => {
                let ghost extracted = <Self as CovarianceOptimizer<S, F, K>>::extracted(
                    middle,
                    kernel,
                    *states,
                    *factors,
                    reached,
                    blocks@,
                    tolerance,
                );
                return Err(error);
            },
        };
        let computed = self.work.covariance(states, factors, priors, blocks, covariance);
        proof {
            let p = choose|p: Priors<S::Scalar>|
                p.same_priors(&reached) && #[trigger] extraction_spec::<S, F, K, B>(
                    middle.work.backend.shape(),
                    &middle.work.layout,
                    kernel,
                    *states,
                    *factors,
                    p,
                    blocks@,
                    tolerance,
                ) == computed_view(computed, covariance.selected);
            assert(<Self as CovarianceOptimizer<S, F, K>>::extracted(
                middle,
                kernel,
                *states,
                *factors,
                p,
                blocks@,
                tolerance,
            ) == computed_view(computed, covariance.selected));
        }
        match computed {
            Ok(_) => Ok(report),
            Err(error) => Err(error),
        }
    }
}

} // verus!
