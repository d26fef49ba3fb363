//! What nonlinear methods share: stopping controls, the prepared graph and its cost.
use crate::backend::{assembled, LeastSquaresBackend};
use crate::error::{EvaluationError, SolverError};
use crate::families::{cost_run, plan_run, FactorSchema, Incidence, Planned};
use crate::key::RawKey;
use crate::layout::Layout;
use crate::priors::{lemma_cost_same, Priors};
use crate::scalar::Real;
use crate::linearization::LinearizationSink;
use crate::sink::{units_run, CheckedSink, Progress};
use crate::states::{lemma_positions, placed, positions, width_sum, StateSchema};
use crate::storage::{checked_cost, checked_cost_spec};
use vstd::prelude::*;

verus! {

/// Stopping controls shared by nonlinear optimizers.
#[derive(Debug, Clone, Copy)]
pub struct OptimizeOptions<R> {
    /// Maximum number of accepted steps; must be positive.
    pub max_iterations: usize,
    /// Stop when the infinity norm of the gradient is at most this.
    pub gradient_tolerance: R,
    /// Stop before a step whose infinity norm is at most this, in tangent coordinates.
    pub step_tolerance: R,
    /// Stop after a nonnegative cost decrease of at most this times
    /// `max(1, previous cost)`.
    pub cost_tolerance: R,
}

/// A tolerance is finite and not negative.
pub open spec fn is_tolerance<R: Real>(value: R) -> bool {
    value.finite_spec() && !value.below_spec(R::zero_spec())
}

impl<R: Real> OptimizeOptions<R> {
    /// Fifty steps, and tolerances that machine precision can meet.
    pub open spec fn defaults_spec() -> Self {
        OptimizeOptions {
            max_iterations: 50,
            gradient_tolerance: R::ratio_spec(1, 100_000_000).max_spec(
                R::epsilon_spec().times_spec(R::ratio_spec(8, 1)),
            ),
            step_tolerance: R::ratio_spec(1, 10_000_000_000).max_spec(R::epsilon_spec()),
            cost_tolerance: R::ratio_spec(1, 1_000_000_000_000).max_spec(R::epsilon_spec()),
        }
    }

    /// Fifty steps, and tolerances that machine precision can meet.
    pub fn defaults() -> (options: Self)
        ensures
            options == Self::defaults_spec(),
    {
        OptimizeOptions {
            max_iterations: 50,
            gradient_tolerance: R::ratio(1, 100_000_000).max(R::epsilon().times(R::ratio(8, 1))),
            step_tolerance: R::ratio(1, 10_000_000_000).max(R::epsilon()),
            cost_tolerance: R::ratio(1, 1_000_000_000_000).max(R::epsilon()),
        }
    }

    /// A positive iteration limit and usable tolerances.
    pub open spec fn valid(self) -> bool {
        &&& self.max_iterations != 0
        &&& is_tolerance(self.gradient_tolerance)
        &&& is_tolerance(self.step_tolerance)
        &&& is_tolerance(self.cost_tolerance)
    }

    /// Reject unusable controls.
    pub fn validate(&self) -> (valid: Result<(), SolverError>)
        ensures
            valid == if self.valid() {
                Ok::<(), SolverError>(())
            } else {
                Err(SolverError::InvalidOptions)
            },
    {
        let zero = R::zero();
        if self.max_iterations == 0 || !self.gradient_tolerance.is_finite()
            || self.gradient_tolerance.below(zero) || !self.step_tolerance.is_finite()
            || self.step_tolerance.below(zero) || !self.cost_tolerance.is_finite()
            || self.cost_tolerance.below(zero) {
            return Err(SolverError::InvalidOptions);
        }
        Ok(())
    }
}

/// The stopping criterion that an optimization met.
#[derive(Debug, Clone, Copy, PartialEq, Eq, Structural)]
#[non_exhaustive]
pub enum TerminationReason {
    /// There were no coordinates to optimize.
    NoVariables,
    /// The gradient is small enough.
    GradientTolerance,
    /// The proposed step is small enough; it was not applied.
    StepTolerance,
    /// The accepted cost is zero, or decreased little enough.
    CostTolerance,
}

/// Summary of a successful optimization.
#[derive(Debug, Clone, Copy)]
pub struct OptimizeReport<R> {
    /// Number of accepted steps.
    pub iterations: usize,
    /// Objective before the first step.
    pub initial_cost: R,
    /// Objective at the returned estimates.
    pub final_cost: R,
    /// Criterion responsible for stopping.
    pub termination: TerminationReason,
}

/// A nonlinear method, independent of who owns the graph.
pub trait Optimizer<S: StateSchema, F: FactorSchema<S, Scalar = S::Scalar>>: Sized {
    spec fn ready(&self) -> bool;

    /// How an optimization ends, from what it started with.
    spec fn optimized(
        before: Self,
        after: Self,
        states: S,
        factors: F,
        priors: Priors<S::Scalar>,
        options: OptimizeOptions<S::Scalar>,
        outcome: Result<OptimizeReport<S::Scalar>, SolverError>,
        accepted: S::Estimates,
    ) -> bool;

    /// Optimize a graph. Estimates accepted before an error stay.
    fn optimize(
        &mut self,
        states: &mut S,
        factors: &F,
        priors: &mut Priors<S::Scalar>,
        options: &OptimizeOptions<S::Scalar>,
    ) -> (outcome: Result<OptimizeReport<S::Scalar>, SolverError>)
        requires
            old(self).ready(),
            old(states).wf(),
            old(states).idle(),
            old(states).current() == old(states).accepted(),
            factors.wf(),
            old(priors).wf(),
        ensures
            final(self).ready(),
            final(states).wf(),
            final(states).idle(),
            final(states).same_graph(old(states)),
            final(states).blocks() == old(states).blocks(),
            final(states).current() == final(states).accepted(),
            final(priors).wf(),
            final(priors).same_priors(old(priors)),
            !options.valid() ==> outcome == Err::<OptimizeReport<S::Scalar>, SolverError>(
                SolverError::InvalidOptions,
            ) && final(states).accepted() == old(states).accepted(),
            outcome matches Ok(report) ==> {
                &&& report.iterations <= options.max_iterations
                &&& cost_spec(*final(states), *factors, *final(priors)) matches Ok(cost)
                    && report.final_cost == cost.plus_spec(old(priors).constant)
            },
            Self::optimized(
                *old(self),
                *final(self),
                *old(states),
                *factors,
                *old(priors),
                *options,
                outcome,
                final(states).accepted(),
            ),
    ;
}

/// Objective of all factors and priors, without the constant of the priors.
pub open spec fn cost_spec<S: StateSchema, F: FactorSchema<S, Scalar = S::Scalar>>(
    states: S,
    factors: F,
    priors: Priors<S::Scalar>,
) -> Result<S::Scalar, SolverError> {
    match cost_run(
        <S::Scalar as Real>::zero_spec(),
        factors.cost_terms(states.reading()),
        factors.cost_terms(states.reading()).len() as int,
    ) {
        Err(error) => Err(error),
        Ok(total) => match priors.cost_spec(states) {
            Err(error) => Err(error),
            Ok(prior) => checked_cost_spec(Ok(total.plus_spec(prior))),
        },
    }
}

/// Evaluate the objective of all factors and priors, without the constant of the priors.
pub fn cost<S: StateSchema, F: FactorSchema<S, Scalar = S::Scalar>>(
    states: &S,
    factors: &F,
    priors: &mut Priors<S::Scalar>,
) -> (cost: Result<S::Scalar, SolverError>)
    requires
        states.wf(),
        factors.wf(),
        old(priors).wf(),
    ensures
        final(priors).wf(),
        final(priors).same_priors(old(priors)),
        cost == cost_spec(*states, *factors, *old(priors)),
{
    let total = match factors.cost(states, <S::Scalar as Real>::zero()) {
        Ok(total) => total,
        Err(error) => {
            return Err(error);
        },
    };
    match priors.cost(states) {
        Ok(prior) => checked_cost(Ok(total.plus(prior))),
        Err(error) => Err(error),
    }
}

/// The objective depends on the current estimates alone: neither a staged trial nor
/// earlier evaluations enter it.
pub proof fn lemma_cost_stable<S: StateSchema, F: FactorSchema<S, Scalar = S::Scalar>>(
    x: S,
    y: S,
    factors: F,
    p: Priors<S::Scalar>,
    q: Priors<S::Scalar>,
)
    requires
        x.same_graph(&y),
        x.current() == y.current(),
        p.wf(),
        q.wf(),
        p.same_priors(&q),
    ensures
        cost_spec(x, factors, p) == cost_spec(y, factors, q),
{
    x.lemma_reading(&y);
    assert(x.deltas_spec(None, false) == y.deltas_spec(None, false));
    lemma_cost_same(&p, &q, x, y);
}

/// The objective with the constant of the priors; both must be valid costs.
pub open spec fn total_spec<S: StateSchema, F: FactorSchema<S, Scalar = S::Scalar>>(
    states: S,
    factors: F,
    priors: Priors<S::Scalar>,
) -> Result<S::Scalar, SolverError> {
    match cost_spec(states, factors, priors) {
        Err(error) => Err(error),
        Ok(cost) => match checked_cost_spec(Ok(cost.plus_spec(priors.constant))) {
            Err(error) => Err(error),
            Ok(_) => Ok(cost),
        },
    }
}

/// The total depends on the current estimates alone.
pub proof fn lemma_total_stable<S: StateSchema, F: FactorSchema<S, Scalar = S::Scalar>>(
    x: S,
    y: S,
    factors: F,
    p: Priors<S::Scalar>,
    q: Priors<S::Scalar>,
)
    requires
        x.same_graph(&y),
        x.current() == y.current(),
        p.wf(),
        q.wf(),
        p.same_priors(&q),
    ensures
        total_spec(x, factors, p) == total_spec(y, factors, q),
{
    lemma_cost_stable(x, y, factors, p, q);
}

/// Evaluate the objective, without the constant of the priors, where its total is valid.
pub fn checked_total<S: StateSchema, F: FactorSchema<S, Scalar = S::Scalar>>(
    states: &S,
    factors: &F,
    priors: &mut Priors<S::Scalar>,
) -> (cost: Result<S::Scalar, SolverError>)
    requires
        states.wf(),
        factors.wf(),
        old(priors).wf(),
    ensures
        final(priors).wf(),
        final(priors).same_priors(old(priors)),
        cost == total_spec(*states, *factors, *old(priors)),
{
    let value = match cost(states, factors, priors) {
        Ok(value) => value,
        Err(error) => {
            return Err(error);
        },
    };
    match checked_cost(Ok(value.plus(priors.constant))) {
        Ok(_) => Ok(value),
        Err(error) => Err(error),
    }
}

/// Nothing planned.
pub open spec fn unplanned() -> Planned {
    Planned { factors: Seq::empty(), dependencies: Seq::empty(), index: Map::empty() }
}

/// Every planned factor was emitted.
pub open spec fn complete(seen: Seq<bool>) -> bool {
    forall|f: int| 0 <= f < seen.len() ==> #[trigger] seen[f]
}

/// No factor was emitted yet.
pub open spec fn untouched<M>(layout: &Layout, model: M) -> Progress<M> {
    Progress {
        seen: Seq::new(layout.factors@.len(), |f: int| false),
        active: None,
        failed: false,
        model,
    }
}

/// The linear model of all factors and priors at the current estimates, or why there is
/// none. Every planned factor must be emitted, and nothing refused.
pub open spec fn model_spec<
    S: StateSchema,
    F: FactorSchema<S, Scalar = S::Scalar>,
    B: LeastSquaresBackend<Scalar = S::Scalar>,
>(
    shape: B::Shape,
    layout: &Layout,
    states: S,
    factors: F,
    priors: Priors<S::Scalar>,
) -> Result<
    B::Model,
    SolverError,
> {
    let units = factors.units(states.reading());
    match units_run::<B>(
        layout,
        0,
        untouched(layout, B::empty_spec(shape, layout.dimension as nat)),
        units,
        units.len() as int,
    ) {
        Err(error) => Err(SolverError::Evaluation(error)),
        Ok(reached) => if reached.failed || !complete(reached.seen) {
            Err(SolverError::Evaluation(EvaluationError::InvalidEmission))
        } else {
            match priors.evaluated(states, true, None) {
                Err(error) => Err(error),
                Ok(views) => match priors.rows_run::<B>(
                    layout,
                    reached.model,
                    views,
                    None,
                    views.len() as int,
                ) {
                    Err(error) => Err(SolverError::Evaluation(error)),
                    Ok(model) => Ok(model),
                },
            }
        },
    }
}

/// Whether a graph can be laid out, or why not.
pub open spec fn prepared_spec<
    S: StateSchema,
    F: FactorSchema<S>,
    B: LeastSquaresBackend<Scalar = S::Scalar>,
>(backend: B, states: S, factors: F) -> Result<(), SolverError> {
    if width_sum(states.blocks()) > usize::MAX {
        Err(SolverError::Evaluation(EvaluationError::DimensionMismatch))
    } else if plan_run(
        positions(states.blocks()),
        unplanned(),
        factors.incidence(),
        factors.incidence().len() as int,
    ) is None {
        Err(SolverError::Evaluation(EvaluationError::InvalidEmission))
    } else {
        backend.prepare_spec(width_sum(states.blocks()))
    }
}

/// The objective of a graph that can be laid out, or why it cannot be laid out or
/// evaluated.
pub open spec fn opened_spec<
    S: StateSchema,
    F: FactorSchema<S, Scalar = S::Scalar>,
    B: LeastSquaresBackend<Scalar = S::Scalar>,
>(
    backend: B,
    states: S,
    factors: F,
    priors: Priors<S::Scalar>,
) -> Result<S::Scalar, SolverError> {
    match prepared_spec(backend, states, factors) {
        Err(error) => Err(error),
        Ok(_) => total_spec(states, factors, priors),
    }
}

proof fn lemma_plan_length(
    blocks: Map<RawKey, usize>,
    planned: Planned,
    incidence: Seq<Incidence>,
    n: int,
)
    requires
        0 <= n,
    ensures
        plan_run(blocks, planned, incidence, n) matches Some(after) ==> after.factors.len()
            == planned.factors.len() + n,
    decreases n,
{
    if n > 0 {
        lemma_plan_length(blocks, planned, incidence, n - 1);
    }
}

/// Coordinates and plan are those of the given graph.
pub open spec fn laid_out<S: StateSchema, F: FactorSchema<S>>(
    layout: &Layout,
    states: &S,
    factors: &F,
) -> bool {
    &&& layout.wf()
    &&& layout.dimension == width_sum(states.blocks())
    &&& layout.blocks@ == placed(states.blocks(), 0)
    &&& plan_run(
        positions(states.blocks()),
        unplanned(),
        factors.incidence(),
        factors.incidence().len() as int,
    ) == Some(layout.planned())
}

/// A backend with the coordinates and the plan of the graph it works on.
pub struct Workspace<B> {
    pub backend: B,
    pub layout: Layout,
    /// How far the current emission has come.
    pub checks: CheckedSink,
    /// The linear model of the accepted estimates is at hand.
    pub current: bool,
}

impl<B: LeastSquaresBackend> Workspace<B> {
    pub open spec fn wf(&self) -> bool {
        self.backend.wf() && self.layout.wf()
    }

    /// Coordinates and plan are those of the given graph.
    pub open spec fn prepared<S: StateSchema, F: FactorSchema<S>>(
        &self,
        states: &S,
        factors: &F,
    ) -> bool {
        &&& self.wf()
        &&& self.backend.dimension() == self.layout.dimension
        &&& laid_out(&self.layout, states, factors)
    }

    /// Keep a backend for the optimizations to come.
    pub fn new(backend: B) -> (work: Self)
        requires
            backend.wf(),
        ensures
            work.wf(),
            work.backend == backend,
            !work.current,
    {
        let layout = Layout::new();
        let checks = CheckedSink::new(&layout);
        Workspace { backend, layout, checks, current: false }
    }

    /// Lay out a graph afresh.
    pub fn prepare<S: StateSchema<Scalar = B::Scalar>, F: FactorSchema<S, Scalar = B::Scalar>>(
        &mut self,
        states: &mut S,
        factors: &F,
    ) -> (prepared: Result<(), SolverError>)
        requires
            old(self).wf(),
            old(states).wf(),
            old(states).idle(),
            factors.wf(),
        ensures
            final(self).wf(),
            !final(self).current,
            final(self).backend.shape() == old(self).backend.shape(),
            final(states).wf(),
            final(states).idle(),
            final(states).same_graph(old(states)),
            final(states).blocks() == old(states).blocks(),
            final(states).accepted() == old(states).accepted(),
            final(states).current() == old(states).current(),
            prepared == prepared_spec(old(self).backend, *old(states), *factors),
            prepared is Ok ==> final(self).prepared(final(states), factors),
    {
        self.current = false;
        self.layout.clear();
        assert(self.layout.planned() =~= unplanned());
        match states.arrange(&mut self.layout) {
            Ok(_) => {},
            Err(error) => {
                return Err(error);
            },
        }
        assert(self.layout.blocks@ =~= placed(old(states).blocks(), 0));
        assert(self.layout.planned() == unplanned());
        proof {
            lemma_positions(&self.layout, old(states).blocks());
        }
        match factors.plan(&mut self.layout) {
            Ok(_) => {},
            Err(error) => {
                return Err(error);
            },
        }
        self.backend.prepare(self.layout.dimension)
    }

    /// Lay out a graph afresh and evaluate its objective.
    pub fn open<S: StateSchema<Scalar = B::Scalar>, F: FactorSchema<S, Scalar = B::Scalar>>(
        &mut self,
        states: &mut S,
        factors: &F,
        priors: &mut Priors<B::Scalar>,
    ) -> (opened: Result<B::Scalar, SolverError>)
        requires
            old(self).wf(),
            old(states).wf(),
            old(states).idle(),
            factors.wf(),
            old(priors).wf(),
        ensures
            final(self).wf(),
            !final(self).current,
            final(self).backend.shape() == old(self).backend.shape(),
            final(states).wf(),
            final(states).idle(),
            final(states).same_graph(old(states)),
            final(states).blocks() == old(states).blocks(),
            final(states).accepted() == old(states).accepted(),
            final(states).current() == old(states).current(),
            final(priors).wf(),
            final(priors).same_priors(old(priors)),
            opened == opened_spec(
                old(self).backend,
                *old(states),
                *factors,
                *old(priors),
            ),
            opened is Ok ==> final(self).prepared(final(states), factors),
    {
        match self.prepare(states, factors) {
            Ok(_) => {},
            Err(error) => {
                return Err(error);
            },
        }
        proof {
            lemma_cost_stable(*states, *old(states), *factors, *priors, *old(priors));
        }
        checked_total(states, factors, priors)
    }

    /// Linearize a prepared graph at its current estimates.
    pub fn linearize<S: StateSchema<Scalar = B::Scalar>, F: FactorSchema<S, Scalar = B::Scalar>>(
        &mut self,
        states: &S,
        factors: &F,
        priors: &mut Priors<B::Scalar>,
    ) -> (linearized: Result<(), SolverError>)
        requires
            old(self).prepared(states, factors),
            states.wf(),
            factors.wf(),
            old(priors).wf(),
        ensures
            final(self).prepared(states, factors),
            final(self).layout == old(self).layout,
            final(self).backend.shape() == old(self).backend.shape(),
            final(self).current == (linearized is Ok),
            final(priors).wf(),
            final(priors).same_priors(old(priors)),
            match model_spec::<S, F, B>(
                old(self).backend.shape(),
                &old(self).layout,
                *states,
                *factors,
                *old(priors),
            ) {
                Err(error) => linearized == Err::<(), SolverError>(error),
                Ok(model) => {
                    &&& linearized is Ok
                    &&& final(self).backend.model() == model
                    &&& assembled(final(self).backend)
                },
            },
    {
        proof {
            lemma_plan_length(
                positions(states.blocks()),
                unplanned(),
                factors.incidence(),
                factors.incidence().len() as int,
            );
        }
        self.current = false;
        self.backend.clear();
        self.checks = CheckedSink::new(&self.layout);
        assert(self.progress() == untouched(
            &self.layout,
            B::empty_spec(self.backend.shape(), self.layout.dimension as nat),
        )) by {
            assert(self.checks.seen@ =~= Seq::new(self.layout.factors@.len(), |f: int| false));
        }
        match factors.linearize(states, self, 0) {
            Ok(_) => {},
            Err(error) => {
                return Err(error);
            },
        }
        if self.checks.failed || !self.checks.complete() {
            return Err(SolverError::Evaluation(EvaluationError::InvalidEmission));
        }
        match priors.linearize(states, &mut self.backend, &self.layout, None) {
            Ok(_) => {},
            Err(error) => {
                return Err(error);
            },
        }
        self.current = true;
        Ok(())
    }
}

/// The linear model of a graph is at hand: the backend holds it, or what it implies.
pub open spec fn at_hand<
    S: StateSchema,
    F: FactorSchema<S, Scalar = S::Scalar>,
    B: LeastSquaresBackend<Scalar = S::Scalar>,
>(work: Workspace<B>, states: S, factors: F, priors: Priors<S::Scalar>) -> bool {
    model_spec::<S, F, B>(
        work.backend.shape(),
        &work.layout,
        states,
        factors,
        priors,
    ) matches Ok(model) && work.backend.usable() && work.backend.keeps(model)
}

/// The same graph with the same estimates and priors, whatever was evaluated or staged before.
pub open spec fn same_problem<S: StateSchema>(
    x: S,
    y: S,
    p: Priors<S::Scalar>,
    q: Priors<S::Scalar>,
) -> bool {
    &&& x.same_graph(&y)
    &&& x.accepted() == y.accepted()
    &&& x.current() == y.current()
    &&& p.same_priors(&q)
}

/// A workspace that claims to be current has the model of the given graph at hand.
pub open spec fn up_to_date<
    S: StateSchema,
    F: FactorSchema<S, Scalar = S::Scalar>,
    B: LeastSquaresBackend<Scalar = S::Scalar>,
>(work: Workspace<B>, states: S, factors: F, priors: Priors<S::Scalar>) -> bool {
    work.current ==> exists|x: S, p: Priors<S::Scalar>|
        same_problem(x, states, p, priors) && #[trigger] at_hand(work, x, factors, p)
}

impl CheckedSink {
    /// Whether every planned factor was emitted.
    pub fn complete(&self) -> (all: bool)
        ensures
            all == complete(self.seen@),
    {
        let mut f: usize = 0;
        while f < self.seen.len()
            invariant
                f <= self.seen@.len(),
                forall|g: int| 0 <= g < f ==> #[trigger] self.seen@[g],
            decreases self.seen@.len() - f,
        {
            if !self.seen[f] {
                return false;
            }
            f += 1;
        }
        true
    }
}

} // verus!
