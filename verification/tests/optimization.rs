use fagra::backend::{DampedLeastSquaresBackend, DampedStep, LeastSquaresBackend};
use fagra::error::{EvaluationError, SolverError};
use fagra::factors::{Emitted, Factor};
use fagra::gauss_newton::GaussNewton;
use fagra::key::{BlockId, PoolId, StateKey};
use fagra::levenberg_marquardt::{LevenbergMarquardt, LmOptions, TrialFailure};
use fagra::linearization::{BlockView, JacobianBlock, LinearizationSink, Replies};
use fagra::notation::{Count, Listed};
use fagra::optimization::{OptimizeOptions, TerminationReason};
use fagra::priors::Priors;
use fagra::reading::Readable;
use fagra::scalar::Real;
use fagra::states::PoolReading;
use fagra::storage::{FactorPool, StatePool};
use fagra::variable::{copied, right_difference, right_retraction, Variable};

#[derive(Clone, Copy, Debug, PartialEq)]
struct F64(f64);

impl Real for F64 {
    fn zero_spec() -> Self {
        F64(0.0)
    }
    fn zero() -> Self {
        F64(0.0)
    }
    fn one_spec() -> Self {
        F64(1.0)
    }
    fn one() -> Self {
        F64(1.0)
    }
    fn epsilon_spec() -> Self {
        F64(f64::EPSILON)
    }
    fn epsilon() -> Self {
        F64(f64::EPSILON)
    }
    fn ratio_spec(numerator: u64, denominator: u64) -> Self {
        F64(numerator as f64 / denominator as f64)
    }
    fn ratio(numerator: u64, denominator: u64) -> Self {
        F64(numerator as f64 / denominator as f64)
    }
    fn plus_spec(self, other: Self) -> Self {
        F64(self.0 + other.0)
    }
    fn plus(self, other: Self) -> Self {
        F64(self.0 + other.0)
    }
    fn minus_spec(self, other: Self) -> Self {
        F64(self.0 - other.0)
    }
    fn minus(self, other: Self) -> Self {
        F64(self.0 - other.0)
    }
    fn times_spec(self, other: Self) -> Self {
        F64(self.0 * other.0)
    }
    fn times(self, other: Self) -> Self {
        F64(self.0 * other.0)
    }
    fn over_spec(self, other: Self) -> Self {
        F64(self.0 / other.0)
    }
    fn over(self, other: Self) -> Self {
        F64(self.0 / other.0)
    }
    fn negate_spec(self) -> Self {
        F64(-self.0)
    }
    fn negate(self) -> Self {
        F64(-self.0)
    }
    fn abs_spec(self) -> Self {
        F64(self.0.abs())
    }
    fn abs(self) -> Self {
        F64(self.0.abs())
    }
    fn sqrt_spec(self) -> Self {
        F64(self.0.sqrt())
    }
    fn sqrt(self) -> Self {
        F64(self.0.sqrt())
    }
    fn hypot_spec(self, other: Self) -> Self {
        F64(self.0.hypot(other.0))
    }
    fn hypot(self, other: Self) -> Self {
        F64(self.0.hypot(other.0))
    }
    fn max_spec(self, other: Self) -> Self {
        F64(self.0.max(other.0))
    }
    fn max(self, other: Self) -> Self {
        F64(self.0.max(other.0))
    }
    fn min_spec(self, other: Self) -> Self {
        F64(self.0.min(other.0))
    }
    fn min(self, other: Self) -> Self {
        F64(self.0.min(other.0))
    }
    fn finite_spec(self) -> bool {
        self.0.is_finite()
    }
    fn is_finite(self) -> bool {
        self.0.is_finite()
    }
    fn below_spec(self, other: Self) -> bool {
        self.0 < other.0
    }
    fn below(self, other: Self) -> bool {
        self.0 < other.0
    }
    fn at_most_spec(self, other: Self) -> bool {
        self.0 <= other.0
    }
    fn at_most(self, other: Self) -> bool {
        self.0 <= other.0
    }
    fn same_spec(self, other: Self) -> bool {
        self.0 == other.0
    }
    fn same(self, other: Self) -> bool {
        self.0 == other.0
    }
}

/// A value on the real line.
#[derive(Clone, Copy, Debug, PartialEq)]
struct Point(f64);

impl Variable for Point {
    type Scalar = F64;

    fn dof_spec() -> Count {
        unreachable!()
    }
    fn tangent_spec(_: Listed<F64>) -> Option<Listed<F64>> {
        unreachable!()
    }
    fn retract_spec(self, _: Listed<F64>) -> Self {
        unreachable!()
    }
    fn local_spec(self, _: Self) -> Listed<F64> {
        unreachable!()
    }
    fn identity_spec() -> Self {
        Point(0.0)
    }
    fn compose_spec(self, other: Self) -> Self {
        Point(self.0 + other.0)
    }
    fn inverse_spec(self) -> Self {
        Point(-self.0)
    }
    fn exp_spec(_: Listed<F64>) -> Self {
        unreachable!()
    }
    fn log_spec(self) -> Listed<F64> {
        unreachable!()
    }
    fn adjoint_spec(self) -> Listed<F64> {
        unreachable!()
    }
    fn right_jacobian_spec(_: Listed<F64>) -> Listed<F64> {
        unreachable!()
    }
    fn right_jacobian_inverse_spec(_: Listed<F64>) -> Listed<F64> {
        unreachable!()
    }

    fn dof() -> usize {
        1
    }
    fn tangent_from_slice(coords: &[F64]) -> Option<Vec<F64>> {
        copied::<Self>(coords)
    }
    fn retract(&self, delta: &[F64]) -> Self {
        right_retraction(self, delta)
    }
    fn local(&self, other: &Self) -> Vec<F64> {
        right_difference(self, other)
    }
    fn identity() -> Self {
        Point(0.0)
    }
    fn compose(&self, other: &Self) -> Self {
        Point(self.0 + other.0)
    }
    fn inverse(&self) -> Self {
        Point(-self.0)
    }
    fn exp(delta: &[F64]) -> Self {
        Point(delta[0].0)
    }
    fn log(&self) -> Vec<F64> {
        vec![F64(self.0)]
    }
    fn adjoint(&self) -> Vec<F64> {
        vec![F64(1.0)]
    }
    fn right_jacobian(_: &[F64]) -> Vec<F64> {
        vec![F64(1.0)]
    }
    fn right_jacobian_inverse(_: &[F64]) -> Vec<F64> {
        vec![F64(1.0)]
    }
}

type Points = StatePool<Point>;

/// A residual `x^power - value`.
struct Power {
    at: StateKey<Point>,
    power: i32,
    value: f64,
}

impl Factor<Points> for Power {
    type Scalar = F64;

    fn variables_spec(&self) -> Listed<BlockId> {
        unreachable!()
    }
    fn cost_spec(&self, _: PoolReading<Point>) -> Result<F64, EvaluationError> {
        unreachable!()
    }
    fn linearize_spec(&self, _: PoolReading<Point>, _: Replies<F64>) -> Emitted<F64> {
        unreachable!()
    }

    fn visit_variables(&self, visited: &mut Vec<BlockId>) {
        visited.push(self.at.block_id());
    }
    fn cost(&self, states: &Points) -> Result<F64, EvaluationError> {
        let x = states.get(self.at).map_err(EvaluationError::from)?.0;
        let r = x.powi(self.power) - self.value;
        Ok(F64(0.5 * r * r))
    }
    fn linearize<K: LinearizationSink<Scalar = F64>>(
        &self,
        states: &Points,
        sink: &mut K,
    ) -> Result<(), EvaluationError> {
        let x = states.get(self.at).map_err(EvaluationError::from)?.0;
        let r = x.powi(self.power) - self.value;
        let slope = self.power as f64 * x.powi(self.power - 1);
        sink.residual(vec![F64(r)], vec![JacobianBlock::new(self.at, 1, vec![F64(slope)])])
    }
}

/// Diagonal normal equations, for graphs whose factors have one variable each.
struct Diagonal {
    hessian: Vec<f64>,
    gradient: Vec<f64>,
    scales: Vec<f64>,
    fail: usize,
}

impl Diagonal {
    fn new() -> Self {
        Diagonal { hessian: vec![], gradient: vec![], scales: vec![], fail: 0 }
    }
}

impl LeastSquaresBackend for Diagonal {
    type Scalar = F64;
    type Model = ();
    type Shape = ();

    fn wf(&self) -> bool {
        true
    }
    fn dimension(&self) -> Count {
        unreachable!()
    }
    fn model(&self) {}
    fn shape(&self) {}
    fn keeps(&self, _: ()) -> bool {
        unreachable!()
    }
    fn usable(&self) -> bool {
        unreachable!()
    }
    fn fresh(&self) -> bool {
        unreachable!()
    }
    fn answers(_: Self, _: Self, _: Result<Listed<F64>, SolverError>) -> bool {
        unreachable!()
    }
    fn empty_spec(_: (), _: Count) {}
    fn extended_spec(
        _: (),
        _: Listed<F64>,
        _: Listed<BlockView<F64>>,
        _: Listed<usize>,
    ) -> Result<(), EvaluationError> {
        Ok(())
    }
    fn gradient_norm_spec(_: ()) -> Result<F64, SolverError> {
        unreachable!()
    }
    fn prepare_spec(&self, _: Count) -> Result<(), SolverError> {
        Ok(())
    }

    fn prepare(&mut self, dimension: usize) -> Result<(), SolverError> {
        self.hessian = vec![0.0; dimension];
        self.gradient = vec![0.0; dimension];
        Ok(())
    }
    fn clear(&mut self) {
        self.hessian.fill(0.0);
        self.gradient.fill(0.0);
    }
    fn accumulate(
        &mut self,
        residual: &[F64],
        blocks: &[JacobianBlock<F64>],
        columns: &[usize],
    ) -> Result<(), EvaluationError> {
        for (block, &column) in blocks.iter().zip(columns) {
            for row in 0..block.rows {
                let slope = block.entry(row, 0).0;
                self.hessian[column] += slope * slope;
                self.gradient[column] += slope * residual[row].0;
            }
        }
        Ok(())
    }
    fn gradient_norm(&self) -> Result<F64, SolverError> {
        Ok(F64(self.gradient.iter().fold(0.0, |norm: f64, g| norm.max(g.abs()))))
    }
    fn solve(&mut self) -> Result<Vec<F64>, SolverError> {
        if self.fail > 0 {
            self.fail -= 1;
            return Err(SolverError::LinearSolveFailed);
        }
        Ok(self.hessian.iter().zip(&self.gradient).map(|(h, g)| F64(-g / h)).collect())
    }
}

impl DampedLeastSquaresBackend for Diagonal {
    fn scaled(_: Self, _: Self, _: F64, _: Result<(), SolverError>) -> bool {
        unreachable!()
    }
    fn answers_damped(
        _: Self,
        _: Self,
        _: F64,
        _: Result<(Listed<F64>, F64), SolverError>,
    ) -> bool {
        unreachable!()
    }
    fn prepare_damping(&mut self, min_column_norm: F64) -> Result<(), SolverError> {
        self.scales = self.hessian.iter().map(|h| h.sqrt().max(min_column_norm.0)).collect();
        Ok(())
    }
    fn solve_damped(&mut self, lambda: F64) -> Result<DampedStep<F64>, SolverError> {
        if self.fail > 0 {
            self.fail -= 1;
            return Err(SolverError::LinearSolveFailed);
        }
        let mut predicted = 0.0;
        let mut delta = Vec::new();
        for i in 0..self.hessian.len() {
            let (h, g) = (self.hessian[i], self.gradient[i]);
            let d = -g / (h + lambda.0 * self.scales[i] * self.scales[i]);
            predicted -= g * d + 0.5 * h * d * d;
            delta.push(F64(d));
        }
        Ok(DampedStep { delta, predicted_reduction: F64(predicted) })
    }
}

struct Graph {
    states: Points,
    factors: FactorPool<Power>,
    priors: Priors<F64>,
}

fn graph() -> Graph {
    let mut counter = 1;
    let mut next = || PoolId::allocate(&mut counter).unwrap();
    Graph {
        states: StatePool::new(next()),
        factors: FactorPool::new(next()),
        priors: Priors::new(next()),
    }
}

#[test]
fn a_linear_graph_takes_one_full_step() {
    let mut graph = graph();
    let a = graph.states.insert(Point(0.0));
    let b = graph.states.insert(Point(1.0));
    graph.factors.insert(Power { at: a, power: 1, value: 3.0 });
    graph.factors.insert(Power { at: b, power: 1, value: -2.0 });
    let mut method = GaussNewton::new(Diagonal::new());
    let report = method
        .optimize(&mut graph.states, &graph.factors, &mut graph.priors, &OptimizeOptions::defaults())
        .unwrap();
    assert_eq!(report.iterations, 1);
    assert_eq!(report.initial_cost, F64(9.0));
    assert_eq!(report.final_cost, F64(0.0));
    assert_eq!(report.termination, TerminationReason::CostTolerance);
    assert_eq!(*graph.states.get(a).unwrap(), Point(3.0));
    assert_eq!(*graph.states.get(b).unwrap(), Point(-2.0));
}

#[test]
fn damping_converges_on_a_curved_graph() {
    let mut graph = graph();
    let a = graph.states.insert(Point(1.0));
    graph.factors.insert(Power { at: a, power: 2, value: 4.0 });
    let mut method = LevenbergMarquardt::new(Diagonal::new());
    let report = method
        .optimize(&mut graph.states, &graph.factors, &mut graph.priors, &OptimizeOptions::defaults())
        .unwrap();
    assert_eq!(report.initial_cost, F64(4.5));
    assert_eq!(report.termination, TerminationReason::GradientTolerance);
    assert!((graph.states.get(a).unwrap().0 - 2.0).abs() < 1e-6);
    let statistics = method.statistics();
    assert_eq!(statistics.accepted_steps, report.iterations);
    assert_eq!(statistics.attempts, statistics.accepted_steps + statistics.rejected_steps);
    assert_eq!(statistics.linearizations, statistics.accepted_steps + 1);
    assert_eq!(statistics.cost, Some(report.final_cost));
    // Each accepted step is on record, and each decreased the cost.
    assert_eq!(method.progress.len(), report.iterations);
    let mut cost = report.initial_cost.0;
    for (i, step) in method.progress.iter().enumerate() {
        assert_eq!(step.accepted_steps, i + 1);
        assert!(step.cost.unwrap().0 < cost);
        cost = step.cost.unwrap().0;
    }
    assert_eq!(F64(cost), report.final_cost);
}

#[test]
fn default_controls() {
    let options = OptimizeOptions::<F64>::defaults();
    assert_eq!(options.max_iterations, 50);
    assert_eq!(options.gradient_tolerance, F64(1e-8));
    assert_eq!(options.step_tolerance, F64(1e-10));
    assert_eq!(options.cost_tolerance, F64(1e-12));
    assert!(options.validate().is_ok());
    let controls = LmOptions::<F64>::defaults();
    assert_eq!(controls.initial_damping, F64(1e-3));
    assert_eq!(controls.min_damping, F64(1e-12));
    assert_eq!(controls.max_damping, F64(1e12));
    assert_eq!(controls.min_column_norm, F64(1e-6));
    assert_eq!(controls.acceptance_threshold, F64(1e-4));
    assert_eq!(controls.max_trials, 16);
    assert!(controls.validate().is_ok());
}

#[test]
fn unusable_controls_are_refused() {
    let good = OptimizeOptions::<F64>::defaults();
    for bad in [
        OptimizeOptions { max_iterations: 0, ..good },
        OptimizeOptions { gradient_tolerance: F64(-1.0), ..good },
        OptimizeOptions { step_tolerance: F64(f64::NAN), ..good },
        OptimizeOptions { cost_tolerance: F64(f64::INFINITY), ..good },
    ] {
        assert!(matches!(bad.validate(), Err(SolverError::InvalidOptions)));
    }
    let good = LmOptions::<F64>::defaults();
    for bad in [
        LmOptions { initial_damping: F64(1e-13), ..good },
        LmOptions { initial_damping: F64(1e13), ..good },
        LmOptions { min_damping: F64(0.0), ..good },
        LmOptions { max_damping: F64(f64::INFINITY), ..good },
        LmOptions { min_column_norm: F64(-1.0), ..good },
        LmOptions { acceptance_threshold: F64(1.0), ..good },
        LmOptions { max_trials: 0, ..good },
    ] {
        assert!(matches!(bad.validate(), Err(SolverError::InvalidOptions)));
        let mut graph = graph();
        let a = graph.states.insert(Point(1.0));
        graph.factors.insert(Power { at: a, power: 1, value: 4.0 });
        let mut method = LevenbergMarquardt::new(Diagonal::new());
        method.options = bad;
        let options = OptimizeOptions::defaults();
        let outcome =
            method.optimize(&mut graph.states, &graph.factors, &mut graph.priors, &options);
        assert!(matches!(outcome, Err(SolverError::InvalidOptions)));
        assert_eq!(method.statistics().cost_evaluations, 0);
        assert_eq!(*graph.states.get(a).unwrap(), Point(1.0));
    }
}

#[test]
fn a_full_step_fails_with_its_solve() {
    let mut graph = graph();
    let a = graph.states.insert(Point(0.5));
    graph.factors.insert(Power { at: a, power: 1, value: 3.0 });
    let mut backend = Diagonal::new();
    backend.fail = 1;
    let mut method = GaussNewton::new(backend);
    let options = OptimizeOptions::defaults();
    let outcome = method.optimize(&mut graph.states, &graph.factors, &mut graph.priors, &options);
    assert!(matches!(outcome, Err(SolverError::LinearSolveFailed)));
    assert_eq!(*graph.states.get(a).unwrap(), Point(0.5));
}

#[test]
fn a_failed_solve_is_retried_with_more_damping() {
    let mut graph = graph();
    let a = graph.states.insert(Point(0.0));
    graph.factors.insert(Power { at: a, power: 1, value: 3.0 });
    let mut backend = Diagonal::new();
    backend.fail = 1;
    let mut method = LevenbergMarquardt::new(backend);
    let report = method
        .optimize(&mut graph.states, &graph.factors, &mut graph.priors, &OptimizeOptions::defaults())
        .unwrap();
    assert_eq!(report.termination, TerminationReason::GradientTolerance);
    let statistics = method.statistics();
    assert_eq!(statistics.rejected_steps, 1);
    assert_eq!(statistics.last_rejection, Some(TrialFailure::LinearSolve));
    // The first retry doubles the initial damping.
    assert_eq!(method.progress[0].damping, F64(2e-3));
    assert!((graph.states.get(a).unwrap().0 - 3.0).abs() < 1e-6);
}

#[test]
fn retries_are_limited() {
    let mut graph = graph();
    let a = graph.states.insert(Point(0.0));
    graph.factors.insert(Power { at: a, power: 1, value: 3.0 });
    let mut backend = Diagonal::new();
    backend.fail = usize::MAX;
    let mut method = LevenbergMarquardt::new(backend);
    method.options.max_trials = 5;
    let options = OptimizeOptions::defaults();
    let outcome = method.optimize(&mut graph.states, &graph.factors, &mut graph.priors, &options);
    assert!(matches!(outcome, Err(SolverError::NoProgress)));
    assert_eq!(method.statistics().attempts, 5);
    assert_eq!(method.statistics().rejected_steps, 5);
    assert_eq!(method.statistics().accepted_steps, 0);
    assert_eq!(method.progress.len(), 0);
    assert_eq!(*graph.states.get(a).unwrap(), Point(0.0));
    // At the greatest damping there is nothing left to try.
    method.options.max_damping = method.options.initial_damping;
    let outcome = method.optimize(&mut graph.states, &graph.factors, &mut graph.priors, &options);
    assert!(matches!(outcome, Err(SolverError::NoProgress)));
    assert_eq!(method.statistics().attempts, 1);
}

#[test]
fn an_iteration_limit_keeps_accepted_steps() {
    let mut graph = graph();
    let a = graph.states.insert(Point(1.0));
    graph.factors.insert(Power { at: a, power: 2, value: 4.0 });
    let mut options = OptimizeOptions::defaults();
    options.max_iterations = 1;
    let mut method = LevenbergMarquardt::new(Diagonal::new());
    let outcome = method.optimize(&mut graph.states, &graph.factors, &mut graph.priors, &options);
    assert!(matches!(outcome, Err(SolverError::NoConvergence)));
    assert_eq!(method.statistics().accepted_steps, 1);
    assert!(*graph.states.get(a).unwrap() != Point(1.0));
    assert_eq!(method.statistics().cost, method.progress[0].cost);
}
