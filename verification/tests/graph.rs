use fagra::elimination::{Matrix, MatrixView, PivotedQr};
use fagra::kernels::{
    Bidiagonalization, Clock, ConjugateGradient, Descent, DescentEnd, DescentView, IterationTimes,
    Operator, Regression, RegressionView, Triangular, TwoSided,
};
use fagra::key::{BlockId, LocalKey, PoolId, RawKey};
use fagra::linearization::JacobianBlock;
use fagra::notation::{Action, Count, Listed};
use fagra::scalar::Real;
use faer::dyn_stack::{MemBuffer, MemStack, StackReq};
use faer::linalg::qr::col_pivoting::factor;
use faer::linalg::{householder, triangular_solve};
use faer::matrix_free::{
    conjugate_gradient as cg, lsmr, BiLinOp, BiPrecond, InitialGuessStatus, LinOp, Precond,
};
use faer::{Mat, MatMut, MatRef, Par, Side};
use fagra::access::StateStore;
use fagra::covariance::CovarianceOptions;
use fagra::error::{EvaluationError, KeyError, SolverError};
use fagra::factors::{Emitted, Factor, FactorBatch, FactorSelection};
use fagra::gauss_newton::GaussNewton;
use fagra::journal::{ProblemChange, TrackedProblem};
use fagra::key::{BatchKey, FactorId, FactorKey, StateKey};
use fagra::levenberg_marquardt::LevenbergMarquardt;
use fagra::linearization::{LinearizationSink, Replies};
use fagra::lsmr::Lsmr;
use fagra::marginalization::MarginalizationOptions;
use fagra::normal::DenseNormalCholesky;
use fagra::optimization::{OptimizeOptions, TerminationReason};
use fagra::pair::Pair;
use fagra::priors::{Prior as MarginalPrior, PriorBlock, Priors};
use fagra::problem::{Dependencies, Problem};
use fagra::reading::Readable;
use fagra::schur::Schur;
use fagra::solver::Solver;
use fagra::storage::{Anchor, BatchPool, FactorPool, StatePool};
use fagra::variable::{copied, right_difference, right_retraction, Variable};
use faer::linalg::solvers::DenseSolveCore;
use std::cell::Cell;
use std::rc::Rc;

trait Prim: faer::traits::RealField + Copy + std::fmt::Debug {
    fn of(value: f64) -> Self;
    fn wide(self) -> f64;
    fn divided(numerator: u64, denominator: u64) -> Self;
    fn arithmetic(self, other: Self, kind: u8) -> Self;
    fn function(self, other: Self, kind: u8) -> Self;
    fn finite(self) -> bool;
    fn machine_epsilon() -> Self;
}

impl Prim for f64 {
    fn of(value: f64) -> Self {
        value
    }
    fn wide(self) -> f64 {
        self
    }
    fn divided(numerator: u64, denominator: u64) -> Self {
        numerator as f64 / denominator as f64
    }
    fn arithmetic(self, other: Self, kind: u8) -> Self {
        match kind {
            0 => self + other,
            1 => self - other,
            2 => self * other,
            _ => self / other,
        }
    }
    fn function(self, other: Self, kind: u8) -> Self {
        match kind {
            0 => self.abs(),
            1 => self.sqrt(),
            2 => self.hypot(other),
            3 => self.max(other),
            _ => self.min(other),
        }
    }
    fn finite(self) -> bool {
        f64::is_finite(self)
    }
    fn machine_epsilon() -> Self {
        f64::EPSILON
    }
}

impl Prim for f32 {
    fn of(value: f64) -> Self {
        value as f32
    }
    fn wide(self) -> f64 {
        self as f64
    }
    fn divided(numerator: u64, denominator: u64) -> Self {
        (numerator as f64 / denominator as f64) as f32
    }
    fn arithmetic(self, other: Self, kind: u8) -> Self {
        match kind {
            0 => self + other,
            1 => self - other,
            2 => self * other,
            _ => self / other,
        }
    }
    fn function(self, other: Self, kind: u8) -> Self {
        match kind {
            0 => self.abs(),
            1 => self.sqrt(),
            2 => self.hypot(other),
            3 => self.max(other),
            _ => self.min(other),
        }
    }
    fn finite(self) -> bool {
        f32::is_finite(self)
    }
    fn machine_epsilon() -> Self {
        f32::EPSILON
    }
}

/// A floating-point number as a scalar of the library.
#[derive(Clone, Copy, Debug, PartialEq)]
struct N<T>(T);

fn n<T: Prim>(value: f64) -> N<T> {
    N(T::of(value))
}

fn ns<T: Prim>(values: &[f64]) -> Vec<N<T>> {
    values.iter().map(|&v| n(v)).collect()
}

impl<T: Prim> N<T> {
    fn wide(self) -> f64 {
        self.0.wide()
    }
}

fn wide<T: Prim>(values: &[N<T>]) -> Vec<f64> {
    values.iter().map(|v| v.wide()).collect()
}

impl<T: Prim> Real for N<T> {
    fn zero_spec() -> Self {
        unreachable!()
    }
    fn one_spec() -> Self {
        unreachable!()
    }
    fn epsilon_spec() -> Self {
        unreachable!()
    }
    fn ratio_spec(_: u64, _: u64) -> Self {
        unreachable!()
    }
    fn plus_spec(self, _: Self) -> Self {
        unreachable!()
    }
    fn minus_spec(self, _: Self) -> Self {
        unreachable!()
    }
    fn times_spec(self, _: Self) -> Self {
        unreachable!()
    }
    fn over_spec(self, _: Self) -> Self {
        unreachable!()
    }
    fn negate_spec(self) -> Self {
        unreachable!()
    }
    fn abs_spec(self) -> Self {
        unreachable!()
    }
    fn sqrt_spec(self) -> Self {
        unreachable!()
    }
    fn hypot_spec(self, _: Self) -> Self {
        unreachable!()
    }
    fn max_spec(self, _: Self) -> Self {
        unreachable!()
    }
    fn min_spec(self, _: Self) -> Self {
        unreachable!()
    }
    fn finite_spec(self) -> bool {
        unreachable!()
    }
    fn below_spec(self, _: Self) -> bool {
        unreachable!()
    }
    fn at_most_spec(self, _: Self) -> bool {
        unreachable!()
    }
    fn same_spec(self, _: Self) -> bool {
        unreachable!()
    }
    fn zero() -> Self {
        n(0.0)
    }
    fn one() -> Self {
        n(1.0)
    }
    fn epsilon() -> Self {
        N(T::machine_epsilon())
    }
    fn ratio(numerator: u64, denominator: u64) -> Self {
        N(T::divided(numerator, denominator))
    }
    fn plus(self, other: Self) -> Self {
        N(self.0.arithmetic(other.0, 0))
    }
    fn minus(self, other: Self) -> Self {
        N(self.0.arithmetic(other.0, 1))
    }
    fn times(self, other: Self) -> Self {
        N(self.0.arithmetic(other.0, 2))
    }
    fn over(self, other: Self) -> Self {
        N(self.0.arithmetic(other.0, 3))
    }
    fn negate(self) -> Self {
        N(-self.0)
    }
    fn abs(self) -> Self {
        N(self.0.function(self.0, 0))
    }
    fn sqrt(self) -> Self {
        N(self.0.function(self.0, 1))
    }
    fn hypot(self, other: Self) -> Self {
        N(self.0.function(other.0, 2))
    }
    fn max(self, other: Self) -> Self {
        N(self.0.function(other.0, 3))
    }
    fn min(self, other: Self) -> Self {
        N(self.0.function(other.0, 4))
    }
    fn is_finite(self) -> bool {
        self.0.finite()
    }
    fn below(self, other: Self) -> bool {
        self.0 < other.0
    }
    fn at_most(self, other: Self) -> bool {
        self.0 <= other.0
    }
    fn same(self, other: Self) -> bool {
        self.0 == other.0
    }
}

/// Numerical kernels from a linear algebra library.
#[derive(Clone, Copy)]
struct Faer;

fn dense<T: Prim>(rows: usize, cols: usize, values: &[N<T>]) -> Mat<T> {
    Mat::from_fn(rows, cols, |i, j| values[j * rows + i].0)
}

fn flat<T: Prim>(matrix: MatRef<'_, T>) -> Vec<N<T>> {
    let mut values = Vec::new();
    for j in 0..matrix.ncols() {
        for i in 0..matrix.nrows() {
            values.push(N(matrix[(i, j)]));
        }
    }
    values
}

impl<T: Prim> Triangular<N<T>> for Faer {
    fn cholesky_spec(&self, _: usize, _: Listed<Listed<N<T>>>) -> Option<Listed<N<T>>> {
        unreachable!()
    }
    fn lower_spec(
        &self,
        _: usize,
        _: Listed<Listed<N<T>>>,
        _: Listed<N<T>>,
        _: usize,
    ) -> Listed<N<T>> {
        unreachable!()
    }
    fn upper_spec(
        &self,
        _: usize,
        _: Listed<Listed<N<T>>>,
        _: Listed<N<T>>,
        _: usize,
    ) -> Listed<N<T>> {
        unreachable!()
    }
    fn cholesky(&self, width: usize, lower: &[N<T>]) -> Option<Vec<N<T>>> {
        let factor = dense(width, width, lower).llt(Side::Lower).ok()?;
        Some(flat(factor.L()))
    }
    fn solve_lower(&self, width: usize, factor: &[N<T>], rhs: &[N<T>], cols: usize) -> Vec<N<T>> {
        let mut x = dense(width, cols, rhs);
        let l = dense(width, width, factor);
        triangular_solve::solve_lower_triangular_in_place(l.as_ref(), x.as_mut(), Par::Seq);
        flat(x.as_ref())
    }
    fn solve_upper(&self, width: usize, factor: &[N<T>], rhs: &[N<T>], cols: usize) -> Vec<N<T>> {
        let mut x = dense(width, cols, rhs);
        let l = dense(width, width, factor);
        triangular_solve::solve_upper_triangular_in_place(l.transpose(), x.as_mut(), Par::Seq);
        flat(x.as_ref())
    }
}

/// A map of the library as one of the linear algebra library.
struct Linear<'a, A> {
    map: &'a A,
    rows: usize,
    cols: usize,
}

impl<A> std::fmt::Debug for Linear<'_, A> {
    fn fmt(&self, f: &mut std::fmt::Formatter<'_>) -> std::fmt::Result {
        f.write_str("Linear")
    }
}

fn column<T: Prim>(matrix: MatRef<'_, T>, j: usize) -> Vec<N<T>> {
    (0..matrix.nrows()).map(|i| N(matrix[(i, j)])).collect()
}

impl<T: Prim, A: Operator<N<T>>> LinOp<T> for Linear<'_, A> {
    fn apply_scratch(&self, _: usize, _: Par) -> StackReq {
        StackReq::EMPTY
    }
    fn nrows(&self) -> usize {
        self.rows
    }
    fn ncols(&self) -> usize {
        self.cols
    }
    fn apply(&self, mut out: MatMut<'_, T>, rhs: MatRef<'_, T>, _: Par, _: &mut MemStack) {
        for j in 0..rhs.ncols() {
            for (i, value) in self.map.apply(&column(rhs, j)).into_iter().enumerate() {
                out[(i, j)] = value.0;
            }
        }
    }
    fn conj_apply(&self, out: MatMut<'_, T>, rhs: MatRef<'_, T>, par: Par, stack: &mut MemStack) {
        self.apply(out, rhs, par, stack);
    }
}

impl<T: Prim, A: TwoSided<N<T>>> BiLinOp<T> for Linear<'_, A> {
    fn transpose_apply_scratch(&self, _: usize, _: Par) -> StackReq {
        StackReq::EMPTY
    }
    fn transpose_apply(&self, mut out: MatMut<'_, T>, rhs: MatRef<'_, T>, _: Par, _: &mut MemStack) {
        for j in 0..rhs.ncols() {
            for (i, value) in self.map.transpose_apply(&column(rhs, j)).into_iter().enumerate() {
                out[(i, j)] = value.0;
            }
        }
    }
    fn adjoint_apply(&self, out: MatMut<'_, T>, rhs: MatRef<'_, T>, par: Par, stack: &mut MemStack) {
        self.transpose_apply(out, rhs, par, stack);
    }
}

impl<T: Prim, A: Operator<N<T>>> Precond<T> for Linear<'_, A> {}

impl<T: Prim, A: TwoSided<N<T>>> BiPrecond<T> for Linear<'_, A> {}

fn some_times() -> IterationTimes {
    IterationTimes { forward: 3, transpose: 2, preconditioner: 1 }
}

impl<T: Prim> ConjugateGradient<N<T>> for Faer {
    fn descent_spec(
        &self,
        _: Action<N<T>>,
        _: Action<N<T>>,
        _: Listed<N<T>>,
        _: N<T>,
        _: usize,
    ) -> DescentView<N<T>> {
        unreachable!()
    }
    fn descend<A: Operator<N<T>>, P: Operator<N<T>>>(
        &self,
        operator: &A,
        preconditioner: &P,
        rhs: &[N<T>],
        tolerance: N<T>,
        max_iterations: usize,
    ) -> (Descent<N<T>>, IterationTimes) {
        let size = rhs.len();
        let a = Linear { map: operator, rows: size, cols: size };
        let p = Linear { map: preconditioner, rows: size, cols: size };
        let mut x = Mat::<T>::zeros(size, 1);
        let b = dense(size, 1, rhs);
        let mut memory = MemBuffer::new(cg::conjugate_gradient_scratch::<T>(&p, &a, 1, Par::Seq));
        let mut iterations = 0;
        let params = cg::CgParams {
            initial_guess: InitialGuessStatus::MaybeNonZero,
            rel_tolerance: tolerance.0,
            max_iters: max_iterations,
            ..Default::default()
        };
        let result = cg::conjugate_gradient(
            x.as_mut(),
            &p,
            &a,
            b.as_ref(),
            params,
            |_| iterations += 1,
            Par::Seq,
            MemStack::new(&mut memory),
        );
        let end = match result {
            Ok(info) => DescentEnd::Converged(N(info.rel_residual)),
            Err(cg::CgError::NoConvergence { .. }) => DescentEnd::Exhausted,
            Err(_) => DescentEnd::Broken,
        };
        (Descent { step: flat(x.as_ref()), iterations, end }, some_times())
    }
}

impl<T: Prim> Bidiagonalization<N<T>> for Faer {
    fn regression_spec(
        &self,
        _: Count,
        _: Count,
        _: Action<N<T>>,
        _: Action<N<T>>,
        _: Action<N<T>>,
        _: Action<N<T>>,
        _: Listed<N<T>>,
        _: N<T>,
        _: usize,
    ) -> RegressionView<N<T>> {
        unreachable!()
    }
    fn regress<A: TwoSided<N<T>>, P: TwoSided<N<T>>>(
        &self,
        rows: usize,
        cols: usize,
        operator: &A,
        preconditioner: &P,
        rhs: &[N<T>],
        tolerance: N<T>,
        max_iterations: usize,
    ) -> (Regression<N<T>>, IterationTimes) {
        let a = Linear { map: operator, rows, cols };
        let p = Linear { map: preconditioner, rows: cols, cols };
        let mut x = Mat::<T>::zeros(cols, 1);
        let b = dense(rows, 1, rhs);
        let vector = faer::linalg::temp_mat_scratch::<T>(cols, 1);
        let need = lsmr::lsmr_scratch::<T>(&p, &a, 1, Par::Seq).and(vector).and(vector);
        let mut memory = MemBuffer::new(need);
        let mut iterations = 0;
        let params = lsmr::LsmrParams {
            initial_guess: InitialGuessStatus::Zero,
            rel_tolerance: tolerance.0,
            max_iters: max_iterations,
            ..Default::default()
        };
        let result = lsmr::lsmr(
            x.as_mut(),
            &p,
            &a,
            b.as_ref(),
            params,
            |_| iterations += 1,
            Par::Seq,
            MemStack::new(&mut memory),
        );
        let (absolute, relative, converged) = match result {
            Ok(info) => (info.abs_residual, info.rel_residual, true),
            Err(lsmr::LsmrError::NoConvergence { abs_residual, rel_residual }) => {
                (abs_residual, rel_residual, false)
            }
        };
        let step = flat(x.as_ref());
        let (absolute, relative) = (N(absolute), N(relative));
        (Regression { step, iterations, absolute, relative, converged }, some_times())
    }
}

impl Clock for Faer {
    fn now(&self) -> u64 {
        std::time::SystemTime::now().duration_since(std::time::UNIX_EPOCH).unwrap().as_nanos() as u64
    }
}

impl<T: Prim> PivotedQr<N<T>> for Faer {
    fn factor_spec(
        &self,
        _: MatrixView<N<T>>,
        _: usize,
        _: usize,
        _: usize,
    ) -> (Listed<N<T>>, Listed<usize>) {
        unreachable!()
    }
    fn factor(
        &self,
        matrix: &Matrix<N<T>>,
        row: usize,
        column: usize,
        width: usize,
    ) -> (Vec<N<T>>, Vec<usize>) {
        let mut whole = dense(matrix.rows, matrix.cols, &matrix.values);
        let height = matrix.rows - row;
        let block = height.min(width).min(32);
        let mut coefficients = Mat::<T>::zeros(block, height.min(width));
        let mut permutation: Vec<usize> = (0..width).collect();
        let mut inverse = vec![0; width];
        let trailing = matrix.cols - column - width;
        let need = factor::qr_in_place_scratch::<usize, T>(
            height,
            width,
            block,
            Par::Seq,
            Default::default(),
        )
        .or(householder::apply_block_householder_sequence_transpose_on_the_left_in_place_scratch::<T>(
            height, block, trailing,
        ));
        let mut memory = MemBuffer::new(need);
        let stack = MemStack::new(&mut memory);
        let view = whole.as_mut().subrows_mut(row, height);
        let (_, rest) = view.split_at_col_mut(column);
        let (mut a, right) = rest.split_at_col_mut(width);
        factor::qr_in_place(
            a.as_mut(),
            coefficients.as_mut(),
            &mut permutation,
            &mut inverse,
            Par::Seq,
            stack,
            Default::default(),
        );
        householder::apply_block_householder_sequence_transpose_on_the_left_in_place_with_conj(
            a.as_ref(),
            coefficients.as_ref(),
            faer::Conj::No,
            right,
            Par::Seq,
            stack,
        );
        (flat(whole.as_ref()), permutation)
    }
}

/// The least-squares solution of smallest norm, from a singular value decomposition.
fn least_squares(rows: usize, cols: usize, a: impl Fn(usize, usize) -> f64, b: &[f64], eps: f64) -> Vec<f64> {
    let matrix = Mat::from_fn(rows, cols, a);
    let svd = matrix.thin_svd().unwrap();
    let (u, s, v) = (svd.U(), svd.S(), svd.V());
    let mut x = vec![0.0; cols];
    for k in 0..rows.min(cols) {
        if s[k] > eps {
            let dot: f64 = (0..rows).map(|i| u[(i, k)] * b[i]).sum();
            for (j, x) in x.iter_mut().enumerate() {
                *x += v[(j, k)] * dot / s[k];
            }
        }
    }
    x
}

fn block<T: Prim>(rows: usize, cols: usize, row_major: &[f64]) -> JacobianBlock<N<T>> {
    let values = (0..rows * cols).map(|k| n(row_major[(k % rows) * cols + k / rows])).collect();
    JacobianBlock { variable: some_id(), rows, cols, values }
}

fn some_id() -> BlockId {
    let mut counter = 1;
    let pool = PoolId::allocate(&mut counter).unwrap();
    BlockId { raw: RawKey { pool, local: LocalKey { slot: 0, generation: 0 } } }
}

type R = N<f64>;

fn r(value: f64) -> R {
    n(value)
}

/// A list of coordinates under addition.
#[derive(Clone, Copy, Debug, PartialEq)]
struct Vector<const D: usize>([f64; D]);

fn unit(size: usize) -> Vec<R> {
    (0..size * size).map(|k| r(if k / size == k % size { 1.0 } else { 0.0 })).collect()
}

impl<const D: usize> Variable for Vector<D> {
    type Scalar = R;

    fn dof_spec() -> Count {
        unreachable!()
    }
    fn tangent_spec(_: Listed<R>) -> Option<Listed<R>> {
        unreachable!()
    }
    fn retract_spec(self, _: Listed<R>) -> Self {
        unreachable!()
    }
    fn local_spec(self, _: Self) -> Listed<R> {
        unreachable!()
    }
    fn identity_spec() -> Self {
        unreachable!()
    }
    fn compose_spec(self, _: Self) -> Self {
        unreachable!()
    }
    fn inverse_spec(self) -> Self {
        unreachable!()
    }
    fn exp_spec(_: Listed<R>) -> Self {
        unreachable!()
    }
    fn log_spec(self) -> Listed<R> {
        unreachable!()
    }
    fn adjoint_spec(self) -> Listed<R> {
        unreachable!()
    }
    fn right_jacobian_spec(_: Listed<R>) -> Listed<R> {
        unreachable!()
    }
    fn right_jacobian_inverse_spec(_: Listed<R>) -> Listed<R> {
        unreachable!()
    }

    fn dof() -> usize {
        D
    }
    fn tangent_from_slice(coords: &[R]) -> Option<Vec<R>> {
        copied::<Self>(coords)
    }
    fn retract(&self, delta: &[R]) -> Self {
        right_retraction(self, delta)
    }
    fn local(&self, other: &Self) -> Vec<R> {
        right_difference(self, other)
    }
    fn identity() -> Self {
        Vector([0.0; D])
    }
    fn compose(&self, other: &Self) -> Self {
        let mut sum = *self;
        for i in 0..D {
            sum.0[i] += other.0[i];
        }
        sum
    }
    fn inverse(&self) -> Self {
        Vector(self.0.map(|x| -x))
    }
    fn exp(delta: &[R]) -> Self {
        let mut value = Self::identity();
        for i in 0..D {
            value.0[i] = delta[i].wide();
        }
        value
    }
    fn log(&self) -> Vec<R> {
        ns(&self.0)
    }
    fn adjoint(&self) -> Vec<R> {
        unit(D)
    }
    fn right_jacobian(_: &[R]) -> Vec<R> {
        unit(D)
    }
    fn right_jacobian_inverse(_: &[R]) -> Vec<R> {
        unit(D)
    }
}

type Scalar = Vector<1>;
type Scalars = StatePool<Scalar>;

fn read(states: &Scalars, key: StateKey<Scalar>) -> Result<f64, EvaluationError> {
    Ok(states.get(key).map_err(EvaluationError::from)?.0[0])
}

/// `x - measurement`.
struct Prior {
    variable: StateKey<Scalar>,
    measurement: f64,
}

impl Factor<Scalars> for Prior {
    type Scalar = R;

    fn variables_spec(&self) -> Listed<BlockId> {
        unreachable!()
    }
    fn cost_spec(&self, _: <Scalars as Readable>::Reading) -> Result<R, EvaluationError> {
        unreachable!()
    }
    fn linearize_spec(&self, _: <Scalars as Readable>::Reading, _: Replies<R>) -> Emitted<R> {
        unreachable!()
    }

    fn visit_variables(&self, visited: &mut Vec<BlockId>) {
        visited.push(self.variable.block_id());
    }
    fn cost(&self, states: &Scalars) -> Result<R, EvaluationError> {
        let residual = read(states, self.variable)? - self.measurement;
        let cost = 0.5 * residual * residual;
        if !cost.is_finite() {
            return Err(EvaluationError::InvalidEvaluation);
        }
        Ok(r(cost))
    }
    fn linearize<K: LinearizationSink<Scalar = R>>(
        &self,
        states: &Scalars,
        sink: &mut K,
    ) -> Result<(), EvaluationError> {
        let residual = read(states, self.variable)? - self.measurement;
        sink.residual(vec![r(residual)], vec![JacobianBlock::new(self.variable, 1, vec![r(1.0)])])
    }
}

/// `y - x - measurement`.
struct Difference {
    x: StateKey<Scalar>,
    y: StateKey<Scalar>,
    measurement: f64,
}

impl Factor<Scalars> for Difference {
    type Scalar = R;

    fn variables_spec(&self) -> Listed<BlockId> {
        unreachable!()
    }
    fn cost_spec(&self, _: <Scalars as Readable>::Reading) -> Result<R, EvaluationError> {
        unreachable!()
    }
    fn linearize_spec(&self, _: <Scalars as Readable>::Reading, _: Replies<R>) -> Emitted<R> {
        unreachable!()
    }

    fn visit_variables(&self, visited: &mut Vec<BlockId>) {
        visited.push(self.x.block_id());
        visited.push(self.y.block_id());
    }
    fn cost(&self, states: &Scalars) -> Result<R, EvaluationError> {
        let residual = read(states, self.y)? - read(states, self.x)? - self.measurement;
        Ok(r(0.5 * residual * residual))
    }
    fn linearize<K: LinearizationSink<Scalar = R>>(
        &self,
        states: &Scalars,
        sink: &mut K,
    ) -> Result<(), EvaluationError> {
        let residual = read(states, self.y)? - read(states, self.x)? - self.measurement;
        sink.residual(
            vec![r(residual)],
            vec![
                JacobianBlock::new(self.x, 1, vec![r(-1.0)]),
                JacobianBlock::new(self.y, 1, vec![r(1.0)]),
            ],
        )
    }
}

/// Observations that share a scale: `scale * x - value`.
struct Scaled {
    scale: f64,
}

impl FactorBatch<Scalars> for Scaled {
    type Scalar = R;
    type Factor = (StateKey<Scalar>, f64);

    fn variables_spec(&self, _: Self::Factor) -> Listed<BlockId> {
        unreachable!()
    }
    fn cost_spec(
        &self,
        _: <Scalars as Readable>::Reading,
        _: Listed<(FactorId, Self::Factor)>,
    ) -> Result<R, EvaluationError> {
        unreachable!()
    }
    fn linearize_spec(
        &self,
        _: <Scalars as Readable>::Reading,
        _: Listed<(FactorId, Self::Factor)>,
        _: Replies<R>,
    ) -> Emitted<R> {
        unreachable!()
    }

    fn visit_variables(&self, factor: &Self::Factor, visited: &mut Vec<BlockId>) {
        visited.push(factor.0.block_id());
    }
    fn cost(
        &self,
        states: &Scalars,
        mut factors: FactorSelection<'_, Self::Factor>,
    ) -> Result<R, EvaluationError> {
        let mut total = 0.0;
        while let Some((_, factor)) = factors.next() {
            let residual = self.scale * read(states, factor.0)? - factor.1;
            total += 0.5 * residual * residual;
        }
        Ok(r(total))
    }
    fn linearize<K: LinearizationSink<Scalar = R>>(
        &self,
        states: &Scalars,
        mut factors: FactorSelection<'_, Self::Factor>,
        sink: &mut K,
    ) -> Result<(), EvaluationError> {
        while let Some((id, factor)) = factors.next() {
            let residual = self.scale * read(states, factor.0)? - factor.1;
            sink.open(id)?;
            let emitted = sink.residual(
                vec![r(residual)],
                vec![JacobianBlock::new(factor.0, 1, vec![r(self.scale)])],
            );
            sink.close(emitted)?;
        }
        Ok(())
    }
}

type Batched = BatchPool<Scaled, (StateKey<Scalar>, f64)>;
type Factors = Pair<FactorPool<Prior>, Pair<FactorPool<Difference>, Batched>>;
type Graph = Problem<Scalars, Factors, Faer, Faer>;

fn graph(counter: &mut u64) -> Graph {
    let mut next = || PoolId::allocate(counter).unwrap();
    let states = StatePool::new(next());
    let priors = FactorPool::new(next());
    let differences = FactorPool::new(next());
    let batches = BatchPool::new(next(), next());
    let factors = Pair { first: priors, second: Pair { first: differences, second: batches } };
    Problem::new(states, factors, next(), Faer, Faer)
}

fn solver(counter: &mut u64) -> Solver<Scalars, Factors, Faer, Faer, DenseNormalCholesky<R, Faer>> {
    Solver::new(graph(counter), DenseNormalCholesky::new(Faer))
}

#[test]
fn dependency_validation_distinguishes_stale_and_foreign_states() {
    let mut counter = 1;
    let mut states = Scalars::new(PoolId::allocate(&mut counter).unwrap());
    let stale = states.insert(Vector([0.0]));
    states.remove(stale).unwrap();
    let live = states.insert(Vector([0.0]));
    let foreign = Scalars::new(PoolId::allocate(&mut counter).unwrap()).insert(Vector([0.0]));
    for (id, expected) in [
        (stale.block_id(), "stale"),
        (foreign.block_id(), "foreign"),
        (live.block_id(), "live"),
    ] {
        let mut dependencies = Dependencies { states: &states, result: Ok(()) };
        dependencies.check(id);
        match expected {
            "stale" => assert!(matches!(dependencies.result, Err(KeyError::Stale))),
            "foreign" => assert!(matches!(dependencies.result, Err(KeyError::ForeignSolver))),
            _ => dependencies.result.unwrap(),
        }
    }
    let mut dependencies = Dependencies { states: &states, result: Ok(()) };
    for id in [stale.block_id(), foreign.block_id(), live.block_id()] {
        dependencies.check(id);
        assert!(matches!(dependencies.result, Err(KeyError::Stale)));
    }
}

#[test]
fn identities_never_wrap_and_handles_stay_compact() {
    let mut counter = u64::MAX - 1;
    assert_eq!(PoolId::allocate(&mut counter).unwrap().get(), u64::MAX - 1);
    for _ in 0..2 {
        assert!(PoolId::allocate(&mut counter).is_none());
        assert_eq!(counter, u64::MAX);
    }
    assert_eq!(std::mem::size_of::<RawKey>(), 16);
    assert_eq!(std::mem::size_of::<StateKey<()>>(), 16);
    assert_eq!(std::mem::size_of::<FactorKey<()>>(), 16);
    assert_eq!(std::mem::size_of::<BatchKey<()>>(), 16);
}

#[test]
fn one_scalar_and_one_prior_take_one_step() {
    let mut counter = 1;
    let mut solver = solver(&mut counter);
    let x = solver.add(Vector([0.0]));
    let prior = solver.add_factor(Prior { variable: x, measurement: 3.0 }).unwrap();
    assert_eq!(solver.factor_cost(prior).unwrap(), r(4.5));
    let report = solver.optimize().unwrap();
    assert_eq!(report.iterations, 1);
    assert_eq!(report.initial_cost, r(4.5));
    assert_eq!(report.final_cost, r(0.0));
    assert_eq!(solver.get(x).unwrap().0, [3.0]);
    assert_eq!(solver.factor_cost(prior).unwrap(), r(0.0));
    solver.set(x, Vector([5.0])).unwrap();
    assert_eq!(solver.factor_cost(prior).unwrap(), r(2.0));
    solver.remove_factor(prior).unwrap();
    assert!(matches!(solver.factor_cost(prior), Err(SolverError::Key(KeyError::Stale))));
    assert!(matches!(solver.remove_factor(prior), Err(SolverError::Key(KeyError::Stale))));
    let report = solver.optimize().unwrap();
    assert_eq!(report.termination, TerminationReason::GradientTolerance);
    assert_eq!(report.iterations, 0);
    assert_eq!(solver.get(x).unwrap().0, [5.0]);
}

#[test]
fn handles_read_back_what_was_stored_and_foreign_ones_are_refused() {
    let mut counter = 1;
    let mut first = graph(&mut counter);
    let mut second = graph(&mut counter);
    let a = first.add(Vector([1.0]));
    let b = first.add(Vector([2.0]));
    let c = second.add(Vector([3.0]));
    assert_eq!(first.get(a).unwrap().0, [1.0]);
    assert_eq!(first.get(b).unwrap().0, [2.0]);
    assert!(matches!(first.get(c), Err(KeyError::ForeignSolver)));
    assert!(matches!(first.set(c, Vector([0.0])), Err(KeyError::ForeignSolver)));
    first.set(a, Vector([7.0])).unwrap();
    assert_eq!(first.get(a).unwrap().0, [7.0]);
    assert_eq!(first.get(b).unwrap().0, [2.0]);
    assert!(matches!(
        first.add_factor(Prior { variable: c, measurement: 0.0 }),
        Err(SolverError::Key(KeyError::ForeignSolver))
    ));
    let mut unknown = a;
    unknown.raw.local.slot = 17;
    assert!(matches!(
        first.add_factor(Prior { variable: unknown, measurement: 0.0 }),
        Err(SolverError::Key(KeyError::Unknown))
    ));
    let kept = first.add_factor(Prior { variable: a, measurement: 4.0 }).unwrap();
    let gone = first.add_factor(Prior { variable: b, measurement: 4.0 }).unwrap();
    first.remove_factor(gone).unwrap();
    let reused = first.add_factor(Prior { variable: b, measurement: 6.0 }).unwrap();
    assert_eq!(reused.raw.local.slot, gone.raw.local.slot);
    assert!(matches!(first.factor_cost(gone), Err(SolverError::Key(KeyError::Stale))));
    assert_eq!(first.factor_cost(kept).unwrap(), r(4.5));
    assert_eq!(first.factor_cost(reused).unwrap(), r(8.0));
}

#[test]
fn batches_evaluate_payloads_alone_and_together_and_retire_when_empty() {
    let mut counter = 1;
    let mut solver = solver(&mut counter);
    let x = solver.add(Vector([0.0]));
    let batch = solver.add_batch(Scaled { scale: 2.0 });
    let first = solver.add_factor_to(batch, (x, 4.0)).unwrap();
    let second = solver.add_factor_to(batch, (x, 8.0)).unwrap();
    assert_eq!(solver.factor_cost(first).unwrap(), r(8.0));
    assert_eq!(solver.factor_cost(second).unwrap(), r(32.0));
    let report = solver.optimize().unwrap();
    assert_eq!(report.initial_cost, r(40.0));
    assert!((report.final_cost.wide() - 4.0).abs() < 1e-12);
    assert!((solver.get(x).unwrap().0[0] - 3.0).abs() < 1e-12);
    assert!(matches!(
        solver.problem.remove_batch(batch),
        Err(SolverError::BatchNotEmpty)
    ));
    solver.remove_factor(first).unwrap();
    assert!((solver.factor_cost(second).unwrap().wide() - 2.0).abs() < 1e-12);
    solver.remove_factor(second).unwrap();
    solver.problem.remove_batch(batch).unwrap();
    assert!(matches!(
        solver.add_factor_to(batch, (x, 1.0)),
        Err(SolverError::Key(KeyError::Stale))
    ));
    assert!(matches!(
        solver.problem.remove_batch(batch),
        Err(SolverError::Key(KeyError::Stale))
    ));
}

#[test]
fn marginalization_keeps_the_answer_and_the_cost() {
    let mut counter = 1;
    for marginalize in [false, true] {
        let mut solver = solver(&mut counter);
        let x = solver.add(Vector([0.0]));
        let y = solver.add(Vector([0.0]));
        let x_prior = solver.add_factor(Prior { variable: x, measurement: 1.0 }).unwrap();
        let difference = solver.add_factor(Difference { x, y, measurement: 2.0 }).unwrap();
        let y_prior = solver.add_factor(Prior { variable: y, measurement: 6.0 }).unwrap();
        if marginalize {
            let report = solver.marginalize(&[x.block_id()]).unwrap();
            assert_eq!(report.removed_states, 1);
            assert_eq!(report.removed_dof, 1);
            assert_eq!(report.absorbed_factors, 2);
            assert_eq!(report.separator_dof, 1);
            assert_eq!(report.eliminated_rank, 1);
            assert_eq!(report.prior_rows, 1);
            assert!(matches!(solver.get(x), Err(KeyError::Stale)));
            assert!(matches!(
                solver.factor_cost(x_prior),
                Err(SolverError::Key(KeyError::Stale))
            ));
            assert!(matches!(
                solver.factor_cost(difference),
                Err(SolverError::Key(KeyError::Stale))
            ));
            assert_eq!(solver.get(y).unwrap().0, [0.0]);
            assert_eq!(solver.factor_cost(y_prior).unwrap(), r(18.0));
            assert!(matches!(
                solver.marginalize(&[x.block_id()]),
                Err(SolverError::Key(KeyError::Stale))
            ));
        }
        let mut method = GaussNewton::new(Lsmr::new(Faer));
        let report = solver.optimize_with(&mut method, &OptimizeOptions::defaults()).unwrap();
        assert!((solver.get(y).unwrap().0[0] - 5.0).abs() < 1e-10);
        assert!((report.final_cost.wide() - 1.5).abs() < 1e-10);
        assert!((solver.factor_cost(y_prior).unwrap().wide() - 0.5).abs() < 1e-10);
        if !marginalize {
            assert!((solver.get(x).unwrap().0[0] - 2.0).abs() < 1e-10);
        }
    }
}

#[test]
fn refused_marginalizations_change_nothing() {
    let mut counter = 1;
    let mut problem = graph(&mut counter);
    let x = problem.add(Vector([0.5]));
    let prior = problem.add_factor(Prior { variable: x, measurement: 1.0 }).unwrap();
    for tolerance in [-1.0, 1.0, f64::NAN] {
        let options = MarginalizationOptions { relative_rank_tolerance: Some(r(tolerance)) };
        assert!(matches!(
            problem.marginalize_with(&[x.block_id()], &options),
            Err(SolverError::InvalidRankTolerance)
        ));
    }
    let report = problem.marginalize(&[]).unwrap();
    assert_eq!(report.removed_states, 0);
    assert_eq!(problem.get(x).unwrap().0, [0.5]);
    assert_eq!(problem.factor_cost(prior).unwrap(), r(0.125));
}

#[test]
fn the_journal_records_successful_edits_and_rebuilds_supersede_it() {
    let mut counter = 1;
    let mut journal = TrackedProblem::new(graph(&mut counter));
    assert_eq!(journal.changes(), [ProblemChange::Rebuild]);
    let x = journal.add(Vector([0.0]));
    let y = journal.add(Vector([0.0]));
    let prior = journal.add_factor(Prior { variable: x, measurement: 1.0 }).unwrap();
    let anchor = journal.add_factor(Prior { variable: y, measurement: 3.0 }).unwrap();
    journal.set(x, Vector([2.0])).unwrap();
    journal.remove_factor(prior).unwrap();
    let expected = [
        ProblemChange::Rebuild,
        ProblemChange::StateAdded(x.block_id()),
        ProblemChange::StateAdded(y.block_id()),
        ProblemChange::FactorAdded(prior.factor_id()),
        ProblemChange::FactorAdded(anchor.factor_id()),
        ProblemChange::StateSet(x.block_id()),
        ProblemChange::FactorRemoved(prior.factor_id()),
    ];
    assert_eq!(journal.changes(), expected);
    assert!(journal.remove_factor(prior).is_err());
    let foreign = graph(&mut counter).add(Vector([0.0]));
    assert!(journal.set(foreign, Vector([0.0])).is_err());
    assert!(journal.add_factor(Prior { variable: foreign, measurement: 0.0 }).is_err());
    let batch = journal.add_batch(Scaled { scale: 1.0 });
    assert_eq!(journal.changes(), expected);
    let payload = journal.add_factor_to(batch, (x, 2.0)).unwrap();
    assert_eq!(journal.changes().last(), Some(&ProblemChange::FactorAdded(payload.factor_id())));
    let mut method = GaussNewton::new(DenseNormalCholesky::new(Faer));
    let report = method.solve_batch(&mut journal, &OptimizeOptions::defaults()).unwrap();
    assert_eq!(report.final_cost, r(0.0));
    assert_eq!(journal.changes(), [ProblemChange::Rebuild]);
    journal.set(y, Vector([9.0])).unwrap();
    journal.marginalize(&[]).unwrap();
    assert_eq!(journal.changes().len(), 2);
    journal.marginalize(&[x.block_id()]).unwrap();
    assert_eq!(journal.changes(), [ProblemChange::Rebuild]);
    journal.set(y, Vector([9.0])).unwrap();
    journal.invalidate_all();
    assert_eq!(journal.changes(), [ProblemChange::Rebuild]);
    let problem = journal.into_inner();
    assert_eq!(problem.get(y).unwrap().0, [9.0]);
    assert!(matches!(problem.get(x), Err(KeyError::Stale)));
}

#[test]
fn damped_batches_solve_watched_graphs() {
    let mut counter = 1;
    let mut problem = graph(&mut counter);
    let x = problem.add(Vector([0.0]));
    problem.add_factor(Prior { variable: x, measurement: 2.0 }).unwrap();
    let mut method = LevenbergMarquardt::new(Lsmr::new(Faer));
    let report = method.solve_batch(&mut problem, &OptimizeOptions::defaults()).unwrap();
    assert_eq!(report.termination, TerminationReason::GradientTolerance);
    let mut journal = TrackedProblem::new(problem);
    journal.set(x, Vector([5.0])).unwrap();
    let (report, covariance) = method
        .solve_batch_with_covariance(
            &mut journal,
            &OptimizeOptions::defaults(),
            &[x.block_id()],
            &CovarianceOptions::defaults(),
        )
        .unwrap();
    assert_eq!(report.termination, TerminationReason::GradientTolerance);
    assert!((covariance[0].wide() - 1.0).abs() < 1e-12);
    assert_eq!(journal.changes(), [ProblemChange::Rebuild]);
    assert!((journal.problem().get(x).unwrap().0[0] - 2.0).abs() < 1e-6);
    let mut options = OptimizeOptions::defaults();
    options.gradient_tolerance = r(f64::NAN);
    journal.set(x, Vector([5.0])).unwrap();
    assert!(matches!(
        method.solve_batch(&mut journal, &options),
        Err(SolverError::InvalidOptions)
    ));
    assert_eq!(journal.changes(), [ProblemChange::Rebuild]);
    assert_eq!(journal.problem().get(x).unwrap().0, [5.0]);
}

#[test]
fn covariance_queries_move_nothing_and_reject_duplicates_and_singular_graphs() {
    let mut counter = 1;
    let mut solver = solver(&mut counter);
    let x = solver.add(Vector([0.25]));
    let y = solver.add(Vector([0.5]));
    solver.add_factor(Prior { variable: x, measurement: 1.0 }).unwrap();
    assert!(matches!(
        solver.joint_covariance(&[x.block_id()]),
        Err(SolverError::SingularInformation)
    ));
    solver.add_factor(Difference { x, y, measurement: 0.0 }).unwrap();
    assert!(matches!(
        solver.joint_covariance(&[x.block_id(), x.block_id()]),
        Err(SolverError::DuplicateCovarianceBlock)
    ));
    let covariance = wide(solver.joint_covariance(&[y.block_id(), x.block_id()]).unwrap());
    for (actual, expected) in covariance.iter().zip([2.0, 1.0, 1.0, 1.0]) {
        assert!((actual - expected).abs() < 1e-12);
    }
    assert!(solver.joint_covariance(&[]).unwrap().is_empty());
    let options = CovarianceOptions { relative_pivot_tolerance: r(1.0) };
    assert!(matches!(
        solver.problem.joint_covariance_with(&[x.block_id()], &options),
        Err(SolverError::InvalidRankTolerance)
    ));
    assert_eq!(solver.get(x).unwrap().0, [0.25]);
    assert_eq!(solver.get(y).unwrap().0, [0.5]);
}

type Mixed = Pair<StatePool<Vector<9>>, StatePool<Vector<3>>>;

/// A linear measurement of two knots, an alignment and a nuisance.
struct Measurement {
    knots: [StateKey<Vector<9>>; 2],
    alignment: StateKey<Vector<3>>,
    nuisance: StateKey<Vector<3>>,
}

fn design(i: usize, k: usize) -> f64 {
    if i == k {
        4.
    } else {
        ((i * 7 + k * 11) % 13) as f64 / 30.
    }
}

impl Measurement {
    fn residual(&self, states: &Mixed) -> [f64; 24] {
        let mut x = Vec::new();
        for key in self.knots {
            x.extend(states.get(key).unwrap().0);
        }
        x.extend(states.get(self.alignment).unwrap().0);
        x.extend(states.get(self.nuisance).unwrap().0);
        let mut residual = [0.0; 24];
        for i in 0..24 {
            residual[i] = (0..24).map(|k| design(i, k) * x[k]).sum();
        }
        residual
    }

    fn columns(start: usize, width: usize) -> Vec<R> {
        (0..24 * width).map(|k| r(design(k % 24, start + k / 24))).collect()
    }
}

impl Factor<Mixed> for Measurement {
    type Scalar = R;

    fn variables_spec(&self) -> Listed<BlockId> {
        unreachable!()
    }
    fn cost_spec(&self, _: <Mixed as Readable>::Reading) -> Result<R, EvaluationError> {
        unreachable!()
    }
    fn linearize_spec(&self, _: <Mixed as Readable>::Reading, _: Replies<R>) -> Emitted<R> {
        unreachable!()
    }

    fn visit_variables(&self, visited: &mut Vec<BlockId>) {
        for key in self.knots {
            visited.push(key.block_id());
        }
        visited.push(self.alignment.block_id());
        visited.push(self.nuisance.block_id());
    }
    fn cost(&self, states: &Mixed) -> Result<R, EvaluationError> {
        Ok(r(0.5 * self.residual(states).iter().map(|v| v * v).sum::<f64>()))
    }
    fn linearize<K: LinearizationSink<Scalar = R>>(
        &self,
        states: &Mixed,
        sink: &mut K,
    ) -> Result<(), EvaluationError> {
        sink.residual(
            ns(&self.residual(states)),
            vec![
                JacobianBlock::new(self.knots[0], 24, Self::columns(0, 9)),
                JacobianBlock::new(self.knots[1], 24, Self::columns(9, 9)),
                JacobianBlock::new(self.alignment, 24, Self::columns(18, 3)),
                JacobianBlock::new(self.nuisance, 24, Self::columns(21, 3)),
            ],
        )
    }
}

#[test]
fn twenty_one_coordinates_preserve_order_cross_terms_and_history() {
    let mut counter = 1;
    let mut next = || PoolId::allocate(&mut counter).unwrap();
    let states = Pair { first: StatePool::new(next()), second: StatePool::new(next()) };
    let factors = FactorPool::<Measurement>::new(next());
    let mut problem = Problem::new(states, factors, next(), Faer, Faer);
    let start = problem.add(Vector::<9>::identity());
    let end = problem.add(Vector::<9>::identity());
    let alignment = problem.add(Vector::<3>::identity());
    let nuisance = problem.add(Vector::<3>::identity());
    let j = Mat::from_fn(24, 24, design);
    let reference = (j.transpose() * &j).full_piv_lu().inverse();
    problem.add_factor(Measurement { knots: [start, end], alignment, nuisance }).unwrap();
    let selected = [end.block_id(), start.block_id(), alignment.block_id()];
    let indices: Vec<usize> = (9..18).chain(0..9).chain(18..21).collect();
    for marginalized in [false, true] {
        if marginalized {
            problem.marginalize(&[nuisance.block_id()]).unwrap();
        }
        let mut method = LevenbergMarquardt::new(Lsmr::new(Faer));
        let (_, covariance) = problem
            .optimize_with_covariance(
                &mut method,
                &OptimizeOptions::defaults(),
                &selected,
                &CovarianceOptions::defaults(),
            )
            .unwrap();
        assert_eq!(covariance.len(), 21 * 21);
        for (i, &row) in indices.iter().enumerate() {
            for (k, &col) in indices.iter().enumerate() {
                assert!((covariance[21 * k + i].wide() - reference[(row, col)]).abs() < 1e-12);
            }
        }
    }
}

type Three = [f64; 3];
type Square = [Three; 3];

fn cross(a: Three, b: Three) -> Three {
    [a[1] * b[2] - a[2] * b[1], a[2] * b[0] - a[0] * b[2], a[0] * b[1] - a[1] * b[0]]
}

fn dot(a: Three, b: Three) -> f64 {
    a[0] * b[0] + a[1] * b[1] + a[2] * b[2]
}

fn wedge(w: Three) -> Square {
    [[0., -w[2], w[1]], [w[2], 0., -w[0]], [-w[1], w[0], 0.]]
}

fn grid(entry: impl Fn(usize, usize) -> f64) -> Square {
    let mut m = [[0.; 3]; 3];
    for i in 0..3 {
        for j in 0..3 {
            m[i][j] = entry(i, j);
        }
    }
    m
}

fn diagonal(i: usize, j: usize) -> f64 {
    if i == j {
        1.
    } else {
        0.
    }
}

fn product(a: Square, b: Square) -> Square {
    grid(|i, j| (0..3).map(|k| a[i][k] * b[k][j]).sum())
}

fn turned(a: Square, v: Three) -> Three {
    [dot(a[0], v), dot(a[1], v), dot(a[2], v)]
}

fn inverted(a: Square) -> Square {
    let cofactors = [cross(a[1], a[2]), cross(a[2], a[0]), cross(a[0], a[1])];
    let determinant = dot(a[0], cofactors[0]);
    grid(|i, j| cofactors[j][i] / determinant)
}

/// A rigid motion; increments are a velocity followed by a rotation, in the body frame.
#[derive(Clone, Copy, Debug)]
struct Pose {
    rotation: Square,
    translation: Three,
}

fn halves(delta: &[R]) -> (Three, Three) {
    let d = wide(delta);
    ([d[0], d[1], d[2]], [d[3], d[4], d[5]])
}

/// `(1 - cos t) / t^2` and `(t - sin t) / t^3`, for angles well away from zero.
fn coefficients(t2: f64) -> (f64, f64) {
    let t = t2.sqrt();
    ((1. - t.cos()) / t2, (t - t.sin()) / (t * t2))
}

fn jacobian_blocks(delta: &[R]) -> (Square, Square) {
    let (v, w) = halves(delta);
    let t2 = dot(w, w);
    let (b, d) = coefficients(t2);
    let (db, dd) = ((1. - t2 * d - 2. * b) / t2, (b - 3. * d) / t2);
    let (x, x2) = (wedge(w), product(wedge(w), wedge(w)));
    let j = grid(|i, k| diagonal(i, k) - x[i][k] * b + x2[i][k] * d);
    let c = cross(w, v);
    let wc = cross(w, c);
    let vx = wedge(v);
    let derivative = grid(|i, k| {
        -vx[i][k] * b
            + (w[i] * v[k] + diagonal(i, k) * dot(w, v) - 2. * v[i] * w[k]) * d
            + (c[i] * db + wc[i] * dd) * w[k]
    });
    let inverse = grid(|i, k| diagonal(i, k) - x[i][k] * (1. - t2 * d) + x2[i][k] * b);
    (j, product(inverse, derivative))
}

fn assembled(j: Square, q: Square) -> Vec<R> {
    let mut values = vec![r(0.); 36];
    for i in 0..3 {
        for k in 0..3 {
            values[6 * k + i] = r(j[i][k]);
            values[6 * (k + 3) + i + 3] = r(j[i][k]);
            values[6 * (k + 3) + i] = r(q[i][k]);
        }
    }
    values
}

impl Variable for Pose {
    type Scalar = R;

    fn dof_spec() -> Count {
        unreachable!()
    }
    fn tangent_spec(_: Listed<R>) -> Option<Listed<R>> {
        unreachable!()
    }
    fn retract_spec(self, _: Listed<R>) -> Self {
        unreachable!()
    }
    fn local_spec(self, _: Self) -> Listed<R> {
        unreachable!()
    }
    fn identity_spec() -> Self {
        unreachable!()
    }
    fn compose_spec(self, _: Self) -> Self {
        unreachable!()
    }
    fn inverse_spec(self) -> Self {
        unreachable!()
    }
    fn exp_spec(_: Listed<R>) -> Self {
        unreachable!()
    }
    fn log_spec(self) -> Listed<R> {
        unreachable!()
    }
    fn adjoint_spec(self) -> Listed<R> {
        unreachable!()
    }
    fn right_jacobian_spec(_: Listed<R>) -> Listed<R> {
        unreachable!()
    }
    fn right_jacobian_inverse_spec(_: Listed<R>) -> Listed<R> {
        unreachable!()
    }

    fn dof() -> usize {
        6
    }
    fn tangent_from_slice(coords: &[R]) -> Option<Vec<R>> {
        copied::<Self>(coords)
    }
    fn retract(&self, delta: &[R]) -> Self {
        right_retraction(self, delta)
    }
    fn local(&self, other: &Self) -> Vec<R> {
        right_difference(self, other)
    }
    fn identity() -> Self {
        Pose { rotation: grid(diagonal), translation: [0.; 3] }
    }
    fn compose(&self, other: &Self) -> Self {
        let moved = turned(self.rotation, other.translation);
        let mut translation = self.translation;
        for i in 0..3 {
            translation[i] += moved[i];
        }
        Pose { rotation: product(self.rotation, other.rotation), translation }
    }
    fn inverse(&self) -> Self {
        let rotation = grid(|i, j| self.rotation[j][i]);
        Pose { rotation, translation: turned(rotation, self.translation).map(|x| -x) }
    }
    fn exp(delta: &[R]) -> Self {
        let (v, w) = halves(delta);
        let t2 = dot(w, w);
        if t2 == 0. {
            return Pose { translation: v, ..Self::identity() };
        }
        // Squared half-angle form of `1 - cos` keeps small increments accurate.
        let t = t2.sqrt();
        let b = 2. * (0.5 * t).sin().powi(2) / t2;
        let d = if t2 < 1e-4 { 1. / 6. - t2 / 120. } else { (t - t.sin()) / (t * t2) };
        let a = if t2 < 1e-4 { 1. - t2 / 6. + t2 * t2 / 120. } else { t.sin() / t };
        let (x, x2) = (wedge(w), product(wedge(w), wedge(w)));
        let rotation = grid(|i, j| diagonal(i, j) + a * x[i][j] + b * x2[i][j]);
        let c = cross(w, v);
        let wc = cross(w, c);
        let mut translation = v;
        for i in 0..3 {
            translation[i] += c[i] * b + wc[i] * d;
        }
        Pose { rotation, translation }
    }
    fn log(&self) -> Vec<R> {
        let m = self.rotation;
        let skew = [m[2][1] - m[1][2], m[0][2] - m[2][0], m[1][0] - m[0][1]].map(|x| 0.5 * x);
        let sine = dot(skew, skew).sqrt();
        let angle = sine.atan2(0.5 * (m[0][0] + m[1][1] + m[2][2] - 1.));
        let w = skew.map(|x| x * angle / sine);
        let half = 0.5 * angle;
        let coefficient = (1. - half / half.tan()) / (angle * angle);
        let c = cross(w, self.translation);
        let wc = cross(w, c);
        let mut delta = Vec::new();
        for i in 0..3 {
            delta.push(r(self.translation[i] - 0.5 * c[i] + coefficient * wc[i]));
        }
        delta.extend(ns::<f64>(&w));
        delta
    }
    fn adjoint(&self) -> Vec<R> {
        assembled(self.rotation, product(wedge(self.translation), self.rotation))
    }
    fn right_jacobian(delta: &[R]) -> Vec<R> {
        let (j, q) = jacobian_blocks(delta);
        assembled(j, q)
    }
    fn right_jacobian_inverse(delta: &[R]) -> Vec<R> {
        let (j, q) = jacobian_blocks(delta);
        let inverse = inverted(j);
        let corner = product(product(inverse, q), inverse);
        assembled(inverse, grid(|i, k| -corner[i][k]))
    }
}

#[test]
fn manifold_prior_uses_the_current_chart_derivative() {
    let mut counter = 1;
    let mut pool = StatePool::<Pose>::new(PoolId::allocate(&mut counter).unwrap());
    let reference = Pose::exp(&ns(&[0.2, -0.3, 0.1, 0.1, 0.2, -0.1]));
    let inverse = reference.inverse();
    let key = pool.insert(reference);
    let values = [1., 2., -1., 0.3, 0.2, 0.5, -0.5, 1., 0.2, 2., -1., 0.7];
    let a: Vec<R> = (0..12).map(|k| r(values[(k % 2) * 6 + k / 2])).collect();
    let b: Vec<R> = ns(&[0.7, -0.4]);
    let mut priors = Priors::<R>::new(PoolId::allocate(&mut counter).unwrap());
    let prior = priors.entries.insert(MarginalPrior {
        blocks: vec![PriorBlock { id: key.block_id(), start: 0, len: 6 }],
        rows: 2,
        cols: 6,
        residual: b.clone(),
        jacobian: a.clone(),
        a,
        b,
    });
    pool.anchors.push(Anchor { prior, state: key.raw, column: 0, inverse });
    pool.stage(&ns(&[0.4, -0.2, 0.3, 0.2, -0.3, 0.4])).unwrap();
    pool.accept_trial();
    priors.update(&pool, true, None).unwrap();
    let analytical = wide(&priors.entries.get(prior).unwrap().jacobian);
    for column in 0..6 {
        let mut sample = |step: f64| {
            let mut delta = vec![r(0.0); 6];
            delta[column] = r(step);
            pool.stage(&delta).unwrap();
            priors.update(&pool, false, None).unwrap();
            let value = wide(&priors.entries.get(prior).unwrap().residual);
            pool.reject_trial();
            value
        };
        let (up, down) = (sample(1e-6), sample(-1e-6));
        for row in 0..2 {
            let derivative = (up[row] - down[row]) / 2e-6;
            let expected = analytical[2 * column + row];
            assert!(
                (derivative - expected).abs() <= 1e-8 * (1.0 + expected.abs()),
                "{derivative} {expected}"
            );
        }
    }
}

/// Two variables, one of them tied to a measurement, the other to the first.
fn chain(counter: &mut u64) -> (Graph, [StateKey<Scalar>; 2]) {
    let mut problem = graph(counter);
    let x = problem.add(Vector([0.25]));
    let y = problem.add(Vector([0.5]));
    problem.add_factor(Prior { variable: x, measurement: 1.0 }).unwrap();
    problem.add_factor(Difference { x, y, measurement: 0.0 }).unwrap();
    (problem, [y, x])
}

#[test]
fn extracted_covariance_is_the_queried_one_for_every_backend() {
    let options = OptimizeOptions::defaults();
    let controls = CovarianceOptions::defaults();
    let expected = [2.0, 1.0, 1.0, 1.0];
    let mut counter = 1;
    let (mut problem, keys) = chain(&mut counter);
    let selected = keys.map(|key| key.block_id());
    let mut dense = GaussNewton::new(DenseNormalCholesky::new(Faer));
    let (_, extracted) =
        problem.optimize_with_covariance(&mut dense, &options, &selected, &controls).unwrap();
    let extracted = wide(extracted);
    assert_eq!(extracted, wide(problem.joint_covariance(&selected).unwrap()));
    let (mut problem, keys) = chain(&mut counter);
    let selected = keys.map(|key| key.block_id());
    let mut lsmr = GaussNewton::new(Lsmr::new(Faer));
    let (_, by_lsmr) =
        problem.optimize_with_covariance(&mut lsmr, &options, &selected, &controls).unwrap();
    let by_lsmr = wide(by_lsmr);
    let (mut problem, keys) = chain(&mut counter);
    let selected = keys.map(|key| key.block_id());
    let mut schur = LevenbergMarquardt::new(Schur::new(1, 1, 1, Faer));
    let (_, by_schur) =
        problem.optimize_with_covariance(&mut schur, &options, &selected, &controls).unwrap();
    for values in [extracted, by_lsmr, wide(by_schur)] {
        assert_eq!(values.len(), 4);
        for (actual, expected) in values.iter().zip(expected) {
            assert!((actual - expected).abs() < 1e-12);
        }
    }
}

#[test]
fn covariance_failure_after_optimization_keeps_the_estimates_reached() {
    let mut counter = 1;
    let (mut problem, keys) = chain(&mut counter);
    let mut method = GaussNewton::new(DenseNormalCholesky::new(Faer));
    assert!(matches!(
        problem.optimize_with_covariance(
            &mut method,
            &OptimizeOptions::defaults(),
            &[keys[0].block_id(), keys[0].block_id()],
            &CovarianceOptions::defaults(),
        ),
        Err(SolverError::DuplicateCovarianceBlock)
    ));
    for key in keys {
        assert!((problem.get(key).unwrap().0[0] - 1.0).abs() < 1e-9);
    }
}

/// `x - measurement`, counting linearizations.
struct Counted {
    variable: StateKey<Scalar>,
    measurement: f64,
    linearized: Rc<Cell<usize>>,
}

impl Factor<Scalars> for Counted {
    type Scalar = R;

    fn variables_spec(&self) -> Listed<BlockId> {
        unreachable!()
    }
    fn cost_spec(&self, _: <Scalars as Readable>::Reading) -> Result<R, EvaluationError> {
        unreachable!()
    }
    fn linearize_spec(&self, _: <Scalars as Readable>::Reading, _: Replies<R>) -> Emitted<R> {
        unreachable!()
    }

    fn visit_variables(&self, visited: &mut Vec<BlockId>) {
        visited.push(self.variable.block_id());
    }
    fn cost(&self, states: &Scalars) -> Result<R, EvaluationError> {
        let residual = read(states, self.variable)? - self.measurement;
        Ok(r(0.5 * residual * residual))
    }
    fn linearize<K: LinearizationSink<Scalar = R>>(
        &self,
        states: &Scalars,
        sink: &mut K,
    ) -> Result<(), EvaluationError> {
        self.linearized.set(self.linearized.get() + 1);
        let residual = read(states, self.variable)? - self.measurement;
        sink.residual(vec![r(residual)], vec![JacobianBlock::new(self.variable, 1, vec![r(2.0)])])
    }
}

#[test]
fn extraction_reuses_the_model_of_the_last_linearization() {
    let mut counts = Vec::new();
    for with_covariance in [false, true] {
        let mut counter = 1;
        let mut next = || PoolId::allocate(&mut counter).unwrap();
        let states = Scalars::new(next());
        let factors = FactorPool::<Counted>::new(next());
        let mut problem = Problem::new(states, factors, next(), Faer, Faer);
        let linearized = Rc::new(Cell::new(0));
        let x = problem.add(Vector([2.0]));
        problem
            .add_factor(Counted { variable: x, measurement: 2.0, linearized: linearized.clone() })
            .unwrap();
        let mut method = LevenbergMarquardt::new(Lsmr::new(Faer));
        let options = OptimizeOptions::defaults();
        if with_covariance {
            let (report, covariance) = problem
                .optimize_with_covariance(
                    &mut method,
                    &options,
                    &[x.block_id()],
                    &CovarianceOptions::defaults(),
                )
                .unwrap();
            assert_eq!(report.termination, TerminationReason::GradientTolerance);
            assert!((covariance[0].wide() - 0.25).abs() < 1e-12);
        } else {
            problem.optimize_with(&mut method, &options).unwrap();
        }
        counts.push(linearized.get());
        problem.joint_covariance(&[x.block_id()]).unwrap();
        assert_eq!(linearized.get(), counts[counts.len() - 1] + 1);
    }
    assert_eq!(counts, [1, 1]);
}

#[test]
fn marginalization_reports_faults_family_by_family() {
    let mut counter = 1;
    let mut next = || PoolId::allocate(&mut counter).unwrap();
    let states: Mixed = Pair { first: StatePool::new(next()), second: StatePool::new(next()) };
    let factors = FactorPool::<Measurement>::new(next());
    let mut problem = Problem::new(states, factors, next(), Faer, Faer);
    let knot = problem.add(Vector::<9>::identity());
    let retired = problem.add(Vector::<3>::identity());
    problem.states.second.remove(retired).unwrap();
    let pool = knot.block_id().raw.pool;
    let unknown = BlockId { raw: RawKey { pool, local: LocalKey { slot: 99, generation: 0 } } };
    for ids in [[retired.block_id(), unknown], [unknown, retired.block_id()]] {
        assert!(matches!(problem.marginalize(&ids), Err(SolverError::Key(KeyError::Unknown))));
    }
    assert!(matches!(
        problem.marginalize(&[knot.block_id(), retired.block_id()]),
        Err(SolverError::Key(KeyError::Stale))
    ));
    let foreign = Scalars::new(PoolId::allocate(&mut counter).unwrap()).insert(Vector([0.0]));
    assert!(matches!(
        problem.marginalize(&[foreign.block_id(), retired.block_id()]),
        Err(SolverError::Key(KeyError::Stale))
    ));
    assert!(matches!(
        problem.marginalize(&[foreign.block_id()]),
        Err(SolverError::Key(KeyError::ForeignSolver))
    ));
}

/// What an evaluator makes of a refused residual.
#[derive(Clone, Copy, PartialEq)]
enum Manner {
    PassesOn,
    Ignores,
    Replaces,
    Corrects,
}

/// Emits a residual that is not finite.
struct Careless {
    variable: StateKey<Scalar>,
    manner: Manner,
}

impl Factor<Scalars> for Careless {
    type Scalar = R;

    fn variables_spec(&self) -> Listed<BlockId> {
        unreachable!()
    }
    fn cost_spec(&self, _: <Scalars as Readable>::Reading) -> Result<R, EvaluationError> {
        unreachable!()
    }
    fn linearize_spec(&self, _: <Scalars as Readable>::Reading, _: Replies<R>) -> Emitted<R> {
        unreachable!()
    }

    fn visit_variables(&self, visited: &mut Vec<BlockId>) {
        visited.push(self.variable.block_id());
    }
    fn cost(&self, _: &Scalars) -> Result<R, EvaluationError> {
        Ok(r(1.0))
    }
    fn linearize<K: LinearizationSink<Scalar = R>>(
        &self,
        _: &Scalars,
        sink: &mut K,
    ) -> Result<(), EvaluationError> {
        let block = || vec![JacobianBlock::new(self.variable, 1, vec![r(1.0)])];
        let reply = sink.residual(vec![r(f64::NAN)], block());
        assert!(matches!(reply, Err(EvaluationError::InvalidEvaluation)));
        match self.manner {
            Manner::PassesOn => reply,
            Manner::Ignores => Ok(()),
            Manner::Replaces => Err(EvaluationError::UnsupportedStructure),
            Manner::Corrects => sink.residual(vec![r(1.0)], block()),
        }
    }
}

#[test]
fn refusals_reach_evaluators_and_are_not_forgotten() {
    for manner in [Manner::PassesOn, Manner::Ignores, Manner::Replaces, Manner::Corrects] {
        let mut counter = 1;
        let mut next = || PoolId::allocate(&mut counter).unwrap();
        let states = Scalars::new(next());
        let factors = FactorPool::<Careless>::new(next());
        let mut problem = Problem::new(states, factors, next(), Faer, Faer);
        let x = problem.add(Vector([2.0]));
        problem.add_factor(Careless { variable: x, manner }).unwrap();
        let mut method = GaussNewton::new(DenseNormalCholesky::new(Faer));
        let optimized = problem.optimize_with(&mut method, &OptimizeOptions::defaults());
        let marginalized = problem.marginalize(&[x.block_id()]);
        for error in [optimized.err().unwrap(), marginalized.err().unwrap()] {
            let SolverError::Evaluation(error) = error else { panic!() };
            match manner {
                Manner::PassesOn => assert!(matches!(error, EvaluationError::InvalidEvaluation)),
                Manner::Replaces => assert!(matches!(error, EvaluationError::UnsupportedStructure)),
                _ => assert!(matches!(error, EvaluationError::InvalidEmission)),
            }
        }
        assert_eq!(problem.get(x).unwrap().0, [2.0]);
    }
}

#[test]
fn batches_keep_their_handles_through_all_removals() {
    let mut counter = 1;
    let mut problem = graph(&mut counter);
    let x = problem.add(Vector([1.0]));
    let y = problem.add(Vector([1.0]));
    let first = problem.add_batch(Scaled { scale: 2.0 });
    let gone = problem.add_batch(Scaled { scale: 3.0 });
    let last = problem.add_batch(Scaled { scale: 4.0 });
    problem.remove_batch(gone).unwrap();
    let kept = problem.add_factor_to(last, (y, 0.0)).unwrap();
    let removed = problem.add_factor_to(first, (x, 0.0)).unwrap();
    assert_eq!(problem.factor_cost(kept).unwrap(), r(8.0));
    assert_eq!(problem.factor_cost(removed).unwrap(), r(2.0));
    problem.remove_factor(removed).unwrap();
    let again = problem.add_factor_to(first, (x, 1.0)).unwrap();
    assert_eq!(problem.factor_cost(again).unwrap(), r(0.5));
    problem.marginalize(&[x.block_id()]).unwrap();
    let fresh = problem.add_factor_to(first, (y, 0.0)).unwrap();
    assert_eq!(problem.factor_cost(fresh).unwrap(), r(2.0));
    assert_eq!(problem.factor_cost(kept).unwrap(), r(8.0));
    assert!(matches!(
        problem.add_factor_to(gone, (y, 0.0)),
        Err(SolverError::Key(KeyError::Stale))
    ));
}

#[test]
fn statistics_account_for_calls_that_give_up() {
    let mut counter = 1;
    let mut problem = graph(&mut counter);
    let x = problem.add(Vector([0.0]));
    problem.add_factor(Prior { variable: x, measurement: 2.0 }).unwrap();
    let mut method = LevenbergMarquardt::new(Lsmr::new(Faer));
    let mut options = OptimizeOptions::defaults();
    options.gradient_tolerance = r(0.0);
    options.max_iterations = 1;
    assert!(matches!(
        problem.optimize_with(&mut method, &options),
        Err(SolverError::NoConvergence)
    ));
    let now = method.statistics();
    assert_eq!((now.accepted_steps, now.attempts), (1, 1 + now.rejected_steps));
    assert!(now.attempts <= now.linearizations * method.options.max_trials);
    assert!(now.damping.wide() >= method.options.min_damping.wide());
    assert!(now.damping.wide() <= method.options.max_damping.wide());
    let residual = problem.get(x).unwrap().0[0] - 2.0;
    assert_eq!(now.cost.unwrap().wide(), 0.5 * residual * residual);
}
