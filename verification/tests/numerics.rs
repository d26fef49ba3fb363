use fagra::elimination::{Matrix, MatrixView, PivotedQr};
use fagra::kernels::{
    Bidiagonalization, Clock, ConjugateGradient, Descent, DescentEnd, DescentView, IterationTimes,
    Operator, Regression, RegressionView, Triangular, TwoSided,
};
use fagra::key::{BlockId, LocalKey, PoolId, RawKey};
use fagra::linearization::JacobianBlock;
use fagra::notation::{Action, Count, Listed};
use fagra::scalar::Real;
use faer::dyn_stack::{MemBuffer, MemStack, StackReq};
use faer::linalg::qr::col_pivoting::factor;
use faer::linalg::{householder, triangular_solve};
use faer::matrix_free::{
    conjugate_gradient as cg, lsmr, BiLinOp, BiPrecond, InitialGuessStatus, LinOp, Precond,
};
use faer::{Mat, MatMut, MatRef, Par, Side};
use fagra::backend::{DampedLeastSquaresBackend, LeastSquaresBackend};
use fagra::block_factors::BlockFactors;
use fagra::elimination::{reduce, Rows};
use fagra::error::{EvaluationError, SolverError};
use fagra::linear_model::{Jacobian, LinearizedModel, RowBlock, StepWorkspace};
use fagra::lsmr::{Damped, FactorPreconditioner, Lsmr, LsmrTermination};
use fagra::normal::DenseNormalCholesky;
use fagra::schur::{Schur, SchurTermination};

trait Prim: faer::traits::RealField + Copy + std::fmt::Debug {
    fn of(value: f64) -> Self;
    fn wide(self) -> f64;
    fn divided(numerator: u64, denominator: u64) -> Self;
    fn arithmetic(self, other: Self, kind: u8) -> Self;
    fn function(self, other: Self, kind: u8) -> Self;
    fn finite(self) -> bool;
    fn machine_epsilon() -> Self;
}

impl Prim for f64 {
    fn of(value: f64) -> Self {
        value
    }
    fn wide(self) -> f64 {
        self
    }
    fn divided(numerator: u64, denominator: u64) -> Self {
        numerator as f64 / denominator as f64
    }
    fn arithmetic(self, other: Self, kind: u8) -> Self {
        match kind {
            0 => self + other,
            1 => self - other,
            2 => self * other,
            _ => self / other,
        }
    }
    fn function(self, other: Self, kind: u8) -> Self {
        match kind {
            0 => self.abs(),
            1 => self.sqrt(),
            2 => self.hypot(other),
            3 => self.max(other),
            _ => self.min(other),
        }
    }
    fn finite(self) -> bool {
        f64::is_finite(self)
    }
    fn machine_epsilon() -> Self {
        f64::EPSILON
    }
}

impl Prim for f32 {
    fn of(value: f64) -> Self {
        value as f32
    }
    fn wide(self) -> f64 {
        self as f64
    }
    fn divided(numerator: u64, denominator: u64) -> Self {
        (numerator as f64 / denominator as f64) as f32
    }
    fn arithmetic(self, other: Self, kind: u8) -> Self {
        match kind {
            0 => self + other,
            1 => self - other,
            2 => self * other,
            _ => self / other,
        }
    }
    fn function(self, other: Self, kind: u8) -> Self {
        match kind {
            0 => self.abs(),
            1 => self.sqrt(),
            2 => self.hypot(other),
            3 => self.max(other),
            _ => self.min(other),
        }
    }
    fn finite(self) -> bool {
        f32::is_finite(self)
    }
    fn machine_epsilon() -> Self {
        f32::EPSILON
    }
}

/// A floating-point number as a scalar of the library.
#[derive(Clone, Copy, Debug, PartialEq)]
struct N<T>(T);

fn n<T: Prim>(value: f64) -> N<T> {
    N(T::of(value))
}

fn ns<T: Prim>(values: &[f64]) -> Vec<N<T>> {
    values.iter().map(|&v| n(v)).collect()
}

impl<T: Prim> N<T> {
    fn wide(self) -> f64 {
        self.0.wide()
    }
}

fn wide<T: Prim>(values: &[N<T>]) -> Vec<f64> {
    values.iter().map(|v| v.wide()).collect()
}

impl<T: Prim> Real for N<T> {
    fn zero_spec() -> Self {
        unreachable!()
    }
    fn one_spec() -> Self {
        unreachable!()
    }
    fn epsilon_spec() -> Self {
        unreachable!()
    }
    fn ratio_spec(_: u64, _: u64) -> Self {
        unreachable!()
    }
    fn plus_spec(self, _: Self) -> Self {
        unreachable!()
    }
    fn minus_spec(self, _: Self) -> Self {
        unreachable!()
    }
    fn times_spec(self, _: Self) -> Self {
        unreachable!()
    }
    fn over_spec(self, _: Self) -> Self {
        unreachable!()
    }
    fn negate_spec(self) -> Self {
        unreachable!()
    }
    fn abs_spec(self) -> Self {
        unreachable!()
    }
    fn sqrt_spec(self) -> Self {
        unreachable!()
    }
    fn hypot_spec(self, _: Self) -> Self {
        unreachable!()
    }
    fn max_spec(self, _: Self) -> Self {
        unreachable!()
    }
    fn min_spec(self, _: Self) -> Self {
        unreachable!()
    }
    fn finite_spec(self) -> bool {
        unreachable!()
    }
    fn below_spec(self, _: Self) -> bool {
        unreachable!()
    }
    fn at_most_spec(self, _: Self) -> bool {
        unreachable!()
    }
    fn same_spec(self, _: Self) -> bool {
        unreachable!()
    }
    fn zero() -> Self {
        n(0.0)
    }
    fn one() -> Self {
        n(1.0)
    }
    fn epsilon() -> Self {
        N(T::machine_epsilon())
    }
    fn ratio(numerator: u64, denominator: u64) -> Self {
        N(T::divided(numerator, denominator))
    }
    fn plus(self, other: Self) -> Self {
        N(self.0.arithmetic(other.0, 0))
    }
    fn minus(self, other: Self) -> Self {
        N(self.0.arithmetic(other.0, 1))
    }
    fn times(self, other: Self) -> Self {
        N(self.0.arithmetic(other.0, 2))
    }
    fn over(self, other: Self) -> Self {
        N(self.0.arithmetic(other.0, 3))
    }
    fn negate(self) -> Self {
        N(-self.0)
    }
    fn abs(self) -> Self {
        N(self.0.function(self.0, 0))
    }
    fn sqrt(self) -> Self {
        N(self.0.function(self.0, 1))
    }
    fn hypot(self, other: Self) -> Self {
        N(self.0.function(other.0, 2))
    }
    fn max(self, other: Self) -> Self {
        N(self.0.function(other.0, 3))
    }
    fn min(self, other: Self) -> Self {
        N(self.0.function(other.0, 4))
    }
    fn is_finite(self) -> bool {
        self.0.finite()
    }
    fn below(self, other: Self) -> bool {
        self.0 < other.0
    }
    fn at_most(self, other: Self) -> bool {
        self.0 <= other.0
    }
    fn same(self, other: Self) -> bool {
        self.0 == other.0
    }
}

/// Numerical kernels from a linear algebra library.
#[derive(Clone, Copy)]
struct Faer;

fn dense<T: Prim>(rows: usize, cols: usize, values: &[N<T>]) -> Mat<T> {
    Mat::from_fn(rows, cols, |i, j| values[j * rows + i].0)
}

fn flat<T: Prim>(matrix: MatRef<'_, T>) -> Vec<N<T>> {
    let mut values = Vec::new();
    for j in 0..matrix.ncols() {
        for i in 0..matrix.nrows() {
            values.push(N(matrix[(i, j)]));
        }
    }
    values
}

impl<T: Prim> Triangular<N<T>> for Faer {
    fn cholesky_spec(&self, _: usize, _: Listed<Listed<N<T>>>) -> Option<Listed<N<T>>> {
        unreachable!()
    }
    fn lower_spec(
        &self,
        _: usize,
        _: Listed<Listed<N<T>>>,
        _: Listed<N<T>>,
        _: usize,
    ) -> Listed<N<T>> {
        unreachable!()
    }
    fn upper_spec(
        &self,
        _: usize,
        _: Listed<Listed<N<T>>>,
        _: Listed<N<T>>,
        _: usize,
    ) -> Listed<N<T>> {
        unreachable!()
    }
    fn cholesky(&self, width: usize, lower: &[N<T>]) -> Option<Vec<N<T>>> {
        let factor = dense(width, width, lower).llt(Side::Lower).ok()?;
        Some(flat(factor.L()))
    }
    fn solve_lower(&self, width: usize, factor: &[N<T>], rhs: &[N<T>], cols: usize) -> Vec<N<T>> {
        let mut x = dense(width, cols, rhs);
        let l = dense(width, width, factor);
        triangular_solve::solve_lower_triangular_in_place(l.as_ref(), x.as_mut(), Par::Seq);
        flat(x.as_ref())
    }
    fn solve_upper(&self, width: usize, factor: &[N<T>], rhs: &[N<T>], cols: usize) -> Vec<N<T>> {
        let mut x = dense(width, cols, rhs);
        let l = dense(width, width, factor);
        triangular_solve::solve_upper_triangular_in_place(l.transpose(), x.as_mut(), Par::Seq);
        flat(x.as_ref())
    }
}

/// A map of the library as one of the linear algebra library.
struct Linear<'a, A> {
    map: &'a A,
    rows: usize,
    cols: usize,
}

impl<A> std::fmt::Debug for Linear<'_, A> {
    fn fmt(&self, f: &mut std::fmt::Formatter<'_>) -> std::fmt::Result {
        f.write_str("Linear")
    }
}

fn column<T: Prim>(matrix: MatRef<'_, T>, j: usize) -> Vec<N<T>> {
    (0..matrix.nrows()).map(|i| N(matrix[(i, j)])).collect()
}

impl<T: Prim, A: Operator<N<T>>> LinOp<T> for Linear<'_, A> {
    fn apply_scratch(&self, _: usize, _: Par) -> StackReq {
        StackReq::EMPTY
    }
    fn nrows(&self) -> usize {
        self.rows
    }
    fn ncols(&self) -> usize {
        self.cols
    }
    fn apply(&self, mut out: MatMut<'_, T>, rhs: MatRef<'_, T>, _: Par, _: &mut MemStack) {
        for j in 0..rhs.ncols() {
            for (i, value) in self.map.apply(&column(rhs, j)).into_iter().enumerate() {
                out[(i, j)] = value.0;
            }
        }
    }
    fn conj_apply(&self, out: MatMut<'_, T>, rhs: MatRef<'_, T>, par: Par, stack: &mut MemStack) {
        self.apply(out, rhs, par, stack);
    }
}

impl<T: Prim, A: TwoSided<N<T>>> BiLinOp<T> for Linear<'_, A> {
    fn transpose_apply_scratch(&self, _: usize, _: Par) -> StackReq {
        StackReq::EMPTY
    }
    fn transpose_apply(&self, mut out: MatMut<'_, T>, rhs: MatRef<'_, T>, _: Par, _: &mut MemStack) {
        for j in 0..rhs.ncols() {
            for (i, value) in self.map.transpose_apply(&column(rhs, j)).into_iter().enumerate() {
                out[(i, j)] = value.0;
            }
        }
    }
    fn adjoint_apply(&self, out: MatMut<'_, T>, rhs: MatRef<'_, T>, par: Par, stack: &mut MemStack) {
        self.transpose_apply(out, rhs, par, stack);
    }
}

impl<T: Prim, A: Operator<N<T>>> Precond<T> for Linear<'_, A> {}

impl<T: Prim, A: TwoSided<N<T>>> BiPrecond<T> for Linear<'_, A> {}

fn some_times() -> IterationTimes {
    IterationTimes { forward: 3, transpose: 2, preconditioner: 1 }
}

impl<T: Prim> ConjugateGradient<N<T>> for Faer {
    fn descent_spec(
        &self,
        _: Action<N<T>>,
        _: Action<N<T>>,
        _: Listed<N<T>>,
        _: N<T>,
        _: usize,
    ) -> DescentView<N<T>> {
        unreachable!()
    }
    fn descend<A: Operator<N<T>>, P: Operator<N<T>>>(
        &self,
        operator: &A,
        preconditioner: &P,
        rhs: &[N<T>],
        tolerance: N<T>,
        max_iterations: usize,
    ) -> (Descent<N<T>>, IterationTimes) {
        let size = rhs.len();
        let a = Linear { map: operator, rows: size, cols: size };
        let p = Linear { map: preconditioner, rows: size, cols: size };
        let mut x = Mat::<T>::zeros(size, 1);
        let b = dense(size, 1, rhs);
        let mut memory = MemBuffer::new(cg::conjugate_gradient_scratch::<T>(&p, &a, 1, Par::Seq));
        let mut iterations = 0;
        let params = cg::CgParams {
            initial_guess: InitialGuessStatus::MaybeNonZero,
            rel_tolerance: tolerance.0,
            max_iters: max_iterations,
            ..Default::default()
        };
        let result = cg::conjugate_gradient(
            x.as_mut(),
            &p,
            &a,
            b.as_ref(),
            params,
            |_| iterations += 1,
            Par::Seq,
            MemStack::new(&mut memory),
        );
        let end = match result {
            Ok(info) => DescentEnd::Converged(N(info.rel_residual)),
            Err(cg::CgError::NoConvergence { .. }) => DescentEnd::Exhausted,
            Err(_) => DescentEnd::Broken,
        };
        (Descent { step: flat(x.as_ref()), iterations, end }, some_times())
    }
}

impl<T: Prim> Bidiagonalization<N<T>> for Faer {
    fn regression_spec(
        &self,
        _: Count,
        _: Count,
        _: Action<N<T>>,
        _: Action<N<T>>,
        _: Action<N<T>>,
        _: Action<N<T>>,
        _: Listed<N<T>>,
        _: N<T>,
        _: usize,
    ) -> RegressionView<N<T>> {
        unreachable!()
    }
    fn regress<A: TwoSided<N<T>>, P: TwoSided<N<T>>>(
        &self,
        rows: usize,
        cols: usize,
        operator: &A,
        preconditioner: &P,
        rhs: &[N<T>],
        tolerance: N<T>,
        max_iterations: usize,
    ) -> (Regression<N<T>>, IterationTimes) {
        let a = Linear { map: operator, rows, cols };
        let p = Linear { map: preconditioner, rows: cols, cols };
        let mut x = Mat::<T>::zeros(cols, 1);
        let b = dense(rows, 1, rhs);
        let vector = faer::linalg::temp_mat_scratch::<T>(cols, 1);
        let need = lsmr::lsmr_scratch::<T>(&p, &a, 1, Par::Seq).and(vector).and(vector);
        let mut memory = MemBuffer::new(need);
        let mut iterations = 0;
        let params = lsmr::LsmrParams {
            initial_guess: InitialGuessStatus::Zero,
            rel_tolerance: tolerance.0,
            max_iters: max_iterations,
            ..Default::default()
        };
        let result = lsmr::lsmr(
            x.as_mut(),
            &p,
            &a,
            b.as_ref(),
            params,
            |_| iterations += 1,
            Par::Seq,
            MemStack::new(&mut memory),
        );
        let (absolute, relative, converged) = match result {
            Ok(info) => (info.abs_residual, info.rel_residual, true),
            Err(lsmr::LsmrError::NoConvergence { abs_residual, rel_residual }) => {
                (abs_residual, rel_residual, false)
            }
        };
        let step = flat(x.as_ref());
        let (absolute, relative) = (N(absolute), N(relative));
        (Regression { step, iterations, absolute, relative, converged }, some_times())
    }
}

impl Clock for Faer {
    fn now(&self) -> u64 {
        std::time::SystemTime::now().duration_since(std::time::UNIX_EPOCH).unwrap().as_nanos() as u64
    }
}

impl<T: Prim> PivotedQr<N<T>> for Faer {
    fn factor_spec(
        &self,
        _: MatrixView<N<T>>,
        _: usize,
        _: usize,
        _: usize,
    ) -> (Listed<N<T>>, Listed<usize>) {
        unreachable!()
    }
    fn factor(
        &self,
        matrix: &Matrix<N<T>>,
        row: usize,
        column: usize,
        width: usize,
    ) -> (Vec<N<T>>, Vec<usize>) {
        let mut whole = dense(matrix.rows, matrix.cols, &matrix.values);
        let height = matrix.rows - row;
        let block = height.min(width).min(32);
        let mut coefficients = Mat::<T>::zeros(block, height.min(width));
        let mut permutation: Vec<usize> = (0..width).collect();
        let mut inverse = vec![0; width];
        let trailing = matrix.cols - column - width;
        let need = factor::qr_in_place_scratch::<usize, T>(
            height,
            width,
            block,
            Par::Seq,
            Default::default(),
        )
        .or(householder::apply_block_householder_sequence_transpose_on_the_left_in_place_scratch::<T>(
            height, block, trailing,
        ));
        let mut memory = MemBuffer::new(need);
        let stack = MemStack::new(&mut memory);
        let view = whole.as_mut().subrows_mut(row, height);
        let (_, rest) = view.split_at_col_mut(column);
        let (mut a, right) = rest.split_at_col_mut(width);
        factor::qr_in_place(
            a.as_mut(),
            coefficients.as_mut(),
            &mut permutation,
            &mut inverse,
            Par::Seq,
            stack,
            Default::default(),
        );
        householder::apply_block_householder_sequence_transpose_on_the_left_in_place_with_conj(
            a.as_ref(),
            coefficients.as_ref(),
            faer::Conj::No,
            right,
            Par::Seq,
            stack,
        );
        (flat(whole.as_ref()), permutation)
    }
}

/// The least-squares solution of smallest norm, from a singular value decomposition.
fn least_squares(rows: usize, cols: usize, a: impl Fn(usize, usize) -> f64, b: &[f64], eps: f64) -> Vec<f64> {
    let matrix = Mat::from_fn(rows, cols, a);
    let svd = matrix.thin_svd().unwrap();
    let (u, s, v) = (svd.U(), svd.S(), svd.V());
    let mut x = vec![0.0; cols];
    for k in 0..rows.min(cols) {
        if s[k] > eps {
            let dot: f64 = (0..rows).map(|i| u[(i, k)] * b[i]).sum();
            for (j, x) in x.iter_mut().enumerate() {
                *x += v[(j, k)] * dot / s[k];
            }
        }
    }
    x
}

fn block<T: Prim>(rows: usize, cols: usize, row_major: &[f64]) -> JacobianBlock<N<T>> {
    let values = (0..rows * cols).map(|k| n(row_major[(k % rows) * cols + k / rows])).collect();
    JacobianBlock { variable: some_id(), rows, cols, values }
}

fn some_id() -> BlockId {
    let mut counter = 1;
    let pool = PoolId::allocate(&mut counter).unwrap();
    BlockId { raw: RawKey { pool, local: LocalKey { slot: 0, generation: 0 } } }
}

#[test]
fn verification_reports_an_arbitrary_uphill_step_and_unobserved_coordinate() {
    let mut model = LinearizedModel::<N<f64>>::new();
    model.prepare(3);
    let j = block(2, 3, &[1., 2., 0., 3., -1., 0.]);
    model.accumulate(&ns(&[-2., 5.]), &[j], &[0]).unwrap();
    model.prepare_scales(n(0.5)).unwrap();
    let mut work = StepWorkspace::new();
    work.step = ns(&[0.2, -0.3, 0.4]);
    work.prepare_verification(2, 3);
    let verified = model.verify_step(&mut work, n(0.7));
    assert!((verified.predicted_reduction.wide() + 5.785).abs() < 1e-12);
    for (&actual, expected) in work.normal_residual.iter().zip([16.7, -11.75, 0.07]) {
        assert!((actual.wide() - expected).abs() < 1e-12);
    }
    assert_eq!(wide(&work.reference), vec![13., -9., 0.]);
    assert!(verified.finite_step && verified.residual_norm.wide() > 20.);
    assert_eq!(model.gradient, work.reference);
    assert_eq!(wide(&model.negative_residual), vec![2., -5.]);
}

fn one_block() -> Jacobian<N<f64>> {
    Jacobian {
        rows: 1,
        cols: 3,
        blocks: vec![RowBlock { row: 0, col: 0, rows: 1, cols: 2, start: 0 }],
        values: ns(&[1., 1.]),
    }
}

fn check_block_fallbacks() {
    let mut j = one_block();
    let ones: Vec<N<f64>> = ns(&[1., 1., 1.]);
    let mut p = BlockFactors::new();
    p.prepare(&j, &ones).unwrap();
    assert_eq!(p.factor(&Faer, n(0.)), 1);
    let mut v = ns(&[2., 3., 4.]);
    p.apply_factor_inverse(&Faer, &mut v, false);
    assert_eq!(wide(&v), [2., 3., 4.]);
    assert_eq!(p.factor(&Faer, n(0.01)), 0);
    p.gram[0] = N(f64::INFINITY);
    assert_eq!(p.factor(&Faer, n(0.01)), 1);
    j.blocks.push(RowBlock { row: 0, col: 1, rows: 1, cols: 2, start: 0 });
    assert!(p.prepare(&j, &ones).is_err());
    j.blocks.clear();
    p.prepare(&j, &ones).unwrap();
    assert_eq!(p.factor(&Faer, n(0.1)), 0);
}

#[test]
fn block_factors_singular_and_nonfinite_blocks_fall_back_and_overlaps_are_rejected() {
    check_block_fallbacks();
}

#[test]
fn block_jacobi_singular_and_nonfinite_blocks_fall_back_and_overlaps_are_rejected() {
    check_block_fallbacks();
}

#[test]
fn gram_blocks_name_their_columns_and_lower_triangles() {
    let j = Jacobian {
        rows: 2,
        cols: 4,
        blocks: vec![
            RowBlock { row: 0, col: 2, rows: 2, cols: 2, start: 0 },
            RowBlock { row: 0, col: 0, rows: 2, cols: 1, start: 4 },
        ],
        values: ns(&[1., 2., 3., 4., 5., 6.]),
    };
    let mut p = BlockFactors::<N<f64>>::new();
    p.prepare(&j, &ns(&[1., 1., 2., 1.])).unwrap();
    let grams = p.gram_blocks();
    assert_eq!(grams.len(), 2);
    assert_eq!(grams[0].0, 2);
    assert_eq!(wide(&grams[0].1[..2]), [1.25, 5.5]);
    assert_eq!(grams[0].1[3].wide(), 25.);
    assert_eq!((grams[1].0, wide(grams[1].1)), (0, vec![61.]));
}

#[test]
fn damped_products_match_dense_with_shared_columns_and_multiple_rhs() {
    fn check<T: Prim>(tolerance: f64) {
        let j = [0.001, 2., 3., 0.002, -1., 4., -0.001, 3., -2., 0.003, 1., 2.];
        let mut backend = Lsmr::<N<T>, Faer>::new(Faer);
        backend.prepare(3).unwrap();
        for row in [0, 2] {
            backend
                .accumulate(&ns(&[0., 0.]), &[block(2, 3, &j[3 * row..3 * row + 6])], &[0])
                .unwrap();
        }
        backend.prepare_damping(n(0.1)).unwrap();
        for scaled in [false, true] {
            for lambda in [0.0_f64, 0.01, 1e8] {
                let diagonal: Vec<N<T>> = backend
                    .model
                    .scales
                    .iter()
                    .map(|&s| {
                        if scaled {
                            n(lambda.sqrt())
                        } else {
                            n::<T>(lambda.sqrt()).times(s)
                        }
                    })
                    .collect();
                let operator = Damped {
                    jacobian: &backend.model.jacobian,
                    diagonal: &diagonal,
                    scales: if scaled { Some(&backend.model.scales) } else { None },
                };
                let dense = |i: usize, k: usize| -> f64 {
                    if i < 4 {
                        let scale = if scaled { backend.model.scales[k].wide() } else { 1. };
                        n::<T>(j[3 * i + k]).wide() / scale
                    } else if i - 4 == k {
                        diagonal[k].wide()
                    } else {
                        0.
                    }
                };
                for k in 0..2 {
                    let x: Vec<N<T>> = (0..3).map(|i| n((i + k) as f64 - 1.25)).collect();
                    let y: Vec<N<T>> = (0..7).map(|i| n((2 * i + k) as f64 - 2.5)).collect();
                    let forward = operator.apply(&x);
                    for i in 0..7 {
                        let expected: f64 = (0..3).map(|c| dense(i, c) * x[c].wide()).sum();
                        assert!(
                            (forward[i].wide() - expected).abs() < tolerance * expected.abs().max(1.)
                        );
                    }
                    let transpose = operator.transpose_apply(&y);
                    for c in 0..3 {
                        let expected: f64 = (0..7).map(|i| dense(i, c) * y[i].wide()).sum();
                        assert!(
                            (transpose[c].wide() - expected).abs()
                                < tolerance * expected.abs().max(1.)
                        );
                    }
                }
            }
        }
    }
    check::<f64>(1e-12);
    check::<f32>(1e-5);
}

#[test]
fn prepared_modes_reject_stale_configuration_and_observe_attempts_once() {
    let mut backend = Lsmr::<N<f64>, Faer>::new(Faer);
    backend.block_preconditioning = true;
    backend.prepare(2).unwrap();
    backend.accumulate(&ns(&[-1., -1.]), &[block(2, 2, &[1., 0., 0., 3.])], &[0]).unwrap();
    backend.prepare_damping(n(0.1)).unwrap();
    backend.block_preconditioning = false;
    assert!(matches!(backend.solve_damped(n(1.)), Err(SolverError::InvalidOptions)));
    assert_eq!(backend.statistics().solves, 0);
    backend.prepare_damping(n(0.1)).unwrap();
    let step = wide(&backend.solve_damped(n(1.)).unwrap().delta);
    assert!((step[0] - 0.5).abs() < 1e-12 && (step[1] - 1. / 6.).abs() < 1e-12);
    assert_eq!(backend.statistics().solves, 1);
    backend.diagonal_preconditioning = false;
    assert!(matches!(backend.solve_damped(n(1.)), Err(SolverError::InvalidOptions)));
    backend.prepare_damping(n(0.1)).unwrap();
    backend.max_iterations = 1;
    assert!(matches!(backend.solve_damped(n(1.)), Err(SolverError::LinearSolveFailed)));
    assert_eq!(backend.diagnostics().termination, Some(LsmrTermination::IterationLimit));
    assert_eq!(backend.statistics().solves, 2);
    backend.clear();
    assert!(matches!(backend.solve_damped(n(1.)), Err(SolverError::InvalidOptions)));
}

#[test]
fn mixed_scale_damping_matches_svd_and_exposes_exhaustion() {
    fn check<T: Prim>(tolerance: f64, blocks: bool) {
        let values = [1e-4, 2., 0., 0., 2e-4, -1., 3e4, 0., 0., 1., -1e4, 0.];
        let j = |i: usize, k: usize| n::<T>(values[4 * i + k]).wide();
        let r = [1., -2., 3.];
        let mut backend = Lsmr::<N<T>, Faer>::new(Faer);
        backend.block_preconditioning = blocks;
        backend.prepare(4).unwrap();
        backend.accumulate(&ns(&r), &[block(3, 4, &values)], &[0]).unwrap();
        backend.prepare_damping(n(1e-3)).unwrap();
        for lambda in [0.1, 10., 1e-3, 1e6] {
            let augmented = |i: usize, k: usize| {
                if i < 3 {
                    j(i, k)
                } else if i - 3 == k {
                    f64::sqrt(lambda) * backend.model.scales[k].wide()
                } else {
                    0.
                }
            };
            let mut rhs = vec![0.; 7];
            for i in 0..3 {
                rhs[i] = -r[i];
            }
            let expected = least_squares(7, 4, augmented, &rhs, 1e-14);
            let step = backend.solve_damped(n(lambda)).unwrap();
            let actual = wide(&step.delta);
            for k in 0..4 {
                assert!(
                    (actual[k] - expected[k]).abs() < tolerance * expected[k].abs().max(1.),
                    "lambda={lambda}, column={k}"
                );
            }
            assert_eq!(actual[3], 0.);
            let before: f64 = r.iter().map(|r| r * r).sum();
            let after: f64 = (0..3)
                .map(|i| (0..4).map(|k| j(i, k) * actual[k]).sum::<f64>() + r[i])
                .map(|r| r * r)
                .sum();
            let prediction = 0.5 * (before - after);
            assert!((step.predicted_reduction.wide() - prediction).abs() < tolerance);
            let d = backend.diagnostics();
            assert_eq!(d.termination, Some(LsmrTermination::Converged));
            assert!(d.finite_step);
            assert!(d.scaled_relative_residual.unwrap().wide() < tolerance);
            assert!(
                (d.scaled_relative_residual.unwrap().wide()
                    - d.estimated_relative_residual.unwrap().wide())
                .abs()
                    < tolerance
            );
            assert!(d.original_relative_residual.unwrap().wide() < tolerance);
        }
        backend.block_preconditioning = false;
        backend.prepare_damping(n(1e-3)).unwrap();
        backend.max_iterations = 1;
        assert!(matches!(backend.solve_damped(n(1e-3)), Err(SolverError::LinearSolveFailed)));
        let d = backend.diagnostics();
        assert_eq!(d.termination, Some(LsmrTermination::IterationLimit));
        assert_eq!(d.iterations, 1);
        assert!(d.finite_step && d.original_relative_residual.unwrap().is_finite());
        assert!(d.scaled_relative_residual.unwrap().wide() > backend.relative_tolerance.wide());
        backend.prepare(4).unwrap();
        assert!(backend.diagnostics().termination.is_none());
    }
    for blocks in [false, true] {
        check::<f64>(1e-7, blocks);
        check::<f32>(2e-3, blocks);
    }
}

#[test]
fn damped_retries_match_augmented_svd_and_preserve_the_model() {
    fn check<T: Prim>(tolerance: f64, precondition: bool, blocks: bool) {
        let values = [1., 2., 0., 3., -1., 0., 0., 1., 0.];
        let r = [-3., 2., 1.];
        let mut backend = Lsmr::<N<T>, Faer>::new(Faer);
        backend.diagonal_preconditioning = precondition;
        backend.block_preconditioning = blocks;
        backend.prepare(3).unwrap();
        backend.accumulate(&ns(&r), &[block(3, 3, &values)], &[0]).unwrap();
        backend.prepare_damping(n(1.0)).unwrap();
        let plain = wide(&backend.solve().unwrap());
        for lambda in [1e-8_f64, 0.01, 1.0, 100.0, 1e-4, 0.0] {
            let augmented = |i: usize, k: usize| {
                if i < 3 {
                    values[3 * i + k]
                } else if i - 3 == k {
                    let norm = (0..3).map(|i| values[3 * i + k].powi(2)).sum::<f64>().sqrt();
                    lambda.sqrt() * norm.max(1.0)
                } else {
                    0.
                }
            };
            let mut rhs = vec![0.; 6];
            for i in 0..3 {
                rhs[i] = -r[i];
            }
            let expected = least_squares(6, 3, augmented, &rhs, 1e-12);
            let step = backend.solve_damped(n(lambda)).unwrap();
            let actual = wide(&step.delta);
            let gap: f64 = (0..3).map(|k| (actual[k] - expected[k]).powi(2)).sum();
            assert!(gap.sqrt() < tolerance, "lambda={lambda} {actual:?} {expected:?}");
            let after: f64 = (0..3)
                .map(|i| (0..3).map(|k| values[3 * i + k] * actual[k]).sum::<f64>() + r[i])
                .map(|r| r * r)
                .sum();
            let prediction = 0.5 * (r.iter().map(|r| r * r).sum::<f64>() - after);
            assert!((step.predicted_reduction.wide() - prediction).abs() < tolerance);
        }
        for (a, b) in wide(&backend.solve().unwrap()).iter().zip(&plain) {
            assert!((a - b).abs() < tolerance);
        }
        assert_eq!(backend.statistics().solves, 8);
        assert!(backend.statistics().iterations > 0);
    }
    for (precondition, blocks) in [(false, false), (true, false), (true, true)] {
        check::<f64>(1e-9, precondition, blocks);
        check::<f32>(3e-4, precondition, blocks);
    }
}

#[test]
fn block_preconditioning_handles_coupling_gaps_and_adjoint_products() {
    let j = [
        1., 2., 0., 4., 2., 3., 1., 0., 2., 1., 2., 1., 0., 1., 3., 1., 1., 0., 3., 2.,
    ];
    let pair = |column: usize| {
        let values: Vec<f64> = (0..4).flat_map(|i| [j[5 * i + column], j[5 * i + column + 1]]).collect();
        block::<f64>(4, 2, &values)
    };
    let r = [1., -2., 3., -1.];
    let mut backend = Lsmr::<N<f64>, Faer>::new(Faer);
    backend.block_preconditioning = true;
    backend.collect_timings = true;
    backend.prepare(5).unwrap();
    backend.accumulate(&ns(&r), &[pair(3), pair(0)], &[3, 0]).unwrap();
    backend.prepare_damping(n(0.1)).unwrap();
    for lambda in [0.01, 1., 100.] {
        let augmented = |i: usize, k: usize| {
            if i < 4 {
                j[5 * i + k]
            } else if i - 4 == k {
                f64::sqrt(lambda) * backend.model.scales[k].wide()
            } else {
                0.
            }
        };
        let mut rhs = vec![0.; 9];
        for i in 0..4 {
            rhs[i] = -r[i];
        }
        let expected = least_squares(9, 5, augmented, &rhs, 1e-12);
        let actual = wide(&backend.solve_damped(n(lambda)).unwrap().delta);
        let gap: f64 = (0..5).map(|k| (actual[k] - expected[k]).powi(2)).sum();
        assert!(gap.sqrt() < 1e-8);
        assert_eq!(actual[2], 0.);
        assert_eq!(backend.diagnostics().block_fallbacks, 0);
        assert!(backend.diagnostics().scaled_relative_residual.unwrap().wide() < 1e-8);
        let preconditioner =
            FactorPreconditioner { dimension: 5, factors: Some(&backend.blocks), kernel: &Faer };
        for k in 0..2 {
            let x: Vec<N<f64>> = (0..5).map(|i| n((i + 2 * k) as f64 - 2.)).collect();
            let y: Vec<N<f64>> = (0..5).map(|i| n((2 * i + k) as f64 + 1.)).collect();
            let px = wide(&preconditioner.apply(&x));
            let pty = wide(&preconditioner.transpose_apply(&y));
            let lhs: f64 = (0..5).map(|i| px[i] * y[i].wide()).sum();
            let rhs: f64 = (0..5).map(|i| x[i].wide() * pty[i]).sum();
            assert!((lhs - rhs).abs() < 1e-10);
        }
    }
    assert!(backend.timings().linear_solve > 0);
    assert!(backend.timings().preconditioner > 0);
    backend.prepare(0).unwrap();
    assert_eq!(backend.timings().linear_solve, 0);
}

#[test]
fn workspace_handles_large_coordinate_vectors() {
    let mut solver = Lsmr::<N<f64>, Faer>::new(Faer);
    for size in [300, 1024] {
        solver.prepare(size).unwrap();
        solver.clear();
        for col in (0..size).step_by(2) {
            let residual = ns(&[-(col as f64), -(col as f64 + 1.0)]);
            solver.accumulate(&residual, &[block(2, 2, &[1., 0., 0., 1.])], &[col]).unwrap();
        }
        for (i, value) in solver.solve().unwrap().iter().enumerate() {
            assert!((value.wide() - i as f64).abs() < 1e-8);
        }
    }
}

#[test]
fn cached_products_and_rectangular_solve_match_dense() {
    let mut solver = Lsmr::<N<f64>, Faer>::new(Faer);
    let mut dense = DenseNormalCholesky::<N<f64>, Faer>::new(Faer);
    solver.prepare(0).unwrap();
    assert!(solver.solve().unwrap().is_empty());
    solver.prepare(4).unwrap();
    solver.clear();
    assert_eq!(wide(&solver.solve().unwrap()), [0.0; 4]);
    dense.prepare(4).unwrap();
    let ja = [5., 6., 9., 10., 13., 14.];
    let jb = [1., 0., 0., 2., 3., -1.];
    for _ in 0..2 {
        solver.clear();
        dense.clear();
        let r = ns(&[1., -2., 3.]);
        solver.accumulate(&r, &[block(3, 2, &ja), block(3, 2, &jb)], &[2, 0]).unwrap();
        dense.accumulate(&r, &[block(3, 2, &ja), block(3, 2, &jb)], &[2, 0]).unwrap();
        let r = ns(&[-4., 5.]);
        solver.accumulate(&r, &[block(2, 2, &[2., 0., 0., 1.])], &[0]).unwrap();
        dense.accumulate(&r, &[block(2, 2, &[2., 0., 0., 1.])], &[0]).unwrap();
        let j = [
            [1., 0., 5., 6.],
            [0., 2., 9., 10.],
            [3., -1., 13., 14.],
            [2., 0., 0., 0.],
            [0., 1., 0., 0.],
        ];
        for k in 0..2 {
            let x: Vec<N<f64>> = (0..4).map(|i| n((i + 2 * k) as f64)).collect();
            let y: Vec<N<f64>> = (0..5).map(|i| n((2 * i + k) as f64)).collect();
            let mut forward = vec![n(f64::NAN); 5];
            let mut transpose = vec![n(f64::NAN); 4];
            solver.model.jacobian.apply(&mut forward, &x);
            solver.model.jacobian.transpose_apply(&mut transpose, &y);
            for i in 0..5 {
                let expected = (0..4).map(|c| j[i][c] * x[c].wide()).sum::<f64>();
                assert_eq!(forward[i].wide(), expected);
            }
            for c in 0..4 {
                let expected = (0..5).map(|i| j[i][c] * y[i].wide()).sum::<f64>();
                assert_eq!(transpose[c].wide(), expected);
            }
            assert_eq!(Operator::apply(&solver.model.jacobian, &x), forward);
            assert_eq!(TwoSided::transpose_apply(&solver.model.jacobian, &y), transpose);
        }
        assert_eq!(solver.gradient_norm().unwrap(), dense.gradient_norm().unwrap());
        solver.max_iterations = 1;
        assert!(matches!(solver.solve(), Err(SolverError::LinearSolveFailed)));
        solver.max_iterations = 1000;
        let expected = wide(&dense.solve().unwrap());
        for _ in 0..2 {
            for (actual, expected) in wide(&solver.solve().unwrap()).iter().zip(&expected) {
                assert!((actual - expected).abs() < 1e-8, "{actual} != {expected}");
            }
        }
    }
    for tolerance in [f64::NAN, f64::INFINITY, -1.0, 1.0] {
        solver.relative_tolerance = n(tolerance);
        assert!(matches!(solver.prepare(4), Err(SolverError::InvalidOptions)));
    }
}

#[test]
fn accumulation_matches_dense_reference() {
    fn check<T: Prim>(rows: usize) {
        let mut backend = DenseNormalCholesky::<N<T>, Faer>::new(Faer);
        backend.prepare(31).unwrap();
        backend.clear();
        for col in 0..31 {
            for row in 0..col {
                backend.normal[31 * col + row] = n(f64::NAN);
            }
        }
        let mut normal = vec![n::<T>(0.); 31 * 31];
        let mut rhs = vec![n::<T>(0.); 31];
        for weight in [1., 0.13, 0.] {
            let j = |row: usize, col: usize| {
                n::<T>(weight * (((2 * row * 7 + col * 11) % 23) as f64 - 11.) / 13.)
            };
            let residual: Vec<N<T>> = (0..rows).map(|row| n(weight * (row as f64 - 1.3))).collect();
            let places = [(24, 3), (6, 6), (31, 0), (18, 6), (0, 6), (27, 4), (12, 6)];
            let blocks: Vec<_> = places
                .iter()
                .map(|&(offset, width)| {
                    let mut values = Vec::new();
                    for col in 0..width {
                        for row in 0..rows {
                            values.push(j(row, offset + col));
                        }
                    }
                    JacobianBlock { variable: some_id(), rows, cols: width, values }
                })
                .collect();
            let columns: Vec<usize> = places.iter().map(|place| place.0).collect();
            backend.accumulate(&residual, &blocks, &columns).unwrap();
            for col in 0..31 {
                for row in 0..31 {
                    for k in 0..rows {
                        normal[31 * col + row] = normal[31 * col + row].plus(j(k, row).times(j(k, col)));
                    }
                }
                for k in 0..rows {
                    rhs[col] = rhs[col].minus(j(k, col).times(residual[k]));
                }
            }
        }
        let tolerance = 256. * N::<T>::epsilon().wide();
        for col in 0..31 {
            assert!(
                (backend.rhs[col].wide() - rhs[col].wide()).abs()
                    <= tolerance * (1. + rhs[col].wide().abs())
            );
            for row in 0..31 {
                let actual = backend.normal[31 * col + row].wide();
                let expected = normal[31 * col + row].wide();
                if row < col {
                    assert!(actual.is_nan());
                } else {
                    assert!((actual - expected).abs() <= tolerance * (1. + expected.abs()));
                }
            }
        }
    }
    for rows in [0, 1, 2, 3, 4, 5, 8, 16, 32] {
        check::<f32>(rows);
        check::<f64>(rows);
    }
}

#[test]
fn covariance_rejects_nonfinite_information_and_scaled_small_pivots() {
    let mut backend = DenseNormalCholesky::<N<f64>, Faer>::new(Faer);
    for scale in [1e-6, 1., 1e6] {
        backend.prepare(2).unwrap();
        backend.clear();
        backend
            .accumulate(&ns(&[0., 0.]), &[block(2, 2, &[scale, 1., 0., 1e-5])], &[0])
            .unwrap();
        assert!(matches!(
            backend.information_factor(n(1e-8)),
            Err(SolverError::SingularInformation)
        ));
        backend.information_factor(n(1e-12)).unwrap();
    }
    backend.prepare(1).unwrap();
    backend.clear();
    backend.accumulate(&ns(&[0.]), &[block(1, 1, &[1e200])], &[0]).unwrap();
    assert!(matches!(
        backend.information_factor(n(0.)),
        Err(SolverError::InvalidInformation)
    ));
}

#[test]
fn lower_triangle_and_rhs_are_assembled_and_solved_in_place() {
    let mut backend = DenseNormalCholesky::<N<f64>, Faer>::new(Faer);
    backend.prepare(2).unwrap();
    let matrix_pointer = backend.normal.as_ptr();
    let rhs_pointer = backend.rhs.as_ptr();
    for _ in 0..2 {
        backend.prepare(2).unwrap();
        backend.clear();
        backend.normal[2] = n(f64::NAN);
        backend
            .accumulate(&ns(&[-5.0, -11.0]), &[block(2, 2, &[1.0, 2.0, 3.0, 4.0])], &[0])
            .unwrap();
        assert_eq!(backend.normal[0].wide(), 10.0);
        assert_eq!(backend.normal[1].wide(), 14.0);
        assert_eq!(backend.normal[3].wide(), 20.0);
        assert!(backend.normal[2].wide().is_nan());
        assert_eq!(wide(&backend.rhs), [38.0, 54.0]);
        assert_eq!(backend.gradient_norm().unwrap().wide(), 54.0);
        let step = wide(&backend.solve().unwrap());
        assert_eq!(wide(&backend.rhs), step);
        assert_eq!(backend.rhs.as_ptr(), rhs_pointer);
        assert!((step[0] - 1.0).abs() < 1e-12);
        assert!((step[1] - 2.0).abs() < 1e-12);
        assert_eq!(backend.normal.as_ptr(), matrix_pointer);
    }
}

#[test]
fn rows_stay_until_they_are_cleared() {
    let mut backend = Lsmr::<N<f64>, Faer>::new(Faer);
    backend.prepare(1).unwrap();
    backend.clear();
    backend.accumulate(&ns(&[-3.]), &[block(1, 1, &[1.])], &[0]).unwrap();
    backend.prepare(2).unwrap();
    assert_eq!((backend.model.jacobian.rows, backend.model.jacobian.cols), (1, 2));
    assert_eq!(wide(&backend.model.jacobian.values), [1.]);
    assert_eq!(wide(&backend.model.negative_residual), [3.]);
    assert_eq!(wide(&backend.model.gradient), [-3., 0.]);
    backend.clear();
    assert_eq!((backend.model.jacobian.rows, backend.model.jacobian.cols), (0, 2));
    assert_eq!(wide(&backend.model.gradient), [0., 0.]);

    let mut dense = DenseNormalCholesky::<N<f64>, Faer>::new(Faer);
    dense.prepare(2).unwrap();
    dense.clear();
    dense.accumulate(&ns(&[-5.0, -11.0]), &[block(2, 2, &[1.0, 2.0, 3.0, 4.0])], &[0]).unwrap();
    dense.prepare(3).unwrap();
    assert_eq!(wide(&dense.rhs), [38., 54., 0.]);
    assert_eq!(
        [0, 1, 2, 4, 5, 8].map(|i| dense.normal[i].wide()),
        [10., 14., 0., 20., 0., 0.]
    );
    dense.prepare(1).unwrap();
    assert_eq!(wide(&dense.normal), [10.]);
    assert_eq!(wide(&dense.rhs), [38.]);
}

#[test]
fn undamped_schur_solves_add_up() {
    let mut backend = Schur::<N<f64>, Faer>::new(1, 1, 1, Faer);
    backend.prepare(2).unwrap();
    for solves in 1..4 {
        backend.clear();
        backend
            .accumulate(&ns(&[2., 2.]), &[block(2, 1, &[1., 0.]), block(2, 1, &[0.5, 1.])], &[0, 1])
            .unwrap();
        let step = wide(&backend.solve().unwrap());
        assert!((step[0] + 1.).abs() < 1e-9 && (step[1] + 2.).abs() < 1e-9);
        assert_eq!(backend.statistics().solves, solves);
        assert!(backend.statistics().iterations >= solves);
    }
    backend.prepare(2).unwrap();
    assert_eq!(backend.statistics().solves, 0);
}

#[test]
fn schur_matches_augmented_svd_with_retries_unaries_and_unused_blocks() {
    fn check<T: Prim>(tolerance: f64) {
        let mut backend = Schur::<N<T>, Faer>::new(6, 2, 2, Faer);
        backend.collect_timings = true;
        backend.prepare(12).unwrap();
        backend.clear();
        let mut j = vec![vec![0.; 12]; 12];
        let mut r = vec![0.; 12];
        for (i, (camera, point)) in [(0, 6), (2, 6), (0, 8), (2, 8), (0, 6)].into_iter().enumerate() {
            let a = [0.01, 2., -0.03, 1. + i as f64];
            let b = [10., -0.3, 20. + i as f64, 1.];
            let residual = [i as f64 - 2., 1.];
            backend
                .accumulate(&ns(&residual), &[block(2, 2, &b), block(2, 2, &a)], &[point, camera])
                .unwrap();
            for row in 0..2 {
                for col in 0..2 {
                    j[2 * i + row][camera + col] = n::<T>(a[2 * row + col]).wide();
                    j[2 * i + row][point + col] = n::<T>(b[2 * row + col]).wide();
                }
                r[2 * i + row] = residual[row];
            }
        }
        for (i, col) in [0, 8].into_iter().enumerate() {
            backend.accumulate(&ns(&[0.7]), &[block(1, 2, &[0.5, -1.])], &[col]).unwrap();
            j[10 + i][col] = 0.5;
            j[10 + i][col + 1] = -1.;
            r[10 + i] = 0.7;
        }
        backend.prepare_damping(n(0.1)).unwrap();
        for lambda in [0.001_f64, 1., 100., 0.01] {
            let augmented = |i: usize, k: usize| {
                if i < 12 {
                    j[i][k]
                } else if i - 12 == k {
                    lambda.sqrt() * backend.model.scales[k].wide()
                } else {
                    0.
                }
            };
            let mut rhs = vec![0.; 24];
            for i in 0..12 {
                rhs[i] = -r[i];
            }
            let expected = least_squares(24, 12, augmented, &rhs, 1e-13);
            let step = backend.solve_damped(n(lambda)).unwrap();
            let actual = wide(&step.delta);
            let gap: f64 = (0..12).map(|k| (actual[k] - expected[k]).powi(2)).sum();
            let size: f64 = expected.iter().map(|x| x * x).sum();
            assert!(
                gap.sqrt() < tolerance * size.sqrt().max(1.),
                "lambda={lambda} actual={actual:?} expected={expected:?}"
            );
            let after: f64 = (0..12)
                .map(|i| (0..12).map(|k| j[i][k] * actual[k]).sum::<f64>() + r[i])
                .map(|r| r * r)
                .sum();
            let prediction = 0.5 * (r.iter().map(|r| r * r).sum::<f64>() - after);
            assert!((step.predicted_reduction.wide() - prediction).abs() < tolerance);
            for k in [4, 5, 10, 11] {
                assert_eq!(actual[k], 0.);
            }
            let d = backend.diagnostics();
            assert_eq!(d.termination, Some(SchurTermination::Converged));
            assert!(d.reduced_relative_residual.unwrap().wide() < tolerance);
            assert!(d.scaled_relative_residual.unwrap().wide() < tolerance);
        }
        backend.max_iterations = 1;
        assert!(matches!(backend.solve_damped(n(0.001)), Err(SolverError::LinearSolveFailed)));
        let d = backend.diagnostics();
        assert_eq!(d.termination, Some(SchurTermination::IterationLimit));
        assert_eq!(d.iterations, 1);
        assert!(d.estimated_relative_residual.is_none());
        assert!(d.reduced_relative_residual.unwrap().is_finite());
        assert!(d.reduced_relative_residual.unwrap().wide() > backend.relative_tolerance.wide());
        assert!(backend.timings().linear_solve > 0);
        backend.prepare(12).unwrap();
        assert_eq!(backend.statistics().solves, 0);
        assert_eq!(backend.timings().linear_solve, 0);
    }
    check::<f64>(1e-7);
    check::<f32>(3e-3);
}

#[test]
fn partition_structure_and_singular_elimination_fail_explicitly() {
    let j = || block::<f64>(1, 2, &[1., 1.]);
    let one = ns::<f64>(&[1.]);
    let mut backend = Schur::new(2, 2, 2, Faer);
    assert!(matches!(backend.prepare(5), Err(SolverError::InvalidOptions)));
    backend.prepare(6).unwrap();
    backend.clear();
    assert!(matches!(
        backend.accumulate(&one, &[j(), j()], &[2, 4]),
        Err(EvaluationError::UnsupportedStructure)
    ));
    assert!(matches!(
        backend.accumulate(&one, &[j()], &[1]),
        Err(EvaluationError::UnsupportedStructure)
    ));
    assert!(backend.solve_damped(n(0.1)).is_err());
    backend.accumulate(&one, &[j(), j()], &[0, 2]).unwrap();
    backend.prepare_damping(n(0.1)).unwrap();
    assert!(backend.solve_damped(n(0.)).is_err());
    assert_eq!(backend.diagnostics().termination, Some(SchurTermination::NotPositiveDefinite));
    assert!(backend.solve_damped(n(0.1)).is_ok());
    assert!(backend.solve_damped(n(f64::NAN)).is_err());
    let mut retained_coupling = Schur::new(4, 2, 2, Faer);
    retained_coupling.prepare(6).unwrap();
    assert!(matches!(
        retained_coupling.accumulate(&one, &[j(), j()], &[0, 2]),
        Err(EvaluationError::UnsupportedStructure)
    ));
    let mut undamped = Schur::new(2, 2, 2, Faer);
    undamped.prepare(4).unwrap();
    for col in [0, 2] {
        undamped
            .accumulate(&ns::<f64>(&[1., 2.]), &[block(2, 2, &[1., 0., 0., 1.])], &[col])
            .unwrap();
    }
    for _ in 0..2 {
        for (actual, expected) in wide(&undamped.solve().unwrap()).iter().zip([-1., -2., -1., -2.]) {
            assert!((actual - expected).abs() < 1e-10);
        }
    }
    for (retained, size) in [(0, 0), (0, 2), (2, 2)] {
        let mut b = Schur::<N<f64>, Faer>::new(retained, 2, 2, Faer);
        b.prepare(size).unwrap();
        b.clear();
        if size != 0 {
            b.accumulate(&one, &[j()], &[0]).unwrap();
        }
        b.prepare_damping(n(0.1)).unwrap();
        assert!(b.solve_damped(n(0.1)).is_ok());
    }
}

fn near(actual: f64, expected: f64, tolerance: f64) {
    assert!(
        (actual - expected).abs() <= tolerance * (1.0 + expected.abs()),
        "actual={actual}, expected={expected}"
    );
}

/// A reduced prior, its constant and the rank of what was removed.
struct Left {
    a: Vec<f64>,
    b: Vec<f64>,
    constant: f64,
    rank: usize,
}

fn eliminate<T: Prim>(dimension: usize, removed: usize, values: &[f64]) -> Left {
    let height = values.len() / (dimension + 1);
    let rows = Rows::<N<T>> { dimension, height, values: ns(values) };
    let reduced = reduce(&Faer, &rows, removed, None).unwrap();
    Left {
        a: wide(&reduced.prior.a),
        b: wide(&reduced.prior.b),
        constant: reduced.constant.wide(),
        rank: reduced.rank,
    }
}

#[test]
fn reduced_objective_matches_svd_in_both_precisions() {
    fn check<T: Prim>(tolerance: f64) {
        let cases: &[(usize, usize, usize, &[f64])] = &[
            (
                4,
                4,
                2,
                &[
                    1., 2., 1., 0., 3., 2., 4., 0., 2., -1., 0., 0., 1., 1., 2., 3., 6., -1., 0.,
                    1.,
                ],
            ),
            (2, 4, 3, &[1., 0., 2., 3., 4., 0., 1., 1., 2., 3.]),
            (3, 2, 1, &[0., 1., 2., 0., 2., 3., 0., -1., 1.]),
            (
                4,
                3,
                1,
                &[
                    1., 2., 0., 1., 2., -1., 1., 3., -1., 0., 2., 4., 0., 1., -1., 2.,
                ],
            ),
            (3, 2, 0, &[1., 0., 2., 0., 1., 3., 0., 0., 4.]),
            (3, 1, 1, &[1., 1., 2., 3., -1., 2.]),
        ];
        for &(m, cols, removed, values) in cases {
            let original = |i: usize, j: usize| values[i * (cols + 1) + j];
            let left = eliminate::<T>(cols, removed, values);
            let height = left.b.len();
            for shift in [-2.0, 0.0, 0.5, 3.0] {
                let delta: Vec<f64> = (0..cols - removed).map(|i| shift + i as f64 * 0.3).collect();
                let rhs: Vec<f64> = (0..m)
                    .map(|i| {
                        (0..cols - removed).map(|k| original(i, removed + k) * delta[k]).sum::<f64>()
                            + original(i, cols)
                    })
                    .collect();
                let residual: Vec<f64> = if removed == 0 {
                    rhs
                } else {
                    let target: Vec<f64> = rhs.iter().map(|r| -r).collect();
                    let step = least_squares(m, removed, original, &target, 1e-10);
                    (0..m)
                        .map(|i| (0..removed).map(|k| original(i, k) * step[k]).sum::<f64>() + rhs[i])
                        .collect()
                };
                let expected = 0.5 * residual.iter().map(|r| r * r).sum::<f64>();
                let reduced: f64 = (0..height)
                    .map(|i| {
                        (0..cols - removed).map(|k| left.a[k * height + i] * delta[k]).sum::<f64>()
                            + left.b[i]
                    })
                    .map(|r| r * r)
                    .sum();
                near(0.5 * reduced + left.constant, expected, tolerance);
            }
        }
    }
    check::<f64>(1e-11);
    check::<f32>(2e-5);
}

#[test]
fn qr_keeps_directions_lost_by_normal_equations() {
    fn check<T: Prim>(epsilon: f64, tolerance: f64) {
        let values = [1., 1., 1., 2., epsilon, -epsilon, 2., -1., 0., 0., 3., 4.];
        let left = eliminate::<T>(3, 2, &values);
        assert_eq!(left.rank, 2);
        for y in [-2.0_f64, 0., 1., 5.] {
            let r = left.a[0] * y + left.b[0];
            near(0.5 * r * r + left.constant, 0.5 * (3.0 * y + 4.0).powi(2), tolerance);
        }
    }
    check::<f64>(1e-10, 1e-11);
    check::<f32>(1e-4, 1e-5);
}

#[test]
fn totals_of_time_grow_and_stop_at_the_largest() {
    assert_eq!(fagra::kernels::prolonged(7, 10, 25), 22);
    assert_eq!(fagra::kernels::prolonged(7, 25, 10), 7);
    assert_eq!(fagra::kernels::prolonged(u64::MAX - 1, 0, 5), u64::MAX);
}

#[test]
fn each_timed_total_grows_by_its_own_step_alone() {
    let mut backend = Lsmr::<N<f64>, Faer>::new(Faer);
    backend.block_preconditioning = true;
    backend.prepare(2).unwrap();
    backend.accumulate(&ns(&[1., 2.]), &[block(2, 2, &[2., 1., 0., 3.])], &[0]).unwrap();
    backend.prepare_damping(n(0.1)).unwrap();
    backend.solve_damped(n(0.5)).unwrap();
    let t = backend.timings();
    assert_eq!((t.preparation, t.factorization, t.linear_solve), (0, 0, 0));
    assert_eq!((t.forward, t.transpose, t.preconditioner, t.residual_checks), (0, 0, 0, 0));
    backend.collect_timings = true;
    backend.timings.residual_checks = u64::MAX;
    backend.prepare_damping(n(0.1)).unwrap();
    let prepared = backend.timings();
    assert_eq!((prepared.factorization, prepared.linear_solve, prepared.forward), (0, 0, 0));
    assert_eq!((prepared.transpose, prepared.preconditioner), (0, 0));
    assert!(backend.prepare_damping(n(0.)).is_err());
    assert_eq!(backend.timings().preparation, prepared.preparation);
    backend.prepare_damping(n(0.1)).unwrap();
    let prepared = backend.timings();
    assert!(backend.solve_damped(n(-1.)).is_err());
    assert_eq!(backend.timings().linear_solve, 0);
    backend.solve_damped(n(0.5)).unwrap();
    let solved = backend.timings();
    assert_eq!(solved.preparation, prepared.preparation);
    assert_eq!(solved.residual_checks, u64::MAX);
    backend.solve().unwrap();
    assert_eq!(backend.timings().linear_solve, solved.linear_solve);

    let mut backend = Schur::<N<f64>, Faer>::new(2, 2, 2, Faer);
    backend.collect_timings = true;
    backend.prepare(4).unwrap();
    for col in [0, 2] {
        backend.accumulate(&ns(&[1.]), &[block(1, 2, &[1., 1.])], &[col]).unwrap();
    }
    backend.prepare_damping(n(0.1)).unwrap();
    let prepared = backend.timings();
    assert_eq!((prepared.factorization, prepared.linear_solve, prepared.products), (0, 0, 0));
    // A singular block ends the attempt before anything is solved.
    assert!(backend.solve_damped(n(0.)).is_err());
    let failed = backend.timings();
    assert_eq!(failed.preparation, prepared.preparation);
    assert_eq!((failed.linear_solve, failed.products, failed.preconditioner), (0, 0, 0));
    assert_eq!(failed.verification, 0);
    backend.solve_damped(n(0.5)).unwrap();
    let solved = backend.timings();
    assert_eq!(solved.preparation, prepared.preparation);
    assert!(solved.factorization >= failed.factorization && solved.linear_solve > 0);
    backend.collect_timings = false;
    backend.solve_damped(n(0.5)).unwrap();
    assert_eq!(backend.timings().linear_solve, solved.linear_solve);
    assert_eq!(backend.timings().verification, solved.verification);
}

#[test]
fn nothing_above_the_diagonal_is_read() {
    let assembled = || {
        let mut backend = DenseNormalCholesky::<N<f64>, Faer>::new(Faer);
        backend.prepare(2).unwrap();
        backend.clear();
        backend.accumulate(&ns(&[1., 2.]), &[block(2, 2, &[2., 1., 0., 3.])], &[0]).unwrap();
        backend
    };
    let expected = wide(&assembled().solve().unwrap());
    assert!((expected[0] + 1. / 6.).abs() < 1e-12 && (expected[1] + 2. / 3.).abs() < 1e-12);
    let mut backend = assembled();
    backend.normal[2] = n(f64::NAN);
    assert_eq!(wide(&backend.solve().unwrap()), expected);
}

#[test]
fn without_block_preconditioning_overlapping_blocks_are_no_obstacle() {
    let mut backend = Lsmr::<N<f64>, Faer>::new(Faer);
    backend.prepare(3).unwrap();
    for col in [0, 1] {
        backend.accumulate(&ns(&[1.]), &[block(1, 2, &[1., 2.])], &[col]).unwrap();
    }
    for diagonal in [false, true] {
        backend.diagonal_preconditioning = diagonal;
        backend.prepare_damping(n(0.1)).unwrap();
        backend.solve_damped(n(0.5)).unwrap();
        assert_eq!(backend.diagnostics().block_fallbacks, 0);
    }
    backend.block_preconditioning = true;
    assert!(matches!(
        backend.prepare_damping(n(0.1)),
        Err(SolverError::Evaluation(EvaluationError::DimensionMismatch))
    ));
    let identity = FactorPreconditioner { dimension: 3, factors: None, kernel: &Faer };
    let values = ns::<f64>(&[3., -1., 2.]);
    assert_eq!(identity.apply(&values), values);
    assert_eq!(identity.transpose_apply(&values), values);
}
