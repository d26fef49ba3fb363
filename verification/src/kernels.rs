//! What a numerical library provides to the solvers of this one.
//!
//! A kernel computes some function of what it reads, and that is all that is known of it:
//! whatever it returns, the solvers check it before they use it.
use crate::notation::Action;
use vstd::prelude::*;

verus! {

/// Entry of a square matrix stored column by column.
pub open spec fn entry<R>(width: nat, matrix: Seq<R>, row: int, col: int) -> R {
    matrix[col * width + row]
}

/// The entries of a square matrix on and below its diagonal, column by column.
pub open spec fn lower_triangle<R>(width: nat, matrix: Seq<R>) -> Seq<Seq<R>> {
    Seq::new(
        width,
        |col: int| Seq::new((width - col) as nat, |i: int| entry(width, matrix, col + i, col)),
    )
}

/// Whether two square matrices agree on and below the diagonal.
pub open spec fn same_below<R>(width: nat, a: Seq<R>, b: Seq<R>) -> bool {
    forall|row: int, col: int|
        0 <= col <= row < width ==> #[trigger] entry(width, a, row, col) == entry(
            width,
            b,
            row,
            col,
        )
}

/// Matrices that agree on and below the diagonal have one lower triangle.
pub proof fn lemma_lower_triangle<R>(width: nat, a: Seq<R>, b: Seq<R>)
    requires
        same_below(width, a, b),
    ensures
        lower_triangle(width, a) == lower_triangle(width, b),
{
    assert forall|col: int| 0 <= col < width implies #[trigger] lower_triangle(width, a)[col]
        == lower_triangle(width, b)[col] by {
        assert(lower_triangle(width, a)[col] =~= lower_triangle(width, b)[col]);
    }
    assert(lower_triangle(width, a) =~= lower_triangle(width, b));
}

/// Cholesky factorization and triangular solves of dense matrices, stored column by column.
///
/// Only lower triangles are read, of the matrices to be factored as well as of their factors.
pub trait Triangular<R>: Sync {
    spec fn cholesky_spec(&self, width: usize, lower: Seq<Seq<R>>) -> Option<Seq<R>>;

    spec fn lower_spec(&self, width: usize, factor: Seq<Seq<R>>, rhs: Seq<R>, cols: usize) -> Seq<
        R,
    >;

    spec fn upper_spec(&self, width: usize, factor: Seq<Seq<R>>, rhs: Seq<R>, cols: usize) -> Seq<
        R,
    >;

    /// The lower Cholesky factor of a symmetric matrix, given by its lower triangle; none
    /// if the matrix is not positive definite.
    fn cholesky(&self, width: usize, matrix: &[R]) -> (factor: Option<Vec<R>>)
        requires
            matrix@.len() == width * width,
        ensures
            match factor {
                Some(values) => self.cholesky_spec(
                    width,
                    lower_triangle(width as nat, matrix@),
                ) == Some(values@),
                None => self.cholesky_spec(width, lower_triangle(width as nat, matrix@)) is None,
            },
    ;

    /// Solve `L x = b` for a lower triangular `L` and some columns `b`.
    fn solve_lower(&self, width: usize, factor: &[R], rhs: &[R], cols: usize) -> (x: Vec<R>)
        requires
            factor@.len() == width * width,
        ensures
            x@ == self.lower_spec(width, lower_triangle(width as nat, factor@), rhs@, cols),
    ;

    /// Solve `transpose(L) x = b` for a lower triangular `L` and some columns `b`.
    fn solve_upper(&self, width: usize, factor: &[R], rhs: &[R], cols: usize) -> (x: Vec<R>)
        requires
            factor@.len() == width * width,
        ensures
            x@ == self.upper_spec(width, lower_triangle(width as nat, factor@), rhs@, cols),
    ;
}

/// A linear map given by its action on vectors.
pub trait Operator<R>: Sync {
    spec fn wf(&self) -> bool;

    spec fn rows(&self) -> nat;

    spec fn cols(&self) -> nat;

    spec fn product(&self, x: Seq<R>) -> Seq<R>;

    /// The product with a vector.
    fn apply(&self, x: &[R]) -> (y: Vec<R>)
        requires
            self.wf(),
            x@.len() == self.cols(),
        ensures
            y@ == self.product(x@),
            y@.len() == self.rows(),
    ;
}

/// A linear map whose transpose can be applied as well.
pub trait TwoSided<R>: Operator<R> {
    spec fn transposed(&self, y: Seq<R>) -> Seq<R>;

    /// The product of the transpose with a vector.
    fn transpose_apply(&self, y: &[R]) -> (x: Vec<R>)
        requires
            self.wf(),
            y@.len() == self.rows(),
        ensures
            x@ == self.transposed(y@),
            x@.len() == self.cols(),
    ;
}

/// How conjugate gradients ended.
#[derive(Debug, Clone, Copy)]
pub enum DescentEnd<R> {
    /// The relative residual met the tolerance.
    Converged(R),
    /// The iterations were used up.
    Exhausted,
    /// The system turned out not to be positive definite.
    Broken,
}

/// What conjugate gradients return.
pub struct Descent<R> {
    pub step: Vec<R>,
    pub iterations: usize,
    pub end: DescentEnd<R>,
}

/// The mathematical content of a [`Descent`].
#[verifier::ext_equal]
pub struct DescentView<R> {
    pub step: Seq<R>,
    pub iterations: usize,
    pub end: DescentEnd<R>,
}

impl<R> View for Descent<R> {
    type V = DescentView<R>;

    open spec fn view(&self) -> DescentView<R> {
        DescentView { step: self.step@, iterations: self.iterations, end: self.end }
    }
}

/// Nanoseconds that an iterative method spent in the maps it was given.
#[derive(Debug, Clone, Copy)]
pub struct IterationTimes {
    pub forward: u64,
    pub transpose: u64,
    pub preconditioner: u64,
}

/// Preconditioned conjugate gradients.
pub trait ConjugateGradient<R> {
    spec fn descent_spec(
        &self,
        product: Action<R>,
        preconditioned: Action<R>,
        rhs: Seq<R>,
        tolerance: R,
        max_iterations: usize,
    ) -> DescentView<R>;

    /// Solve `A x = b` from zero for a positive definite map, until the residual is small
    /// relative to `b`. How long it takes is up to the machine.
    fn descend<A: Operator<R>, P: Operator<R>>(
        &self,
        operator: &A,
        preconditioner: &P,
        rhs: &[R],
        tolerance: R,
        max_iterations: usize,
    ) -> (descent: (Descent<R>, IterationTimes))
        requires
            operator.wf(),
            preconditioner.wf(),
            operator.rows() == rhs@.len(),
            operator.cols() == rhs@.len(),
            preconditioner.rows() == rhs@.len(),
            preconditioner.cols() == rhs@.len(),
        ensures
            descent.0@ == self.descent_spec(
                |x: Seq<R>| operator.product(x),
                |x: Seq<R>| preconditioner.product(x),
                rhs@,
                tolerance,
                max_iterations,
            ),
    ;
}

/// What an iterative least-squares method returns: a step, and its estimate of the residual
/// of the normal equations.
pub struct Regression<R> {
    pub step: Vec<R>,
    pub iterations: usize,
    pub absolute: R,
    pub relative: R,
    pub converged: bool,
}

/// The mathematical content of a [`Regression`].
#[verifier::ext_equal]
pub struct RegressionView<R> {
    pub step: Seq<R>,
    pub iterations: usize,
    pub absolute: R,
    pub relative: R,
    pub converged: bool,
}

impl<R> View for Regression<R> {
    type V = RegressionView<R>;

    open spec fn view(&self) -> RegressionView<R> {
        RegressionView {
            step: self.step@,
            iterations: self.iterations,
            absolute: self.absolute,
            relative: self.relative,
            converged: self.converged,
        }
    }
}

/// The LSMR method for sparse least squares.
pub trait Bidiagonalization<R> {
    spec fn regression_spec(
        &self,
        rows: nat,
        cols: nat,
        product: Action<R>,
        transposed: Action<R>,
        preconditioned: Action<R>,
        preconditioned_transpose: Action<R>,
        rhs: Seq<R>,
        tolerance: R,
        max_iterations: usize,
    ) -> RegressionView<R>;

    /// Minimize `|A P y - b|` from zero, and return `x = P y`. How long it takes is up to the
    /// machine.
    fn regress<A: TwoSided<R>, P: TwoSided<R>>(
        &self,
        rows: usize,
        cols: usize,
        operator: &A,
        preconditioner: &P,
        rhs: &[R],
        tolerance: R,
        max_iterations: usize,
    ) -> (regression: (Regression<R>, IterationTimes))
        requires
            operator.wf(),
            preconditioner.wf(),
            operator.rows() == rows,
            operator.cols() == cols,
            rhs@.len() == rows,
            preconditioner.rows() == cols,
            preconditioner.cols() == cols,
        ensures
            regression.0@ == self.regression_spec(
                rows as nat,
                cols as nat,
                |x: Seq<R>| operator.product(x),
                |y: Seq<R>| operator.transposed(y),
                |x: Seq<R>| preconditioner.product(x),
                |x: Seq<R>| preconditioner.transposed(x),
                rhs@,
                tolerance,
                max_iterations,
            ),
    ;
}

/// A clock that counts nanoseconds from some point in the past.
pub trait Clock {
    fn now(&self) -> u64;
}

/// A total extended by the time from one reading of a clock to a later one. Clocks that run
/// backwards add nothing, and totals stop at the largest number.
pub open spec fn prolonged_spec(total: u64, start: u64, now: u64) -> u64 {
    let elapsed = if now < start {
        0
    } else {
        now - start
    };
    if total + elapsed > u64::MAX {
        u64::MAX
    } else {
        (total + elapsed) as u64
    }
}

/// A total extended by the time from one reading of a clock to a later one.
pub fn prolonged(total: u64, start: u64, now: u64) -> (time: u64)
    ensures
        time == prolonged_spec(total, start, now),
{
    total.saturating_add(now.saturating_sub(start))
}

/// A total that is extended by the time since some moment, whatever the clock shows now; it
/// stays as it is where no moment was taken.
pub open spec fn charges(total: u64, start: Option<u64>, time: u64) -> bool {
    match start {
        None => time == total,
        Some(start) => exists|now: u64| time == #[trigger] prolonged_spec(total, start, now),
    }
}

/// A total after a step that it times, whatever the clock showed before and after; it stays as
/// it is unless timings are collected.
pub open spec fn clocked(collected: bool, total: u64, time: u64) -> bool {
    exists|start: Option<u64>|
        (start is Some <==> collected) && #[trigger] charges(total, start, time)
}

/// A total extended by the time that an iterative method reports, where timings are collected.
pub fn credited(collected: bool, total: u64, by: u64) -> (time: u64)
    ensures
        clocked(collected, total, time),
{
    if collected {
        let time: u64 = prolonged(total, 0, by);
        proof {
            let start = Some(0u64);
            assert(time == prolonged_spec(total, start->0, by));
            assert(charges(total, start, time));
        }
        time
    } else {
        assert(charges(total, None, total));
        total
    }
}

/// A timed total never shrinks, and grows only where timings are collected.
pub proof fn lemma_clocked(collected: bool, total: u64, time: u64)
    requires
        clocked(collected, total, time),
    ensures
        total <= time,
        !collected ==> time == total,
{
}

} // verus!
