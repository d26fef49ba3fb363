//! Least squares by an iterative method that needs products with the Jacobian only.
use crate::backend::{
    all_finite, finite_values, norm_inf, norm_inf_spec, DampedLeastSquaresBackend, DampedStep,
    LeastSquaresBackend,
};
use crate::block_factors::{BlockFactors, GramView, VariableBlock};
use crate::error::{EvaluationError, SolverError};
use crate::kernels::{
    charges, clocked, credited, prolonged, Bidiagonalization, Clock, IterationTimes, Operator,
    RegressionView, Triangular, TwoSided,
};
use crate::linear_model::{
    col_product, hypot_sum, norm_l2, relative, relative_spec, resize_zero, row_product, scaled,
    Jacobian, LinearView, LinearizedModel, StepWorkspace,
};
use crate::linearization::{BlockView, JacobianBlock};
use crate::normal::copied;
use crate::scalar::Real;
use crate::schur::usable_damping;
use vstd::prelude::*;
use vstd::slice::slice_subrange;

verus! {

impl<R: Real> Operator<R> for Jacobian<R> {
    open spec fn wf(&self) -> bool {
        Jacobian::wf(self)
    }

    open spec fn rows(&self) -> nat {
        self.rows as nat
    }

    open spec fn cols(&self) -> nat {
        self.cols as nat
    }

    open spec fn product(&self, x: Seq<R>) -> Seq<R> {
        Seq::new(
            self.rows as nat,
            |i: int| row_product(self.blocks@, self.values@, x, i, self.blocks@.len() as int),
        )
    }

    fn apply(&self, x: &[R]) -> (y: Vec<R>) {
        let mut y: Vec<R> = Vec::new();
        resize_zero(&mut y, self.rows);
        Jacobian::apply(self, &mut y, x);
        y
    }
}

impl<R: Real> TwoSided<R> for Jacobian<R> {
    open spec fn transposed(&self, y: Seq<R>) -> Seq<R> {
        Seq::new(
            self.cols as nat,
            |j: int| col_product(self.blocks@, self.values@, y, j, self.blocks@.len() as int),
        )
    }

    fn transpose_apply(&self, y: &[R]) -> (x: Vec<R>) {
        let mut x: Vec<R> = Vec::new();
        resize_zero(&mut x, self.cols);
        Jacobian::transpose_apply(self, &mut x, y);
        x
    }
}

/// A Jacobian in normalized coordinates, where there are scales, with a diagonal below it.
pub struct Damped<'a, R> {
    pub jacobian: &'a Jacobian<R>,
    pub diagonal: &'a Vec<R>,
    pub scales: Option<&'a Vec<R>>,
}

/// Values divided by scales, where there are any.
pub open spec fn normalized<R: Real>(values: Seq<R>, scales: Option<Seq<R>>) -> Seq<R> {
    match scales {
        None => values,
        Some(scales) => Seq::new(values.len(), |j: int| values[j].over_spec(scales[j])),
    }
}

/// Divide values by scales, where there are any.
fn normalize<R: Real>(values: &[R], scales: Option<&Vec<R>>) -> (result: Vec<R>)
    requires
        scales matches Some(scales) ==> scales@.len() == values@.len(),
    ensures
        result@ == normalized(values@, viewed(scales)),
{
    match scales {
        None => copied(values),
        Some(scales) => {
            let mut result: Vec<R> = Vec::new();
            let mut j: usize = 0;
            while j < values.len()
                invariant
                    scales@.len() == values@.len(),
                    j <= values@.len(),
                    result@ == Seq::new(j as nat, |i: int| values@[i].over_spec(scales@[i])),
                decreases values@.len() - j,
            {
                result.push(values[j].over(scales[j]));
                j += 1;
                assert(result@ =~= Seq::new(
                    j as nat,
                    |i: int| values@[i].over_spec(scales@[i]),
                ));
            }
            result
        },
    }
}

/// Optional values by their view.
pub open spec fn viewed<R>(values: Option<&Vec<R>>) -> Option<Seq<R>> {
    match values {
        Some(values) => Some(values@),
        None => None,
    }
}

impl<'a, R: Real> Operator<R> for Damped<'a, R> {
    open spec fn wf(&self) -> bool {
        &&& Jacobian::wf(self.jacobian)
        &&& self.diagonal@.len() == self.jacobian.cols
        &&& self.scales matches Some(scales) ==> scales@.len() == self.jacobian.cols
    }

    open spec fn rows(&self) -> nat {
        (self.jacobian.rows + self.jacobian.cols) as nat
    }

    open spec fn cols(&self) -> nat {
        self.jacobian.cols as nat
    }

    open spec fn product(&self, x: Seq<R>) -> Seq<R> {
        damped_product(
            |z: Seq<R>| Operator::product(self.jacobian, z),
            self.diagonal@,
            viewed(self.scales),
            x,
        )
    }

    fn apply(&self, x: &[R]) -> (y: Vec<R>) {
        let scaled_x = normalize(x, self.scales);
        let mut y = Operator::apply(self.jacobian, scaled_x.as_slice());
        let ghost top = y@;
        let n: usize = self.jacobian.cols;
        let mut j: usize = 0;
        while j < n
            invariant
                self.diagonal@.len() == n,
                x@.len() == n,
                j <= n,
                y@ == top + Seq::new(j as nat, |i: int| self.diagonal@[i].times_spec(x@[i])),
            decreases n - j,
        {
            y.push(self.diagonal[j].times(x[j]));
            j += 1;
            assert(y@ =~= top + Seq::new(
                j as nat,
                |i: int| self.diagonal@[i].times_spec(x@[i]),
            ));
        }
        y
    }
}

/// The product with a normalized Jacobian and a diagonal below it.
pub open spec fn damped_product<R: Real>(
    jacobian: spec_fn(Seq<R>) -> Seq<R>,
    diagonal: Seq<R>,
    scales: Option<Seq<R>>,
    x: Seq<R>,
) -> Seq<R> {
    jacobian(normalized(x, scales)) + Seq::new(
        diagonal.len(),
        |j: int| diagonal[j].times_spec(x[j]),
    )
}

/// The product of the transpose of the same with values of `rows` rows and the diagonal ones.
pub open spec fn damped_transpose<R: Real>(
    transposed: spec_fn(Seq<R>) -> Seq<R>,
    diagonal: Seq<R>,
    scales: Option<Seq<R>>,
    rows: nat,
    y: Seq<R>,
) -> Seq<R> {
    let above = normalized(transposed(y.take(rows as int)), scales);
    Seq::new(
        diagonal.len(),
        |j: int| above[j].plus_spec(diagonal[j].times_spec(y[rows + j])),
    )
}

impl<'a, R: Real> TwoSided<R> for Damped<'a, R> {
    open spec fn transposed(&self, y: Seq<R>) -> Seq<R> {
        damped_transpose(
            |z: Seq<R>| TwoSided::transposed(self.jacobian, z),
            self.diagonal@,
            viewed(self.scales),
            self.jacobian.rows as nat,
            y,
        )
    }

    fn transpose_apply(&self, y: &[R]) -> (x: Vec<R>) {
        let rows: usize = self.jacobian.rows;
        let n: usize = self.jacobian.cols;
        assert(y@.len() == y.len());
        let top = slice_subrange(y, 0, rows);
        assert(top@ =~= y@.take(rows as int));
        let plain = TwoSided::transpose_apply(self.jacobian, top);
        let above = normalize(plain.as_slice(), self.scales);
        let mut x: Vec<R> = Vec::new();
        let mut j: usize = 0;
        while j < n
            invariant
                self.diagonal@.len() == n,
                above@.len() == n,
                y@.len() == rows + n,
                y@.len() <= usize::MAX,
                j <= n,
                x@ == Seq::new(
                    j as nat,
                    |i: int| above@[i].plus_spec(self.diagonal@[i].times_spec(y@[rows + i])),
                ),
            decreases n - j,
        {
            x.push(above[j].plus(self.diagonal[j].times(y[rows + j])));
            j += 1;
            assert(x@ =~= Seq::new(
                j as nat,
                |i: int| above@[i].plus_spec(self.diagonal@[i].times_spec(y@[rows + i])),
            ));
        }
        x
    }
}

/// The factors of variable blocks as a preconditioner, or the identity.
pub struct FactorPreconditioner<'a, R, K> {
    pub dimension: usize,
    pub factors: Option<&'a BlockFactors<R>>,
    pub kernel: &'a K,
}

/// Values transformed by block factors, where there are any.
pub open spec fn conditioned<R: Real, K: Triangular<R>>(
    factors: Option<BlockFactors<R>>,
    kernel: K,
    values: Seq<R>,
    transpose: bool,
) -> Seq<R> {
    match factors {
        None => values,
        Some(factors) => factors.transformed(
            kernel,
            values,
            transpose,
            factors.blocks@.len() as int,
        ),
    }
}

impl<'a, R: Real, K: Triangular<R>> FactorPreconditioner<'a, R, K> {
    /// The factors by value.
    pub open spec fn held(&self) -> Option<BlockFactors<R>> {
        match self.factors {
            Some(factors) => Some(*factors),
            None => None,
        }
    }

    fn transform(&self, values: &[R], transpose: bool) -> (result: Vec<R>)
        requires
            self.wf(),
            values@.len() == self.dimension,
        ensures
            result@ == conditioned(self.held(), *self.kernel, values@, transpose),
            result@.len() == values@.len(),
    {
        let mut result = copied(values);
        match self.factors {
            None => {},
            Some(factors) => {
                factors.apply_factor_inverse(self.kernel, &mut result, transpose);
            },
        }
        result
    }
}

impl<'a, R: Real, K: Triangular<R>> Operator<R> for FactorPreconditioner<'a, R, K> {
    open spec fn wf(&self) -> bool {
        self.factors matches Some(factors) ==> factors.wf() && factors.owners@.len()
            == self.dimension
    }

    open spec fn rows(&self) -> nat {
        self.dimension as nat
    }

    open spec fn cols(&self) -> nat {
        self.dimension as nat
    }

    open spec fn product(&self, x: Seq<R>) -> Seq<R> {
        conditioned(self.held(), *self.kernel, x, false)
    }

    fn apply(&self, x: &[R]) -> (y: Vec<R>) {
        self.transform(x, false)
    }
}

impl<'a, R: Real, K: Triangular<R>> TwoSided<R> for FactorPreconditioner<'a, R, K> {
    open spec fn transposed(&self, y: Seq<R>) -> Seq<R> {
        conditioned(self.held(), *self.kernel, y, true)
    }

    fn transpose_apply(&self, y: &[R]) -> (x: Vec<R>) {
        self.transform(y, true)
    }
}

/// Coordinates in which damped systems are solved.
#[derive(Debug, Clone, Copy, PartialEq, Eq, Structural)]
pub enum Preconditioning {
    Identity,
    Diagonal,
    BlockJacobi,
}

/// Work done since the backend was last prepared; the counters wrap around.
#[derive(Debug, Clone, Copy, PartialEq, Eq, Structural)]
pub struct LsmrStatistics {
    /// Attempts to solve a nonempty system, including failures.
    pub solves: usize,
    /// Iterations, including those of failures.
    pub iterations: usize,
}

/// Nanoseconds spent in damped solves since the backend was last prepared, where they are
/// collected.
///
/// Products and preconditioning are parts of the linear solve.
#[derive(Debug, Clone, Copy, PartialEq, Eq, Structural)]
pub struct LsmrTimings {
    /// Column lengths and Gram matrices.
    pub preparation: u64,
    /// Factorizations of the blocks.
    pub factorization: u64,
    /// Iterative solves.
    pub linear_solve: u64,
    /// Products with the damped Jacobian.
    pub forward: u64,
    /// Products with its transpose.
    pub transpose: u64,
    /// Uses of the preconditioner.
    pub preconditioner: u64,
    /// Recovered steps and their residuals.
    pub residual_checks: u64,
}

/// How the last linear solve ended.
#[derive(Debug, Clone, Copy, PartialEq, Eq, Structural)]
pub enum LsmrTermination {
    /// The relative residual met the tolerance.
    Converged,
    /// The iterations were used up.
    IterationLimit,
    /// A step or a residual is not finite.
    NonFinite,
}

/// Diagnostics of the last attempt to solve. Residuals are those of the normal equations.
#[derive(Debug, Clone, Copy)]
pub struct LsmrDiagnostics<R> {
    /// None before an attempt, or if its controls are invalid.
    pub termination: Option<LsmrTermination>,
    /// Iterations of this attempt.
    pub iterations: usize,
    /// Whether the step in original coordinates is finite.
    pub finite_step: bool,
    /// The iteration's own estimate of the residual, in its coordinates.
    pub estimated_absolute_residual: Option<R>,
    /// That estimate relative to the initial residual.
    pub estimated_relative_residual: Option<R>,
    /// The residual in original coordinates, computed afresh.
    pub original_absolute_residual: Option<R>,
    /// That residual relative to the gradient.
    pub original_relative_residual: Option<R>,
    /// The residual in the coordinates of the solve, computed afresh.
    pub scaled_absolute_residual: Option<R>,
    /// That residual relative to the initial one.
    pub scaled_relative_residual: Option<R>,
    /// Smallest column length, with its floor.
    pub min_scale: Option<R>,
    /// Largest column length, with its floor.
    pub max_scale: Option<R>,
    /// Damping of this attempt; none for an undamped one.
    pub damping: Option<R>,
    /// Blocks that fell back to diagonal scaling.
    pub block_fallbacks: usize,
}

impl LsmrStatistics {
    pub open spec fn blank_spec() -> Self {
        LsmrStatistics { solves: 0, iterations: 0 }
    }

    fn blank() -> (statistics: Self)
        ensures
            statistics == Self::blank_spec(),
    {
        LsmrStatistics { solves: 0, iterations: 0 }
    }
}

impl LsmrTimings {
    pub open spec fn blank_spec() -> Self {
        LsmrTimings {
            preparation: 0,
            factorization: 0,
            linear_solve: 0,
            forward: 0,
            transpose: 0,
            preconditioner: 0,
            residual_checks: 0,
        }
    }

    /// Totals after preparing damping: only that is timed.
    pub open spec fn prepared(self, after: Self, collected: bool) -> bool {
        &&& clocked(collected, self.preparation, after.preparation)
        &&& after == (LsmrTimings { preparation: after.preparation, ..self })
    }

    /// Totals after factoring: only that is timed.
    pub open spec fn factored(self, after: Self, collected: bool) -> bool {
        &&& clocked(collected, self.factorization, after.factorization)
        &&& after == (LsmrTimings { factorization: after.factorization, ..self })
    }

    /// Totals after an iterative solve: it is timed as a whole, and by the maps it applies.
    pub open spec fn solved(self, after: Self, collected: bool) -> bool {
        &&& clocked(collected, self.linear_solve, after.linear_solve)
        &&& clocked(collected, self.forward, after.forward)
        &&& clocked(collected, self.transpose, after.transpose)
        &&& clocked(collected, self.preconditioner, after.preconditioner)
        &&& after == (LsmrTimings {
            linear_solve: after.linear_solve,
            forward: after.forward,
            transpose: after.transpose,
            preconditioner: after.preconditioner,
            ..self
        })
    }

    /// Totals after checking a step: only that is timed.
    pub open spec fn checked(self, after: Self, collected: bool) -> bool {
        &&& clocked(collected, self.residual_checks, after.residual_checks)
        &&& after == (LsmrTimings { residual_checks: after.residual_checks, ..self })
    }

    /// Totals after a whole attempt, which factors, solves and checks once each. The time spent
    /// on preparation stays.
    pub open spec fn attempted(self, after: Self, collected: bool) -> bool {
        exists|first: Self, second: Self|
            {
                &&& #[trigger] self.factored(first, collected)
                &&& #[trigger] first.solved(second, collected)
                &&& second.checked(after, collected)
            }
    }

    fn blank() -> (timings: Self)
        ensures
            timings == Self::blank_spec(),
    {
        LsmrTimings {
            preparation: 0,
            factorization: 0,
            linear_solve: 0,
            forward: 0,
            transpose: 0,
            preconditioner: 0,
            residual_checks: 0,
        }
    }
}

impl<R: Real> LsmrDiagnostics<R> {
    pub open spec fn blank_spec() -> Self {
        LsmrDiagnostics {
            termination: None,
            iterations: 0,
            finite_step: false,
            estimated_absolute_residual: None,
            estimated_relative_residual: None,
            original_absolute_residual: None,
            original_relative_residual: None,
            scaled_absolute_residual: None,
            scaled_relative_residual: None,
            min_scale: None,
            max_scale: None,
            damping: None,
            block_fallbacks: 0,
        }
    }

    fn blank() -> (diagnostics: Self)
        ensures
            diagnostics == Self::blank_spec(),
    {
        LsmrDiagnostics {
            termination: None,
            iterations: 0,
            finite_step: false,
            estimated_absolute_residual: None,
            estimated_relative_residual: None,
            original_absolute_residual: None,
            original_relative_residual: None,
            scaled_absolute_residual: None,
            scaled_relative_residual: None,
            min_scale: None,
            max_scale: None,
            damping: None,
            block_fallbacks: 0,
        }
    }
}

/// The step of an iterative solve; one of the wrong length counts as none.
pub open spec fn solved_step<R: Real>(cols: nat, regression: RegressionView<R>) -> Seq<R> {
    if regression.step.len() == cols {
        regression.step
    } else {
        Seq::new(cols, |i: int| R::zero_spec())
    }
}

/// Whether the step of an iterative solve is finite.
pub open spec fn solved_finite<R: Real>(cols: nat, regression: RegressionView<R>) -> bool {
    regression.step.len() == cols && all_finite(regression.step)
}

/// How an iterative solve ended.
pub open spec fn solved_end<R: Real>(cols: nat, regression: RegressionView<R>) -> LsmrTermination {
    if !solved_finite(cols, regression) || !regression.absolute.finite_spec()
        || !regression.relative.finite_spec() {
        LsmrTermination::NonFinite
    } else if regression.converged {
        LsmrTermination::Converged
    } else {
        LsmrTermination::IterationLimit
    }
}

/// What an iterative solve leaves behind.
pub struct Solved<R> {
    pub step: Seq<R>,
    pub statistics: LsmrStatistics,
    pub diagnostics: LsmrDiagnostics<R>,
    pub outcome: Result<(), SolverError>,
}

/// What comes of an iterative solve. An empty system needs none: its step is zero.
pub open spec fn solve_spec<R: Real>(
    rows: nat,
    cols: nat,
    regression: RegressionView<R>,
    statistics: LsmrStatistics,
    diagnostics: LsmrDiagnostics<R>,
) -> Solved<R> {
    if rows == 0 || cols == 0 {
        Solved {
            step: Seq::new(cols, |i: int| R::zero_spec()),
            statistics,
            diagnostics: LsmrDiagnostics {
                termination: Some(LsmrTermination::Converged),
                finite_step: true,
                ..diagnostics
            },
            outcome: Ok(()),
        }
    } else {
        Solved {
            step: solved_step(cols, regression),
            statistics: LsmrStatistics {
                solves: statistics.solves.wrapping_add(1),
                iterations: statistics.iterations.wrapping_add(regression.iterations),
            },
            diagnostics: LsmrDiagnostics {
                termination: Some(solved_end(cols, regression)),
                iterations: regression.iterations,
                finite_step: solved_finite(cols, regression),
                estimated_absolute_residual: Some(regression.absolute),
                estimated_relative_residual: Some(regression.relative),
                ..diagnostics
            },
            outcome: if solved_end(cols, regression) == LsmrTermination::Converged {
                Ok(())
            } else {
                Err(SolverError::LinearSolveFailed)
            },
        }
    }
}

/// Solve a system iteratively and judge the result.
fn solve<R: Real, K: Bidiagonalization<R>, A: TwoSided<R>, P: TwoSided<R>>(
    kernel: &K,
    rows: usize,
    cols: usize,
    operator: &A,
    preconditioner: &P,
    rhs: &[R],
    tolerance: R,
    max_iterations: usize,
    step: &mut Vec<R>,
    statistics: &mut LsmrStatistics,
    diagnostics: &mut LsmrDiagnostics<R>,
) -> (result: (Result<(), SolverError>, IterationTimes))
    requires
        operator.wf(),
        preconditioner.wf(),
        operator.rows() == rows,
        operator.cols() == cols,
        rhs@.len() == rows,
        preconditioner.rows() == cols,
        preconditioner.cols() == cols,
    ensures
        ({
            let solved = solve_spec(
                rows as nat,
                cols as nat,
                kernel.regression_spec(
                    rows as nat,
                    cols as nat,
                    |x: Seq<R>| operator.product(x),
                    |y: Seq<R>| operator.transposed(y),
                    |x: Seq<R>| preconditioner.product(x),
                    |x: Seq<R>| preconditioner.transposed(x),
                    rhs@,
                    tolerance,
                    max_iterations,
                ),
                *old(statistics),
                *old(diagnostics),
            );
            &&& final(step)@ == solved.step
            &&& final(step)@.len() == cols
            &&& *final(statistics) == solved.statistics
            &&& *final(diagnostics) == solved.diagnostics
            &&& result.0 == solved.outcome
        }),
{
    let mut zeros: Vec<R> = Vec::new();
    resize_zero(&mut zeros, cols);
    assert(zeros@ =~= Seq::new(cols as nat, |i: int| R::zero_spec()));
    if rows == 0 || cols == 0 {
        *step = zeros;
        diagnostics.termination = Some(LsmrTermination::Converged);
        diagnostics.finite_step = true;
        return (Ok(()), IterationTimes { forward: 0, transpose: 0, preconditioner: 0 });
    }
    let (regression, times) = kernel.regress(
        rows,
        cols,
        operator,
        preconditioner,
        rhs,
        tolerance,
        max_iterations,
    );
    statistics.solves = statistics.solves.wrapping_add(1);
    statistics.iterations = statistics.iterations.wrapping_add(regression.iterations);
    diagnostics.iterations = regression.iterations;
    diagnostics.estimated_absolute_residual = Some(regression.absolute);
    diagnostics.estimated_relative_residual = Some(regression.relative);
    let finite = regression.step.len() == cols && finite_values(regression.step.as_slice());
    diagnostics.finite_step = finite;
    let end = if !finite || !regression.absolute.is_finite() || !regression.relative.is_finite() {
        LsmrTermination::NonFinite
    } else if regression.converged {
        LsmrTermination::Converged
    } else {
        LsmrTermination::IterationLimit
    };
    diagnostics.termination = Some(end);
    *step = if regression.step.len() == cols {
        regression.step
    } else {
        zeros
    };
    if end == LsmrTermination::Converged {
        (Ok(()), times)
    } else {
        (Err(SolverError::LinearSolveFailed), times)
    }
}

/// The smallest of the first `n` values, if there are any.
pub open spec fn smallest<R: Real>(values: Seq<R>, n: int) -> Option<R>
    decreases n,
{
    if n <= 0 {
        None
    } else {
        match smallest(values, n - 1) {
            None => Some(values[n - 1]),
            Some(least) => Some(least.min_spec(values[n - 1])),
        }
    }
}

/// The largest of the first `n` values, if there are any.
pub open spec fn largest<R: Real>(values: Seq<R>, n: int) -> Option<R>
    decreases n,
{
    if n <= 0 {
        None
    } else {
        match largest(values, n - 1) {
            None => Some(values[n - 1]),
            Some(most) => Some(most.max_spec(values[n - 1])),
        }
    }
}

/// The smallest and the largest value, if there are any.
fn extremes<R: Real>(values: &[R]) -> (found: (Option<R>, Option<R>))
    ensures
        found.0 == smallest(values@, values@.len() as int),
        found.1 == largest(values@, values@.len() as int),
{
    let mut least: Option<R> = None;
    let mut most: Option<R> = None;
    let mut i: usize = 0;
    while i < values.len()
        invariant
            i <= values@.len(),
            least == smallest(values@, i as int),
            most == largest(values@, i as int),
        decreases values@.len() - i,
    {
        let value = values[i];
        least = match least {
            None => Some(value),
            Some(least) => Some(least.min(value)),
        };
        most = match most {
            None => Some(value),
            Some(most) => Some(most.max(value)),
        };
        i += 1;
    }
    (least, most)
}

/// Everything that one damped attempt works with.
pub struct Augmented<R, K> {
    pub linear: LinearView<R>,
    pub scales: Seq<R>,
    pub blocks: BlockFactors<R>,
    pub mode: Preconditioning,
    pub kernel: K,
}

/// What a damped attempt comes to.
pub struct Attempt<R> {
    pub statistics: LsmrStatistics,
    pub diagnostics: LsmrDiagnostics<R>,
    pub step: Seq<R>,
    pub outcome: Result<R, SolverError>,
}

impl<R: Real, K: Triangular<R> + Bidiagonalization<R>> Augmented<R, K> {
    /// The scales, where coordinates are normalized.
    pub open spec fn scaling(self) -> Option<Seq<R>> {
        if self.mode == Preconditioning::Identity {
            None
        } else {
            Some(self.scales)
        }
    }

    /// The block factors, where they precondition.
    pub open spec fn factors(self) -> Option<BlockFactors<R>> {
        if self.mode == Preconditioning::BlockJacobi {
            Some(self.blocks)
        } else {
            None
        }
    }

    /// The diagonal below the Jacobian.
    pub open spec fn diagonal(self, lambda: R) -> Seq<R> {
        Seq::new(
            self.linear.cols,
            |j: int|
                if self.mode == Preconditioning::Identity {
                    lambda.sqrt_spec().times_spec(self.scales[j])
                } else {
                    lambda.sqrt_spec()
                },
        )
    }

    /// The iterative solve of the damped system.
    pub open spec fn regression(self, lambda: R, tolerance: R, max_iterations: usize)
        -> RegressionView<R> {
        self.kernel.regression_spec(
            self.linear.rows + self.linear.cols,
            self.linear.cols,
            |x: Seq<R>|
                damped_product(
                    |z: Seq<R>| self.linear.product(z),
                    self.diagonal(lambda),
                    self.scaling(),
                    x,
                ),
            |y: Seq<R>|
                damped_transpose(
                    |z: Seq<R>| self.linear.transposed(z),
                    self.diagonal(lambda),
                    self.scaling(),
                    self.linear.rows,
                    y,
                ),
            |x: Seq<R>| conditioned(self.factors(), self.kernel, x, false),
            |x: Seq<R>| conditioned(self.factors(), self.kernel, x, true),
            self.linear.negative_residual + Seq::new(self.linear.cols, |j: int| R::zero_spec()),
            tolerance,
            max_iterations,
        )
    }

    /// A residual of the normal equations in the coordinates of the solve.
    pub open spec fn conditioned_residual(self, values: Seq<R>) -> Seq<R> {
        conditioned(
            self.factors(),
            self.kernel,
            match self.scaling() {
                None => values,
                Some(scales) => scaled(values, self.linear.cols, scales),
            },
            true,
        )
    }

    /// What comes of an iterative solve: the step is returned only if it and its residuals
    /// are finite and the solve converged.
    pub open spec fn concluded(self, lambda: R, solved: Solved<R>) -> Attempt<R> {
        let step = normalized(solved.step, self.scaling());
        let residual = self.linear.normal_residual(step, self.scales, lambda);
        let residual_norm = hypot_sum(residual, self.linear.cols as int);
        let reference_norm = hypot_sum(self.linear.gradient, self.linear.cols as int);
        let scaled_residual = self.conditioned_residual(residual);
        let scaled_reference = self.conditioned_residual(self.linear.gradient);
        let scaled_norm = hypot_sum(scaled_residual, scaled_residual.len() as int);
        let sound = all_finite(step) && residual_norm.finite_spec() && scaled_norm.finite_spec();
        Attempt {
            statistics: solved.statistics,
            diagnostics: LsmrDiagnostics {
                termination: if sound {
                    solved.diagnostics.termination
                } else {
                    Some(LsmrTermination::NonFinite)
                },
                finite_step: all_finite(step),
                original_absolute_residual: Some(residual_norm),
                original_relative_residual: Some(relative_spec(residual_norm, reference_norm)),
                scaled_absolute_residual: Some(scaled_norm),
                scaled_relative_residual: Some(
                    relative_spec(
                        scaled_norm,
                        hypot_sum(scaled_reference, scaled_reference.len() as int),
                    ),
                ),
                ..solved.diagnostics
            },
            step,
            outcome: if !sound {
                Err(SolverError::LinearSolveFailed)
            } else {
                match solved.outcome {
                    Err(error) => Err(error),
                    Ok(_) => Ok(self.linear.predicted(step)),
                }
            },
        }
    }
}

/// Least squares solved by LSMR over the blocks of a cached linearization.
///
/// Neither the Jacobian nor the normal matrix is assembled, and products never evaluate
/// factors anew. Undamped systems are solved as they are; damped ones in coordinates
/// normalized by the column lengths, or further by the factors of variable blocks.
pub struct Lsmr<R, K> {
    /// Iterations of a solve at most; must be positive.
    pub max_iterations: usize,
    /// Relative residual of the normal equations at which a solve stops; in `[0, 1)`.
    pub relative_tolerance: R,
    /// Normalize damped coordinates by the column lengths.
    pub diagonal_preconditioning: bool,
    /// Normalize damped coordinates by variable blocks, and by column lengths where a block
    /// fails.
    pub block_preconditioning: bool,
    /// Whether timings are collected.
    pub collect_timings: bool,
    pub model: LinearizedModel<R>,
    pub work: StepWorkspace<R>,
    pub augmented_rhs: Vec<R>,
    pub blocks: BlockFactors<R>,
    pub prepared_mode: Option<Preconditioning>,
    pub statistics: LsmrStatistics,
    pub diagnostics: LsmrDiagnostics<R>,
    pub timings: LsmrTimings,
    pub kernel: K,
}

impl<R: Real, K> Lsmr<R, K> {
    /// Default controls around a kernel.
    pub fn new(kernel: K) -> (lsmr: Self)
        ensures
            lsmr.max_iterations == 1000,
            lsmr.relative_tolerance == R::ratio_spec(1, 10_000_000_000).max_spec(
                R::epsilon_spec().times_spec(R::ratio_spec(128, 1)),
            ),
            lsmr.diagonal_preconditioning,
            !lsmr.block_preconditioning,
            !lsmr.collect_timings,
            lsmr.model.wf(),
            lsmr.model@ == LinearView::<R>::empty(0),
            lsmr.work.step@ == Seq::<R>::empty(),
            lsmr.prepared_mode is None,
            lsmr.statistics == LsmrStatistics::blank_spec(),
            lsmr.diagnostics == LsmrDiagnostics::<R>::blank_spec(),
            lsmr.timings == LsmrTimings::blank_spec(),
            lsmr.kernel == kernel,
    {
        Lsmr {
            max_iterations: 1000,
            relative_tolerance: R::ratio(1, 10_000_000_000).max(
                R::epsilon().times(R::ratio(128, 1)),
            ),
            diagonal_preconditioning: true,
            block_preconditioning: false,
            collect_timings: false,
            model: LinearizedModel::new(),
            work: StepWorkspace::new(),
            augmented_rhs: Vec::new(),
            blocks: BlockFactors::new(),
            prepared_mode: None,
            statistics: LsmrStatistics::blank(),
            diagnostics: LsmrDiagnostics::blank(),
            timings: LsmrTimings::blank(),
            kernel,
        }
    }

    /// Work done since the backend was last prepared.
    pub fn statistics(&self) -> (statistics: LsmrStatistics)
        ensures
            statistics == self.statistics,
    {
        self.statistics
    }

    /// Diagnostics of the last attempt, successful or not.
    pub fn diagnostics(&self) -> (diagnostics: LsmrDiagnostics<R>)
        ensures
            diagnostics == self.diagnostics,
    {
        self.diagnostics
    }

    /// Time spent in damped solves since the backend was last prepared.
    pub fn timings(&self) -> (timings: LsmrTimings)
        ensures
            timings == self.timings,
    {
        self.timings
    }

    /// The coordinates that the controls ask for; blocks imply diagonal scaling.
    pub open spec fn requested(&self) -> Preconditioning {
        if self.block_preconditioning {
            Preconditioning::BlockJacobi
        } else if self.diagonal_preconditioning {
            Preconditioning::Diagonal
        } else {
            Preconditioning::Identity
        }
    }

    fn requested_mode(&self) -> (mode: Preconditioning)
        ensures
            mode == self.requested(),
    {
        if self.block_preconditioning {
            Preconditioning::BlockJacobi
        } else if self.diagonal_preconditioning {
            Preconditioning::Diagonal
        } else {
            Preconditioning::Identity
        }
    }

    /// What a damped attempt works with.
    pub open spec fn system(&self, mode: Preconditioning) -> Augmented<R, K> {
        Augmented {
            linear: self.model@,
            scales: self.model.scales@,
            blocks: self.blocks,
            mode,
            kernel: self.kernel,
        }
    }

    /// The controls are those of another state of the backend.
    pub open spec fn same_controls(&self, other: &Self) -> bool {
        &&& self.max_iterations == other.max_iterations
        &&& self.relative_tolerance == other.relative_tolerance
        &&& self.diagonal_preconditioning == other.diagonal_preconditioning
        &&& self.block_preconditioning == other.block_preconditioning
        &&& self.collect_timings == other.collect_timings
        &&& self.kernel == other.kernel
    }

    /// A sound model, and once damping is prepared everything that an attempt needs.
    pub open spec fn valid(&self) -> bool {
        &&& self.model.wf()
        &&& self.work.step@.len() == self.model.jacobian.cols
        &&& self.prepared_mode matches Some(mode) ==> {
            &&& self.model.scales@.len() == self.model.jacobian.cols
            &&& self.work.product@.len() == self.model.jacobian.rows
            &&& self.work.normal_residual@.len() == self.model.jacobian.cols
            &&& self.work.reference@.len() == self.model.jacobian.cols
            &&& self.model.jacobian.rows + self.model.jacobian.cols <= usize::MAX
            &&& self.augmented_rhs@ == self.model.negative_residual@ + Seq::new(
                self.model.jacobian.cols as nat,
                |j: int| R::zero_spec(),
            )
            &&& mode == Preconditioning::BlockJacobi ==> self.blocks.wf()
                && self.blocks.owners@.len() == self.model.jacobian.cols
        }
    }
}

impl<R: Real, K: Clock> Lsmr<R, K> {
    /// The moment that the clock shows, where timings are collected.
    fn start(&self) -> (moment: Option<u64>)
        ensures
            moment is Some <==> self.collect_timings,
    {
        if self.collect_timings {
            Some(self.kernel.now())
        } else {
            None
        }
    }

    /// A total extended by the time since a moment, where one was taken. What the clock shows
    /// is up to the machine.
    fn charged(&self, total: u64, start: Option<u64>) -> (time: u64)
        ensures
            charges(total, start, time),
    {
        match start {
            Some(start) => prolonged(total, start, self.kernel.now()),
            None => total,
        }
    }
}

impl<R: Real, K: Triangular<R> + Bidiagonalization<R> + Clock> Lsmr<R, K> {
    /// Factor the variable blocks, where they precondition.
    fn factor_preconditioner(&mut self, lambda: R, mode: Preconditioning)
        requires
            old(self).valid(),
            old(self).prepared_mode == Some(mode),
        ensures
            final(self).valid(),
            final(self).prepared_mode == old(self).prepared_mode,
            final(self).same_controls(old(self)),
            final(self).model == old(self).model,
            final(self).augmented_rhs == old(self).augmented_rhs,
            final(self).statistics == old(self).statistics,
            old(self).timings.factored(final(self).timings, old(self).collect_timings),
            refactored(*old(self), *final(self), lambda, mode),
            final(self).diagnostics == (LsmrDiagnostics {
                block_fallbacks: final(self).diagnostics.block_fallbacks,
                ..old(self).diagnostics
            }),
            mode != Preconditioning::BlockJacobi ==> final(self).diagnostics == old(
                self,
            ).diagnostics,
            mode == Preconditioning::BlockJacobi ==> final(self).diagnostics.block_fallbacks
                == final(self).blocks.blocks@.filter(|block: VariableBlock| block.fallback).len(),
    {
        let start = self.start();
        if mode == Preconditioning::BlockJacobi {
            let failures: usize = self.blocks.factor(&self.kernel, lambda);
            self.diagnostics.block_fallbacks = failures;
        }
        let time: u64 = self.charged(self.timings.factorization, start);
        self.timings.factorization = time;
    }

    /// The diagonal below the Jacobian.
    fn diagonal(&self, lambda: R, mode: Preconditioning) -> (diagonal: Vec<R>)
        requires
            self.model.scales@.len() == self.model.jacobian.cols,
        ensures
            diagonal@ == self.system(mode).diagonal(lambda),
    {
        let root = lambda.sqrt();
        let mut diagonal: Vec<R> = Vec::new();
        while diagonal.len() < self.model.jacobian.cols
            invariant
                self.model.scales@.len() == self.model.jacobian.cols,
                root == lambda.sqrt_spec(),
                diagonal@.len() <= self.model.jacobian.cols,
                forall|j: int|
                    0 <= j < diagonal@.len() ==> #[trigger] diagonal@[j] == self.system(
                        mode,
                    ).diagonal(lambda)[j],
            decreases self.model.jacobian.cols - diagonal@.len(),
        {
            let j: usize = diagonal.len();
            diagonal.push(
                if mode == Preconditioning::Identity {
                    root.times(self.model.scales[j])
                } else {
                    root
                },
            );
        }
        assert(diagonal@ =~= self.system(mode).diagonal(lambda));
        diagonal
    }
}

/// The variable blocks of a backend factored under some damping, where they precondition.
pub open spec fn refactored<R: Real, K: Triangular<R>>(
    before: Lsmr<R, K>,
    after: Lsmr<R, K>,
    lambda: R,
    mode: Preconditioning,
) -> bool {
    if mode == Preconditioning::BlockJacobi {
        &&& after.blocks.same_blocks(&before.blocks)
        &&& after.blocks.factored(before.kernel, lambda, after.blocks.blocks@.len() as int)
    } else {
        after.blocks == before.blocks
    }
}

impl<R: Real, K: Triangular<R> + Bidiagonalization<R> + Clock> Lsmr<R, K> {
    /// Solve the damped system.
    fn solve_damped_system(&mut self, lambda: R, mode: Preconditioning, diagonal: &Vec<R>) -> (
        solved: Result<(), SolverError>)
        requires
            old(self).valid(),
            old(self).prepared_mode == Some(mode),
            diagonal@ == old(self).system(mode).diagonal(lambda),
        ensures
            final(self).valid(),
            final(self).prepared_mode == old(self).prepared_mode,
            final(self).same_controls(old(self)),
            final(self).model == old(self).model,
            final(self).blocks == old(self).blocks,
            final(self).augmented_rhs == old(self).augmented_rhs,
            old(self).timings.solved(final(self).timings, old(self).collect_timings),
            ({
                let outcome = solve_spec(
                    (old(self).model.jacobian.rows + old(self).model.jacobian.cols) as nat,
                    old(self).model.jacobian.cols as nat,
                    old(self).system(mode).regression(
                        lambda,
                        old(self).relative_tolerance,
                        old(self).max_iterations,
                    ),
                    old(self).statistics,
                    old(self).diagnostics,
                );
                &&& final(self).work.step@ == outcome.step
                &&& final(self).statistics == outcome.statistics
                &&& final(self).diagnostics == outcome.diagnostics
                &&& solved == outcome.outcome
            }),
    {
        let rows: usize = self.model.jacobian.rows;
        let cols: usize = self.model.jacobian.cols;
        let start = self.start();
        let ghost system = self.system(mode);
        let operator = Damped {
            jacobian: &self.model.jacobian,
            diagonal,
            scales: if mode == Preconditioning::Identity {
                None
            } else {
                Some(&self.model.scales)
            },
        };
        let preconditioner = FactorPreconditioner {
            dimension: cols,
            factors: if mode == Preconditioning::BlockJacobi {
                Some(&self.blocks)
            } else {
                None
            },
            kernel: &self.kernel,
        };
        proof {
            let f = |z: Seq<R>| Operator::product(&self.model.jacobian, z);
            let g = |z: Seq<R>| system.linear.product(z);
            assert(f =~= g);
            let ft = |z: Seq<R>| TwoSided::transposed(&self.model.jacobian, z);
            let gt = |z: Seq<R>| system.linear.transposed(z);
            assert(ft =~= gt);
            assert(viewed(operator.scales) == system.scaling());
            assert(preconditioner.held() == system.factors());
            assert((|x: Seq<R>| operator.product(x)) =~= (|x: Seq<R>|
                damped_product(
                    |z: Seq<R>| system.linear.product(z),
                    system.diagonal(lambda),
                    system.scaling(),
                    x,
                )));
            assert((|y: Seq<R>| operator.transposed(y)) =~= (|y: Seq<R>|
                damped_transpose(
                    |z: Seq<R>| system.linear.transposed(z),
                    system.diagonal(lambda),
                    system.scaling(),
                    system.linear.rows,
                    y,
                )));
            assert((|x: Seq<R>| preconditioner.product(x)) =~= (|x: Seq<R>|
                conditioned(system.factors(), system.kernel, x, false)));
            assert((|x: Seq<R>| preconditioner.transposed(x)) =~= (|x: Seq<R>|
                conditioned(system.factors(), system.kernel, x, true)));
        }
        let (solved, times) = solve(
            &self.kernel,
            rows + cols,
            cols,
            &operator,
            &preconditioner,
            self.augmented_rhs.as_slice(),
            self.relative_tolerance,
            self.max_iterations,
            &mut self.work.step,
            &mut self.statistics,
            &mut self.diagnostics,
        );
        let time: u64 = self.charged(self.timings.linear_solve, start);
        self.timings.linear_solve = time;
        let collected = self.collect_timings;
        self.timings.forward = credited(collected, self.timings.forward, times.forward);
        self.timings.transpose = credited(collected, self.timings.transpose, times.transpose);
        self.timings.preconditioner = credited(
            collected,
            self.timings.preconditioner,
            times.preconditioner,
        );
        solved
    }

    /// Return to original coordinates, and check the step against the damped model.
    fn recover_and_verify(
        &mut self,
        lambda: R,
        mode: Preconditioning,
        solved: Result<(), SolverError>,
    ) -> (verified: Result<R, SolverError>)
        requires
            old(self).valid(),
            old(self).prepared_mode == Some(mode),
        ensures
            final(self).valid(),
            final(self).prepared_mode == old(self).prepared_mode,
            final(self).same_controls(old(self)),
            final(self).model == old(self).model,
            final(self).blocks == old(self).blocks,
            final(self).augmented_rhs == old(self).augmented_rhs,
            old(self).timings.checked(final(self).timings, old(self).collect_timings),
            ({
                let outcome = old(self).system(mode).concluded(
                    lambda,
                    Solved {
                        step: old(self).work.step@,
                        statistics: old(self).statistics,
                        diagnostics: old(self).diagnostics,
                        outcome: solved,
                    },
                );
                &&& final(self).work.step@ == outcome.step
                &&& final(self).statistics == outcome.statistics
                &&& final(self).diagnostics == outcome.diagnostics
                &&& verified == outcome.outcome
            }),
    {
        let start = self.start();
        let ghost system = self.system(mode);
        let scaled_coordinates = mode != Preconditioning::Identity;
        let step = normalize(
            self.work.step.as_slice(),
            if scaled_coordinates {
                Some(&self.model.scales)
            } else {
                None
            },
        );
        self.work.step = step;
        let verified = self.model.verify_step(&mut self.work, lambda);
        let ghost residual = self.work.normal_residual@;
        if scaled_coordinates {
            self.work.scale_residual(self.model.scales.as_slice());
        }
        if mode == Preconditioning::BlockJacobi {
            self.blocks.apply_factor_inverse(
                &self.kernel,
                &mut self.work.normal_residual,
                true,
            );
            self.blocks.apply_factor_inverse(&self.kernel, &mut self.work.reference, true);
        }
        assert(self.work.normal_residual@ == system.conditioned_residual(residual));
        assert(self.work.reference@ == system.conditioned_residual(system.linear.gradient));
        let scaled_norm = norm_l2(self.work.normal_residual.as_slice());
        let scaled_reference = norm_l2(self.work.reference.as_slice());
        let time: u64 = self.charged(self.timings.residual_checks, start);
        self.timings.residual_checks = time;
        self.diagnostics.finite_step = verified.finite_step;
        self.diagnostics.original_absolute_residual = Some(verified.residual_norm);
        self.diagnostics.original_relative_residual = Some(
            relative(verified.residual_norm, verified.reference_norm),
        );
        self.diagnostics.scaled_absolute_residual = Some(scaled_norm);
        self.diagnostics.scaled_relative_residual = Some(relative(scaled_norm, scaled_reference));
        if !verified.finite_step || !verified.residual_norm.is_finite() || !scaled_norm.is_finite() {
            self.diagnostics.termination = Some(LsmrTermination::NonFinite);
            return Err(SolverError::LinearSolveFailed);
        }
        match solved {
            Ok(_) => Ok(verified.predicted_reduction),
            Err(error) => Err(error),
        }
    }

    /// Derive scales, and Gram matrices where they precondition.
    fn derive(&mut self, floor: R) -> (derived: Result<(), SolverError>)
        requires
            old(self).valid(),
            old(self).prepared_mode is None,
        ensures
            final(self).valid(),
            final(self).model@ == old(self).model@,
            final(self).same_controls(old(self)),
            final(self).statistics == old(self).statistics,
            final(self).diagnostics == old(self).diagnostics,
            final(self).timings == old(self).timings,
            match damping_spec(old(self).model@, old(self).requested(), floor) {
                Err(error) => {
                    &&& derived == Err::<(), SolverError>(error)
                    &&& final(self).prepared_mode is None
                },
                Ok((scales, grams)) => {
                    &&& derived is Ok
                    &&& final(self).prepared_mode == Some(old(self).requested())
                    &&& final(self).model.scales@ == scales
                    &&& grams matches Some(grams) ==> final(self).blocks.grams() == grams
                },
            },
    {
        match self.model.prepare_scales(floor) {
            Ok(_) => {},
            Err(error) => {
                return Err(error);
            },
        }
        let mode = self.requested_mode();
        let rows: usize = self.model.jacobian.rows;
        let cols: usize = self.model.jacobian.cols;
        self.work.prepare_verification(rows, cols);
        if mode == Preconditioning::BlockJacobi {
            assert forall|b: int| 0 <= b < self.model.jacobian.blocks@.len() implies (
            #[trigger] self.model.jacobian.blocks@[b]).start + self.model.jacobian.blocks@[b].rows
                * self.model.jacobian.blocks@[b].cols <= self.model.jacobian.values@.len() by {}
            match self.blocks.prepare(&self.model.jacobian, self.model.scales.as_slice()) {
                Ok(_) => {},
                Err(error) => {
                    return Err(error);
                },
            }
            proof {
                lemma_owners(
                    self.model@,
                    self.model.scales@,
                    self.model.jacobian.blocks@.len() as int,
                );
            }
        }
        match rows.checked_add(cols) {
            Some(_) => {},
            None => {
                return Err(SolverError::Evaluation(EvaluationError::DimensionMismatch));
            },
        }
        let mut augmented = copied(self.model.negative_residual.as_slice());
        resize_zero(&mut augmented, rows + cols);
        assert(augmented@ =~= self.model.negative_residual@ + Seq::new(
            cols as nat,
            |j: int| R::zero_spec(),
        ));
        self.augmented_rhs = augmented;
        self.prepared_mode = Some(mode);
        Ok(())
    }
}

/// What damped attempts need: scales, and Gram matrices where they precondition; or why it
/// cannot be had.
pub open spec fn damping_spec<R: Real>(model: LinearView<R>, mode: Preconditioning, floor: R) -> Result<
    (Seq<R>, Option<GramView<R>>),
    SolverError,
> {
    match model.scales(floor) {
        Err(error) => Err(error),
        Ok(scales) => {
            let grams = GramView::<R>::empty(model.cols).run(
                model.blocks,
                model.values,
                scales,
                model.blocks.len() as int,
            );
            if mode == Preconditioning::BlockJacobi && grams is Err {
                Err(SolverError::Evaluation(grams->Err_0))
            } else if model.rows + model.cols > usize::MAX {
                Err(SolverError::Evaluation(EvaluationError::DimensionMismatch))
            } else if mode == Preconditioning::BlockJacobi {
                Ok((scales, Some(grams->Ok_0)))
            } else {
                Ok((scales, None))
            }
        },
    }
}

proof fn lemma_owners<R: Real>(model: LinearView<R>, scales: Seq<R>, n: int)
    requires
        0 <= n <= model.blocks.len(),
        GramView::<R>::empty(model.cols).run(model.blocks, model.values, scales, n) is Ok,
    ensures
        GramView::<R>::empty(model.cols).run(
            model.blocks,
            model.values,
            scales,
            n,
        )->Ok_0.owners.len() == model.cols,
    decreases n,
{
    if n > 0 {
        lemma_owners(model, scales, n - 1);
    }
}

/// The controls and the kernel of a backend.
pub struct LsmrShape<R, K> {
    pub max_iterations: usize,
    pub relative_tolerance: R,
    pub diagonal_preconditioning: bool,
    pub block_preconditioning: bool,
    pub collect_timings: bool,
    pub kernel: K,
}

impl<R: Real, K: Triangular<R> + Bidiagonalization<R> + Clock> LeastSquaresBackend for Lsmr<R, K> {
    type Scalar = R;

    type Model = LinearView<R>;

    type Shape = LsmrShape<R, K>;

    open spec fn wf(&self) -> bool {
        &&& self.model.sized()
        &&& self.work.step@.len() == self.model.jacobian.cols
        &&& self.prepared_mode is Some ==> self.valid()
    }

    open spec fn dimension(&self) -> nat {
        self.model.jacobian.cols as nat
    }

    open spec fn model(&self) -> LinearView<R> {
        self.model@
    }

    open spec fn shape(&self) -> LsmrShape<R, K> {
        LsmrShape {
            max_iterations: self.max_iterations,
            relative_tolerance: self.relative_tolerance,
            diagonal_preconditioning: self.diagonal_preconditioning,
            block_preconditioning: self.block_preconditioning,
            collect_timings: self.collect_timings,
            kernel: self.kernel,
        }
    }

    open spec fn usable(&self) -> bool {
        self.valid()
    }

    /// No damping is prepared.
    open spec fn fresh(&self) -> bool {
        self.prepared_mode is None
    }

    open spec fn keeps(&self, model: LinearView<R>) -> bool {
        self.model@ == model
    }

    open spec fn empty_spec(shape: LsmrShape<R, K>, dimension: nat) -> LinearView<R> {
        LinearView::empty(dimension)
    }

    open spec fn extended_spec(
        model: LinearView<R>,
        residual: Seq<R>,
        blocks: Seq<BlockView<R>>,
        columns: Seq<usize>,
    ) -> Result<LinearView<R>, EvaluationError> {
        model.extended(residual, blocks, columns)
    }

    open spec fn gradient_norm_spec(model: LinearView<R>) -> Result<R, SolverError> {
        norm_inf_spec(model.gradient)
    }

    /// The controls must be usable.
    open spec fn prepare_spec(&self, dimension: nat) -> Result<(), SolverError> {
        if self.max_iterations != 0 && R::zero_spec().at_most_spec(self.relative_tolerance)
            && self.relative_tolerance.below_spec(R::one_spec()) {
            Ok(())
        } else {
            Err(SolverError::InvalidOptions)
        }
    }

    /// The iterative solve of the rows as they are.
    open spec fn answers(before: Self, after: Self, step: Result<Seq<R>, SolverError>) -> bool {
        let model = before.model@;
        let outcome = solve_spec(
            model.rows,
            model.cols,
            undamped_spec(
                before.kernel,
                model,
                before.relative_tolerance,
                before.max_iterations,
            ),
            before.statistics,
            LsmrDiagnostics::blank_spec(),
        );
        &&& after.same_controls(&before)
        &&& after.model == before.model
        &&& after.blocks == before.blocks
        &&& after.prepared_mode == before.prepared_mode
        &&& after.timings == before.timings
        &&& after.statistics == outcome.statistics
        &&& after.diagnostics == outcome.diagnostics
        &&& match outcome.outcome {
            Ok(_) => step == Ok::<Seq<R>, SolverError>(outcome.step),
            Err(error) => step == Err::<Seq<R>, SolverError>(error),
        }
    }

    fn prepare(&mut self, dimension: usize) -> (prepared: Result<(), SolverError>)
        ensures
            final(self).same_controls(old(self)),
            final(self).statistics == LsmrStatistics::blank_spec(),
            final(self).diagnostics == LsmrDiagnostics::<R>::blank_spec(),
            final(self).timings == LsmrTimings::blank_spec(),
            final(self).prepared_mode is None,
            final(self).model@ == if prepared is Ok {
                old(self).model@.resized(dimension as nat)
            } else {
                old(self).model@
            },
    {
        self.statistics = LsmrStatistics::blank();
        self.timings = LsmrTimings::blank();
        self.diagnostics = LsmrDiagnostics::blank();
        self.prepared_mode = None;
        if self.max_iterations == 0 || !R::zero().at_most(self.relative_tolerance)
            || !self.relative_tolerance.below(R::one()) {
            return Err(SolverError::InvalidOptions);
        }
        self.model.prepare(dimension);
        resize_zero(&mut self.work.step, dimension);
        Ok(())
    }

    fn clear(&mut self)
        ensures
            final(self).same_controls(old(self)),
            final(self).statistics == old(self).statistics,
            final(self).diagnostics == old(self).diagnostics,
            final(self).timings == old(self).timings,
            final(self).prepared_mode is None,
    {
        self.prepared_mode = None;
        self.model.clear();
    }

    fn accumulate(
        &mut self,
        residual: &[R],
        blocks: &[JacobianBlock<R>],
        columns: &[usize],
    ) -> (added: Result<(), EvaluationError>)
        ensures
            final(self).same_controls(old(self)),
            final(self).statistics == old(self).statistics,
            final(self).diagnostics == old(self).diagnostics,
            final(self).timings == old(self).timings,
            final(self).prepared_mode is None,
    {
        self.prepared_mode = None;
        self.model.accumulate(residual, blocks, columns)
    }

    fn gradient_norm(&self) -> (norm: Result<R, SolverError>) {
        norm_inf(self.model.gradient.as_slice())
    }

    fn solve(&mut self) -> (step: Result<Vec<R>, SolverError>) {
        self.diagnostics = LsmrDiagnostics::blank();
        let cols: usize = self.model.jacobian.cols;
        let preconditioner: FactorPreconditioner<'_, R, K> = FactorPreconditioner {
            dimension: cols,
            factors: None,
            kernel: &self.kernel,
        };
        proof {
            let model = self.model@;
            assert((|x: Seq<R>| Operator::product(&self.model.jacobian, x)) =~= (|x: Seq<R>|
                model.product(x)));
            assert((|y: Seq<R>| TwoSided::transposed(&self.model.jacobian, y)) =~= (|y: Seq<R>|
                model.transposed(y)));
            assert((|x: Seq<R>| preconditioner.product(x)) =~= (|x: Seq<R>| x));
            assert((|x: Seq<R>| preconditioner.transposed(x)) =~= (|x: Seq<R>| x));
        }
        let (solved, _) = solve(
            &self.kernel,
            self.model.jacobian.rows,
            cols,
            &self.model.jacobian,
            &preconditioner,
            self.model.negative_residual.as_slice(),
            self.relative_tolerance,
            self.max_iterations,
            &mut self.work.step,
            &mut self.statistics,
            &mut self.diagnostics,
        );
        match solved {
            Ok(_) => Ok(copied(self.work.step.as_slice())),
            Err(error) => Err(error),
        }
    }
}

/// The iterative solve of an undamped model, in its own coordinates.
pub open spec fn undamped_spec<R: Real, K: Bidiagonalization<R>>(
    kernel: K,
    model: LinearView<R>,
    tolerance: R,
    max_iterations: usize,
) -> RegressionView<R> {
    kernel.regression_spec(
        model.rows,
        model.cols,
        |x: Seq<R>| model.product(x),
        |y: Seq<R>| model.transposed(y),
        |x: Seq<R>| x,
        |x: Seq<R>| x,
        model.negative_residual,
        tolerance,
        max_iterations,
    )
}

/// Diagnostics of an attempt before anything is solved.
pub open spec fn opened_diagnostics<R: Real>(scales: Seq<R>, lambda: R) -> LsmrDiagnostics<R> {
    LsmrDiagnostics {
        damping: Some(lambda),
        min_scale: smallest(scales, scales.len() as int),
        max_scale: largest(scales, scales.len() as int),
        ..LsmrDiagnostics::blank_spec()
    }
}

/// What a damped attempt does to a backend that is ready for it.
pub open spec fn attempted<R: Real, K: Triangular<R> + Bidiagonalization<R> + Clock>(
    before: Lsmr<R, K>,
    after: Lsmr<R, K>,
    mode: Preconditioning,
    lambda: R,
    step: Result<(Seq<R>, R), SolverError>,
) -> bool {
    let opened = opened_diagnostics(before.model.scales@, lambda);
    &&& after.same_controls(&before)
    &&& after.model == before.model
    &&& after.prepared_mode == before.prepared_mode
    &&& if !all_finite(before.system(mode).diagonal(lambda)) {
        &&& after.blocks == before.blocks
        &&& after.timings == before.timings
        &&& step == Err::<(Seq<R>, R), SolverError>(SolverError::LinearSolveFailed)
        &&& after.statistics == before.statistics
        &&& after.diagnostics == (LsmrDiagnostics {
            termination: Some(LsmrTermination::NonFinite),
            ..opened
        })
    } else {
        let system = after.system(mode);
        let attempt = system.concluded(
            lambda,
            solve_spec(
                (before.model.jacobian.rows + before.model.jacobian.cols) as nat,
                before.model.jacobian.cols as nat,
                system.regression(lambda, before.relative_tolerance, before.max_iterations),
                before.statistics,
                LsmrDiagnostics {
                    block_fallbacks: if mode == Preconditioning::BlockJacobi {
                        after.blocks.blocks@.filter(
                            |block: VariableBlock| block.fallback,
                        ).len() as usize
                    } else {
                        0
                    },
                    ..opened
                },
            ),
        );
        &&& refactored(before, after, lambda, mode)
        &&& before.timings.attempted(after.timings, before.collect_timings)
        &&& after.statistics == attempt.statistics
        &&& after.diagnostics == attempt.diagnostics
        &&& match attempt.outcome {
            Ok(predicted) => step == Ok::<(Seq<R>, R), SolverError>((attempt.step, predicted)),
            Err(error) => step == Err::<(Seq<R>, R), SolverError>(error),
        }
    }
}

impl<R: Real, K: Triangular<R> + Bidiagonalization<R> + Clock> DampedLeastSquaresBackend for Lsmr<
    R,
    K,
> {
    /// The scales of the columns, and where blocks precondition their Gram matrices.
    open spec fn scaled(
        before: Self,
        after: Self,
        min_column_norm: R,
        prepared: Result<(), SolverError>,
    ) -> bool {
        &&& after.same_controls(&before)
        &&& after.statistics == before.statistics
        &&& after.diagnostics == before.diagnostics
        &&& match damping_spec(before.model@, before.requested(), min_column_norm) {
            Err(error) => {
                &&& after.timings == before.timings
                &&& prepared == Err::<(), SolverError>(error)
                &&& after.prepared_mode is None
            },
            Ok((scales, grams)) => {
                &&& prepared is Ok
                &&& before.timings.prepared(after.timings, before.collect_timings)
                &&& after.prepared_mode == Some(before.requested())
                &&& after.model.scales@ == scales
                &&& grams matches Some(grams) ==> after.blocks.grams() == grams
            },
        }
    }

    /// An attempt under the coordinates that were prepared, if they are still the ones asked
    /// for and the damping is usable.
    open spec fn answers_damped(
        before: Self,
        after: Self,
        lambda: R,
        step: Result<(Seq<R>, R), SolverError>,
    ) -> bool {
        if before.prepared_mode != Some(before.requested()) || !usable_damping(lambda) {
            &&& step == Err::<(Seq<R>, R), SolverError>(SolverError::InvalidOptions)
            &&& after == (Lsmr { diagnostics: LsmrDiagnostics::blank_spec(), ..before })
        } else {
            attempted(before, after, before.requested(), lambda, step)
        }
    }

    fn prepare_damping(&mut self, min_column_norm: R) -> (prepared: Result<(), SolverError>) {
        let start = self.start();
        self.prepared_mode = None;
        match self.derive(min_column_norm) {
            Ok(_) => {},
            Err(error) => {
                return Err(error);
            },
        }
        let time: u64 = self.charged(self.timings.preparation, start);
        self.timings.preparation = time;
        Ok(())
    }

    fn solve_damped(&mut self, lambda: R) -> (step: Result<DampedStep<R>, SolverError>) {
        self.diagnostics = LsmrDiagnostics::blank();
        let requested = self.requested_mode();
        let mode = match self.prepared_mode {
            Some(mode) => mode,
            None => {
                return Err(SolverError::InvalidOptions);
            },
        };
        if mode != requested || !lambda.is_finite() || lambda.below(R::zero()) {
            return Err(SolverError::InvalidOptions);
        }
        let (least, most) = extremes(self.model.scales.as_slice());
        self.diagnostics.damping = Some(lambda);
        self.diagnostics.min_scale = least;
        self.diagnostics.max_scale = most;
        let diagonal = self.diagonal(lambda, mode);
        if !finite_values(diagonal.as_slice()) {
            self.diagnostics.termination = Some(LsmrTermination::NonFinite);
            return Err(SolverError::LinearSolveFailed);
        }
        self.factor_preconditioner(lambda, mode);
        assert(diagonal@ =~= self.system(mode).diagonal(lambda));
        let solved = self.solve_damped_system(lambda, mode, &diagonal);
        match self.recover_and_verify(lambda, mode, solved) {
            Ok(predicted_reduction) => Ok(
                DampedStep { delta: copied(self.work.step.as_slice()), predicted_reduction },
            ),
            Err(error) => Err(error),
        }
    }
}

/// Without block preconditioning the structure of the blocks never matters to preparation: it
/// fails only over the scales, or over more rows than there are numbers for.
pub proof fn lemma_disabled_blocks_prepare<R: Real>(
    model: LinearView<R>,
    mode: Preconditioning,
    floor: R,
)
    requires
        mode != Preconditioning::BlockJacobi,
    ensures
        match model.scales(floor) {
            Err(error) => damping_spec(model, mode, floor) == Err::<
                (Seq<R>, Option<GramView<R>>),
                SolverError,
            >(error),
            Ok(scales) => if model.rows + model.cols > usize::MAX {
                damping_spec(model, mode, floor) == Err::<
                    (Seq<R>, Option<GramView<R>>),
                    SolverError,
                >(SolverError::Evaluation(EvaluationError::DimensionMismatch))
            } else {
                damping_spec(model, mode, floor) == Ok::<
                    (Seq<R>, Option<GramView<R>>),
                    SolverError,
                >((scales, None))
            },
        },
{
}

/// Without block factors the preconditioner is the square identity, in both directions.
pub proof fn lemma_disabled_blocks_identity<R: Real, K: Triangular<R>>(
    preconditioner: FactorPreconditioner<'_, R, K>,
    values: Seq<R>,
)
    requires
        preconditioner.factors is None,
    ensures
        Operator::wf(&preconditioner),
        Operator::rows(&preconditioner) == preconditioner.dimension,
        Operator::cols(&preconditioner) == preconditioner.dimension,
        Operator::product(&preconditioner, values) == values,
        TwoSided::transposed(&preconditioner, values) == values,
{
}

/// Without block preconditioning an attempt has nothing to precondition by, no block falls
/// back, and blocks stay as they are.
pub proof fn lemma_disabled_blocks_attempt<R: Real, K: Triangular<R> + Bidiagonalization<R> + Clock>(
    before: Lsmr<R, K>,
    after: Lsmr<R, K>,
    mode: Preconditioning,
    lambda: R,
    step: Result<(Seq<R>, R), SolverError>,
)
    requires
        mode != Preconditioning::BlockJacobi,
        attempted(before, after, mode, lambda, step),
    ensures
        after.diagnostics.block_fallbacks == 0,
        after.blocks == before.blocks,
        after.system(mode).factors() is None,
{
}

} // verus!
