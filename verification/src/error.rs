//! Failures of handle resolution, evaluation and graph operations.
use vstd::prelude::*;

verus! {

/// Failure to resolve an opaque handle.
#[derive(Debug, Clone, Copy, PartialEq, Eq, Structural)]
#[non_exhaustive]
pub enum KeyError {
    /// The handle was issued by other storage.
    ForeignSolver,
    /// The entry was removed, or its slot was reused since.
    Stale,
    /// No entry was ever issued under this handle.
    Unknown,
}

/// Failure during nonlinear evaluation or while emitting a linearization.
#[derive(Debug, Clone, Copy, PartialEq, Eq, Structural)]
#[non_exhaustive]
pub enum EvaluationError {
    /// A referenced variable could not be resolved.
    Key(KeyError),
    /// The measurement model is undefined or produced nonfinite output.
    InvalidEvaluation,
    /// A residual or Jacobian has an incompatible shape.
    DimensionMismatch,
    /// A factor scope or an emitted variable identity is invalid.
    InvalidEmission,
    /// The selected backend cannot represent the emitted variable coupling.
    UnsupportedStructure,
}

/// Failure to edit, evaluate or optimize a graph.
#[derive(Debug, Clone, Copy, PartialEq, Eq, Structural)]
#[non_exhaustive]
pub enum SolverError {
    /// A covariance selection names the same variable more than once.
    DuplicateCovarianceBlock,
    /// Undamped information is not positive definite or fails the pivot tolerance.
    SingularInformation,
    /// Information assembly, factorization or covariance produced nonfinite values.
    InvalidInformation,
    /// A relative rank tolerance lies outside `[0, 1)`.
    InvalidRankTolerance,
    /// Only empty batches may be retired.
    BatchNotEmpty,
    /// Iteration, convergence or damping controls are invalid.
    InvalidOptions,
    /// A supplied handle could not be resolved.
    Key(KeyError),
    /// A factor or the sink rejected an evaluation.
    Evaluation(EvaluationError),
    /// The numerical backend could not solve the linear system.
    LinearSolveFailed,
    /// The convergence criterion was not met within the iteration limit.
    NoConvergence,
    /// Retries were exhausted, or progress stalled short of the gradient tolerance.
    NoProgress,
}

impl KeyError {
    /// Text shown to a user.
    pub open spec fn message_spec(self) -> Seq<char> {
        match self {
            KeyError::ForeignSolver => "handle belongs to a different solver"@,
            KeyError::Stale => "handle refers to a removed or reused entry"@,
            KeyError::Unknown => "unknown handle"@,
        }
    }

    /// Text shown to a user.
    pub fn message(self) -> (text: &'static str)
        ensures
            text@ == self.message_spec(),
    {
        match self {
            KeyError::ForeignSolver => "handle belongs to a different solver",
            KeyError::Stale => "handle refers to a removed or reused entry",
            KeyError::Unknown => "unknown handle",
        }
    }
}

impl EvaluationError {
    /// Text shown to a user; a key failure speaks for itself.
    pub open spec fn message_spec(self) -> Seq<char> {
        match self {
            EvaluationError::Key(error) => error.message_spec(),
            EvaluationError::InvalidEvaluation =>
                "measurement evaluation is undefined or nonfinite"@,
            EvaluationError::DimensionMismatch =>
                "residual or Jacobian dimensions do not match"@,
            EvaluationError::InvalidEmission =>
                "invalid factor scope or emitted variable identity"@,
            EvaluationError::UnsupportedStructure =>
                "residual structure is unsupported by the selected backend"@,
        }
    }

    /// Text shown to a user; a key failure speaks for itself.
    pub fn message(self) -> (text: &'static str)
        ensures
            text@ == self.message_spec(),
    {
        match self {
            EvaluationError::Key(error) => error.message(),
            EvaluationError::InvalidEvaluation =>
                "measurement evaluation is undefined or nonfinite",
            EvaluationError::DimensionMismatch =>
                "residual or Jacobian dimensions do not match",
            EvaluationError::InvalidEmission =>
                "invalid factor scope or emitted variable identity",
            EvaluationError::UnsupportedStructure =>
                "residual structure is unsupported by the selected backend",
        }
    }
}

impl SolverError {
    /// Text shown to a user; wrapped failures speak for themselves.
    pub open spec fn message_spec(self) -> Seq<char> {
        match self {
            SolverError::DuplicateCovarianceBlock =>
                "duplicate variable in covariance selection"@,
            SolverError::SingularInformation =>
                "undamped information is singular or numerically rank deficient"@,
            SolverError::InvalidInformation =>
                "invalid or nonfinite covariance information"@,
            SolverError::InvalidRankTolerance =>
                "relative rank tolerance must be finite and in [0, 1)"@,
            SolverError::BatchNotEmpty => "batch still contains factors"@,
            SolverError::InvalidOptions =>
                "invalid optimization limits, tolerances, or damping controls"@,
            SolverError::Key(error) => error.message_spec(),
            SolverError::Evaluation(error) => error.message_spec(),
            SolverError::LinearSolveFailed => "linear system solve failed"@,
            SolverError::NoConvergence => "optimization did not converge"@,
            SolverError::NoProgress =>
                "optimization could not make progress; accepted estimates are retained"@,
        }
    }

    /// Text shown to a user; wrapped failures speak for themselves.
    pub fn message(self) -> (text: &'static str)
        ensures
            text@ == self.message_spec(),
    {
        match self {
            SolverError::DuplicateCovarianceBlock =>
                "duplicate variable in covariance selection",
            SolverError::SingularInformation =>
                "undamped information is singular or numerically rank deficient",
            SolverError::InvalidInformation =>
                "invalid or nonfinite covariance information",
            SolverError::InvalidRankTolerance =>
                "relative rank tolerance must be finite and in [0, 1)",
            SolverError::BatchNotEmpty => "batch still contains factors",
            SolverError::InvalidOptions =>
                "invalid optimization limits, tolerances, or damping controls",
            SolverError::Key(error) => error.message(),
            SolverError::Evaluation(error) => error.message(),
            SolverError::LinearSolveFailed => "linear system solve failed",
            SolverError::NoConvergence => "optimization did not converge",
            SolverError::NoProgress =>
                "optimization could not make progress; accepted estimates are retained",
        }
    }
}

impl From<KeyError> for EvaluationError {
    fn from(error: KeyError) -> (r: Self) {
        EvaluationError::Key(error)
    }
}

impl vstd::std_specs::convert::FromSpecImpl<KeyError> for EvaluationError {
    open spec fn obeys_from_spec() -> bool {
        true
    }

    open spec fn from_spec(error: KeyError) -> Self {
        EvaluationError::Key(error)
    }
}

impl From<KeyError> for SolverError {
    fn from(error: KeyError) -> (r: Self) {
        SolverError::Key(error)
    }
}

impl vstd::std_specs::convert::FromSpecImpl<KeyError> for SolverError {
    open spec fn obeys_from_spec() -> bool {
        true
    }

    open spec fn from_spec(error: KeyError) -> Self {
        SolverError::Key(error)
    }
}

impl From<EvaluationError> for SolverError {
    fn from(error: EvaluationError) -> (r: Self) {
        SolverError::Evaluation(error)
    }
}

impl vstd::std_specs::convert::FromSpecImpl<EvaluationError> for SolverError {
    open spec fn obeys_from_spec() -> bool {
        true
    }

    open spec fn from_spec(error: EvaluationError) -> Self {
        SolverError::Evaluation(error)
    }
}

} // verus!
