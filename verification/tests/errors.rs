use fagra::error::{EvaluationError, KeyError, SolverError};

#[test]
fn failures_have_messages() {
    assert_eq!(KeyError::ForeignSolver.message(), "handle belongs to a different solver");
    assert_eq!(KeyError::Stale.message(), "handle refers to a removed or reused entry");
    assert_eq!(KeyError::Unknown.message(), "unknown handle");
    assert_eq!(
        EvaluationError::InvalidEvaluation.message(),
        "measurement evaluation is undefined or nonfinite"
    );
    assert_eq!(
        EvaluationError::DimensionMismatch.message(),
        "residual or Jacobian dimensions do not match"
    );
    assert_eq!(SolverError::LinearSolveFailed.message(), "linear system solve failed");
    assert_eq!(SolverError::NoConvergence.message(), "optimization did not converge");
    assert_eq!(SolverError::BatchNotEmpty.message(), "batch still contains factors");
}

#[test]
fn wrapped_failures_speak_for_themselves() {
    let inner = EvaluationError::Key(KeyError::Stale);
    assert_eq!(inner.message(), KeyError::Stale.message());
    assert_eq!(SolverError::Evaluation(inner).message(), KeyError::Stale.message());
    assert_eq!(SolverError::Key(KeyError::Unknown).message(), "unknown handle");
}
