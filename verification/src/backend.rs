//! What a nonlinear method asks of a linear least-squares solver.
use crate::error::{EvaluationError, SolverError};
use crate::linearization::{block_views, BlockView, JacobianBlock};
use crate::scalar::Real;
use vstd::prelude::*;

verus! {

/// Whether every listed scalar is finite.
pub open spec fn all_finite<R: Real>(values: Seq<R>) -> bool {
    forall|i: int| 0 <= i < values.len() ==> (#[trigger] values[i]).finite_spec()
}

/// Whether every listed scalar is finite.
pub fn finite_values<R: Real>(values: &[R]) -> (finite: bool)
    ensures
        finite == all_finite(values@),
{
    let mut i: usize = 0;
    while i < values.len()
        invariant
            i <= values@.len(),
            forall|j: int| 0 <= j < i ==> (#[trigger] values@[j]).finite_spec(),
        decreases values@.len() - i,
    {
        if !values[i].is_finite() {
            return false;
        }
        i += 1;
    }
    true
}

/// Largest magnitude of the first `n` values, starting from zero.
pub open spec fn max_magnitude<R: Real>(values: Seq<R>, n: int) -> R
    decreases n,
{
    if n <= 0 {
        R::zero_spec()
    } else {
        max_magnitude(values, n - 1).max_spec(values[n - 1].abs_spec())
    }
}

/// The infinity norm of finite values; anything else is an invalid evaluation.
pub open spec fn norm_inf_spec<R: Real>(values: Seq<R>) -> Result<R, SolverError> {
    if all_finite(values) {
        Ok(max_magnitude(values, values.len() as int))
    } else {
        Err(SolverError::Evaluation(EvaluationError::InvalidEvaluation))
    }
}

/// The infinity norm of finite values.
pub fn norm_inf<R: Real>(values: &[R]) -> (norm: Result<R, SolverError>)
    ensures
        norm == norm_inf_spec(values@),
{
    let mut norm = R::zero();
    let mut i: usize = 0;
    while i < values.len()
        invariant
            i <= values@.len(),
            norm == max_magnitude(values@, i as int),
            forall|j: int| 0 <= j < i ==> (#[trigger] values@[j]).finite_spec(),
        decreases values@.len() - i,
    {
        if !values[i].is_finite() {
            return Err(SolverError::Evaluation(EvaluationError::InvalidEvaluation));
        }
        norm = norm.max(values[i].abs());
        i += 1;
    }
    Ok(norm)
}

/// Rows that fit a model of the given dimension: each block has one row per residual
/// coordinate and lies within the coordinates at its column.
pub open spec fn admissible<R: Real>(
    dimension: nat,
    residual: Seq<R>,
    blocks: Seq<BlockView<R>>,
    columns: Seq<usize>,
) -> bool {
    &&& blocks.len() == columns.len()
    &&& residual.len() <= usize::MAX
    &&& forall|k: int|
        0 <= k < blocks.len() ==> {
            &&& (#[trigger] blocks[k]).wf()
            &&& blocks[k].rows == residual.len()
            &&& columns[k] + blocks[k].cols <= dimension
        }
}

/// A step, taken by its view.
pub open spec fn step_view<R>(step: Result<Vec<R>, SolverError>) -> Result<Seq<R>, SolverError> {
    match step {
        Ok(delta) => Ok(delta@),
        Err(error) => Err(error),
    }
}

/// A backend that holds rows from which nothing was derived yet.
pub open spec fn assembled<B: LeastSquaresBackend>(backend: B) -> bool {
    &&& backend.usable()
    &&& backend.fresh()
    &&& backend.keeps(backend.model())
}

/// Assembles and solves one linearized least-squares problem after another.
///
/// The assembled model is a function of the rows handed over since the last reset,
/// and of nothing else. What solving it returns is for each implementation to say.
pub trait LeastSquaresBackend: Sized {
    /// Scalar of the model, its gradient and its steps.
    type Scalar: Real;

    /// Everything that rows contribute to.
    type Model;

    /// The configuration of a backend; no operation changes it.
    type Shape;

    spec fn wf(&self) -> bool;

    spec fn dimension(&self) -> nat;

    spec fn model(&self) -> Self::Model;

    spec fn shape(&self) -> Self::Shape;

    /// The rows at hand lie within the coordinates. Between sizing the storage and starting a
    /// fresh model they need not.
    spec fn usable(&self) -> bool;

    /// Nothing was derived from the rows since the last of them was added.
    spec fn fresh(&self) -> bool;

    /// What can be drawn from the backend is what the given model implies, though the model
    /// itself may be used up.
    spec fn keeps(&self, model: Self::Model) -> bool;

    spec fn empty_spec(shape: Self::Shape, dimension: nat) -> Self::Model;

    spec fn extended_spec(
        model: Self::Model,
        residual: Seq<Self::Scalar>,
        blocks: Seq<BlockView<Self::Scalar>>,
        columns: Seq<usize>,
    ) -> Result<Self::Model, EvaluationError>;

    spec fn gradient_norm_spec(model: Self::Model) -> Result<Self::Scalar, SolverError>;

    spec fn prepare_spec(&self, dimension: nat) -> Result<(), SolverError>;

    /// What solving the model answers, and what it leaves behind.
    spec fn answers(
        before: Self,
        after: Self,
        step: Result<Seq<Self::Scalar>, SolverError>,
    ) -> bool;

    /// Size the storage for a number of scalar coordinates.
    fn prepare(&mut self, dimension: usize) -> (prepared: Result<(), SolverError>)
        requires
            old(self).wf(),
        ensures
            final(self).wf(),
            final(self).shape() == old(self).shape(),
            prepared == old(self).prepare_spec(dimension as nat),
            prepared is Ok ==> final(self).dimension() == dimension && final(self).fresh(),
    ;

    /// Start a fresh model.
    fn clear(&mut self)
        requires
            old(self).wf(),
        ensures
            final(self).wf(),
            final(self).dimension() == old(self).dimension(),
            final(self).shape() == old(self).shape(),
            final(self).usable(),
            final(self).fresh(),
            final(self).keeps(final(self).model()),
            final(self).model() == Self::empty_spec(old(self).shape(), old(self).dimension()),
    ;

    /// Add rows: a residual, and for each block the column at which it starts. Refused rows
    /// leave the model as it is.
    fn accumulate(
        &mut self,
        residual: &[Self::Scalar],
        blocks: &[JacobianBlock<Self::Scalar>],
        columns: &[usize],
    ) -> (added: Result<(), EvaluationError>)
        requires
            old(self).wf(),
            admissible(old(self).dimension(), residual@, block_views(blocks@), columns@),
        ensures
            final(self).wf(),
            final(self).dimension() == old(self).dimension(),
            final(self).shape() == old(self).shape(),
            old(self).usable() ==> final(self).usable(),
            final(self).fresh(),
            final(self).keeps(final(self).model()),
            match added {
                Ok(_) => Self::extended_spec(
                    old(self).model(),
                    residual@,
                    block_views(blocks@),
                    columns@,
                ) == Ok::<Self::Model, EvaluationError>(final(self).model()),
                Err(error) => {
                    &&& Self::extended_spec(
                        old(self).model(),
                        residual@,
                        block_views(blocks@),
                        columns@,
                    ) == Err::<Self::Model, EvaluationError>(error)
                    &&& final(self).model() == old(self).model()
                },
            },
    ;

    /// Infinity norm of the gradient of the assembled model.
    fn gradient_norm(&self) -> (norm: Result<Self::Scalar, SolverError>)
        requires
            self.wf(),
        ensures
            norm == Self::gradient_norm_spec(self.model()),
    ;

    /// Solve the assembled model, which may be used up by it.
    fn solve(&mut self) -> (step: Result<Vec<Self::Scalar>, SolverError>)
        requires
            old(self).wf(),
            old(self).usable(),
        ensures
            final(self).wf(),
            final(self).usable(),
            final(self).dimension() == old(self).dimension(),
            final(self).shape() == old(self).shape(),
            Self::answers(*old(self), *final(self), step_view(step)),
            forall|model: Self::Model| old(self).keeps(model) ==> #[trigger] final(self).keeps(model),
    ;
}

/// A backend as it is asked for a step: it holds the given model, and nothing else was
/// derived from it.
pub open spec fn holds<B: LeastSquaresBackend>(
    backend: B,
    shape: B::Shape,
    model: B::Model,
) -> bool {
    &&& backend.wf()
    &&& backend.usable()
    &&& backend.fresh()
    &&& backend.shape() == shape
    &&& backend.model() == model
}

/// A step of a damped model and the decrease that the undamped model predicts for it.
pub struct DampedStep<R> {
    pub delta: Vec<R>,
    pub predicted_reduction: R,
}

/// A damped step, taken by the view of its increment.
pub open spec fn stepped<R>(step: Result<DampedStep<R>, SolverError>) -> Result<
    (Seq<R>, R),
    SolverError,
> {
    match step {
        Ok(found) => Ok((found.delta@, found.predicted_reduction)),
        Err(error) => Err(error),
    }
}

/// A backend that can solve one model repeatedly under different damping.
pub trait DampedLeastSquaresBackend: LeastSquaresBackend {
    /// How the damping scales follow from the model, and what deriving them leaves behind.
    spec fn scaled(
        before: Self,
        after: Self,
        min_column_norm: Self::Scalar,
        prepared: Result<(), SolverError>,
    ) -> bool;

    /// What solving the damped model answers, and what it leaves behind.
    spec fn answers_damped(
        before: Self,
        after: Self,
        lambda: Self::Scalar,
        step: Result<(Seq<Self::Scalar>, Self::Scalar), SolverError>,
    ) -> bool;

    /// Derive the damping scales of the assembled model.
    fn prepare_damping(&mut self, min_column_norm: Self::Scalar) -> (prepared: Result<
        (),
        SolverError,
    >)
        requires
            old(self).wf(),
            old(self).usable(),
        ensures
            final(self).wf(),
            final(self).usable(),
            final(self).dimension() == old(self).dimension(),
            final(self).shape() == old(self).shape(),
            final(self).model() == old(self).model(),
            Self::scaled(*old(self), *final(self), min_column_norm, prepared),
            forall|model: Self::Model| old(self).keeps(model) ==> #[trigger] final(self).keeps(model),
    ;

    /// Solve the model under the given damping, keeping it for further attempts.
    fn solve_damped(&mut self, lambda: Self::Scalar) -> (step: Result<
        DampedStep<Self::Scalar>,
        SolverError,
    >)
        requires
            old(self).wf(),
            old(self).usable(),
        ensures
            final(self).wf(),
            final(self).usable(),
            final(self).dimension() == old(self).dimension(),
            final(self).shape() == old(self).shape(),
            final(self).model() == old(self).model(),
            Self::answers_damped(*old(self), *final(self), lambda, stepped(step)),
            forall|model: Self::Model| old(self).keeps(model) ==> #[trigger] final(self).keeps(model),
    ;
}

} // verus!
