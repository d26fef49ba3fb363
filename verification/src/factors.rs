//! Factor evaluators and the selections they work on.
use crate::error::EvaluationError;
use crate::key::{BlockId, FactorId, LocalKey, PoolId, RawKey};
use crate::linearization::{EventView, LinearizationSink, Replies};
use crate::reading::Readable;
use crate::scalar::Real;
use vstd::prelude::*;
use vstd::slice::slice_subrange;

verus! {

/// What one evaluator emits: its events, and how it ended.
pub struct Emitted<R> {
    pub events: Seq<EventView<R>>,
    pub outcome: Result<(), EvaluationError>,
}

/// What an evaluator emits, given how it is answered.
pub type Emission<R> = spec_fn(Replies<R>) -> Emitted<R>;

/// What a factor emits against given states.
pub open spec fn emission<S: Readable, T: Factor<S>>(
    factor: T,
    states: S::Reading,
) -> Emission<T::Scalar> {
    |replies: Replies<T::Scalar>| factor.linearize_spec(states, replies)
}

/// What a selection of a batch emits against given states.
pub open spec fn batch_emission<S: Readable, M: FactorBatch<S>>(
    model: M,
    states: S::Reading,
    factors: Seq<(FactorId, M::Factor)>,
) -> Emission<M::Scalar> {
    |replies: Replies<M::Scalar>| model.linearize_spec(states, factors, replies)
}

/// An independent graph contribution, evaluated against the state storage `S`.
pub trait Factor<S: Readable> {
    /// Scalar of the cost, residuals and Jacobians.
    type Scalar: Real;

    spec fn variables_spec(&self) -> Seq<BlockId>;

    spec fn cost_spec(&self, states: S::Reading) -> Result<Self::Scalar, EvaluationError>;

    /// What is emitted against given states, as far as it is answered in the given way.
    spec fn linearize_spec(&self, states: S::Reading, replies: Replies<Self::Scalar>) -> Emitted<
        Self::Scalar,
    >;

    /// Append every variable this factor depends on.
    fn visit_variables(&self, visited: &mut Vec<BlockId>)
        ensures
            final(visited)@ == old(visited)@ + self.variables_spec(),
    ;

    /// Evaluate the nonnegative nonlinear objective without Jacobians.
    fn cost(&self, states: &S) -> (cost: Result<Self::Scalar, EvaluationError>)
        requires
            states.wf(),
        ensures
            cost == self.cost_spec(states.reading()),
    ;

    /// Emit residuals and Jacobians into a scope that the solver has opened.
    fn linearize<K: LinearizationSink<Scalar = Self::Scalar>>(
        &self,
        states: &S,
        sink: &mut K,
    ) -> (outcome: Result<(), EvaluationError>)
        requires
            states.wf(),
            old(sink).ready(),
        ensures
            final(sink).ready(),
            final(sink).received(
                old(sink),
                self.linearize_spec(states.reading(), old(sink).replies()).events,
            ),
            outcome == self.linearize_spec(states.reading(), old(sink).replies()).outcome,
    ;
}

/// Shared evaluation of independently identified factor payloads.
pub trait FactorBatch<S: Readable> {
    /// Scalar of the shared evaluator and its factors.
    type Scalar: Real;

    /// One factor's own data; inputs shared by a batch live in `Self`.
    type Factor;

    spec fn variables_spec(&self, factor: Self::Factor) -> Seq<BlockId>;

    spec fn cost_spec(&self, states: S::Reading, factors: Seq<(FactorId, Self::Factor)>) -> Result<
        Self::Scalar,
        EvaluationError,
    >;

    /// What is emitted against given states, as far as it is answered in the given way.
    spec fn linearize_spec(
        &self,
        states: S::Reading,
        factors: Seq<(FactorId, Self::Factor)>,
        replies: Replies<Self::Scalar>,
    ) -> Emitted<Self::Scalar>;

    /// Append every variable one factor depends on, shared inputs among them.
    fn visit_variables(&self, factor: &Self::Factor, visited: &mut Vec<BlockId>)
        ensures
            final(visited)@ == old(visited)@ + self.variables_spec(*factor),
    ;

    /// Sum the costs of the selected factors.
    fn cost(&self, states: &S, factors: FactorSelection<'_, Self::Factor>) -> (cost: Result<
        Self::Scalar,
        EvaluationError,
    >)
        requires
            states.wf(),
            factors.wf(),
        ensures
            cost == self.cost_spec(states.reading(), factors.remaining()),
    ;

    /// Emit the selected factors, each inside a scope of its own.
    fn linearize<K: LinearizationSink<Scalar = Self::Scalar>>(
        &self,
        states: &S,
        factors: FactorSelection<'_, Self::Factor>,
        sink: &mut K,
    ) -> (outcome: Result<(), EvaluationError>)
        requires
            states.wf(),
            factors.wf(),
            old(sink).ready(),
        ensures
            final(sink).ready(),
            final(sink).received(
                old(sink),
                self.linearize_spec(
                    states.reading(),
                    factors.remaining(),
                    old(sink).replies(),
                ).events,
            ),
            outcome == self.linearize_spec(
                states.reading(),
                factors.remaining(),
                old(sink).replies(),
            ).outcome,
    ;
}

/// Factor identities and payloads paired in order.
pub open spec fn identified<F>(pool: PoolId, keys: Seq<LocalKey>, values: Seq<F>) -> Seq<
    (FactorId, F),
> {
    Seq::new(
        values.len(),
        |i: int| (FactorId { raw: RawKey { pool, local: keys[i] } }, values[i]),
    )
}

/// A borrowed run of live factors of one batch, read from front to back.
pub struct FactorSelection<'a, F> {
    pub pool: PoolId,
    pub keys: &'a [LocalKey],
    pub values: &'a [F],
    pub position: usize,
}

impl<'a, F> FactorSelection<'a, F> {
    /// One identity per payload, and a read position within them.
    pub open spec fn wf(&self) -> bool {
        self.keys@.len() == self.values@.len() && self.position <= self.values@.len()
    }

    /// The factors still to be read, in order.
    pub open spec fn remaining(&self) -> Seq<(FactorId, F)> {
        identified(self.pool, self.keys@, self.values@).skip(self.position as int)
    }

    /// Select all of a run.
    pub fn contiguous(pool: PoolId, keys: &'a [LocalKey], values: &'a [F]) -> (selection: Self)
        requires
            keys@.len() == values@.len(),
        ensures
            selection.wf(),
            selection.remaining() == identified(pool, keys@, values@),
    {
        let selection = FactorSelection { pool, keys, values, position: 0 };
        assert(selection.remaining() =~= identified(pool, keys@, values@));
        selection
    }

    /// A selection of the same remaining factors.
    pub fn duplicate(&self) -> (other: Self)
        requires
            self.wf(),
        ensures
            other.wf(),
            other.remaining() == self.remaining(),
    {
        FactorSelection {
            pool: self.pool,
            keys: self.keys,
            values: self.values,
            position: self.position,
        }
    }

    /// Number of factors still to be read.
    pub fn len(&self) -> (n: usize)
        requires
            self.wf(),
        ensures
            n == self.remaining().len(),
    {
        self.values.len() - self.position
    }

    /// Whether nothing is left to read.
    pub fn is_empty(&self) -> (empty: bool)
        requires
            self.wf(),
        ensures
            empty == (self.remaining().len() == 0),
    {
        self.len() == 0
    }

    /// The remaining payloads at once, in the order in which they will be read.
    pub fn as_slice(&self) -> (payloads: &'a [F])
        requires
            self.wf(),
        ensures
            payloads@ == self.remaining().map_values(|factor: (FactorId, F)| factor.1),
    {
        let payloads = slice_subrange(self.values, self.position, self.values.len());
        assert(payloads@ =~= self.remaining().map_values(|factor: (FactorId, F)| factor.1));
        payloads
    }

    /// Read the next factor.
    pub fn next(&mut self) -> (factor: Option<(FactorId, &'a F)>)
        requires
            old(self).wf(),
        ensures
            final(self).wf(),
            match factor {
                Some((id, payload)) => {
                    &&& old(self).remaining().len() > 0
                    &&& old(self).remaining()[0] == (id, *payload)
                    &&& final(self).remaining() == old(self).remaining().skip(1)
                },
                None => old(self).remaining().len() == 0 && final(self).remaining()
                    == old(self).remaining(),
            },
    {
        let index: usize = self.position;
        if index == self.values.len() {
            return None;
        }
        self.position = index + 1;
        assert(self.remaining() =~= old(self).remaining().skip(1));
        Some(
            (
                FactorId { raw: RawKey { pool: self.pool, local: self.keys[index] } },
                &self.values[index],
            ),
        )
    }
}

} // verus!
