//! Homogeneous pools of variables, ordinary factors and batched factors.
use crate::dense::{lemma_swap_removed, swap_removed, DensePool, VACANT};
use crate::error::{EvaluationError, KeyError, SolverError};
use crate::index::KeySet;
use crate::factors::{identified, Factor, FactorBatch, FactorSelection};
use crate::key::{BatchKey, BlockId, FactorId, FactorKey, LocalKey, PoolId, RawKey, StateKey};
use crate::reading::Readable;
use crate::scalar::Real;
use crate::variable::{plain, right_retraction_spec, tangent, tangent_of, Variable};
use vstd::prelude::*;
use vstd::slice::slice_subrange;

verus! {

/// What an objective contribution counts as: nonfinite and negative values are
/// invalid evaluations.
pub open spec fn checked_cost_spec<R: Real>(result: Result<R, EvaluationError>) -> Result<
    R,
    SolverError,
> {
    match result {
        Err(error) => Err(SolverError::Evaluation(error)),
        Ok(cost) => if !cost.finite_spec() || cost.below_spec(R::zero_spec()) {
            Err(SolverError::Evaluation(EvaluationError::InvalidEvaluation))
        } else {
            Ok(cost)
        },
    }
}

/// Reject nonfinite and negative objective contributions.
pub fn checked_cost<R: Real>(result: Result<R, EvaluationError>) -> (cost: Result<R, SolverError>)
    ensures
        cost == checked_cost_spec(result),
{
    match result {
        Err(error) => Err(SolverError::Evaluation(error)),
        Ok(cost) => if !cost.is_finite() || cost.below(R::zero()) {
            Err(SolverError::Evaluation(EvaluationError::InvalidEvaluation))
        } else {
            Ok(cost)
        },
    }
}

/// Where a marginal prior meets one of the variables it constrains: the inverse of
/// the estimate at which the prior was built, and its first column.
pub struct Anchor<T> {
    pub prior: RawKey,
    pub state: RawKey,
    pub column: usize,
    pub inverse: T,
}

/// All variables of one type, with room for one tentative set of estimates.
pub struct StatePool<T: Variable> {
    pub entries: DensePool<T>,
    pub trial: Vec<T>,
    pub trial_active: bool,
    pub anchors: Vec<Anchor<T>>,
}

/// Estimates moved by consecutive slices of an increment, one slice each.
pub open spec fn retracted<T: Variable>(values: Seq<T>, delta: Seq<T::Scalar>) -> Seq<T> {
    Seq::new(
        values.len(),
        |i: int|
            values[i].retract_spec(
                tangent_of::<T>(delta.subrange(i * T::dof_spec(), (i + 1) * T::dof_spec())),
            ),
    )
}

/// Estimates of a type that keeps to the plain forms move by right-side increments: estimate `i`
/// becomes `x * exp(delta)` of its own slice.
pub proof fn lemma_retracted_right<T: Variable>(values: Seq<T>, delta: Seq<T::Scalar>, i: int)
    requires
        plain::<T>(),
        0 <= i < values.len(),
        delta.len() == values.len() * T::dof_spec(),
    ensures
        retracted(values, delta)[i] == right_retraction_spec(
            values[i],
            delta.subrange(i * T::dof_spec(), (i + 1) * T::dof_spec()),
        ),
{
    lemma_slice(i, values.len() as int, T::dof_spec() as int);
}

impl<T: Variable> StatePool<T> {
    /// Sound storage, and while a trial is staged one tentative estimate per variable.
    pub open spec fn wf(&self) -> bool {
        &&& self.entries.wf()
        &&& self.trial_active ==> self.trial@.len() == self.entries.values@.len()
    }

    /// The estimates that readers see: the staged ones while a trial is active.
    pub open spec fn current(&self) -> Seq<T> {
        if self.trial_active {
            self.trial@
        } else {
            self.entries.values@
        }
    }

    /// The identity of the variable at a dense position.
    pub open spec fn block(&self, index: int) -> BlockId {
        BlockId { raw: RawKey { pool: self.entries.id, local: self.entries.keys@[index] } }
    }

    /// The storage apart from estimates: identities and anchors are those of `other`.
    pub open spec fn same_identities(&self, other: &Self) -> bool {
        &&& self.entries.id == other.entries.id
        &&& self.entries.keys@ == other.entries.keys@
        &&& self.entries.slots@ == other.entries.slots@
        &&& self.entries.free_slots@ == other.entries.free_slots@
        &&& self.anchors@ == other.anchors@
    }

    /// An empty pool under the given identity.
    pub fn new(id: PoolId) -> (pool: Self)
        ensures
            pool.wf(),
            !pool.trial_active,
            pool.entries.id == id,
            pool.entries.keys@ == Seq::<LocalKey>::empty(),
            pool.entries.values@ == Seq::<T>::empty(),
            pool.entries.slots@.len() == 0,
            pool.entries.free_slots@.len() == 0,
            pool.anchors@ == Seq::<Anchor<T>>::empty(),
    {
        StatePool {
            entries: DensePool::new(id),
            trial: Vec::new(),
            trial_active: false,
            anchors: Vec::new(),
        }
    }

    /// Borrow the current estimate behind a handle.
    pub fn get(&self, key: StateKey<T>) -> (found: Result<&T, KeyError>)
        requires
            self.wf(),
        ensures
            match found {
                Ok(value) => {
                    &&& self.entries.lookup(key.raw) is Ok
                    &&& *value == self.current()[self.entries.lookup(key.raw)->Ok_0]
                },
                Err(error) => self.entries.lookup(key.raw) == Err::<int, KeyError>(error),
            },
    {
        match self.entries.index(key.raw) {
            Ok(index) => if self.trial_active {
                Ok(&self.trial[index])
            } else {
                Ok(&self.entries.values[index])
            },
            Err(error) => Err(error),
        }
    }

    /// Replace the accepted estimate behind a handle. The handle, every other
    /// estimate and all prior anchors stay as they are.
    pub fn set(&mut self, key: StateKey<T>, value: T) -> (replaced: Result<(), KeyError>)
        requires
            old(self).wf(),
            !old(self).trial_active,
        ensures
            final(self).wf(),
            !final(self).trial_active,
            final(self).same_identities(old(self)),
            match replaced {
                Ok(_) => {
                    &&& old(self).entries.lookup(key.raw) is Ok
                    &&& final(self).entries.values@ == old(self).entries.values@.update(
                        old(self).entries.lookup(key.raw)->Ok_0,
                        value,
                    )
                },
                Err(error) => {
                    &&& old(self).entries.lookup(key.raw) == Err::<int, KeyError>(error)
                    &&& final(self).entries.values@ == old(self).entries.values@
                },
            },
    {
        match self.entries.index(key.raw) {
            Ok(index) => {
                self.entries.values.set(index, value);
                Ok(())
            },
            Err(error) => Err(error),
        }
    }

    /// Reserve room for more variables; nothing stored changes.
    pub fn reserve(&mut self, additional: usize)
        requires
            old(self).wf(),
            old(self).entries.room(additional as int),
        ensures
            final(self).wf(),
            final(self).same_identities(old(self)),
            final(self).entries.values@ == old(self).entries.values@,
            final(self).trial == old(self).trial,
            final(self).trial_active == old(self).trial_active,
    {
        self.entries.reserve(additional);
    }

    /// Store a variable under a fresh handle.
    pub fn insert(&mut self, value: T) -> (key: StateKey<T>)
        requires
            old(self).wf(),
            !old(self).trial_active,
            old(self).entries.room(1),
        ensures
            final(self).wf(),
            !final(self).trial_active,
            final(self).entries.id == old(self).entries.id,
            final(self).entries.values@ == old(self).entries.values@.push(value),
            final(self).entries.keys@ == old(self).entries.keys@.push(key.raw.local),
            final(self).anchors@ == old(self).anchors@,
            key.raw == (RawKey {
                pool: old(self).entries.id,
                local: old(self).entries.next_local(),
            }),
            !old(self).entries.live(key.raw.local),
            !old(self).entries.retired(key.raw.local),
            final(self).entries.slots_taken(&old(self).entries),
            forall|local: LocalKey|
                old(self).entries.retired(local) ==> final(self).entries.retired(local),
    {
        StateKey::from_raw(self.entries.insert(value))
    }

    /// Take a variable out of storage. Factors that refer to it are the caller's concern.
    pub fn remove(&mut self, key: StateKey<T>) -> (removed: Result<T, KeyError>)
        requires
            old(self).wf(),
            !old(self).trial_active,
        ensures
            final(self).wf(),
            !final(self).trial_active,
            final(self).entries.id == old(self).entries.id,
            final(self).anchors@ == old(self).anchors@,
            forall|local: LocalKey|
                old(self).entries.retired(local) ==> final(self).entries.retired(local),
            match removed {
                Ok(value) => {
                    let index = old(self).entries.lookup(key.raw)->Ok_0;
                    &&& old(self).entries.lookup(key.raw) is Ok
                    &&& value == old(self).entries.values@[index]
                    &&& final(self).entries.values@ == swap_removed(
                        old(self).entries.values@,
                        index,
                    )
                    &&& final(self).entries.keys@ == swap_removed(old(self).entries.keys@, index)
                    &&& final(self).entries.retired(key.raw.local)
                    &&& final(self).entries.slots_freed(&old(self).entries, key.raw.local)
                },
                Err(error) => {
                    &&& old(self).entries.lookup(key.raw) == Err::<int, KeyError>(error)
                    &&& final(self).entries == old(self).entries
                },
            },
    {
        self.entries.remove(key.raw)
    }

    /// Live variables and their identities in dense order.
    pub fn iter(&self) -> (states: Vec<(BlockId, &T)>)
        requires
            self.wf(),
        ensures
            states@.len() == self.entries.keys@.len(),
            forall|i: int|
                0 <= i < states@.len() ==> (#[trigger] states@[i]).0 == self.block(i)
                    && *states@[i].1 == self.current()[i],
    {
        let mut states: Vec<(BlockId, &T)> = Vec::new();
        let mut i: usize = 0;
        while i < self.entries.keys.len()
            invariant
                self.wf(),
                i <= self.entries.keys@.len(),
                states@.len() == i,
                forall|j: int|
                    0 <= j < i ==> (#[trigger] states@[j]).0 == self.block(j) && *states@[j].1
                        == self.current()[j],
            decreases self.entries.keys@.len() - i,
        {
            let raw = RawKey { pool: self.entries.id, local: self.entries.keys[i] };
            let value = if self.trial_active {
                &self.trial[i]
            } else {
                &self.entries.values[i]
            };
            states.push((BlockId { raw }, value));
            i += 1;
        }
        states
    }

    /// What this pool knows of an identity: nothing if another pool issued it.
    pub open spec fn validate_spec(&self, id: BlockId) -> Option<Result<(), KeyError>> {
        if id.raw.pool != self.entries.id {
            None
        } else {
            match self.entries.lookup(id.raw) {
                Ok(_) => Some(Ok(())),
                Err(error) => Some(Err(error)),
            }
        }
    }

    /// Resolve an identity if this pool issued it.
    pub fn validate(&self, id: BlockId) -> (known: Option<Result<(), KeyError>>)
        requires
            self.wf(),
        ensures
            known == self.validate_spec(id),
    {
        if id.raw.pool != self.entries.id {
            return None;
        }
        match self.entries.index(id.raw) {
            Ok(_) => Some(Ok(())),
            Err(error) => Some(Err(error)),
        }
    }

    /// Drop any trial and make room for the next one.
    pub fn prepare_trial(&mut self)
        requires
            old(self).wf(),
        ensures
            final(self).wf(),
            !final(self).trial_active,
            final(self).entries == old(self).entries,
            final(self).anchors == old(self).anchors,
    {
        self.reject_trial();
        self.trial.reserve(self.entries.values.len());
    }

    /// Stage tentative estimates, each variable moved by its slice of the increment.
    ///
    /// The increment must hold exactly one coordinate per tangent dimension; otherwise
    /// nothing changes.
    pub fn stage(&mut self, delta: &[T::Scalar]) -> (staged: Result<(), EvaluationError>)
        requires
            old(self).wf(),
        ensures
            final(self).wf(),
            final(self).entries == old(self).entries,
            final(self).anchors == old(self).anchors,
            match staged {
                Ok(_) => {
                    &&& delta@.len() == old(self).entries.values@.len() * T::dof_spec()
                    &&& final(self).trial_active
                    &&& final(self).trial@ == retracted(old(self).entries.values@, delta@)
                },
                Err(error) => {
                    &&& delta@.len() != old(self).entries.values@.len() * T::dof_spec()
                    &&& error == EvaluationError::DimensionMismatch
                    &&& *final(self) == *old(self)
                },
            },
    {
        let dof: usize = T::dof();
        let count: usize = self.entries.values.len();
        let supplied: usize = delta.len();
        let expected: usize = match count.checked_mul(dof) {
            Some(expected) => expected,
            None => {
                return Err(EvaluationError::DimensionMismatch);
            },
        };
        if supplied != expected {
            return Err(EvaluationError::DimensionMismatch);
        }
        self.reject_trial();
        let mut index: usize = 0;
        let mut start: usize = 0;
        while index < count
            invariant
                self.entries == old(self).entries,
                self.anchors == old(self).anchors,
                self.entries.wf(),
                !self.trial_active,
                count == self.entries.values@.len(),
                dof == T::dof_spec(),
                supplied == delta@.len(),
                supplied == count * dof,
                index <= count,
                start == index * dof,
                self.trial@ == retracted(self.entries.values@, delta@).take(index as int),
            decreases count - index,
        {
            proof {
                lemma_slice(index as int, count as int, dof as int);
            }
            let increment = tangent::<T>(slice_subrange(delta, start, start + dof));
            self.trial.push(self.entries.values[index].retract(increment.as_slice()));
            proof {
                let all = retracted(self.entries.values@, delta@);
                assert(all.take(index as int + 1) =~= all.take(index as int).push(
                    all[index as int],
                ));
            }
            start = start + dof;
            index += 1;
        }
        assert(retracted(self.entries.values@, delta@).take(index as int) =~= retracted(
            self.entries.values@,
            delta@,
        ));
        self.trial_active = true;
        Ok(())
    }

    /// Make the staged estimates the accepted ones.
    pub fn accept_trial(&mut self)
        requires
            old(self).wf(),
        ensures
            final(self).wf(),
            !final(self).trial_active,
            final(self).same_identities(old(self)),
            final(self).entries.values@ == old(self).current(),
    {
        if self.trial_active {
            core::mem::swap(&mut self.entries.values, &mut self.trial);
            self.trial_active = false;
        }
    }

    /// Drop the staged estimates; the accepted ones are visible again.
    pub fn reject_trial(&mut self)
        requires
            old(self).wf(),
        ensures
            final(self).wf(),
            !final(self).trial_active,
            final(self).trial@.len() == 0,
            final(self).entries == old(self).entries,
            final(self).anchors == old(self).anchors,
    {
        self.trial_active = false;
        self.trial.clear();
    }
}

impl<T: Variable> StatePool<T> {
    /// Remove every variable whose identity is selected; the others keep their handles.
    pub fn remove_selected(&mut self, selected: &KeySet)
        requires
            old(self).wf(),
            !old(self).trial_active,
            selected.wf(),
        ensures
            final(self).wf(),
            !final(self).trial_active,
            final(self).anchors == old(self).anchors,
            final(self).entries.id == old(self).entries.id,
            final(self).entries.slots@.len() == old(self).entries.slots@.len(),
            final(self).entries.survives(&old(self).entries, selected@, 0),
    {
        self.entries.remove_selected(selected);
    }
}

/// All ordinary factors of one type.
pub struct FactorPool<T> {
    pub entries: DensePool<T>,
}

impl<T> FactorPool<T> {
    /// Sound storage.
    pub open spec fn wf(&self) -> bool {
        self.entries.wf()
    }

    /// The stored factors with their identities, in dense order.
    pub open spec fn factors(&self) -> Seq<(FactorId, T)> {
        identified(self.entries.id, self.entries.keys@, self.entries.values@)
    }

    /// An empty pool under the given identity.
    pub fn new(id: PoolId) -> (pool: Self)
        ensures
            pool.wf(),
            pool.entries.id == id,
            pool.factors() == Seq::<(FactorId, T)>::empty(),
            pool.entries.keys@ == Seq::<LocalKey>::empty(),
            pool.entries.values@ == Seq::<T>::empty(),
            pool.entries.slots@.len() == 0,
            pool.entries.free_slots@.len() == 0,
    {
        let pool = FactorPool { entries: DensePool::new(id) };
        assert(pool.factors() =~= Seq::<(FactorId, T)>::empty());
        pool
    }

    /// Reserve room for more factors; nothing stored changes.
    pub fn reserve(&mut self, additional: usize)
        requires
            old(self).wf(),
            old(self).entries.room(additional as int),
        ensures
            final(self).wf(),
            final(self).factors() == old(self).factors(),
            final(self).entries.slots@ == old(self).entries.slots@,
            final(self).entries.free_slots@ == old(self).entries.free_slots@,
    {
        self.entries.reserve(additional);
    }

    /// Store a factor under a fresh handle. Its variables are the caller's concern.
    pub fn insert(&mut self, factor: T) -> (key: FactorKey<T>)
        requires
            old(self).wf(),
            old(self).entries.room(1),
        ensures
            final(self).wf(),
            final(self).entries.id == old(self).entries.id,
            final(self).entries.values@ == old(self).entries.values@.push(factor),
            final(self).entries.keys@ == old(self).entries.keys@.push(key.raw.local),
            final(self).factors() == old(self).factors().push(
                (FactorId { raw: key.raw }, factor),
            ),
            key.raw == (RawKey {
                pool: old(self).entries.id,
                local: old(self).entries.next_local(),
            }),
            !old(self).entries.live(key.raw.local),
            !old(self).entries.retired(key.raw.local),
            final(self).entries.slots_taken(&old(self).entries),
            forall|local: LocalKey|
                old(self).entries.retired(local) ==> final(self).entries.retired(local),
    {
        let key = FactorKey::from_raw(self.entries.insert(factor));
        assert(self.factors() =~= old(self).factors().push((FactorId { raw: key.raw }, factor)));
        key
    }

    /// Stored factors with their identities, in dense order.
    pub fn iter(&self) -> (factors: Vec<(FactorId, &T)>)
        requires
            self.wf(),
        ensures
            factors@.len() == self.factors().len(),
            forall|i: int|
                0 <= i < factors@.len() ==> (#[trigger] factors@[i]).0 == self.factors()[i].0
                    && *factors@[i].1 == self.factors()[i].1,
    {
        let mut factors: Vec<(FactorId, &T)> = Vec::new();
        let mut i: usize = 0;
        while i < self.entries.keys.len()
            invariant
                self.wf(),
                i <= self.entries.keys@.len(),
                factors@.len() == i,
                forall|j: int|
                    0 <= j < i ==> (#[trigger] factors@[j]).0 == self.factors()[j].0
                        && *factors@[j].1 == self.factors()[j].1,
            decreases self.entries.keys@.len() - i,
        {
            let raw = RawKey { pool: self.entries.id, local: self.entries.keys[i] };
            factors.push((FactorId { raw }, &self.entries.values[i]));
            i += 1;
        }
        factors
    }

    /// What evaluating the factor behind a handle yields.
    pub open spec fn factor_cost_spec<S: Readable>(&self, states: S::Reading, key: FactorKey<T>) -> Result<
        T::Scalar,
        SolverError,
    > where T: Factor<S> {
        match self.entries.lookup(key.raw) {
            Err(error) => Err(SolverError::Key(error)),
            Ok(index) => checked_cost_spec(self.entries.values@[index].cost_spec(states)),
        }
    }

    /// Resolve a handle and evaluate that factor's cost.
    pub fn factor_cost<S: Readable>(&self, states: &S, key: FactorKey<T>) -> (cost: Result<
        T::Scalar,
        SolverError,
    >) where T: Factor<S>
        requires
            self.wf(),
            states.wf(),
        ensures
            cost == self.factor_cost_spec::<S>(states.reading(), key),
    {
        match self.entries.get(key.raw) {
            Err(error) => Err(SolverError::Key(error)),
            Ok(factor) => checked_cost(factor.cost(states)),
        }
    }

    /// Remove one factor; the last one stored moves into its place.
    pub fn remove_factor(&mut self, key: FactorKey<T>) -> (removed: Result<(), KeyError>)
        requires
            old(self).wf(),
        ensures
            final(self).wf(),
            final(self).entries.id == old(self).entries.id,
            final(self).entries.slots@.len() == old(self).entries.slots@.len(),
            forall|local: LocalKey|
                old(self).entries.retired(local) ==> final(self).entries.retired(local),
            match removed {
                Ok(_) => {
                    &&& old(self).entries.lookup(key.raw) is Ok
                    &&& final(self).factors() == swap_removed(
                        old(self).factors(),
                        old(self).entries.lookup(key.raw)->Ok_0,
                    )
                    &&& final(self).entries.retired(key.raw.local)
                    &&& final(self).entries.slots_freed(&old(self).entries, key.raw.local)
                    &&& forall|local: LocalKey|
                        local != key.raw.local ==> (final(self).entries.live(local)
                            <==> old(self).entries.live(local))
                },
                Err(error) => {
                    &&& old(self).entries.lookup(key.raw) == Err::<int, KeyError>(error)
                    &&& *final(self) == *old(self)
                },
            },
    {
        match self.entries.remove(key.raw) {
            Ok(_) => {
                assert(self.factors() =~= swap_removed(
                    old(self).factors(),
                    old(self).entries.lookup(key.raw)->Ok_0,
                ));
                Ok(())
            },
            Err(error) => Err(error),
        }
    }
}

impl<T> FactorPool<T> {
    /// Every factor stored here was stored before, unchanged.
    pub open spec fn keeps_factors(&self, before: &Self) -> bool {
        forall|local: LocalKey| #[trigger]
            self.entries.live(local) ==> {
                &&& before.entries.live(local)
                &&& self.entries.values@[self.entries.place(local)]
                    == before.entries.values@[before.entries.place(local)]
            }
    }

    /// Factors that were all listed before are kept.
    pub proof fn lemma_kept(&self, before: &Self)
        requires
            self.wf(),
            before.wf(),
            self.entries.id == before.entries.id,
            forall|i: int|
                0 <= i < self.factors().len() ==> before.factors().contains(
                    #[trigger] self.factors()[i],
                ),
        ensures
            self.keeps_factors(before),
    {
        assert forall|local: LocalKey| #[trigger] self.entries.live(local) implies {
            &&& before.entries.live(local)
            &&& self.entries.values@[self.entries.place(local)]
                == before.entries.values@[before.entries.place(local)]
        } by {
            self.entries.lemma_resident(local);
            let i = self.entries.place(local);
            assert(before.factors().contains(self.factors()[i]));
            let j = before.factors().index_of(self.factors()[i]);
            assert(before.factors()[j] == self.factors()[i]);
            before.entries.lemma_live_position(local, j);
        }
    }

    /// Remove every factor whose identity is selected; the others keep their handles.
    pub fn remove_selected(&mut self, selected: &KeySet)
        requires
            old(self).wf(),
            selected.wf(),
        ensures
            final(self).wf(),
            final(self).entries.id == old(self).entries.id,
            final(self).entries.slots@.len() == old(self).entries.slots@.len(),
            final(self).entries.survives(&old(self).entries, selected@, 0),
    {
        self.entries.remove_selected(selected);
    }
}

/// One shared model and the payloads evaluated with it.
pub struct Batch<B, P> {
    pub model: B,
    pub values: Vec<P>,
    pub keys: Vec<LocalKey>,
}

/// Where a payload lies: the slot of its batch, and its position there.
#[derive(Clone, Copy, PartialEq, Eq, Structural)]
pub struct FactorLocation {
    pub batch_slot: u32,
    pub dense_index: u32,
}

/// All batches of one model type and their payloads, the latter under identities of
/// their own.
pub struct BatchPool<B, P> {
    pub batches: DensePool<Batch<B, P>>,
    pub locations: DensePool<FactorLocation>,
}

impl<B, P> BatchPool<B, P> {
    /// Sound storage, in which payloads and directory entries point at each other.
    pub open spec fn wf(&self) -> bool {
        &&& self.batches.wf()
        &&& self.locations.wf()
        &&& forall|b: int|
            #![trigger self.batches.values@[b]]
            0 <= b < self.batches.values@.len() ==> self.batches.values@[b].values@.len()
                == self.batches.values@[b].keys@.len()
        &&& forall|b: int, i: int|
            #![trigger self.batches.values@[b].keys@[i]]
            0 <= b < self.batches.values@.len() && 0 <= i
                < self.batches.values@[b].keys@.len() ==> self.points_at(b, i)
        &&& forall|l: int|
            #![trigger self.locations.values@[l]]
            0 <= l < self.locations.values@.len() ==> self.located(l)
    }

    /// The identity of a payload resolves to that payload's place.
    pub open spec fn points_at(&self, b: int, i: int) -> bool {
        let local = self.batches.values@[b].keys@[i];
        &&& self.locations.resident(local)
        &&& self.locations.values@[self.locations.place(local)].batch_slot
            == self.batches.keys@[b].slot
        &&& self.locations.values@[self.locations.place(local)].dense_index == i
    }

    /// A directory entry names an occupied batch slot and a payload of that batch.
    pub open spec fn located(&self, l: int) -> bool {
        let place = self.locations.values@[l];
        let b = self.batches.slots@[place.batch_slot as int].dense_index as int;
        &&& place.batch_slot < self.batches.slots@.len()
        &&& b != VACANT
        &&& place.dense_index < self.batches.values@[b].keys@.len()
        &&& self.batches.values@[b].keys@[place.dense_index as int] == self.locations.keys@[l]
    }

    /// The batch that a live payload belongs to.
    pub open spec fn batch_of(&self, l: int) -> int {
        self.batches.slots@[self.locations.values@[l].batch_slot as int].dense_index as int
    }

    /// The payloads of the batch at a dense position, with their identities, in order.
    pub open spec fn selection(&self, b: int) -> Seq<(FactorId, P)> {
        identified(
            self.locations.id,
            self.batches.values@[b].keys@,
            self.batches.values@[b].values@,
        )
    }

    /// An empty family; the two identities keep batches and payloads apart.
    pub fn new(batches: PoolId, factors: PoolId) -> (pool: Self)
        ensures
            pool.wf(),
            pool.batches.id == batches,
            pool.locations.id == factors,
            pool.batches.values@.len() == 0,
            pool.batches.slots@.len() == 0,
            pool.batches.free_slots@.len() == 0,
            pool.locations.values@.len() == 0,
            pool.locations.slots@.len() == 0,
            pool.locations.free_slots@.len() == 0,
    {
        BatchPool { batches: DensePool::new(batches), locations: DensePool::new(factors) }
    }

    /// Distinct payloads have distinct directory entries, so no batch outgrows the
    /// directory.
    proof fn lemma_batch_len(&self, b: int)
        requires
            self.wf(),
            0 <= b < self.batches.values@.len(),
        ensures
            self.batches.values@[b].keys@.len() <= self.locations.keys@.len(),
    {
        let mine = self.batches.values@[b].keys@;
        let all = self.locations.keys@;
        assert forall|i: int, j: int| 0 <= i < j < mine.len() implies mine[i] != mine[j] by {
            assert(self.points_at(b, i));
            assert(self.points_at(b, j));
        }
        assert(mine.no_duplicates());
        assert forall|local: LocalKey| mine.to_set().contains(local) implies all.to_set().contains(
            local,
        ) by {
            let i = mine.index_of(local);
            assert(mine[i] == local);
            assert(self.points_at(b, i));
            self.locations.lemma_resident(local);
            assert(all[self.locations.place(local)] == local);
        }
        mine.unique_seq_to_set();
        all.lemma_cardinality_of_set();
        vstd::seq_lib::seq_to_set_is_finite(all);
        vstd::set_lib::lemma_len_subset(mine.to_set(), all.to_set());
    }

    /// Reserve room for more batches; nothing stored changes.
    pub fn reserve(&mut self, additional: usize)
        requires
            old(self).wf(),
            old(self).batches.room(additional as int),
        ensures
            final(self).wf(),
            final(self).locations == old(self).locations,
            final(self).batches.id == old(self).batches.id,
            final(self).batches.values@ == old(self).batches.values@,
            final(self).batches.keys@ == old(self).batches.keys@,
            final(self).batches.slots@ == old(self).batches.slots@,
            final(self).batches.free_slots@ == old(self).batches.free_slots@,
    {
        self.batches.reserve(additional);
        proof {
            assert forall|b: int, i: int|
                #![trigger self.batches.values@[b].keys@[i]]
                0 <= b < self.batches.values@.len() && 0 <= i
                    < self.batches.values@[b].keys@.len() implies self.points_at(b, i) by {
                assert(old(self).points_at(b, i));
            }
            assert forall|l: int|
                #![trigger self.locations.values@[l]]
                0 <= l < self.locations.values@.len() implies self.located(l) by {
                assert(old(self).located(l));
            }
        }
    }

    /// Start an empty batch.
    pub fn insert_batch(&mut self, model: B) -> (key: BatchKey<B>)
        requires
            old(self).wf(),
            old(self).batches.room(1),
        ensures
            final(self).wf(),
            final(self).locations == old(self).locations,
            final(self).batches.id == old(self).batches.id,
            final(self).batches.keys@ == old(self).batches.keys@.push(key.raw.local),
            final(self).batches.values@.drop_last() == old(self).batches.values@,
            final(self).batches.values@.last().model == model,
            final(self).selection(old(self).batches.values@.len() as int) == Seq::<
                (FactorId, P),
            >::empty(),
            key.raw == (RawKey {
                pool: old(self).batches.id,
                local: old(self).batches.next_local(),
            }),
            !old(self).batches.live(key.raw.local),
            !old(self).batches.retired(key.raw.local),
            final(self).batches.slots_taken(&old(self).batches),
            forall|local: LocalKey|
                old(self).batches.retired(local) ==> final(self).batches.retired(local),
    {
        let key = BatchKey::from_raw(
            self.batches.insert(Batch { model, values: Vec::new(), keys: Vec::new() }),
        );
        proof {
            let count = old(self).batches.values@.len();
            assert(self.batches.values@.drop_last() =~= old(self).batches.values@);
            assert(self.selection(count as int) =~= Seq::<(FactorId, P)>::empty());
            assert forall|b: int, i: int|
                #![trigger self.batches.values@[b].keys@[i]]
                0 <= b < self.batches.values@.len() && 0 <= i
                    < self.batches.values@[b].keys@.len() implies self.points_at(b, i) by {
                assert(b < count);
                assert(self.batches.values@[b] == old(self).batches.values@[b]);
                assert(old(self).points_at(b, i));
            }
            assert forall|l: int|
                #![trigger self.locations.values@[l]]
                0 <= l < self.locations.values@.len() implies self.located(l) by {
                assert(old(self).located(l));
                let b = old(self).batch_of(l);
                assert(old(self).batches.keys@[b].slot
                    == self.locations.values@[l].batch_slot);
                assert(self.batches.keys@[b] == old(self).batches.keys@[b]);
                assert(self.batches.values@[b] == old(self).batches.values@[b]);
            }
        }
        key
    }

    /// Borrow the shared model of a batch.
    pub fn model(&self, batch: BatchKey<B>) -> (found: Result<&B, KeyError>)
        requires
            self.wf(),
        ensures
            match found {
                Ok(model) => {
                    &&& self.batches.lookup(batch.raw) is Ok
                    &&& *model == self.batches.values@[self.batches.lookup(batch.raw)->Ok_0].model
                },
                Err(error) => self.batches.lookup(batch.raw) == Err::<int, KeyError>(error),
            },
    {
        match self.batches.get(batch.raw) {
            Ok(batch) => Ok(&batch.model),
            Err(error) => Err(error),
        }
    }

    /// The pool differs from `other` in nothing that a reader can see.
    pub open spec fn same_contents(&self, other: &Self) -> bool {
        &&& self.batches.id == other.batches.id
        &&& self.batches.keys@ == other.batches.keys@
        &&& self.batches.slots@ == other.batches.slots@
        &&& self.batches.free_slots@ == other.batches.free_slots@
        &&& self.batches.values@.len() == other.batches.values@.len()
        &&& forall|b: int|
            #![trigger self.batches.values@[b]]
            0 <= b < self.batches.values@.len() ==> {
                &&& self.batches.values@[b].model == other.batches.values@[b].model
                &&& self.batches.values@[b].keys@ == other.batches.values@[b].keys@
                &&& self.batches.values@[b].values@ == other.batches.values@[b].values@
            }
        &&& self.locations.id == other.locations.id
        &&& self.locations.keys@ == other.locations.keys@
        &&& self.locations.values@ == other.locations.values@
        &&& self.locations.slots@ == other.locations.slots@
        &&& self.locations.free_slots@ == other.locations.free_slots@
    }

    pub proof fn lemma_same_contents_reflexive(&self)
        ensures
            self.same_contents(self),
    {
    }

    pub proof fn lemma_same_contents_transitive(a: &Self, b: &Self, c: &Self)
        requires
            a.same_contents(b),
            b.same_contents(c),
        ensures
            a.same_contents(c),
    {
    }

    /// Soundness depends on visible contents only.
    pub proof fn lemma_same_contents_wf(&self, other: &Self)
        requires
            other.wf(),
            self.same_contents(other),
            self.batches.wf(),
            self.locations.wf(),
        ensures
            self.wf(),
    {
        assert forall|b: int|
            #![trigger self.batches.values@[b]]
            0 <= b < self.batches.values@.len() implies self.batches.values@[b].values@.len()
            == self.batches.values@[b].keys@.len() by {
            assert(other.batches.values@[b].values@.len() == other.batches.values@[b].keys@.len());
        }
        assert forall|b: int, i: int|
            #![trigger self.batches.values@[b].keys@[i]]
            0 <= b < self.batches.values@.len() && 0 <= i
                < self.batches.values@[b].keys@.len() implies self.points_at(b, i) by {
            assert(self.batches.values@[b].keys@ == other.batches.values@[b].keys@);
            assert(other.batches.values@[b].keys@[i] == self.batches.values@[b].keys@[i]);
            assert(other.points_at(b, i));
        }
        assert forall|l: int|
            #![trigger self.locations.values@[l]]
            0 <= l < self.locations.values@.len() implies self.located(l) by {
            assert(other.locations.values@[l] == self.locations.values@[l]);
            assert(other.located(l));
            let b = other.batch_of(l);
            assert(self.batches.values@[b].keys@ == other.batches.values@[b].keys@);
        }
    }

    /// Reserve room for more payloads of one batch; nothing stored changes.
    pub fn reserve_factors(&mut self, batch: BatchKey<B>, additional: usize) -> (reserved: Result<
        (),
        KeyError,
    >)
        requires
            old(self).wf(),
            old(self).locations.room(additional as int),
        ensures
            final(self).wf(),
            final(self).same_contents(old(self)),
            match reserved {
                Ok(_) => old(self).batches.lookup(batch.raw) is Ok,
                Err(error) => old(self).batches.lookup(batch.raw) == Err::<int, KeyError>(error),
            },
    {
        let index: usize = match self.batches.index(batch.raw) {
            Ok(index) => index,
            Err(error) => {
                return Err(error);
            },
        };
        self.locations.reserve(additional);
        self.batches.values[index].values.reserve(additional);
        self.batches.values[index].keys.reserve(additional);
        proof {
            self.lemma_same_contents_wf(old(self));
        }
        Ok(())
    }

    /// Add a payload to a batch. Its variables are the caller's concern.
    pub fn insert_into(&mut self, key: BatchKey<B>, factor: P) -> (inserted: Result<
        FactorKey<P>,
        KeyError,
    >)
        requires
            old(self).wf(),
            old(self).locations.room(1),
        ensures
            final(self).wf(),
            final(self).batches.id == old(self).batches.id,
            final(self).locations.id == old(self).locations.id,
            final(self).batches.keys@ == old(self).batches.keys@,
            final(self).batches.slots@ == old(self).batches.slots@,
            final(self).batches.free_slots@ == old(self).batches.free_slots@,
            final(self).batches.values@.len() == old(self).batches.values@.len(),
            forall|b: int|
                0 <= b < old(self).batches.values@.len() ==> (
                #[trigger] final(self).batches.values@[b]).model
                    == old(self).batches.values@[b].model,
            match inserted {
                Ok(handle) => {
                    let b = old(self).batches.lookup(key.raw)->Ok_0;
                    &&& old(self).batches.lookup(key.raw) is Ok
                    &&& handle.raw == (RawKey {
                        pool: old(self).locations.id,
                        local: old(self).locations.next_local(),
                    })
                    &&& !old(self).locations.live(handle.raw.local)
                    &&& !old(self).locations.retired(handle.raw.local)
                    &&& final(self).locations.slots_taken(&old(self).locations)
                    &&& final(self).selection(b) == old(self).selection(b).push(
                        (FactorId { raw: handle.raw }, factor),
                    )
                    &&& forall|other: int|
                        0 <= other < old(self).batches.values@.len() && other != b
                            ==> #[trigger] final(self).selection(other) == old(self).selection(
                            other,
                        )
                    &&& final(self).locations.keys@ == old(self).locations.keys@.push(
                        handle.raw.local,
                    )
                    &&& forall|local: LocalKey|
                        old(self).locations.retired(local) ==> final(self).locations.retired(local)
                },
                Err(error) => {
                    &&& old(self).batches.lookup(key.raw) == Err::<int, KeyError>(error)
                    &&& final(self).same_contents(old(self))
                },
            },
    {
        match self.reserve_factors(key, 1) {
            Ok(_) => {},
            Err(error) => {
                return Err(error);
            },
        }
        let ghost before = *self;
        let index: usize = match self.batches.index(key.raw) {
            Ok(index) => index,
            Err(error) => {
                return Err(error);
            },
        };
        proof {
            self.lemma_batch_len(index as int);
            assert(self.batches.values@[index as int].values@.len()
                == self.batches.values@[index as int].keys@.len());
            assert(self.batches.keys@[index as int] == key.raw.local);
        }
        let place = FactorLocation {
            batch_slot: key.raw.local.slot,
            dense_index: self.batches.values[index].values.len() as u32,
        };
        let raw = self.locations.insert(place);
        self.batches.values[index].values.push(factor);
        self.batches.values[index].keys.push(raw.local);
        proof {
            let b = index as int;
            let count = before.batches.values@[b].keys@.len();
            let fresh = before.locations.keys@.len() as int;
            assert(self.batches.values@[b].keys@ == before.batches.values@[b].keys@.push(
                raw.local,
            ));
            assert forall|other: int|
                0 <= other < before.batches.values@.len() && other != b implies
                #[trigger] self.batches.values@[other] == before.batches.values@[other] by {}
            assert forall|c: int, i: int|
                #![trigger self.batches.values@[c].keys@[i]]
                0 <= c < self.batches.values@.len() && 0 <= i
                    < self.batches.values@[c].keys@.len() implies self.points_at(c, i) by {
                if c == b && i == count {
                    assert(self.locations.keys@[fresh] == raw.local);
                } else {
                    let local = before.batches.values@[c].keys@[i];
                    assert(self.batches.values@[c].keys@[i] == local);
                    assert(before.points_at(c, i));
                    before.locations.lemma_resident(local);
                    let l = before.locations.place(local);
                    assert(self.locations.keys@[l] == before.locations.keys@[l]);
                    assert(self.locations.values@[l] == before.locations.values@[l]);
                }
            }
            assert forall|l: int|
                #![trigger self.locations.values@[l]]
                0 <= l < self.locations.values@.len() implies self.located(l) by {
                if l == fresh {
                    assert(self.locations.values@[l] == place);
                    assert(self.batches.slots@[place.batch_slot as int].dense_index == b);
                } else {
                    assert(self.locations.values@[l] == before.locations.values@[l]);
                    assert(self.locations.keys@[l] == before.locations.keys@[l]);
                    assert(before.located(l));
                    let c = before.batch_of(l);
                    assert(before.batches.values@[c].keys@[before.locations.values@[l].dense_index as int]
                        == self.batches.values@[c].keys@[before.locations.values@[l].dense_index as int]);
                }
            }
            assert(self.selection(b) =~= old(self).selection(b).push(
                (FactorId { raw }, factor),
            ));
            assert forall|other: int|
                0 <= other < old(self).batches.values@.len() && other != b implies
                #[trigger] self.selection(other) == old(self).selection(other) by {
                assert(self.batches.values@[other] == before.batches.values@[other]);
                assert(self.selection(other) =~= old(self).selection(other));
            }
        }
        Ok(FactorKey::from_raw(raw))
    }

    /// The payload stored under a live identity.
    pub open spec fn payload(&self, local: LocalKey) -> P {
        let l = self.locations.place(local);
        self.batches.values@[self.batch_of(l)].values@[self.locations.values@[l].dense_index as int]
    }

    /// The model that a live payload is evaluated with.
    pub open spec fn model_of(&self, local: LocalKey) -> B {
        self.batches.values@[self.batch_of(self.locations.place(local))].model
    }

    /// Batches in dense order: handle, model and all payloads of each.
    pub fn iter(&self) -> (batches: Vec<(BatchKey<B>, &B, FactorSelection<'_, P>)>)
        requires
            self.wf(),
        ensures
            batches@.len() == self.batches.values@.len(),
            forall|b: int|
                0 <= b < batches@.len() ==> {
                    &&& (#[trigger] batches@[b]).0.raw == (RawKey {
                        pool: self.batches.id,
                        local: self.batches.keys@[b],
                    })
                    &&& *batches@[b].1 == self.batches.values@[b].model
                    &&& batches@[b].2.wf()
                    &&& batches@[b].2.remaining() == self.selection(b)
                },
    {
        let mut batches: Vec<(BatchKey<B>, &B, FactorSelection<'_, P>)> = Vec::new();
        let mut b: usize = 0;
        while b < self.batches.values.len()
            invariant
                self.wf(),
                b <= self.batches.values@.len(),
                batches@.len() == b,
                forall|c: int|
                    0 <= c < b ==> {
                        &&& (#[trigger] batches@[c]).0.raw == (RawKey {
                            pool: self.batches.id,
                            local: self.batches.keys@[c],
                        })
                        &&& *batches@[c].1 == self.batches.values@[c].model
                        &&& batches@[c].2.wf()
                        &&& batches@[c].2.remaining() == self.selection(c)
                    },
            decreases self.batches.values@.len() - b,
        {
            let batch = &self.batches.values[b];
            let key = BatchKey::from_raw(
                RawKey { pool: self.batches.id, local: self.batches.keys[b] },
            );
            let selection = FactorSelection::contiguous(
                self.locations.id,
                batch.keys.as_slice(),
                batch.values.as_slice(),
            );
            batches.push((key, &batch.model, selection));
            b += 1;
        }
        batches
    }

    /// What evaluating the payload behind a handle yields.
    pub open spec fn factor_cost_spec<S: Readable>(&self, states: S::Reading, key: FactorKey<P>) -> Result<
        B::Scalar,
        SolverError,
    > where B: FactorBatch<S, Factor = P> {
        match self.locations.lookup(key.raw) {
            Err(error) => Err(SolverError::Key(error)),
            Ok(_) => checked_cost_spec(
                self.model_of(key.raw.local).cost_spec(
                    states,
                    seq![(FactorId { raw: key.raw }, self.payload(key.raw.local))],
                ),
            ),
        }
    }

    /// Resolve a handle and evaluate that payload alone, through its batch's model.
    pub fn factor_cost<S: Readable>(&self, states: &S, key: FactorKey<P>) -> (cost: Result<
        B::Scalar,
        SolverError,
    >) where B: FactorBatch<S, Factor = P>
        requires
            self.wf(),
            states.wf(),
        ensures
            cost == self.factor_cost_spec::<S>(states.reading(), key),
    {
        let l: usize = match self.locations.index(key.raw) {
            Err(error) => {
                return Err(SolverError::Key(error));
            },
            Ok(l) => l,
        };
        let location = self.locations.values[l];
        proof {
            self.locations.lemma_live_position(key.raw.local, l as int);
            assert(self.located(l as int));
        }
        let batch = self.batches.at_slot(location.batch_slot);
        let index: usize = location.dense_index as usize;
        assert(batch.keys@.len() == batch.keys.len());
        let selection = FactorSelection::contiguous(
            self.locations.id,
            slice_subrange(batch.keys.as_slice(), index, index + 1),
            slice_subrange(batch.values.as_slice(), index, index + 1),
        );
        assert(selection.remaining() =~= seq![
            (FactorId { raw: key.raw }, self.payload(key.raw.local)),
        ]);
        checked_cost(batch.model.cost(states, selection))
    }

    /// The slot of the batch in which a live payload lies.
    pub open spec fn slot_of(&self, local: LocalKey) -> u32 {
        self.locations.values@[self.locations.place(local)].batch_slot
    }

    /// Every payload stored here was stored before, unchanged and in the same batch.
    pub open spec fn keeps_payloads(&self, before: &Self) -> bool {
        forall|local: LocalKey| #[trigger]
            self.locations.live(local) ==> {
                &&& before.locations.live(local)
                &&& self.payload(local) == before.payload(local)
                &&& self.model_of(local) == before.model_of(local)
                &&& self.slot_of(local) == before.slot_of(local)
            }
    }

    /// The same batches are open, under the same handles and with the same models.
    pub open spec fn same_batches(&self, before: &Self) -> bool {
        &&& self.batches.id == before.batches.id
        &&& self.batches.keys@ == before.batches.keys@
        &&& self.batches.slots@ == before.batches.slots@
        &&& self.batches.free_slots@ == before.batches.free_slots@
        &&& self.batches.values@.len() == before.batches.values@.len()
        &&& forall|b: int|
            0 <= b < before.batches.values@.len() ==> (#[trigger] self.batches.values@[b]).model
                == before.batches.values@[b].model
    }

    /// All batches but one are open as before, each with its model and its payloads.
    pub open spec fn other_batches(&self, before: &Self, gone: LocalKey) -> bool {
        &&& self.batches.id == before.batches.id
        &&& forall|local: LocalKey| #[trigger]
            self.batches.live(local) <==> before.batches.live(local) && local != gone
        &&& forall|local: LocalKey| #[trigger]
            self.batches.live(local) ==> self.batches.values@[self.batches.place(local)]
                == before.batches.values@[before.batches.place(local)]
        &&& forall|local: LocalKey|
            before.batches.retired(local) ==> self.batches.retired(local)
    }

    /// A new batch leaves all payloads as they are.
    pub proof fn lemma_batch_added(&self, before: &Self, key: LocalKey)
        requires
            before.wf(),
            self.wf(),
            self.locations == before.locations,
            self.batches.keys@ == before.batches.keys@.push(key),
            self.batches.values@.drop_last() == before.batches.values@,
        ensures
            self.keeps_payloads(before),
            before.keeps_payloads(self),
    {
        assert forall|local: LocalKey| #[trigger] self.locations.live(local) implies {
            &&& self.payload(local) == before.payload(local)
            &&& self.model_of(local) == before.model_of(local)
        } by {
            self.locations.lemma_resident(local);
            let l = self.locations.place(local);
            assert(before.located(l));
            assert(self.located(l));
            let b = before.batch_of(l);
            assert(before.batches.keys@[b].slot == self.locations.values@[l].batch_slot);
            assert(self.batches.keys@[b] == before.batches.keys@[b]);
            assert(self.batches.values@.drop_last()[b] == before.batches.values@[b]);
            assert(self.batches.slots@[self.batches.keys@[b].slot as int].dense_index == b);
        }
    }

    /// A new payload leaves all others as they are.
    pub proof fn lemma_payload_added(&self, before: &Self, at: int, id: FactorId, factor: P)
        requires
            before.wf(),
            self.wf(),
            self.batches.id == before.batches.id,
            self.locations.id == before.locations.id,
            self.batches.keys@ == before.batches.keys@,
            self.batches.slots@ == before.batches.slots@,
            self.batches.values@.len() == before.batches.values@.len(),
            forall|b: int|
                0 <= b < before.batches.values@.len() ==> (#[trigger] self.batches.values@[b]).model
                    == before.batches.values@[b].model,
            0 <= at < before.batches.values@.len(),
            self.selection(at) == before.selection(at).push((id, factor)),
            forall|other: int|
                0 <= other < before.batches.values@.len() && other != at
                    ==> #[trigger] self.selection(other) == before.selection(other),
            self.locations.keys@ == before.locations.keys@.push(id.raw.local),
            id.raw.pool == before.locations.id,
            !before.locations.live(id.raw.local),
        ensures
            before.keeps_payloads(self),
            self.locations.live(id.raw.local),
            self.payload(id.raw.local) == factor,
            self.model_of(id.raw.local) == before.batches.values@[at].model,
            forall|local: LocalKey| #[trigger]
                self.locations.live(local) ==> before.locations.live(local) || local
                    == id.raw.local,
    {
        assert forall|local: LocalKey| #[trigger] before.locations.live(local) implies {
            &&& self.locations.live(local)
            &&& before.payload(local) == self.payload(local)
            &&& before.model_of(local) == self.model_of(local)
            &&& before.slot_of(local) == self.slot_of(local)
        } by {
            before.locations.lemma_resident(local);
            let l = before.locations.place(local);
            assert(before.located(l));
            let b = before.batch_of(l);
            let i = before.locations.values@[l].dense_index as int;
            assert(before.batches.values@[b].values@.len()
                == before.batches.values@[b].keys@.len());
            assert(before.batches.keys@[b].slot == before.locations.values@[l].batch_slot);
            self.lemma_place(before, at, id, factor, b, i, local);
        }
        let i = before.batches.values@[at].keys@.len() as int;
        assert(before.batches.values@[at].values@.len() == i);
        assert(self.batches.values@[at].values@.len() == self.batches.values@[at].keys@.len());
        assert(self.selection(at).len() == self.batches.values@[at].keys@.len());
        assert(before.selection(at).len() == i);
        assert(self.selection(at)[i] == (id, factor));
        assert(self.batches.values@[at].keys@[i] == id.raw.local);
        assert(self.points_at(at, i));
        self.locations.lemma_resident(id.raw.local);
        assert(self.batches.slots@[self.batches.keys@[at].slot as int].dense_index == at);
        assert forall|local: LocalKey| #[trigger] self.locations.live(local) implies
            before.locations.live(local) || local == id.raw.local by {
            let k = self.locations.keys@.index_of(local);
            assert(self.locations.keys@[k] == local);
            if k < before.locations.keys@.len() {
                assert(before.locations.keys@[k] == local);
            }
        }
    }

    /// Where a payload lies after another was added behind it.
    proof fn lemma_place(
        &self,
        before: &Self,
        at: int,
        id: FactorId,
        factor: P,
        b: int,
        i: int,
        local: LocalKey,
    )
        requires
            before.wf(),
            self.wf(),
            self.locations.id == before.locations.id,
            self.batches.keys@ == before.batches.keys@,
            self.batches.slots@ == before.batches.slots@,
            self.batches.values@.len() == before.batches.values@.len(),
            self.batches.values@[b].model == before.batches.values@[b].model,
            0 <= b < before.batches.values@.len(),
            0 <= i < before.batches.values@[b].keys@.len(),
            before.batches.values@[b].keys@[i] == local,
            self.selection(at) == before.selection(at).push((id, factor)),
            b != at ==> self.selection(b) == before.selection(b),
        ensures
            self.locations.live(local),
            self.payload(local) == before.batches.values@[b].values@[i],
            self.model_of(local) == before.batches.values@[b].model,
            self.slot_of(local) == before.batches.keys@[b].slot,
    {
        assert(before.batches.values@[b].values@.len() == before.batches.values@[b].keys@.len());
        assert(self.batches.values@[b].values@.len() == self.batches.values@[b].keys@.len());
        assert(before.selection(b)[i].0.raw.local == local);
        assert(self.selection(b)[i] == before.selection(b)[i]);
        assert(self.selection(b).len() == self.batches.values@[b].keys@.len());
        assert(self.batches.values@[b].keys@[i] == local);
        assert(self.batches.values@[b].values@[i] == before.batches.values@[b].values@[i]);
        assert(self.points_at(b, i));
        self.locations.lemma_resident(local);
        assert(self.batches.slots@[self.batches.keys@[b].slot as int].dense_index == b);
    }

    /// Retiring an empty batch leaves all payloads as they are.
    pub proof fn lemma_batch_retired(&self, before: &Self, at: int)
        requires
            before.wf(),
            self.wf(),
            self.locations == before.locations,
            0 <= at < before.batches.values@.len(),
            before.selection(at).len() == 0,
            self.batches.values@ == swap_removed(before.batches.values@, at),
            self.batches.keys@ == swap_removed(before.batches.keys@, at),
        ensures
            self.keeps_payloads(before),
            before.keeps_payloads(self),
    {
        lemma_swap_removed(before.batches.values@, at);
        lemma_swap_removed(before.batches.keys@, at);
        assert forall|local: LocalKey| #[trigger] self.locations.live(local) implies {
            &&& self.payload(local) == before.payload(local)
            &&& self.model_of(local) == before.model_of(local)
        } by {
            self.locations.lemma_resident(local);
            let l = self.locations.place(local);
            assert(before.located(l));
            assert(self.located(l));
            let b = before.batch_of(l);
            let c = self.batch_of(l);
            assert(before.batches.keys@[b].slot == self.locations.values@[l].batch_slot);
            assert(self.batches.keys@[c].slot == self.locations.values@[l].batch_slot);
            let j = if c == at {
                before.batches.keys@.len() - 1
            } else {
                c
            };
            assert(self.batches.keys@[c] == before.batches.keys@[j]);
            assert(j == b) by {
                if j < b {
                    before.batches.lemma_live_slots_distinct(j, b);
                } else if b < j {
                    before.batches.lemma_live_slots_distinct(b, j);
                }
            }
        }
    }

    /// Removing a payload and its directory entry, after redirecting the entry of the
    /// payload that takes its place, leaves the pool sound.
    #[verifier::spinoff_prover]
    proof fn lemma_removed(
        &self,
        patched: Self,
        after: Self,
        raw: RawKey,
        l: int,
        b: int,
        index: int,
    )
        requires
            self.wf(),
            after.batches.wf(),
            after.locations.wf(),
            0 <= l < self.locations.keys@.len(),
            self.locations.keys@[l] == raw.local,
            b == self.batch_of(l),
            index == self.locations.values@[l].dense_index,
            after.batches.id == self.batches.id,
            after.batches.keys@ == self.batches.keys@,
            after.batches.slots@ == self.batches.slots@,
            after.batches.values@.len() == self.batches.values@.len(),
            forall|c: int|
                0 <= c < self.batches.values@.len() && c != b ==> #[trigger] after.batches.values@[c]
                    == self.batches.values@[c],
            after.batches.values@[b].model == self.batches.values@[b].model,
            after.batches.values@[b].keys@ == swap_removed(self.batches.values@[b].keys@, index),
            after.batches.values@[b].values@ == swap_removed(self.batches.values@[b].values@, index),
            patched.locations.values@ == if index < self.batches.values@[b].keys@.len() - 1 {
                let moved = self.locations.place(self.batches.values@[b].keys@.last());
                self.locations.values@.update(
                    moved,
                    FactorLocation {
                        batch_slot: self.locations.values@[moved].batch_slot,
                        dense_index: index as u32,
                    },
                )
            } else {
                self.locations.values@
            },
            after.locations.id == self.locations.id,
            after.locations.keys@ == swap_removed(self.locations.keys@, l),
            after.locations.values@ == swap_removed(patched.locations.values@, l),
        ensures
            after.wf(),
            after.keeps_payloads(self),
            after.selection(b) == swap_removed(self.selection(b), index),
            forall|other: int|
                0 <= other < self.batches.values@.len() && other != b
                    ==> #[trigger] after.selection(other) == self.selection(other),
    {
        let mine = self.batches.values@[b].keys@;
        let last = mine.len() - 1;
        let tail = self.locations.keys@.len() - 1;
        assert(self.located(l));
        assert(self.batches.keys@[b].slot == self.locations.values@[l].batch_slot);
        assert(mine[index] == raw.local);
        assert(self.batches.values@[b].values@.len() == mine.len());
        assert(self.points_at(b, last));
        let moved = self.locations.place(mine[last]);
        assert forall|p: int| 0 <= p < tail implies {
            let from = if p == l {
                tail
            } else {
                p
            };
            &&& #[trigger] after.locations.keys@[p] == self.locations.keys@[from]
            &&& after.locations.values@[p] == patched.locations.values@[from]
        } by {}
        assert forall|c: int, i: int|
            #![trigger after.batches.values@[c].keys@[i]]
            0 <= c < after.batches.values@.len() && 0 <= i
                < after.batches.values@[c].keys@.len() implies after.points_at(c, i) by {
            let from = if c == b && i == index {
                last
            } else {
                i
            };
            let local = self.batches.values@[c].keys@[from];
            assert(after.batches.values@[c].keys@[i] == local);
            assert(self.points_at(c, from));
            self.locations.lemma_resident(local);
            let place = self.locations.place(local);
            assert(self.locations.keys@[place] == local);
            if c != b {
                if self.batches.keys@[c].slot == self.batches.keys@[b].slot {
                    assert(self.batches.slots@[self.batches.keys@[c].slot as int].dense_index == c);
                    assert(self.batches.slots@[self.batches.keys@[b].slot as int].dense_index == b);
                }
            }
            assert(place != l);
            let to = if place == tail {
                l
            } else {
                place
            };
            assert(after.locations.keys@[to] == local);
            after.locations.lemma_live_position(local, to);
        }
        assert forall|p: int|
            #![trigger after.locations.values@[p]]
            0 <= p < after.locations.values@.len() implies after.located(p) by {
            let from = if p == l {
                tail
            } else {
                p
            };
            assert(after.locations.keys@[p] == self.locations.keys@[from]);
            assert(self.locations.values@[from].dense_index >= 0);
            assert(self.located(from));
            let c = self.batch_of(from);
            let i = self.locations.values@[from].dense_index as int;
            assert(self.batches.values@[c].keys@[i] == self.locations.keys@[from]);
            if c == b {
                if i == index {
                    assert(self.locations.keys@[from] == self.locations.keys@[l]);
                    self.locations.lemma_live_position(raw.local, l);
                    self.locations.lemma_live_position(raw.local, from);
                }
                assert(i != index);
                if i == last {
                    self.locations.lemma_live_position(mine[last], from);
                    assert(from == moved);
                    assert(after.batches.values@[b].keys@[index] == mine[last]);
                } else {
                    assert(after.batches.values@[b].keys@[i] == mine[i]);
                    assert(self.points_at(b, i));
                    if from == moved {
                        self.locations.lemma_resident(mine[last]);
                        assert(self.locations.keys@[from] == mine[last]);
                    }
                    assert(from != moved);
                }
            } else {
                if from == moved {
                    assert(self.locations.values@[moved].batch_slot
                        == self.batches.keys@[b].slot);
                }
                assert(after.batches.values@[c] == self.batches.values@[c]);
            }
        }
        assert forall|c: int|
            #![trigger after.batches.values@[c]]
            0 <= c < after.batches.values@.len() implies after.batches.values@[c].values@.len()
            == after.batches.values@[c].keys@.len() by {
            assert(self.batches.values@[c].values@.len() == self.batches.values@[c].keys@.len());
        }
        assert forall|local: LocalKey| #[trigger] after.locations.live(local) implies {
            &&& self.locations.live(local)
            &&& after.payload(local) == self.payload(local)
            &&& after.model_of(local) == self.model_of(local)
        } by {
            after.locations.lemma_resident(local);
            let p = after.locations.place(local);
            let from = if p == l {
                tail
            } else {
                p
            };
            assert(after.locations.keys@[p] == local);
            assert(self.locations.keys@[from] == local);
            self.locations.lemma_live_position(local, from);
            assert(self.located(from));
            assert(after.located(p));
            let c = self.batch_of(from);
            let i = self.locations.values@[from].dense_index as int;
            assert(after.batch_of(p) == c);
            if c == b {
                self.locations.lemma_live_position(raw.local, l);
                assert(i != index);
                if i == last {
                    assert(mine[last] == local);
                } else {
                    assert(mine[i] == local);
                    assert(self.points_at(b, i));
                    assert(from != moved) by {
                        self.locations.lemma_resident(mine[last]);
                        if from == moved {
                            assert(mine[last] == local);
                        }
                    }
                }
            } else {
                assert(self.batches.keys@[c].slot == self.locations.values@[from].batch_slot);
                assert(from != moved);
            }
        }
        assert(after.selection(b) =~= swap_removed(self.selection(b), index));
        assert forall|other: int|
            0 <= other < self.batches.values@.len() && other != b implies
            #[trigger] after.selection(other) == self.selection(other) by {
            assert(after.batches.values@[other] == self.batches.values@[other]);
            assert(after.selection(other) =~= self.selection(other));
        }
    }

    /// Remove one payload; the last one of its batch moves into its place.
    pub fn remove_factor(&mut self, key: FactorKey<P>) -> (removed: Result<(), KeyError>)
        requires
            old(self).wf(),
        ensures
            final(self).wf(),
            final(self).batches.id == old(self).batches.id,
            final(self).locations.id == old(self).locations.id,
            final(self).batches.keys@ == old(self).batches.keys@,
            final(self).batches.slots@ == old(self).batches.slots@,
            final(self).batches.free_slots@ == old(self).batches.free_slots@,
            final(self).batches.values@.len() == old(self).batches.values@.len(),
            final(self).locations.slots@.len() == old(self).locations.slots@.len(),
            forall|b: int|
                0 <= b < old(self).batches.values@.len() ==> (
                #[trigger] final(self).batches.values@[b]).model
                    == old(self).batches.values@[b].model,
            forall|local: LocalKey|
                old(self).locations.retired(local) ==> final(self).locations.retired(local),
            final(self).keeps_payloads(old(self)),
            match removed {
                Ok(_) => {
                    let l = old(self).locations.lookup(key.raw)->Ok_0;
                    let b = old(self).batch_of(l);
                    &&& old(self).locations.lookup(key.raw) is Ok
                    &&& final(self).selection(b) == swap_removed(
                        old(self).selection(b),
                        old(self).locations.values@[l].dense_index as int,
                    )
                    &&& forall|other: int|
                        0 <= other < old(self).batches.values@.len() && other != b
                            ==> #[trigger] final(self).selection(other) == old(self).selection(
                            other,
                        )
                    &&& final(self).locations.keys@ == swap_removed(old(self).locations.keys@, l)
                    &&& final(self).locations.retired(key.raw.local)
                    &&& final(self).locations.slots_freed(&old(self).locations, key.raw.local)
                    &&& forall|local: LocalKey|
                        local != key.raw.local ==> (final(self).locations.live(local)
                            <==> old(self).locations.live(local))
                },
                Err(error) => {
                    &&& old(self).locations.lookup(key.raw) == Err::<int, KeyError>(error)
                    &&& *final(self) == *old(self)
                },
            },
    {
        let l: usize = match self.locations.index(key.raw) {
            Err(error) => {
                return Err(error);
            },
            Ok(l) => l,
        };
        let location = self.locations.values[l];
        proof {
            self.locations.lemma_live_position(key.raw.local, l as int);
            assert(self.located(l as int));
        }
        let slot: usize = location.batch_slot as usize;
        let b: usize = self.batches.slots[slot].dense_index as usize;
        let index: usize = location.dense_index as usize;
        let ghost before = *self;
        proof {
            assert(self.batches.values@[b as int].values@.len()
                == self.batches.values@[b as int].keys@.len());
        }
        self.batches.values[b].values.swap_remove(index);
        self.batches.values[b].keys.swap_remove(index);
        if index < self.batches.values[b].keys.len() {
            let local = self.batches.values[b].keys[index];
            proof {
                let last = before.batches.values@[b as int].keys@.len() - 1;
                assert(before.batches.values@[b as int].keys@[last] == local);
                assert(before.points_at(b as int, last));
            }
            let moved: usize = self.locations.slots[local.slot as usize].dense_index as usize;
            self.locations.values[moved].dense_index = index as u32;
        }
        let ghost patched = *self;
        match self.locations.remove(key.raw) {
            Ok(_) => {},
            Err(error) => {
                return Err(error);
            },
        }
        proof {
            before.lemma_removed(patched, *self, key.raw, l as int, b as int, index as int);
        }
        Ok(())
    }

    /// Retire a batch that holds no payloads.
    pub fn remove_batch(&mut self, key: BatchKey<B>) -> (removed: Result<(), SolverError>)
        requires
            old(self).wf(),
        ensures
            final(self).wf(),
            final(self).locations == old(self).locations,
            final(self).batches.id == old(self).batches.id,
            forall|local: LocalKey|
                old(self).batches.retired(local) ==> final(self).batches.retired(local),
            match old(self).batches.lookup(key.raw) {
                Err(error) => {
                    &&& removed == Err::<(), SolverError>(SolverError::Key(error))
                    &&& *final(self) == *old(self)
                },
                Ok(b) => if old(self).selection(b).len() > 0 {
                    &&& removed == Err::<(), SolverError>(SolverError::BatchNotEmpty)
                    &&& *final(self) == *old(self)
                } else {
                    &&& removed is Ok
                    &&& final(self).batches.values@ == swap_removed(old(self).batches.values@, b)
                    &&& final(self).batches.keys@ == swap_removed(old(self).batches.keys@, b)
                    &&& final(self).batches.retired(key.raw.local)
                    &&& final(self).other_batches(old(self), key.raw.local)
                    &&& final(self).batches.slots_freed(&old(self).batches, key.raw.local)
                },
            },
    {
        let b: usize = match self.batches.index(key.raw) {
            Err(error) => {
                return Err(SolverError::Key(error));
            },
            Ok(b) => b,
        };
        proof {
            assert(self.batches.values@[b as int].values@.len()
                == self.batches.values@[b as int].keys@.len());
        }
        if self.batches.values[b].values.len() > 0 {
            return Err(SolverError::BatchNotEmpty);
        }
        let ghost before = *self;
        match self.batches.remove(key.raw) {
            Ok(_) => {},
            Err(error) => {
                return Err(SolverError::Key(error));
            },
        }
        proof {
            let gone = b as int;
            let last = before.batches.values@.len() - 1;
            assert forall|c: int| 0 <= c < last implies {
                let from = if c == gone {
                    last
                } else {
                    c
                };
                &&& #[trigger] self.batches.values@[c] == before.batches.values@[from]
                &&& self.batches.keys@[c] == before.batches.keys@[from]
            } by {}
            assert forall|c: int, i: int|
                #![trigger self.batches.values@[c].keys@[i]]
                0 <= c < self.batches.values@.len() && 0 <= i
                    < self.batches.values@[c].keys@.len() implies self.points_at(c, i) by {
                let from = if c == gone {
                    last
                } else {
                    c
                };
                assert(before.batches.values@[from].keys@[i] == self.batches.values@[c].keys@[i]);
                assert(before.points_at(from, i));
            }
            assert forall|l: int|
                #![trigger self.locations.values@[l]]
                0 <= l < self.locations.values@.len() implies self.located(l) by {
                assert(before.located(l));
                let c = before.batch_of(l);
                assert(c != gone);
                let to = if c == last {
                    gone
                } else {
                    c
                };
                assert(before.batches.keys@[c].slot == self.locations.values@[l].batch_slot);
                assert(self.batches.keys@[to] == before.batches.keys@[c]);
                assert(self.batches.values@[to] == before.batches.values@[c]);
            }
            self.batches.lemma_retired_is_stale(key.raw.local);
            assert forall|local: LocalKey| #[trigger]
                self.batches.live(local) implies self.batches.values@[self.batches.place(local)]
                == before.batches.values@[before.batches.place(local)] by {
                self.batches.lemma_resident(local);
                let c = self.batches.place(local);
                let from = if c == gone {
                    last
                } else {
                    c
                };
                assert(before.batches.keys@[from] == local);
                before.batches.lemma_live_position(local, from);
            }
        }
        Ok(())
    }

    /// Remove every payload whose identity is selected. Batches stay, possibly empty;
    /// removed handles are retired and every other payload keeps its handle and model.
    pub fn remove_selected(&mut self, selected: &KeySet)
        requires
            old(self).wf(),
            selected.wf(),
        ensures
            final(self).wf(),
            final(self).locations.id == old(self).locations.id,
            final(self).same_batches(old(self)),
            final(self).locations.slots@.len() == old(self).locations.slots@.len(),
            final(self).keeps_payloads(old(self)),
            forall|local: LocalKey|
                old(self).locations.retired(local) ==> final(self).locations.retired(local),
            forall|local: LocalKey| #[trigger]
                final(self).locations.live(local) <==> old(self).locations.live(local)
                    && !selected@.contains(RawKey { pool: old(self).locations.id, local }),
            forall|local: LocalKey| #[trigger]
                old(self).locations.live(local) && selected@.contains(
                    RawKey { pool: old(self).locations.id, local },
                ) ==> final(self).locations.retired(local),
    {
        let mut index: usize = self.locations.keys.len();
        while index > 0
            invariant
                old(self).wf(),
                self.wf(),
                selected.wf(),
                self.locations.id == old(self).locations.id,
                self.same_batches(old(self)),
                self.locations.slots@.len() == old(self).locations.slots@.len(),
                index <= self.locations.keys@.len(),
                self.keeps_payloads(old(self)),
                forall|local: LocalKey|
                    old(self).locations.retired(local) ==> self.locations.retired(local),
                forall|local: LocalKey| #[trigger]
                    old(self).locations.live(local) && !selected@.contains(
                        RawKey { pool: old(self).locations.id, local },
                    ) ==> self.locations.live(local),
                forall|local: LocalKey| #[trigger]
                    old(self).locations.live(local) && !self.locations.live(local)
                        ==> self.locations.retired(local),
                forall|i: int|
                    index <= i < self.locations.keys@.len() ==> !selected@.contains(
                        RawKey {
                            pool: old(self).locations.id,
                            local: #[trigger] self.locations.keys@[i],
                        },
                    ),
            decreases index,
        {
            index -= 1;
            let raw = RawKey { pool: self.locations.id, local: self.locations.keys[index] };
            proof {
                self.locations.lemma_live_position(raw.local, index as int);
            }
            if selected.contains(raw) {
                let ghost before = *self;
                match self.remove_factor(FactorKey::from_raw(raw)) {
                    Ok(_) => {},
                    Err(_) => {},
                }
                proof {
                    let last = before.locations.keys@.len() - 1;
                    self.locations.lemma_retired_is_stale(raw.local);
                    assert forall|local: LocalKey| #[trigger]
                        old(self).locations.live(local)
                            && !self.locations.live(local) implies self.locations.retired(
                        local,
                    ) by {
                        if local != raw.local {
                            assert(!before.locations.live(local));
                        }
                    }
                    assert forall|i: int| index <= i < self.locations.keys@.len() implies
                        !selected@.contains(
                        RawKey {
                            pool: old(self).locations.id,
                            local: #[trigger] self.locations.keys@[i],
                        },
                    ) by {
                        let from = if i == index {
                            last
                        } else {
                            i
                        };
                        assert(self.locations.keys@[i] == before.locations.keys@[from]);
                    }
                }
            }
        }
        proof {
            assert forall|local: LocalKey| #[trigger]
                self.locations.live(local) implies old(self).locations.live(local)
                && !selected@.contains(RawKey { pool: old(self).locations.id, local }) by {
                let i = self.locations.keys@.index_of(local);
                assert(self.locations.keys@[i] == local);
            }
        }
    }
}

/// Consecutive slices of equal width tile a range.
proof fn lemma_slice(index: int, count: int, width: int)
    requires
        0 <= index < count,
        0 <= width,
    ensures
        0 <= index * width,
        index * width + width <= count * width,
        index * width + width == (index + 1) * width,
{
    assert(0 <= index * width && index * width + width <= count * width && index * width + width
        == (index + 1) * width) by (nonlinear_arith)
        requires
            0 <= index < count,
            0 <= width,
    ;
}

} // verus!
