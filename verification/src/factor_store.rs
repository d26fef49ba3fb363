//! Factors reached by the type of their payload.
use crate::access::{Here, InFirst, InSecond};
use crate::dense::lemma_swap_removed;
use crate::error::{KeyError, SolverError};
use crate::factors::{Factor, FactorBatch};
use crate::families::FactorSchema;
use crate::key::{FactorId, FactorKey};
use crate::pair::Pair;
use crate::reading::Readable;
use crate::storage::{BatchPool, FactorPool};
use vstd::prelude::*;

verus! {

/// Routes a handle by the type of its payload to the family at the place `I`.
pub trait FactorStore<S: Readable, P, I>: FactorSchema<S> {
    spec fn factor_cost_spec(&self, states: S::Reading, key: FactorKey<P>) -> Result<
        Self::Scalar,
        SolverError,
    >;

    /// What the family knows of a handle.
    spec fn stores(&self, key: FactorKey<P>) -> Result<(), KeyError>;

    /// Resolve the handle and evaluate that factor's cost.
    fn factor_cost(&self, states: &S, key: FactorKey<P>) -> (cost: Result<
        Self::Scalar,
        SolverError,
    >)
        requires
            self.wf(),
            states.wf(),
        ensures
            cost == self.factor_cost_spec(states.reading(), key),
    ;

    /// A factor that was kept costs what it did.
    proof fn lemma_kept_cost(&self, before: &Self, states: S::Reading, key: FactorKey<P>)
        requires
            self.wf(),
            before.wf(),
            self.keeps(before),
            self.stores(key) is Ok,
        ensures
            before.stores(key) is Ok,
            self.factor_cost_spec(states, key) == before.factor_cost_spec(states, key),
    ;

    /// Remove one factor; every other factor keeps its handle and its payload, and every batch
    /// its handle and its model.
    fn remove_factor(&mut self, key: FactorKey<P>) -> (removed: Result<(), KeyError>)
        requires
            old(self).wf(),
        ensures
            removed == old(self).stores(key),
            removed is Err ==> *final(self) == *old(self),
            removed is Ok ==> without::<S, Self>(*old(self), *final(self), FactorId {
                raw: key.raw,
            }),
    ;
}

/// A schema from which one factor was removed for good.
pub open spec fn without<S: Readable, F: FactorSchema<S>>(
    before: F,
    after: F,
    id: FactorId,
) -> bool {
    &&& after.wf()
    &&& after.keeps(&before)
    &&& after.same_batches(&before)
    &&& after.pools() == before.pools()
    &&& before.resolve_spec(id) == Some(Ok::<(), KeyError>(()))
    &&& after.resolve_spec(id) == Some(Err::<(), KeyError>(KeyError::Stale))
    &&& forall|other: FactorId|
        other != id ==> #[trigger] after.resolve_spec(other) == before.resolve_spec(other)
    &&& forall|i: int|
        0 <= i < after.incidence().len() ==> {
            &&& before.incidence().contains(#[trigger] after.incidence()[i])
            &&& after.incidence()[i].id != id
        }
    &&& forall|i: int|
        0 <= i < before.incidence().len() && (#[trigger] before.incidence()[i]).id != id
            ==> after.incidence().contains(before.incidence()[i])
}

impl<S: Readable, T: Factor<S>> FactorStore<S, T, Here> for FactorPool<T> {
    open spec fn factor_cost_spec(&self, states: S::Reading, key: FactorKey<T>) -> Result<
        T::Scalar,
        SolverError,
    > {
        FactorPool::factor_cost_spec::<S>(self, states, key)
    }

    open spec fn stores(&self, key: FactorKey<T>) -> Result<(), KeyError> {
        match self.entries.lookup(key.raw) {
            Ok(_) => Ok(()),
            Err(error) => Err(error),
        }
    }

    proof fn lemma_kept_cost(&self, before: &Self, states: S::Reading, key: FactorKey<T>) {
        self.entries.lemma_resident(key.raw.local);
        before.entries.lemma_resident(key.raw.local);
    }

    fn factor_cost(&self, states: &S, key: FactorKey<T>) -> (cost: Result<T::Scalar, SolverError>) {
        FactorPool::factor_cost::<S>(self, states, key)
    }

    fn remove_factor(&mut self, key: FactorKey<T>) -> (removed: Result<(), KeyError>) {
        let removed = FactorPool::remove_factor(self, key);
        proof {
            if removed is Ok {
                let before = old(self).entries;
                let after = self.entries;
                let id = FactorId { raw: key.raw };
                let at = before.keys@.index_of(key.raw.local);
                assert(before.keys@[at] == key.raw.local);
                after.lemma_retired_is_stale(key.raw.local);
                lemma_swap_removed(old(self).factors(), at);
                assert forall|i: int| 0 <= i < self.factors().len() implies old(
                    self,
                ).factors().contains(#[trigger] self.factors()[i]) by {
                    let from = if i == at {
                        before.keys@.len() - 1
                    } else {
                        i
                    };
                    assert(old(self).factors()[from] == self.factors()[i]);
                }
                self.lemma_kept(old(self));
                let was = FactorSchema::<S>::incidence(old(self));
                let now = FactorSchema::<S>::incidence(self);
                let last = before.keys@.len() - 1;
                assert forall|i: int| 0 <= i < now.len() implies {
                    &&& was.contains(#[trigger] now[i])
                    &&& now[i].id != id
                } by {
                    let from = if i == at {
                        last
                    } else {
                        i
                    };
                    assert(self.factors()[i] == old(self).factors()[from]);
                    assert(was[from] == now[i]);
                    before.lemma_live_position(before.keys@[from], from);
                    before.lemma_live_position(before.keys@[at], at);
                }
                assert forall|i: int| 0 <= i < was.len() && (#[trigger] was[i]).id != id implies
                    now.contains(was[i]) by {
                    let to = if i == last {
                        at
                    } else {
                        i
                    };
                    assert(self.factors()[to] == old(self).factors()[i]);
                    assert(now[to] == was[i]);
                }
            }
        }
        match removed {
            Ok(_) => Ok(()),
            Err(error) => Err(error),
        }
    }
}

impl<S: Readable, M: FactorBatch<S>> FactorStore<S, M::Factor, Here> for BatchPool<M, M::Factor> {
    open spec fn factor_cost_spec(&self, states: S::Reading, key: FactorKey<M::Factor>) -> Result<
        M::Scalar,
        SolverError,
    > {
        BatchPool::factor_cost_spec::<S>(self, states, key)
    }

    open spec fn stores(&self, key: FactorKey<M::Factor>) -> Result<(), KeyError> {
        match self.locations.lookup(key.raw) {
            Ok(_) => Ok(()),
            Err(error) => Err(error),
        }
    }

    proof fn lemma_kept_cost(&self, before: &Self, states: S::Reading, key: FactorKey<M::Factor>) {
        self.locations.lemma_resident(key.raw.local);
        before.locations.lemma_resident(key.raw.local);
    }

    fn factor_cost(&self, states: &S, key: FactorKey<M::Factor>) -> (cost: Result<
        M::Scalar,
        SolverError,
    >) {
        BatchPool::factor_cost::<S>(self, states, key)
    }

    fn remove_factor(&mut self, key: FactorKey<M::Factor>) -> (removed: Result<(), KeyError>) {
        let removed = BatchPool::remove_factor(self, key);
        proof {
            if removed is Ok {
                let before = old(self).locations;
                let after = self.locations;
                let id = FactorId { raw: key.raw };
                let n = old(self).batches.values@.len() as int;
                let m = self.batches.values@.len() as int;
                let was = old(self).batch_incidence::<S>(n);
                let now = self.batch_incidence::<S>(m);
                after.lemma_retired_is_stale(key.raw.local);
                assert forall|i: int| 0 <= i < now.len() implies {
                    &&& was.contains(#[trigger] now[i])
                    &&& now[i].id != id
                } by {
                    self.lemma_incidence_is_live::<S>(m, i);
                    let local = now[i].id.raw.local;
                    assert(after.live(local));
                    old(self).lemma_live_has_incidence::<S>(local);
                }
                assert forall|i: int| 0 <= i < was.len() && (#[trigger] was[i]).id != id implies
                    now.contains(was[i]) by {
                    old(self).lemma_incidence_is_live::<S>(n, i);
                    let local = was[i].id.raw.local;
                    assert(before.live(local));
                    assert(after.live(local));
                    self.lemma_live_has_incidence::<S>(local);
                }
            }
        }
        match removed {
            Ok(_) => Ok(()),
            Err(error) => Err(error),
        }
    }
}

impl<S: Readable, P, I, X, Y> FactorStore<S, P, InFirst<I>> for Pair<X, Y> where
    X: FactorStore<S, P, I>,
    Y: FactorSchema<S, Scalar = <X as FactorSchema<S>>::Scalar>,
 {
    open spec fn factor_cost_spec(&self, states: S::Reading, key: FactorKey<P>) -> Result<
        <X as FactorSchema<S>>::Scalar,
        SolverError,
    > {
        self.first.factor_cost_spec(states, key)
    }

    open spec fn stores(&self, key: FactorKey<P>) -> Result<(), KeyError> {
        self.first.stores(key)
    }

    proof fn lemma_kept_cost(&self, before: &Self, states: S::Reading, key: FactorKey<P>) {
        self.first.lemma_kept_cost(&before.first, states, key);
    }

    fn factor_cost(&self, states: &S, key: FactorKey<P>) -> (cost: Result<
        <X as FactorSchema<S>>::Scalar,
        SolverError,
    >) {
        self.first.factor_cost(states, key)
    }

    fn remove_factor(&mut self, key: FactorKey<P>) -> (removed: Result<(), KeyError>) {
        let removed = self.first.remove_factor(key);
        proof {
            if removed is Ok {
                lemma_without_first::<S, X, Y>(*old(self), *self, FactorId { raw: key.raw });
            }
        }
        removed
    }
}

proof fn lemma_without_first<S: Readable, X, Y>(before: Pair<X, Y>, after: Pair<X, Y>, id: FactorId)
    where
        X: FactorSchema<S>,
        Y: FactorSchema<S, Scalar = <X as FactorSchema<S>>::Scalar>,

    requires
        FactorSchema::<S>::wf(&before),
        without::<S, X>(before.first, after.first, id),
        after.second == before.second,
    ensures
        without::<S, Pair<X, Y>>(before, after, id),
{
    before.first.lemma_incidence();
    before.second.lemma_incidence();
    after.first.lemma_incidence();
    before.second.lemma_same_reflexive();
    let a = before.first.incidence();
    let c = after.first.incidence();
    let b = before.second.incidence();
    assert forall|i: int| 0 <= i < (c + b).len() implies {
        &&& (a + b).contains(#[trigger] (c + b)[i])
        &&& (c + b)[i].id != id
    } by {
        if i < c.len() {
            let k = a.index_of(c[i]);
            assert(a.contains(c[i]));
            assert((a + b)[k] == c[i]);
        } else {
            assert((a + b)[a.len() + i - c.len()] == b[i - c.len()]);
            assert(before.second.resolve_spec(b[i - c.len()].id) is Some);
        }
    }
    assert forall|i: int| 0 <= i < (a + b).len() && (#[trigger] (a + b)[i]).id != id implies (c
        + b).contains((a + b)[i]) by {
        if i < a.len() {
            assert(a[i].id != id);
            let k = c.index_of(a[i]);
            assert((c + b)[k] == a[i]);
        } else {
            assert((c + b)[c.len() + i - a.len()] == b[i - a.len()]);
        }
    }
}

impl<S: Readable, P, I, X, Y> FactorStore<S, P, InSecond<I>> for Pair<X, Y> where
    X: FactorSchema<S>,
    Y: FactorStore<S, P, I> + FactorSchema<S, Scalar = <X as FactorSchema<S>>::Scalar>,
 {
    open spec fn factor_cost_spec(&self, states: S::Reading, key: FactorKey<P>) -> Result<
        <X as FactorSchema<S>>::Scalar,
        SolverError,
    > {
        self.second.factor_cost_spec(states, key)
    }

    open spec fn stores(&self, key: FactorKey<P>) -> Result<(), KeyError> {
        self.second.stores(key)
    }

    proof fn lemma_kept_cost(&self, before: &Self, states: S::Reading, key: FactorKey<P>) {
        self.second.lemma_kept_cost(&before.second, states, key);
    }

    fn factor_cost(&self, states: &S, key: FactorKey<P>) -> (cost: Result<
        <X as FactorSchema<S>>::Scalar,
        SolverError,
    >) {
        self.second.factor_cost(states, key)
    }

    fn remove_factor(&mut self, key: FactorKey<P>) -> (removed: Result<(), KeyError>) {
        let removed = self.second.remove_factor(key);
        proof {
            if removed is Ok {
                lemma_without_second::<S, X, Y>(*old(self), *self, FactorId { raw: key.raw });
            }
        }
        removed
    }
}

proof fn lemma_without_second<S: Readable, X, Y>(
    before: Pair<X, Y>,
    after: Pair<X, Y>,
    id: FactorId,
) where X: FactorSchema<S>, Y: FactorSchema<S, Scalar = <X as FactorSchema<S>>::Scalar>
    requires
        FactorSchema::<S>::wf(&before),
        without::<S, Y>(before.second, after.second, id),
        after.first == before.first,
    ensures
        without::<S, Pair<X, Y>>(before, after, id),
{
    before.first.lemma_incidence();
    before.second.lemma_incidence();
    after.second.lemma_incidence();
    before.first.lemma_same_reflexive();
    let a = before.first.incidence();
    let b = before.second.incidence();
    let c = after.second.incidence();
    assert forall|i: int| 0 <= i < (a + c).len() implies {
        &&& (a + b).contains(#[trigger] (a + c)[i])
        &&& (a + c)[i].id != id
    } by {
        if i < a.len() {
            assert((a + b)[i] == a[i]);
            assert(before.first.resolve_spec(a[i].id) is Some);
        } else {
            let k = b.index_of(c[i - a.len()]);
            assert(b.contains(c[i - a.len()]));
            assert((a + b)[a.len() + k] == c[i - a.len()]);
        }
    }
    assert forall|i: int| 0 <= i < (a + b).len() && (#[trigger] (a + b)[i]).id != id implies (a
        + c).contains((a + b)[i]) by {
        if i < a.len() {
            assert((a + c)[i] == a[i]);
        } else {
            assert(b[i - a.len()].id != id);
            let k = c.index_of(b[i - a.len()]);
            assert((a + c)[a.len() + k] == b[i - a.len()]);
        }
    }
}

} // verus!
