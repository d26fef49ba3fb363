//! Access to one family of a schema, and what replacing it does to the whole.
use crate::error::KeyError;
use crate::factors::{Factor, FactorBatch};
use crate::families::{FactorSchema, Incidence};
use crate::key::{BlockId, FactorId, StateKey};
use crate::pair::Pair;
use crate::reading::Readable;
use crate::states::StateSchema;
use crate::storage::{BatchPool, FactorPool, StatePool};
use crate::variable::Variable;
use vstd::prelude::*;

verus! {

/// The place of a family in a schema that is that family.
pub struct Here;

/// A place in the first of a pair.
pub struct InFirst<I> {
    pub within: I,
}

/// A place in the second of a pair.
pub struct InSecond<I> {
    pub within: I,
}

/// Direct access to the part of a schema at the place `I`.
pub trait PoolAccess<P, I>: Sized {
    spec fn pool_spec(&self) -> P;

    spec fn with_pool(self, pool: P) -> Self;

    /// Replacing the part by itself changes nothing.
    proof fn lemma_same(self)
        ensures
            self.with_pool(self.pool_spec()) == self,
    ;

    /// Borrow the selected part.
    fn pool(&self) -> (pool: &P)
        ensures
            *pool == self.pool_spec(),
    ;

    /// Mutably borrow the selected part; nothing else of the schema can change.
    fn pool_mut(&mut self) -> (pool: &mut P)
        ensures
            *pool == old(self).pool_spec(),
            *final(self) == old(self).with_pool(*final(pool)),
            final(self).pool_spec() == *final(pool),
    ;
}

impl<T: Variable> PoolAccess<Self, Here> for StatePool<T> {
    open spec fn pool_spec(&self) -> Self {
        *self
    }

    open spec fn with_pool(self, pool: Self) -> Self {
        pool
    }

    proof fn lemma_same(self) {
    }

    fn pool(&self) -> (pool: &Self) {
        self
    }

    fn pool_mut(&mut self) -> (pool: &mut Self) {
        self
    }
}

impl<T> PoolAccess<Self, Here> for FactorPool<T> {
    open spec fn pool_spec(&self) -> Self {
        *self
    }

    open spec fn with_pool(self, pool: Self) -> Self {
        pool
    }

    proof fn lemma_same(self) {
    }

    fn pool(&self) -> (pool: &Self) {
        self
    }

    fn pool_mut(&mut self) -> (pool: &mut Self) {
        self
    }
}

impl<M, P> PoolAccess<Self, Here> for BatchPool<M, P> {
    open spec fn pool_spec(&self) -> Self {
        *self
    }

    open spec fn with_pool(self, pool: Self) -> Self {
        pool
    }

    proof fn lemma_same(self) {
    }

    fn pool(&self) -> (pool: &Self) {
        self
    }

    fn pool_mut(&mut self) -> (pool: &mut Self) {
        self
    }
}

impl<P, I, A, B> PoolAccess<P, InFirst<I>> for Pair<A, B> where A: PoolAccess<P, I> {
    open spec fn pool_spec(&self) -> P {
        self.first.pool_spec()
    }

    open spec fn with_pool(self, pool: P) -> Self {
        Pair { first: self.first.with_pool(pool), second: self.second }
    }

    proof fn lemma_same(self) {
        self.first.lemma_same();
    }

    fn pool(&self) -> (pool: &P) {
        self.first.pool()
    }

    fn pool_mut(&mut self) -> (pool: &mut P) {
        self.first.pool_mut()
    }
}

impl<P, I, A, B> PoolAccess<P, InSecond<I>> for Pair<A, B> where B: PoolAccess<P, I> {
    open spec fn pool_spec(&self) -> P {
        self.second.pool_spec()
    }

    open spec fn with_pool(self, pool: P) -> Self {
        Pair { first: self.first, second: self.second.with_pool(pool) }
    }

    proof fn lemma_same(self) {
        self.second.lemma_same();
    }

    fn pool(&self) -> (pool: &P) {
        self.second.pool()
    }

    fn pool_mut(&mut self) -> (pool: &mut P) {
        self.second.pool_mut()
    }
}

/// Checked read access to variables of type `T`.
pub trait StateStore<T: Variable, I> {
    spec fn store_wf(&self) -> bool;

    spec fn get_spec(&self, key: StateKey<T>) -> Result<T, KeyError>;

    /// Borrow the current estimate behind a handle.
    fn get(&self, key: StateKey<T>) -> (found: Result<&T, KeyError>)
        requires
            self.store_wf(),
        ensures
            match found {
                Ok(value) => self.get_spec(key) == Ok::<T, KeyError>(*value),
                Err(error) => self.get_spec(key) == Err::<T, KeyError>(error),
            },
    ;
}

impl<S, T, I> StateStore<T, I> for S where T: Variable, S: PoolAccess<StatePool<T>, I> {
    open spec fn store_wf(&self) -> bool {
        self.pool_spec().wf()
    }

    open spec fn get_spec(&self, key: StateKey<T>) -> Result<T, KeyError> {
        match self.pool_spec().entries.lookup(key.raw) {
            Ok(index) => Ok(self.pool_spec().current()[index]),
            Err(error) => Err(error),
        }
    }

    fn get(&self, key: StateKey<T>) -> (found: Result<&T, KeyError>) {
        self.pool().get(key)
    }
}

/// A schema with a family of variables of type `T` at the place `I`.
pub trait StateAccess<T: Variable, I>: StateSchema + PoolAccess<StatePool<T>, I> {
    /// A sound schema has a sound family, which alone knows its own identities.
    proof fn lemma_family(&self)
        requires
            self.wf(),
        ensures
            self.pool_spec().wf(),
            self.idle() ==> !self.pool_spec().trial_active,
            self.pools().contains(self.pool_spec().entries.id),
            forall|id: BlockId|
                id.raw.pool == self.pool_spec().entries.id ==> #[trigger] self.resolve_spec(id)
                    == self.pool_spec().validate_spec(id),
    ;

    /// What replacing the family by another under the same identity does to the schema.
    proof fn lemma_replaced(self, pool: StatePool<T>)
        requires
            self.wf(),
            pool.wf(),
            pool.entries.id == self.pool_spec().entries.id,
        ensures
            replaced(self, self.pool_spec(), self.with_pool(pool), pool),
    ;
}

/// A schema in which one family was replaced by another under the same identity.
pub open spec fn replaced<S: StateSchema, T: Variable>(
    before: S,
    was: StatePool<T>,
    after: S,
    now: StatePool<T>,
) -> bool {
    &&& after.wf()
    &&& after.pools() == before.pools()
    &&& before.idle() && !now.trial_active ==> after.idle()
    &&& forall|id: BlockId| #[trigger]
        after.resolve_spec(id) == if id.raw.pool == now.entries.id {
            now.validate_spec(id)
        } else {
            before.resolve_spec(id)
        }
    &&& now.anchors@ == was.anchors@ ==> after.anchored() == before.anchored()
    &&& now.same_identities(&was) ==> after.same_graph(&before)
    &&& StateSchema::keeps_estimates(&now, &was) ==> after.keeps_estimates(&before)
    &&& StateSchema::keeps_estimates(&was, &now) ==> before.keeps_estimates(&after)
    &&& exists|head: Seq<(BlockId, nat)>, tail: Seq<(BlockId, nat)>|
        around(before.blocks(), was.family(), after.blocks(), now.family(), head, tail)
}

/// Two lists that differ in one part.
pub open spec fn around<A>(
    before: Seq<A>,
    was: Seq<A>,
    after: Seq<A>,
    now: Seq<A>,
    head: Seq<A>,
    tail: Seq<A>,
) -> bool {
    before == head + was + tail && after == head + now + tail
}

impl<T: Variable> StateAccess<T, Here> for StatePool<T> {
    proof fn lemma_family(&self) {
    }

    proof fn lemma_replaced(self, pool: StatePool<T>) {
        let none = Seq::<(BlockId, nat)>::empty();
        assert(self.family() =~= none + self.family() + none);
        assert(pool.family() =~= none + pool.family() + none);
        assert(around(self.blocks(), self.family(), pool.blocks(), pool.family(), none, none));
    }
}

impl<T: Variable, I, A, B> StateAccess<T, InFirst<I>> for Pair<A, B> where
    A: StateAccess<T, I>,
    B: StateSchema<Scalar = <A as StateSchema>::Scalar>,
 {
    proof fn lemma_family(&self) {
        self.first.lemma_family();
        self.first.lemma_blocks();
        self.second.lemma_blocks();
    }

    proof fn lemma_replaced(self, pool: StatePool<T>) {
        self.first.lemma_family();
        self.first.lemma_replaced(pool);
        self.second.lemma_reflexive(Set::empty());
        let was = self.first.pool_spec();
        let after = self.first.with_pool(pool);
        let whole = self.with_pool(pool);
        let (head, tail) = choose|head: Seq<(BlockId, nat)>, tail: Seq<(BlockId, nat)>|
            around(self.first.blocks(), was.family(), after.blocks(), pool.family(), head, tail);
        let rest = tail + self.second.blocks();
        assert(self.blocks() =~= head + was.family() + rest);
        assert(whole.blocks() =~= head + pool.family() + rest);
        assert(around(self.blocks(), was.family(), whole.blocks(), pool.family(), head, rest));
    }
}

impl<T: Variable, I, A, B> StateAccess<T, InSecond<I>> for Pair<A, B> where
    A: StateSchema,
    B: StateAccess<T, I> + StateSchema<Scalar = <A as StateSchema>::Scalar>,
 {
    proof fn lemma_family(&self) {
        self.second.lemma_family();
        self.first.lemma_blocks();
        self.second.lemma_blocks();
    }

    proof fn lemma_replaced(self, pool: StatePool<T>) {
        self.second.lemma_family();
        self.second.lemma_replaced(pool);
        self.first.lemma_reflexive(Set::empty());
        self.first.lemma_blocks();
        let was = self.second.pool_spec();
        let after = self.second.with_pool(pool);
        let whole = self.with_pool(pool);
        let (head, tail) = choose|head: Seq<(BlockId, nat)>, tail: Seq<(BlockId, nat)>|
            around(self.second.blocks(), was.family(), after.blocks(), pool.family(), head, tail);
        let before = self.first.blocks() + head;
        assert(self.blocks() =~= before + was.family() + tail);
        assert(whole.blocks() =~= before + pool.family() + tail);
        assert(around(self.blocks(), was.family(), whole.blocks(), pool.family(), before, tail));
    }
}

/// A schema with a group of factors at the place `I`.
pub trait FactorAccess<S: Readable, P: FactorSchema<S>, I>: FactorSchema<S> + PoolAccess<P, I> {
    /// A sound schema has a sound part, which alone knows its own identities.
    proof fn lemma_part(&self)
        requires
            self.wf(),
        ensures
            self.pool_spec().wf(),
            self.pool_spec().pools().subset_of(self.pools()),
            forall|id: FactorId|
                self.pool_spec().pools().contains(id.raw.pool) ==> #[trigger] self.resolve_spec(id)
                    == self.pool_spec().resolve_spec(id),
    ;

    /// What replacing the part by another under the same identities does to the schema.
    proof fn lemma_exchanged(self, pool: P)
        requires
            self.wf(),
            pool.wf(),
            pool.pools() == self.pool_spec().pools(),
        ensures
            exchanged::<S, Self, P>(self, self.pool_spec(), self.with_pool(pool), pool),
    ;
}

/// A schema in which one part was replaced by another under the same identities.
pub open spec fn exchanged<S: Readable, F: FactorSchema<S>, P: FactorSchema<S>>(
    before: F,
    was: P,
    after: F,
    now: P,
) -> bool {
    &&& after.wf()
    &&& after.pools() == before.pools()
    &&& forall|id: FactorId| #[trigger]
        after.resolve_spec(id) == if now.pools().contains(id.raw.pool) {
            now.resolve_spec(id)
        } else {
            before.resolve_spec(id)
        }
    &&& exists|head: Seq<Incidence>, tail: Seq<Incidence>|
        around(before.incidence(), was.incidence(), after.incidence(), now.incidence(), head, tail)
    &&& now.keeps(&was) ==> after.keeps(&before)
    &&& was.keeps(&now) ==> before.keeps(&after)
}

impl<S: Readable, T: Factor<S>> FactorAccess<S, FactorPool<T>, Here> for FactorPool<T> {
    proof fn lemma_part(&self) {
    }

    proof fn lemma_exchanged(self, pool: FactorPool<T>) {
        lemma_whole::<S, FactorPool<T>>(self, pool);
    }
}

impl<S: Readable, M: FactorBatch<S>> FactorAccess<S, BatchPool<M, M::Factor>, Here> for BatchPool<
    M,
    M::Factor,
> {
    proof fn lemma_part(&self) {
    }

    proof fn lemma_exchanged(self, pool: BatchPool<M, M::Factor>) {
        lemma_whole::<S, BatchPool<M, M::Factor>>(self, pool);
    }
}

/// A schema is the only part of itself.
proof fn lemma_whole<S: Readable, P: FactorSchema<S>>(was: P, now: P)
    requires
        was.wf(),
        now.wf(),
        now.pools() == was.pools(),
    ensures
        exchanged::<S, P, P>(was, was, now, now),
{
    was.lemma_incidence();
    now.lemma_incidence();
    let none = Seq::<Incidence>::empty();
    assert(was.incidence() =~= none + was.incidence() + none);
    assert(now.incidence() =~= none + now.incidence() + none);
    assert(around(
        was.incidence(),
        was.incidence(),
        now.incidence(),
        now.incidence(),
        none,
        none,
    ));
    assert forall|id: FactorId| #[trigger] now.resolve_spec(id) == if now.pools().contains(
        id.raw.pool,
    ) {
        now.resolve_spec(id)
    } else {
        was.resolve_spec(id)
    } by {
        assert(was.resolve_spec(id) is Some <==> was.pools().contains(id.raw.pool));
    }
}

impl<S: Readable, P: FactorSchema<S>, I, X, Y> FactorAccess<S, P, InFirst<I>> for Pair<X, Y> where
    X: FactorAccess<S, P, I>,
    Y: FactorSchema<S, Scalar = <X as FactorSchema<S>>::Scalar>,
 {
    proof fn lemma_part(&self) {
        self.first.lemma_part();
        self.first.lemma_incidence();
        self.second.lemma_incidence();
    }

    proof fn lemma_exchanged(self, pool: P) {
        self.second.lemma_same_reflexive();
        self.first.lemma_part();
        self.first.lemma_exchanged(pool);
        self.first.lemma_incidence();
        self.second.lemma_incidence();
        let was = self.first.pool_spec();
        let after = self.first.with_pool(pool);
        after.lemma_incidence();
        let whole = self.with_pool(pool);
        let (head, tail) = choose|head: Seq<Incidence>, tail: Seq<Incidence>|
            around(
                self.first.incidence(),
                was.incidence(),
                after.incidence(),
                pool.incidence(),
                head,
                tail,
            );
        let rest = tail + self.second.incidence();
        assert(self.incidence() =~= head + was.incidence() + rest);
        assert(whole.incidence() =~= head + pool.incidence() + rest);
        assert(around(
            self.incidence(),
            was.incidence(),
            whole.incidence(),
            pool.incidence(),
            head,
            rest,
        ));
    }
}

impl<S: Readable, P: FactorSchema<S>, I, X, Y> FactorAccess<S, P, InSecond<I>> for Pair<X, Y> where
    X: FactorSchema<S>,
    Y: FactorAccess<S, P, I> + FactorSchema<S, Scalar = <X as FactorSchema<S>>::Scalar>,
 {
    proof fn lemma_part(&self) {
        self.second.lemma_part();
        self.first.lemma_incidence();
        self.second.lemma_incidence();
    }

    proof fn lemma_exchanged(self, pool: P) {
        self.first.lemma_same_reflexive();
        self.second.lemma_part();
        self.second.lemma_exchanged(pool);
        self.first.lemma_incidence();
        self.second.lemma_incidence();
        let was = self.second.pool_spec();
        let after = self.second.with_pool(pool);
        after.lemma_incidence();
        let whole = self.with_pool(pool);
        let (head, tail) = choose|head: Seq<Incidence>, tail: Seq<Incidence>|
            around(
                self.second.incidence(),
                was.incidence(),
                after.incidence(),
                pool.incidence(),
                head,
                tail,
            );
        let before = self.first.incidence() + head;
        assert(self.incidence() =~= before + was.incidence() + tail);
        assert(whole.incidence() =~= before + pool.incidence() + tail);
        assert(around(
            self.incidence(),
            was.incidence(),
            whole.incidence(),
            pool.incidence(),
            before,
            tail,
        ));
    }
}

} // verus!
