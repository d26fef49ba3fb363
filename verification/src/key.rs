//! Storage identities and the typed handles issued to callers.
use core::marker::PhantomData;
use vstd::prelude::*;

verus! {

/// Identity of one pool, distinct from that of every other pool in the process.
#[derive(Debug, Clone, Copy, PartialEq, Eq, Hash, Structural)]
pub struct PoolId {
    pub number: u64,
}

impl PoolId {
    /// What a counter hands out, and where it stands afterwards.
    pub open spec fn issued(before: u64, id: Option<PoolId>, after: u64) -> bool {
        if before < u64::MAX {
            id == Some(PoolId { number: before }) && after == before + 1
        } else {
            id is None && after == before
        }
    }

    /// Identities from one counter are nonzero and never come twice.
    pub proof fn lemma_identities_distinct(
        first: (u64, PoolId, u64),
        second: (u64, PoolId, u64),
    )
        requires
            0 < first.0,
            Self::issued(first.0, Some(first.1), first.2),
            first.2 <= second.0,
            Self::issued(second.0, Some(second.1), second.2),
        ensures
            first.1.number > 0,
            second.1.number > 0,
            first.1 != second.1,
    {
    }

    /// The next identity of a counter, which then moves past it. Identities are nonzero.
    ///
    /// The last counter value is never handed out: an exhausted counter stays
    /// where it is and yields nothing, so identities never wrap.
    pub fn allocate(counter: &mut u64) -> (id: Option<PoolId>)
        requires
            *old(counter) > 0,
        ensures
            Self::issued(*old(counter), id, *final(counter)),
    {
        match counter.checked_add(1) {
            Some(next) => {
                let id = PoolId { number: *counter };
                *counter = next;
                Some(id)
            },
            None => None,
        }
    }

    /// The number behind this identity.
    pub fn get(self) -> (number: u64)
        ensures
            number == self.number,
    {
        self.number
    }
}

/// A slot of one pool and the generation in which it was filled.
#[derive(Debug, Clone, Copy, PartialEq, Eq, Hash, Structural)]
pub struct LocalKey {
    pub slot: u32,
    pub generation: u32,
}

/// An entry's identity across all pools.
#[derive(Debug, Clone, Copy, PartialEq, Eq, Hash, Structural)]
pub struct RawKey {
    pub pool: PoolId,
    pub local: LocalKey,
}

impl RawKey {
    /// The three numbers of a key packed into one, for use as a map key.
    pub open spec fn code_spec(self) -> u128 {
        (self.pool.number * 0x1_0000_0000_0000_0000 + self.local.slot * 0x1_0000_0000
            + self.local.generation) as u128
    }

    /// The three numbers of a key packed into one, for use as a map key.
    pub fn code(self) -> (code: u128)
        ensures
            code == self.code_spec(),
    {
        (self.pool.number as u128) * 0x1_0000_0000_0000_0000u128 + (self.local.slot as u128)
            * 0x1_0000_0000u128 + (self.local.generation as u128)
    }
}

/// Packed keys are equal only if the keys are.
pub proof fn lemma_code_injective(a: RawKey, b: RawKey)
    ensures
        a.code_spec() == b.code_spec() ==> a == b,
{
}

/// A typed handle to one variable.
///
/// It survives growth and compaction of its pool; it is neither an address nor a
/// matrix offset.
#[derive(Debug, Hash)]
pub struct StateKey<T> {
    pub raw: RawKey,
    pub kind: PhantomData<T>,
}

/// A typed handle to one ordinary or batched factor, unaffected by the removal of
/// its siblings.
#[derive(Debug, Hash)]
pub struct FactorKey<T> {
    pub raw: RawKey,
    pub kind: PhantomData<T>,
}

/// A typed handle to one shared evaluator and the factors stored with it. The type
/// parameter is the batch model, not its payload.
#[derive(Debug, Hash)]
pub struct BatchKey<T> {
    pub raw: RawKey,
    pub kind: PhantomData<T>,
}

/// Variable identity used by the numerical backends, with its type erased.
#[derive(Debug, Clone, Copy, PartialEq, Eq, Hash, Structural)]
pub struct BlockId {
    pub raw: RawKey,
}

/// Factor identity that tags everything a factor emits, with its type erased.
#[derive(Debug, Clone, Copy, PartialEq, Eq, Hash, Structural)]
pub struct FactorId {
    pub raw: RawKey,
}

impl<T> StateKey<T> {
    /// The handle with this identity.
    pub fn from_raw(raw: RawKey) -> (key: Self)
        ensures
            key.raw == raw,
    {
        StateKey { raw, kind: PhantomData }
    }

    /// The numerical identity, which no ordering of the variables affects.
    pub fn block_id(self) -> (id: BlockId)
        ensures
            id == (BlockId { raw: self.raw }),
    {
        BlockId { raw: self.raw }
    }
}

impl<T> FactorKey<T> {
    /// The handle with this identity.
    pub fn from_raw(raw: RawKey) -> (key: Self)
        ensures
            key.raw == raw,
    {
        FactorKey { raw, kind: PhantomData }
    }

    /// The identity used by change tracking and numerical caches.
    pub fn factor_id(self) -> (id: FactorId)
        ensures
            id == (FactorId { raw: self.raw }),
    {
        FactorId { raw: self.raw }
    }
}

impl<T> BatchKey<T> {
    /// The handle with this identity.
    pub fn from_raw(raw: RawKey) -> (key: Self)
        ensures
            key.raw == raw,
    {
        BatchKey { raw, kind: PhantomData }
    }
}

impl<T> Copy for StateKey<T> {

}

impl<T> Copy for FactorKey<T> {

}

impl<T> Copy for BatchKey<T> {

}

impl<T> Clone for StateKey<T> {
    fn clone(&self) -> (r: Self)
        ensures
            r == *self,
    {
        *self
    }
}

impl<T> Clone for FactorKey<T> {
    fn clone(&self) -> (r: Self)
        ensures
            r == *self,
    {
        *self
    }
}

impl<T> Clone for BatchKey<T> {
    fn clone(&self) -> (r: Self)
        ensures
            r == *self,
    {
        *self
    }
}

impl<T> PartialEq for StateKey<T> {
    fn eq(&self, other: &Self) -> (r: bool) {
        self.raw == other.raw
    }
}

impl<T> vstd::std_specs::cmp::PartialEqSpecImpl for StateKey<T> {
    open spec fn obeys_eq_spec() -> bool {
        true
    }

    open spec fn eq_spec(&self, other: &Self) -> bool {
        self.raw == other.raw
    }
}

impl<T> PartialEq for FactorKey<T> {
    fn eq(&self, other: &Self) -> (r: bool) {
        self.raw == other.raw
    }
}

impl<T> vstd::std_specs::cmp::PartialEqSpecImpl for FactorKey<T> {
    open spec fn obeys_eq_spec() -> bool {
        true
    }

    open spec fn eq_spec(&self, other: &Self) -> bool {
        self.raw == other.raw
    }
}

impl<T> PartialEq for BatchKey<T> {
    fn eq(&self, other: &Self) -> (r: bool) {
        self.raw == other.raw
    }
}

impl<T> vstd::std_specs::cmp::PartialEqSpecImpl for BatchKey<T> {
    open spec fn obeys_eq_spec() -> bool {
        true
    }

    open spec fn eq_spec(&self, other: &Self) -> bool {
        self.raw == other.raw
    }
}

impl<T> Eq for StateKey<T> {

}

impl<T> Eq for FactorKey<T> {

}

impl<T> Eq for BatchKey<T> {

}

} // verus!
