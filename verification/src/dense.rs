//! Packed storage behind checked generational handles.
use crate::error::KeyError;
use crate::index::KeySet;
use crate::key::{LocalKey, PoolId, RawKey};
use vstd::prelude::*;

verus! {

/// Dense index of a slot that holds no entry.
pub const VACANT: u32 = 0xffff_ffff;

/// Where a slot's entry lies, and how often the slot has been emptied.
pub struct Slot {
    pub generation: u32,
    pub dense_index: u32,
}

/// Payloads and identities in two packed parallel arrays, with one level of checked
/// indirection from handles. Removal moves at most one surviving payload.
pub struct DensePool<T> {
    pub id: PoolId,
    pub values: Vec<T>,
    pub keys: Vec<LocalKey>,
    pub slots: Vec<Slot>,
    pub free_slots: Vec<u32>,
}

impl<T> DensePool<T> {
    /// Every live identity and its slot point at each other; every empty slot is
    /// either listed for reuse, once, or has used up its generations.
    pub open spec fn wf(&self) -> bool {
        &&& self.values@.len() == self.keys@.len()
        &&& self.values@.len() + self.free_slots@.len() <= self.slots@.len() <= u32::MAX
        &&& forall|i: int|
            #![trigger self.keys@[i]]
            0 <= i < self.keys@.len() ==> {
                &&& self.keys@[i].slot < self.slots@.len()
                &&& self.slots@[self.keys@[i].slot as int].dense_index == i
                &&& self.slots@[self.keys@[i].slot as int].generation == self.keys@[i].generation
            }
        &&& forall|s: int|
            #![trigger self.slots@[s]]
            0 <= s < self.slots@.len() && self.slots@[s].dense_index != VACANT ==> {
                &&& self.slots@[s].dense_index < self.keys@.len()
                &&& self.keys@[self.slots@[s].dense_index as int].slot == s
            }
        &&& forall|j: int|
            #![trigger self.free_slots@[j]]
            0 <= j < self.free_slots@.len() ==> {
                &&& self.free_slots@[j] < self.slots@.len()
                &&& self.slots@[self.free_slots@[j] as int].dense_index == VACANT
            }
        &&& forall|j: int, k: int|
            #![trigger self.free_slots@[j], self.free_slots@[k]]
            0 <= j < k < self.free_slots@.len() ==> self.free_slots@[j] != self.free_slots@[k]
        &&& forall|s: int|
            #![trigger self.slots@[s]]
            0 <= s < self.slots@.len() && self.slots@[s].dense_index == VACANT
                && self.slots@[s].generation != u32::MAX ==> self.free_slots@.contains(s as u32)
    }

    /// The dense position of a live local identity.
    pub open spec fn at(&self, local: LocalKey, index: int) -> bool {
        0 <= index < self.keys@.len() && self.keys@[index] == local
    }

    /// Whether an entry is stored under this local identity.
    pub open spec fn live(&self, local: LocalKey) -> bool {
        self.keys@.contains(local)
    }

    /// Whether this local identity was issued and can never resolve again.
    pub open spec fn retired(&self, local: LocalKey) -> bool {
        &&& local.slot < self.slots@.len()
        &&& {
            ||| local.generation < self.slots@[local.slot as int].generation
            ||| {
                &&& local.generation == u32::MAX
                &&& self.slots@[local.slot as int].generation == u32::MAX
                &&& self.slots@[local.slot as int].dense_index == VACANT
                &&& !self.free_slots@.contains(local.slot)
            }
        }
    }

    /// What resolving a handle yields: keys of other pools are foreign, slots never
    /// handed out unknown, and anything else that is not live is stale.
    pub open spec fn lookup(&self, key: RawKey) -> Result<int, KeyError> {
        if key.pool != self.id {
            Err(KeyError::ForeignSolver)
        } else if key.local.slot >= self.slots@.len() {
            Err(KeyError::Unknown)
        } else if self.live(key.local) {
            Ok(self.keys@.index_of(key.local))
        } else {
            Err(KeyError::Stale)
        }
    }

    /// Whether `additional` more entries fit the index space.
    pub open spec fn room(&self, additional: int) -> bool {
        &&& self.values@.len() + additional <= VACANT
        &&& self.slots@.len() + (if additional > self.free_slots@.len() {
            additional - self.free_slots@.len()
        } else {
            0
        }) <= VACANT
    }

    /// The identity that the next insertion issues.
    pub open spec fn next_local(&self) -> LocalKey {
        if self.free_slots@.len() > 0 {
            LocalKey {
                slot: self.free_slots@.last(),
                generation: self.slots@[self.free_slots@.last() as int].generation,
            }
        } else {
            LocalKey { slot: self.slots@.len() as u32, generation: 0 }
        }
    }

    /// The slots after an insertion: the one emptied last was taken, or else a new one.
    pub open spec fn slots_taken(&self, before: &Self) -> bool {
        &&& self.slots@.len() == if before.free_slots@.len() > 0 {
            before.slots@.len()
        } else {
            before.slots@.len() + 1
        }
        &&& self.free_slots@ == if before.free_slots@.len() > 0 {
            before.free_slots@.drop_last()
        } else {
            before.free_slots@
        }
        &&& forall|s: int|
            0 <= s < before.slots@.len() ==> (#[trigger] self.slots@[s]).generation
                == before.slots@[s].generation
    }

    /// The slots after an identity was retired: its slot can be taken again, unless it has
    /// used up its generations.
    pub open spec fn slots_freed(&self, before: &Self, local: LocalKey) -> bool {
        &&& self.slots@.len() == before.slots@.len()
        &&& self.free_slots@ == if local.generation == u32::MAX {
            before.free_slots@
        } else {
            before.free_slots@.push(local.slot)
        }
        &&& forall|s: int|
            0 <= s < before.slots@.len() ==> (#[trigger] self.slots@[s]).generation == if s
                == local.slot && local.generation != u32::MAX {
                (local.generation + 1) as u32
            } else {
                before.slots@[s].generation
            }
    }

    /// The slot of this identity is occupied in its generation.
    pub open spec fn resident(&self, local: LocalKey) -> bool {
        &&& local.slot < self.slots@.len()
        &&& self.slots@[local.slot as int].dense_index != VACANT
        &&& self.slots@[local.slot as int].generation == local.generation
    }

    /// The dense position that the slot of this identity names.
    pub open spec fn place(&self, local: LocalKey) -> int {
        self.slots@[local.slot as int].dense_index as int
    }

    /// An occupied slot in the right generation is what makes an identity live.
    pub proof fn lemma_resident(&self, local: LocalKey)
        requires
            self.wf(),
        ensures
            self.resident(local) <==> self.live(local),
            self.resident(local) ==> self.at(local, self.place(local)),
    {
        if self.resident(local) {
            let i = self.place(local);
            assert(self.slots@[local.slot as int].dense_index == i);
            assert(self.keys@[i] == local);
        }
        if self.live(local) {
            let i = self.keys@.index_of(local);
            assert(self.keys@[i] == local);
        }
    }

    /// A live identity resolves to its position, and to no other.
    pub proof fn lemma_live_position(&self, local: LocalKey, index: int)
        requires
            self.wf(),
            self.at(local, index),
        ensures
            self.live(local),
            self.resident(local),
            self.place(local) == index,
            self.keys@.index_of(local) == index,
            local.slot < self.slots@.len(),
    {
        let found = self.keys@.index_of(local);
        assert(self.keys@.contains(local));
        assert(self.keys@[found] == local);
        assert(self.keys@[index] == local);
    }

    /// A retired identity is stale: it never aliases a live entry.
    pub proof fn lemma_retired_is_stale(&self, local: LocalKey)
        requires
            self.wf(),
            self.retired(local),
        ensures
            !self.live(local),
            self.lookup(RawKey { pool: self.id, local }) == Err::<int, KeyError>(KeyError::Stale),
    {
        if self.live(local) {
            let i = self.keys@.index_of(local);
            assert(self.keys@[i] == local);
        }
    }

    /// Two live entries never share a slot, so no two live handles alias.
    pub proof fn lemma_live_slots_distinct(&self, i: int, j: int)
        requires
            self.wf(),
            0 <= i < j < self.keys@.len(),
        ensures
            self.keys@[i].slot != self.keys@[j].slot,
    {
    }

    /// An empty pool under the given identity.
    pub fn new(id: PoolId) -> (pool: Self)
        ensures
            pool.wf(),
            pool.id == id,
            pool.values@ == Seq::<T>::empty(),
            pool.keys@ == Seq::<LocalKey>::empty(),
            pool.slots@ == Seq::<Slot>::empty(),
            pool.free_slots@ == Seq::<u32>::empty(),
    {
        DensePool {
            id,
            values: Vec::new(),
            keys: Vec::new(),
            slots: Vec::new(),
            free_slots: Vec::new(),
        }
    }

    /// Whether `additional` more entries fit the index space.
    pub fn has_room(&self, additional: usize) -> (fits: bool)
        requires
            self.wf(),
        ensures
            fits == self.room(additional as int),
    {
        let fresh: usize = additional.saturating_sub(self.free_slots.len());
        match (self.values.len().checked_add(additional), self.slots.len().checked_add(fresh)) {
            (Some(live), Some(slots)) => live <= VACANT as usize && slots <= VACANT as usize,
            _ => false,
        }
    }

    /// Reserve every parallel buffer for `additional` insertions and for the removal
    /// of everything stored then; nothing stored changes.
    pub fn reserve(&mut self, additional: usize)
        requires
            old(self).wf(),
            old(self).room(additional as int),
        ensures
            final(self).wf(),
            final(self).id == old(self).id,
            final(self).values@ == old(self).values@,
            final(self).keys@ == old(self).keys@,
            final(self).slots@ == old(self).slots@,
            final(self).free_slots@ == old(self).free_slots@,
    {
        let fresh: usize = additional.saturating_sub(self.free_slots.len());
        let slots: usize = self.slots.len() + fresh;
        self.values.reserve(additional);
        self.keys.reserve(additional);
        self.slots.reserve(slots - self.slots.len());
        self.free_slots.reserve(slots - self.free_slots.len());
    }

    /// The next identity was never live before, and is not retired.
    pub proof fn lemma_next_local(&self)
        requires
            self.wf(),
            self.room(1),
        ensures
            !self.live(self.next_local()),
            !self.retired(self.next_local()),
    {
        let local = self.next_local();
        if self.free_slots@.len() > 0 {
            let last = self.free_slots@.len() - 1;
            assert(self.free_slots@[last] == local.slot);
            assert(self.free_slots@.contains(local.slot));
        }
        if self.live(local) {
            let i = self.keys@.index_of(local);
            assert(self.keys@[i] == local);
        }
    }

    /// The identity that the next insertion issues.
    pub fn next_key(&self) -> (key: RawKey)
        requires
            self.wf(),
            self.room(1),
        ensures
            key == (RawKey { pool: self.id, local: self.next_local() }),
    {
        let count: usize = self.free_slots.len();
        let local = if count > 0 {
            let slot: u32 = self.free_slots[count - 1];
            LocalKey { slot, generation: self.slots[slot as usize].generation }
        } else {
            LocalKey { slot: self.slots.len() as u32, generation: 0 }
        };
        RawKey { pool: self.id, local }
    }

    /// An insertion keeps every other entry, and stores the new one under the next
    /// identity.
    pub proof fn lemma_inserted(&self, before: &Self, value: T, local: LocalKey)
        requires
            before.wf(),
            self.wf(),
            self.id == before.id,
            self.values@ == before.values@.push(value),
            self.keys@ == before.keys@.push(before.next_local()),
        ensures
            self.live(local) <==> before.live(local) || local == before.next_local(),
            self.live(before.next_local()),
            before.live(local) ==> self.values@[self.place(local)]
                == before.values@[before.place(local)],
            self.values@[self.place(before.next_local())] == value,
    {
        let n = before.keys@.len() as int;
        assert(self.keys@[n] == before.next_local());
        self.lemma_live_position(before.next_local(), n);
        if before.live(local) {
            let i = before.keys@.index_of(local);
            assert(before.keys@[i] == local);
            assert(self.keys@[i] == local);
            before.lemma_live_position(local, i);
            self.lemma_live_position(local, i);
        }
        if self.live(local) {
            let i = self.keys@.index_of(local);
            assert(self.keys@[i] == local);
            if i < n {
                assert(before.keys@[i] == local);
            }
        }
    }

    /// Append an entry under a fresh identity, reusing the slot emptied last.
    pub fn insert(&mut self, value: T) -> (key: RawKey)
        requires
            old(self).wf(),
            old(self).room(1),
        ensures
            final(self).wf(),
            final(self).id == old(self).id,
            final(self).values@ == old(self).values@.push(value),
            final(self).keys@ == old(self).keys@.push(key.local),
            key == (RawKey { pool: old(self).id, local: old(self).next_local() }),
            !old(self).live(key.local),
            !old(self).retired(key.local),
            final(self).slots_taken(old(self)),
            forall|local: LocalKey| old(self).retired(local) ==> final(self).retired(local),
    {
        self.reserve(1);
        let dense_index: u32 = self.values.len() as u32;
        let ghost before = *self;
        let slot: u32 = match self.free_slots.pop() {
            Some(slot) => {
                self.slots[slot as usize].dense_index = dense_index;
                slot
            },
            None => {
                let slot: u32 = self.slots.len() as u32;
                self.slots.push(Slot { generation: 0, dense_index });
                slot
            },
        };
        let local = LocalKey { slot, generation: self.slots[slot as usize].generation };
        self.values.push(value);
        self.keys.push(local);
        proof {
            if before.free_slots@.len() > 0 {
                let last = before.free_slots@.len() - 1;
                assert(before.free_slots@[last] == slot);
                assert forall|s: int|
                    #![trigger self.slots@[s]]
                    0 <= s < self.slots@.len() && self.slots@[s].dense_index == VACANT
                        && self.slots@[s].generation != u32::MAX implies self.free_slots@.contains(
                    s as u32,
                ) by {
                    assert(before.slots@[s].dense_index == VACANT);
                    let j = before.free_slots@.index_of(s as u32);
                    assert(before.free_slots@[j] == s as u32);
                    assert(self.free_slots@[j] == s as u32);
                }
            } else {
                assert forall|s: int|
                    #![trigger self.slots@[s]]
                    0 <= s < self.slots@.len() && self.slots@[s].dense_index == VACANT
                        && self.slots@[s].generation != u32::MAX implies self.free_slots@.contains(
                    s as u32,
                ) by {
                    assert(before.slots@[s].dense_index == VACANT);
                }
            }
            if before.live(local) {
                let i = before.keys@.index_of(local);
                assert(before.keys@[i] == local);
            }
        }
        RawKey { pool: self.id, local }
    }

    /// Resolve a handle to the dense position of its entry.
    pub fn index(&self, key: RawKey) -> (found: Result<usize, KeyError>)
        requires
            self.wf(),
        ensures
            match found {
                Ok(index) => self.lookup(key) == Ok::<int, KeyError>(index as int) && self.at(
                    key.local,
                    index as int,
                ),
                Err(error) => self.lookup(key) == Err::<int, KeyError>(error),
            },
    {
        if key.pool != self.id {
            return Err(KeyError::ForeignSolver);
        }
        if key.local.slot as usize >= self.slots.len() {
            return Err(KeyError::Unknown);
        }
        let slot = &self.slots[key.local.slot as usize];
        proof {
            if self.live(key.local) {
                let i = self.keys@.index_of(key.local);
                assert(self.keys@[i] == key.local);
            }
        }
        if slot.generation != key.local.generation || slot.dense_index == VACANT {
            return Err(KeyError::Stale);
        }
        proof {
            let i = slot.dense_index as int;
            assert(self.slots@[key.local.slot as int].dense_index == i);
            assert(self.keys@[i] == key.local);
            self.lemma_live_position(key.local, i);
        }
        Ok(slot.dense_index as usize)
    }

    /// Borrow the entry of a handle.
    pub fn get(&self, key: RawKey) -> (found: Result<&T, KeyError>)
        requires
            self.wf(),
        ensures
            match found {
                Ok(value) => self.lookup(key) is Ok && *value == self.values@[self.lookup(key)->Ok_0],
                Err(error) => self.lookup(key) == Err::<int, KeyError>(error),
            },
    {
        match self.index(key) {
            Ok(index) => Ok(&self.values[index]),
            Err(error) => Err(error),
        }
    }

    /// Mutably borrow the entry of a handle; only that payload can change.
    pub fn get_mut(&mut self, key: RawKey) -> (found: Result<&mut T, KeyError>)
        requires
            old(self).wf(),
        ensures
            final(self).wf(),
            final(self).id == old(self).id,
            final(self).keys@ == old(self).keys@,
            final(self).slots@ == old(self).slots@,
            final(self).free_slots@ == old(self).free_slots@,
            match found {
                Ok(value) => {
                    &&& old(self).lookup(key) is Ok
                    &&& *value == old(self).values@[old(self).lookup(key)->Ok_0]
                    &&& final(self).values@ == old(self).values@.update(
                        old(self).lookup(key)->Ok_0,
                        *final(value),
                    )
                },
                Err(error) => {
                    &&& old(self).lookup(key) == Err::<int, KeyError>(error)
                    &&& final(self).values@ == old(self).values@
                },
            },
    {
        match self.index(key) {
            Ok(index) => Ok(&mut self.values[index]),
            Err(error) => Err(error),
        }
    }

    /// Borrow the entry of an occupied slot without checking a generation.
    pub fn at_slot(&self, slot: u32) -> (value: &T)
        requires
            self.wf(),
            slot < self.slots@.len(),
            self.slots@[slot as int].dense_index != VACANT,
        ensures
            *value == self.values@[self.slots@[slot as int].dense_index as int],
    {
        &self.values[self.slots[slot as usize].dense_index as usize]
    }

    /// Mutably borrow the entry of an occupied slot without checking a generation.
    pub fn at_slot_mut(&mut self, slot: u32) -> (value: &mut T)
        requires
            old(self).wf(),
            slot < old(self).slots@.len(),
            old(self).slots@[slot as int].dense_index != VACANT,
        ensures
            *value == old(self).values@[old(self).slots@[slot as int].dense_index as int],
            final(self).wf(),
            final(self).id == old(self).id,
            final(self).keys@ == old(self).keys@,
            final(self).slots@ == old(self).slots@,
            final(self).free_slots@ == old(self).free_slots@,
            final(self).values@ == old(self).values@.update(
                old(self).slots@[slot as int].dense_index as int,
                *final(value),
            ),
    {
        let index: usize = self.slots[slot as usize].dense_index as usize;
        &mut self.values[index]
    }

    /// Take an entry out; the last entry moves into its place.
    ///
    /// Every other handle keeps resolving to its own payload. The removed handle is
    /// retired: reusing the slot raises its generation, and a slot whose generations
    /// are used up stays empty.
    pub fn remove(&mut self, key: RawKey) -> (removed: Result<T, KeyError>)
        requires
            old(self).wf(),
        ensures
            final(self).wf(),
            final(self).id == old(self).id,
            final(self).slots@.len() == old(self).slots@.len(),
            forall|local: LocalKey| old(self).retired(local) ==> final(self).retired(local),
            match removed {
                Ok(value) => {
                    let index = old(self).lookup(key)->Ok_0;
                    &&& old(self).lookup(key) is Ok
                    &&& value == old(self).values@[index]
                    &&& final(self).values@ == swap_removed(old(self).values@, index)
                    &&& final(self).keys@ == swap_removed(old(self).keys@, index)
                    &&& final(self).retired(key.local)
                    &&& final(self).slots_freed(old(self), key.local)
                    &&& forall|local: LocalKey|
                        local != key.local ==> (final(self).live(local) <==> old(self).live(local))
                },
                Err(error) => {
                    &&& old(self).lookup(key) == Err::<int, KeyError>(error)
                    &&& *final(self) == *old(self)
                },
            },
    {
        let index: usize = match self.index(key) {
            Ok(index) => index,
            Err(error) => {
                return Err(error);
            },
        };
        let ghost before = *self;
        let value = self.values.swap_remove(index);
        self.keys.swap_remove(index);
        if index < self.keys.len() {
            let moved = self.keys[index];
            self.slots[moved.slot as usize].dense_index = index as u32;
        }
        let slot: usize = key.local.slot as usize;
        self.slots[slot].dense_index = VACANT;
        match self.slots[slot].generation.checked_add(1) {
            Some(generation) => {
                self.slots[slot].generation = generation;
                self.free_slots.push(key.local.slot);
            },
            None => {},
        }
        proof {
            lemma_swap_removed(before.values@, index as int);
            lemma_swap_removed(before.keys@, index as int);
            let last = before.keys@.len() - 1;
            let moved = before.keys@[last];
            assert(before.keys@[index as int] == key.local);
            assert(index < last ==> moved.slot != key.local.slot) by {
                if index < last {
                    before.lemma_live_slots_distinct(index as int, last);
                }
            }
            assert(!before.free_slots@.contains(key.local.slot)) by {
                if before.free_slots@.contains(key.local.slot) {
                    let j = before.free_slots@.index_of(key.local.slot);
                    assert(before.free_slots@[j] == key.local.slot);
                }
            }
            assert forall|i: int| 0 <= i < self.keys@.len() implies {
                let k = #[trigger] self.keys@[i];
                &&& k.slot < self.slots@.len()
                &&& self.slots@[k.slot as int].dense_index == i
                &&& self.slots@[k.slot as int].generation == k.generation
            } by {
                let from = if i == index {
                    last
                } else {
                    i
                };
                assert(self.keys@[i] == before.keys@[from]);
            }
            assert forall|s: int|
                #![trigger self.slots@[s]]
                0 <= s < self.slots@.len() && self.slots@[s].dense_index != VACANT implies {
                &&& self.slots@[s].dense_index < self.keys@.len()
                &&& self.keys@[self.slots@[s].dense_index as int].slot == s
            } by {
                assert(before.slots@[s].dense_index != VACANT);
                assert(before.keys@[before.slots@[s].dense_index as int].slot == s);
            }
            assert forall|s: int|
                #![trigger self.slots@[s]]
                0 <= s < self.slots@.len() && self.slots@[s].dense_index == VACANT
                    && self.slots@[s].generation != u32::MAX implies self.free_slots@.contains(
                s as u32,
            ) by {
                if s == key.local.slot {
                    assert(self.free_slots@[self.free_slots@.len() - 1] == s as u32);
                } else {
                    assert(before.slots@[s].dense_index == VACANT);
                    let j = before.free_slots@.index_of(s as u32);
                    assert(before.free_slots@[j] == s as u32);
                    assert(self.free_slots@[j] == s as u32);
                }
            }
            assert forall|j: int|
                #![trigger self.free_slots@[j]]
                0 <= j < self.free_slots@.len() implies {
                &&& self.free_slots@[j] < self.slots@.len()
                &&& self.slots@[self.free_slots@[j] as int].dense_index == VACANT
            } by {
                if j < before.free_slots@.len() {
                    assert(self.free_slots@[j] == before.free_slots@[j]);
                }
            }
            assert forall|local: LocalKey| before.retired(local) implies self.retired(local) by {
                if self.free_slots@.contains(local.slot) {
                    let j = self.free_slots@.index_of(local.slot);
                    assert(self.free_slots@[j] == local.slot);
                    if j < before.free_slots@.len() {
                        assert(before.free_slots@[j] == local.slot);
                    }
                }
            }
            assert(self.retired(key.local));
            assert forall|local: LocalKey| local != key.local implies (self.live(local)
                <==> before.live(local)) by {
                if self.live(local) {
                    let i = self.keys@.index_of(local);
                    assert(self.keys@[i] == local);
                    assert(before.keys@[if i == index {
                        last
                    } else {
                        i
                    }] == local);
                }
                if before.live(local) {
                    let i = before.keys@.index_of(local);
                    assert(before.keys@[i] == local);
                    assert(self.keys@[if i == last {
                        index as int
                    } else {
                        i
                    }] == local);
                }
            }
        }
        Ok(value)
    }

    /// Remove every entry whose identity is selected.
    ///
    /// The removed handles are retired; every other handle keeps its payload.
    pub fn remove_selected(&mut self, selected: &KeySet)
        requires
            old(self).wf(),
            selected.wf(),
        ensures
            final(self).wf(),
            final(self).id == old(self).id,
            final(self).slots@.len() == old(self).slots@.len(),
            final(self).survives(old(self), selected@, 0),
    {
        let mut index: usize = self.keys.len();
        proof {
            assert forall|local: LocalKey| #[trigger] self.live(local) implies self.values@[self.place(
                local,
            )] == old(self).values@[old(self).place(local)] by {}
        }
        while index > 0
            invariant
                old(self).wf(),
                self.wf(),
                selected.wf(),
                self.id == old(self).id,
                self.slots@.len() == old(self).slots@.len(),
                index <= self.keys@.len(),
                self.survives(old(self), selected@, index as int),
            decreases index,
        {
            index -= 1;
            let raw = RawKey { pool: self.id, local: self.keys[index] };
            proof {
                self.lemma_live_position(raw.local, index as int);
            }
            if selected.contains(raw) {
                let ghost before = *self;
                match self.remove(raw) {
                    Ok(_) => {},
                    Err(_) => {},
                }
                proof {
                    before.lemma_survives_removal(*self, old(self), selected@, index as int);
                }
            }
        }
    }

    /// The entries of `before`, apart from selected ones that were not kept; from
    /// position `reached` on, only unselected ones are left.
    pub open spec fn survives(&self, before: &Self, selected: Set<RawKey>, reached: int) -> bool {
        &&& forall|local: LocalKey| #[trigger]
            self.live(local) ==> before.live(local) && self.values@[self.place(local)]
                == before.values@[before.place(local)]
        &&& forall|local: LocalKey| #[trigger]
            before.live(local) && !selected.contains(RawKey { pool: before.id, local })
                ==> self.live(local)
        &&& forall|local: LocalKey| #[trigger]
            before.live(local) && !self.live(local) ==> self.retired(local)
        &&& forall|local: LocalKey| #[trigger] before.retired(local) ==> self.retired(local)
        &&& forall|i: int|
            reached <= i < self.keys@.len() ==> !selected.contains(
                RawKey { pool: before.id, local: #[trigger] self.keys@[i] },
            )
    }

    /// Nothing selected is left once every position has been passed.
    pub proof fn lemma_survivors(&self, before: &Self, selected: Set<RawKey>, local: LocalKey)
        requires
            self.wf(),
            before.wf(),
            self.survives(before, selected, 0),
        ensures
            self.live(local) <==> before.live(local) && !selected.contains(
                RawKey { pool: before.id, local },
            ),
            before.live(local) && selected.contains(RawKey { pool: before.id, local })
                ==> self.retired(local),
            self.live(local) ==> self.values@[self.place(local)]
                == before.values@[before.place(local)],
    {
        if self.live(local) {
            let i = self.keys@.index_of(local);
            assert(self.keys@[i] == local);
        }
    }

    proof fn lemma_survives_removal(
        &self,
        after: Self,
        before: &Self,
        selected: Set<RawKey>,
        index: int,
    )
        requires
            before.wf(),
            self.wf(),
            after.wf(),
            self.survives(before, selected, index + 1),
            0 <= index < self.keys@.len(),
            after.values@ == swap_removed(self.values@, index),
            after.keys@ == swap_removed(self.keys@, index),
            after.retired(self.keys@[index]),
            selected.contains(RawKey { pool: before.id, local: self.keys@[index] }),
            forall|local: LocalKey| self.retired(local) ==> after.retired(local),
            forall|local: LocalKey|
                local != self.keys@[index] ==> (after.live(local) <==> self.live(local)),
        ensures
            after.survives(before, selected, index),
    {
        lemma_swap_removed(self.values@, index);
        lemma_swap_removed(self.keys@, index);
        let removed = self.keys@[index];
        let last = self.keys@.len() - 1;
        after.lemma_retired_is_stale(removed);
        assert forall|local: LocalKey| #[trigger] after.live(local) implies before.live(local)
            && after.values@[after.place(local)] == before.values@[before.place(local)] by {
            assert(self.live(local));
            after.lemma_resident(local);
            let to = after.place(local);
            let from = if to == index {
                last
            } else {
                to
            };
            assert(after.keys@[to] == local);
            assert(self.keys@[from] == local);
            self.lemma_live_position(local, from);
            assert(after.values@[to] == self.values@[from]);
        }
        assert forall|local: LocalKey| #[trigger]
            before.live(local) && !selected.contains(
                RawKey { pool: before.id, local },
            ) implies after.live(local) by {
            assert(self.live(local));
        }
        assert forall|local: LocalKey| #[trigger]
            before.live(local) && !after.live(local) implies after.retired(local) by {
            if self.live(local) {
                assert(local == removed);
            }
        }
        assert forall|i: int| index <= i < after.keys@.len() implies !selected.contains(
            RawKey { pool: before.id, local: #[trigger] after.keys@[i] },
        ) by {
            let from = if i == index {
                last
            } else {
                i
            };
            assert(after.keys@[i] == self.keys@[from]);
        }
    }

    /// Dense position of every entry paired with its full identity.
    pub fn iter(&self) -> (entries: Vec<(RawKey, &T)>)
        requires
            self.wf(),
        ensures
            entries@.len() == self.keys@.len(),
            forall|i: int|
                0 <= i < entries@.len() ==> (#[trigger] entries@[i]).0 == (RawKey {
                    pool: self.id,
                    local: self.keys@[i],
                }) && *entries@[i].1 == self.values@[i],
    {
        let mut entries: Vec<(RawKey, &T)> = Vec::new();
        let mut i: usize = 0;
        while i < self.keys.len()
            invariant
                self.wf(),
                i <= self.keys@.len(),
                entries@.len() == i,
                forall|j: int|
                    0 <= j < i ==> (#[trigger] entries@[j]).0 == (RawKey {
                        pool: self.id,
                        local: self.keys@[j],
                    }) && *entries@[j].1 == self.values@[j],
            decreases self.keys@.len() - i,
        {
            entries.push((RawKey { pool: self.id, local: self.keys[i] }, &self.values[i]));
            i += 1;
        }
        entries
    }
}

/// A sequence without the item at `index`, whose place the last item takes.
pub open spec fn swap_removed<A>(s: Seq<A>, index: int) -> Seq<A> {
    s.update(index, s.last()).drop_last()
}

pub proof fn lemma_swap_removed<A>(s: Seq<A>, index: int)
    requires
        0 <= index < s.len(),
    ensures
        swap_removed(s, index).len() == s.len() - 1,
        forall|i: int|
            0 <= i < s.len() - 1 ==> #[trigger] swap_removed(s, index)[i] == if i == index {
                s.last()
            } else {
                s[i]
            },
{
}

} // verus!
