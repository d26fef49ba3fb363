//! Hashed lookups keyed by entry identities.
use crate::key::{lemma_code_injective, RawKey};
use std::collections::{HashMap, HashSet};
use vstd::prelude::*;

verus! {

broadcast use vstd::std_specs::hash::group_hash_axioms;

/// Positions stored under identities.
pub struct KeyIndex {
    pub positions: HashMap<u128, usize>,
}

impl View for KeyIndex {
    type V = Map<RawKey, usize>;

    open spec fn view(&self) -> Map<RawKey, usize> {
        Map::new(
            |key: RawKey| self.positions@.contains_key(key.code_spec()),
            |key: RawKey| self.positions@[key.code_spec()],
        )
    }
}

impl KeyIndex {
    /// An empty index.
    pub fn new() -> (index: Self)
        ensures
            index@ == Map::<RawKey, usize>::empty(),
    {
        let index = KeyIndex { positions: HashMap::new() };
        assert(index@ =~= Map::<RawKey, usize>::empty());
        index
    }

    /// Forget everything.
    pub fn clear(&mut self)
        ensures
            final(self)@ == Map::<RawKey, usize>::empty(),
    {
        self.positions.clear();
        assert(self@ =~= Map::<RawKey, usize>::empty());
    }

    /// The position stored under an identity.
    pub fn get(&self, key: RawKey) -> (position: Option<usize>)
        ensures
            match position {
                Some(position) => self@.contains_key(key) && self@[key] == position,
                None => !self@.contains_key(key),
            },
    {
        match self.positions.get(&key.code()) {
            Some(position) => Some(*position),
            None => None,
        }
    }

    /// Store a position under an identity, in place of any stored there before.
    pub fn insert(&mut self, key: RawKey, position: usize)
        ensures
            final(self)@ == old(self)@.insert(key, position),
    {
        self.positions.insert(key.code(), position);
        proof {
            assert forall|other: RawKey| #[trigger] self@.contains_key(other) <==> old(
                self,
            )@.insert(key, position).contains_key(other) by {
                lemma_code_injective(other, key);
            }
            assert forall|other: RawKey| self@.contains_key(other) implies #[trigger] self@[other]
                == old(self)@.insert(key, position)[other] by {
                lemma_code_injective(other, key);
            }
            assert(self@ =~= old(self)@.insert(key, position));
        }
    }
}

/// A set of identities that remembers the order in which they were added.
pub struct KeySet {
    pub codes: HashSet<u128>,
    pub items: Vec<RawKey>,
}

impl View for KeySet {
    type V = Set<RawKey>;

    open spec fn view(&self) -> Set<RawKey> {
        self.items@.to_set()
    }
}

impl KeySet {
    /// The hashed and the listed members are the same, each listed once.
    pub open spec fn wf(&self) -> bool {
        &&& self.items@.no_duplicates()
        &&& forall|key: RawKey|
            #![trigger self.items@.contains(key)]
            self.items@.contains(key) <==> self.codes@.contains(key.code_spec())
    }

    /// The empty set.
    pub fn new() -> (set: Self)
        ensures
            set.wf(),
            set.items@ == Seq::<RawKey>::empty(),
            set@ == Set::<RawKey>::empty(),
    {
        let set = KeySet { codes: HashSet::new(), items: Vec::new() };
        assert(set@ =~= Set::<RawKey>::empty());
        set
    }

    /// Whether an identity is a member.
    pub fn contains(&self, key: RawKey) -> (member: bool)
        requires
            self.wf(),
        ensures
            member == self@.contains(key),
    {
        assert(self@.contains(key) == self.items@.contains(key));
        self.codes.contains(&key.code())
    }

    /// Add an identity at the end, unless it is a member already.
    pub fn insert(&mut self, key: RawKey) -> (added: bool)
        requires
            old(self).wf(),
        ensures
            final(self).wf(),
            added == !old(self)@.contains(key),
            final(self)@ == old(self)@.insert(key),
            final(self).items@ == if added {
                old(self).items@.push(key)
            } else {
                old(self).items@
            },
    {
        if self.contains(key) {
            assert(self@ =~= old(self)@.insert(key));
            return false;
        }
        self.codes.insert(key.code());
        self.items.push(key);
        proof {
            assert(!old(self).items@.contains(key));
            assert forall|other: RawKey|
                #![trigger self.items@.contains(other)]
                self.items@.contains(other) <==> self.codes@.contains(other.code_spec()) by {
                lemma_code_injective(other, key);
                if self.items@.contains(other) {
                    let i = self.items@.index_of(other);
                    assert(self.items@[i] == other);
                    if i < old(self).items@.len() {
                        assert(old(self).items@[i] == other);
                        assert(old(self).items@.contains(other));
                    }
                }
                if self.codes@.contains(other.code_spec()) {
                    if other == key {
                        assert(self.items@[self.items@.len() - 1] == other);
                    } else {
                        assert(old(self).items@.contains(other));
                        let i = old(self).items@.index_of(other);
                        assert(old(self).items@[i] == other);
                        assert(self.items@[i] == other);
                    }
                }
            }
            assert forall|other: RawKey| self@.contains(other) <==> old(self)@.insert(
                key,
            ).contains(other) by {
                lemma_code_injective(other, key);
                assert(self.items@.contains(other) <==> self.codes@.contains(other.code_spec()));
                assert(old(self).items@.contains(other) <==> old(self).codes@.contains(
                    other.code_spec(),
                ));
            }
            assert(self@ =~= old(self)@.insert(key));
        }
        true
    }

    /// Number of members.
    pub fn len(&self) -> (n: usize)
        requires
            self.wf(),
        ensures
            n == self.items@.len(),
            n == self@.len(),
    {
        proof {
            self.items@.unique_seq_to_set();
        }
        self.items.len()
    }

    /// Whether there are no members.
    pub fn is_empty(&self) -> (empty: bool)
        requires
            self.wf(),
        ensures
            empty == (self.items@.len() == 0),
    {
        self.items.len() == 0
    }
}

} // verus!
