use fagra::dense::{DensePool, VACANT};
use fagra::error::KeyError;
use fagra::index::KeySet;
use fagra::key::{LocalKey, PoolId, RawKey};
use std::cell::Cell;
use std::rc::Rc;

fn identity(counter: &mut u64) -> PoolId {
    PoolId::allocate(counter).unwrap()
}

fn check<T>(pool: &DensePool<T>) {
    assert_eq!(pool.values.len(), pool.keys.len());
    let mut seen = vec![false; pool.slots.len()];
    for (index, &local) in pool.keys.iter().enumerate() {
        assert!(!seen[local.slot as usize]);
        seen[local.slot as usize] = true;
        let raw = RawKey { pool: pool.id, local };
        assert_eq!(pool.index(raw).unwrap(), index);
    }
    for &slot in &pool.free_slots {
        assert!(!seen[slot as usize]);
        seen[slot as usize] = true;
        assert_eq!(pool.slots[slot as usize].dense_index, VACANT);
    }
    for (slot, seen) in pool.slots.iter().zip(seen) {
        if !seen {
            assert_eq!(slot.generation, u32::MAX);
            assert_eq!(slot.dense_index, VACANT);
        }
    }
}

#[test]
fn compaction_reuse_and_reserved_churn_preserve_invariants() {
    let mut counter = 1;
    let mut pool = DensePool::new(identity(&mut counter));
    pool.reserve(128);
    let capacity = (
        pool.values.capacity(),
        pool.keys.capacity(),
        pool.slots.capacity(),
        pool.free_slots.capacity(),
    );
    let mut live = Vec::new();
    let mut seed = 7_u64;
    for value in 0..10_000 {
        if live.is_empty() || (live.len() < 100 && value % 3 != 0) {
            live.push((pool.insert(value), value));
        } else {
            seed = seed.wrapping_mul(6364136223846793005).wrapping_add(1);
            let index = (seed as usize) % live.len();
            let (key, expected) = live.swap_remove(index);
            assert_eq!(pool.remove(key).unwrap(), expected);
            assert!(matches!(pool.get(key), Err(KeyError::Stale)));
            assert!(matches!(pool.remove(key), Err(KeyError::Stale)));
        }
        for &(key, value) in &live {
            assert_eq!(*pool.get(key).unwrap(), value);
        }
        check(&pool);
    }
    assert_eq!(
        capacity,
        (
            pool.values.capacity(),
            pool.keys.capacity(),
            pool.slots.capacity(),
            pool.free_slots.capacity(),
        )
    );
}

#[test]
fn invalid_keys_and_exhaustion_cannot_alias_live_values() {
    let mut counter = 1;
    let mut pool = DensePool::new(identity(&mut counter));
    let first = pool.insert(10);
    let other = DensePool::<i32>::new(identity(&mut counter));
    let foreign = RawKey { pool: other.id, ..first };
    let unknown = RawKey { local: LocalKey { slot: u32::MAX, generation: 0 }, ..first };
    assert!(matches!(pool.get(foreign), Err(KeyError::ForeignSolver)));
    assert!(matches!(pool.get(unknown), Err(KeyError::Unknown)));
    assert!(matches!(pool.remove(foreign), Err(KeyError::ForeignSolver)));
    assert!(matches!(pool.remove(unknown), Err(KeyError::Unknown)));

    // Simulate the final usable generation without billions of insertions.
    pool.slots[first.local.slot as usize].generation = u32::MAX;
    pool.keys[0].generation = u32::MAX;
    let last = RawKey { local: pool.keys[0], ..first };
    assert!(matches!(pool.get(first), Err(KeyError::Stale)));
    assert_eq!(pool.remove(last).unwrap(), 10);
    let replacement = pool.insert(20);
    assert_ne!(replacement.local.slot, last.local.slot);
    assert!(matches!(pool.get(last), Err(KeyError::Stale)));
    assert_eq!(*pool.get(replacement).unwrap(), 20);
    check(&pool);

    assert!(!pool.has_room(usize::MAX));
    assert!(pool.has_room(1));
    assert_eq!(*pool.get(replacement).unwrap(), 20);
    check(&pool);
}

#[test]
fn values_are_dropped_exactly_once_after_removal_or_pool_drop() {
    struct Value(Rc<Cell<usize>>);
    impl Drop for Value {
        fn drop(&mut self) {
            self.0.set(self.0.get() + 1);
        }
    }
    let drops = Rc::new(Cell::new(0));
    let mut counter = 1;
    let mut pool = DensePool::new(identity(&mut counter));
    let first = pool.insert(Value(drops.clone()));
    pool.insert(Value(drops.clone()));
    let removed = pool.remove(first).unwrap_or_else(|_| panic!("live"));
    check(&pool);
    assert_eq!(drops.get(), 0);
    drop(removed);
    assert_eq!(drops.get(), 1);
    pool.insert(Value(drops.clone()));
    drop(pool);
    assert_eq!(drops.get(), 3);
}

#[test]
fn selected_removal_keeps_the_order_of_lookups() {
    let mut counter = 1;
    let mut pool = DensePool::new(identity(&mut counter));
    let keys: Vec<RawKey> = (0..6).map(|value| pool.insert(value)).collect();
    let mut selected = KeySet::new();
    selected.insert(keys[1]);
    selected.insert(keys[4]);
    pool.remove_selected(&selected);
    check(&pool);
    for (value, &key) in keys.iter().enumerate() {
        if value == 1 || value == 4 {
            assert!(matches!(pool.get(key), Err(KeyError::Stale)));
        } else {
            assert_eq!(*pool.get(key).unwrap(), value as i32);
        }
    }
    assert_eq!(pool.iter().len(), 4);
}

#[test]
fn values_change_through_their_handles() {
    let mut counter = 1;
    let mut pool = DensePool::new(identity(&mut counter));
    let key = pool.insert(3);
    *pool.get_mut(key).unwrap() = 5;
    assert_eq!(*pool.get(key).unwrap(), 5);
    pool.remove(key).unwrap();
    assert!(matches!(pool.get_mut(key), Err(KeyError::Stale)));
}
