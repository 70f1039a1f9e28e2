use std::collections::HashMap;
use std::rc::Rc;

use syncmap::entry::Entry;
use syncmap::map::SyncMap;

#[test]
fn map_load() {}

#[test]
fn map_drop() {
    let mut map = HashMap::new();

    let s = String::from("this will put on the heap");
    let e = Entry::new(s);

    map.insert(1, Rc::new(e));
}

#[test]
fn sequential_per_key() {
    let mut m: SyncMap<u32> = SyncMap::new();
    assert_eq!(m.load(7), None);
    m.store(7, 1);
    assert_eq!(m.load(7), Some(&1));
    m.store(7, 2);
    assert_eq!(m.load(7), Some(&2));
    assert_eq!(m.delete(7), Some(2));
    assert_eq!(m.load(7), None);
    assert_eq!(m.delete(7), None);
    m.store(7, 3);
    assert_eq!(m.load(7), Some(&3));
}

#[test]
fn last_store_wins() {
    // two stores of the same key back to back: a load sees the second
    // value, whole, never the first and never nothing
    let mut m: SyncMap<u64> = SyncMap::new();
    m.store(5, 111);
    m.store(5, 222);
    assert_eq!(m.load(5), Some(&222));
}

#[test]
fn promotion_lock_free() {
    let mut m: SyncMap<u64> = SyncMap::new();
    // five stores of distinct keys land in the dirty overlay
    for i in 0..5u64 {
        m.store(i, i * 10);
    }
    // five misses on nonexistent keys reach the overlay's size: promotion
    for i in 100..105u64 {
        assert_eq!(m.load(i), None);
    }
    // every stored key now resolves from the snapshot: zero lock entries
    let locks = m.lock_entries();
    for i in 0..5u64 {
        assert_eq!(m.load(i), Some(&(i * 10)));
    }
    // in-place updates of snapshot-live keys are lock-free too
    m.store(3, 99);
    assert_eq!(m.load(3), Some(&99));
    assert_eq!(m.lock_entries(), locks);
}

#[test]
fn delete_then_store_resurrects() {
    let mut m: SyncMap<u32> = SyncMap::new();
    m.store(1, 10);
    // promote, so that key 1 sits in the snapshot
    assert_eq!(m.load(50), None);
    // tombstone it, then force an overlay rebuild that expunges it
    assert_eq!(m.delete(1), Some(10));
    m.store(2, 20);
    // the slot for key 1 is now expunged: the store must still win
    m.store(1, 30);
    assert_eq!(m.load(1), Some(&30));
    assert_eq!(m.load(2), Some(&20));
}

#[test]
fn range_visits_live_keys() {
    let mut m: SyncMap<&str> = SyncMap::new();
    m.store(1, "a");
    m.store(2, "b");
    m.store(3, "c");
    m.delete(2);
    let mut ks = m.range();
    ks.sort();
    assert_eq!(ks, vec![1, 3]);
    // a deleted key with no later store is never visited; a key present
    // throughout is always visited
    m.store(2, "b2");
    let mut ks2 = m.range();
    ks2.sort();
    assert_eq!(ks2, vec![1, 2, 3]);
}

#[test]
fn scenario_two_keys_promotion() {
    let mut m: SyncMap<u32> = SyncMap::new();
    m.store(1, 1);
    m.store(2, 2);
    assert_eq!(m.load(1), Some(&1));
    assert_eq!(m.delete(1), Some(1));
    assert_eq!(m.load(1), None);
    m.store(1, 3);
    assert_eq!(m.load(1), Some(&3));
    // drive enough stores of fresh keys, and misses, to cross the
    // promotion threshold
    for i in 10..20u64 {
        m.store(i, 0);
    }
    for i in 100..120u64 {
        assert_eq!(m.load(i), None);
    }
    assert_eq!(m.load(2), Some(&2));
    assert_eq!(m.load(1), Some(&3));
}
