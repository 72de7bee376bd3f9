use latch::latch::{Latch, LatchError};
use latch::lock::{build_lock, hash_key, Lock};
use std::collections::hash_map::DefaultHasher;
use std::hash::{Hash, Hasher};

fn std_hash(key: &str) -> u64 {
    let mut s = DefaultHasher::new();
    key.hash(&mut s);
    s.finish()
}

#[test]
fn hash_key_is_the_standard_hash_of_the_string() {
    for key in ["", "a", "hello", "world", "k\u{e9}y"] {
        assert_eq!(hash_key(key), std_hash(key));
    }
    assert_ne!(hash_key("hello"), hash_key("world"));
}

#[test]
fn lock_hashes_are_sorted_and_distinct() {
    let keys = vec!["b", "a", "c", "a", "b"];
    let lock = build_lock(&keys);
    let mut expected = vec![std_hash("a"), std_hash("b"), std_hash("c")];
    expected.sort_unstable();
    assert_eq!(lock.required_hashes(), &expected);
    assert_eq!(lock.owned_count(), 0);
    assert!(lock.required_hashes().len() <= keys.len());
    assert!(lock.is_write_lock());
    assert!(!lock.acquired());
}

#[test]
fn new_and_build_lock_agree() {
    let keys = vec!["hello", "world"];
    assert_eq!(Lock::new(&keys).required_hashes(), build_lock(&keys).required_hashes());
}

#[test]
fn from_hashes_sorts_and_drops_repeats() {
    let lock = Lock::from_hashes(vec![5, 1, 5, 3, 1, u64::MAX, 0]);
    assert_eq!(lock.required_hashes(), &vec![0, 1, 3, 5, u64::MAX]);
    assert_eq!(lock.owned_count(), 0);
}

#[test]
fn empty_key_set_is_acquired_at_once() {
    let keys: Vec<&str> = vec![];
    let lock = Lock::new(&keys);
    assert!(lock.acquired());
    assert!(!lock.is_write_lock());
    assert_eq!(lock.required_hashes().len(), 0);
    let lock = Lock::from_hashes(vec![]);
    assert!(lock.acquired());
}

#[test]
fn clone_of_a_lock() {
    let lock = Lock::from_hashes(vec![4, 2]);
    let copy = lock.clone();
    assert_eq!(copy.required_hashes(), &vec![2, 4]);
    assert_eq!(copy.owned_count(), 0);
}

#[test]
fn advance_and_retreat_move_one_hash_at_a_time() {
    let mut slot = Latch::new();
    let mut lock = Lock::from_hashes(vec![7, 3]);
    assert!(lock.advance(&mut slot, 1));
    assert_eq!(lock.owned_count(), 1);
    assert_eq!(slot.holder(3), Some(1));
    assert_eq!(slot.holder(7), None);

    let mut other = Lock::from_hashes(vec![3]);
    assert!(!other.advance(&mut slot, 2));
    assert_eq!(other.owned_count(), 0);
    assert!(slot.is_waiting(3, 2));

    assert!(lock.advance(&mut slot, 1));
    assert!(lock.acquired());
    assert_eq!(slot.holder(7), Some(1));
    // Nothing is missing: the slot is left alone.
    assert!(lock.advance(&mut slot, 1));
    assert_eq!(lock.owned_count(), 2);

    assert_eq!(lock.retreat(&mut slot, 1), Ok(None));
    assert_eq!(lock.owned_count(), 1);
    assert_eq!(slot.holder(7), None);
    assert_eq!(lock.retreat(&mut slot, 1), Ok(Some(2)));
    assert_eq!(lock.owned_count(), 0);
    assert_eq!(lock.retreat(&mut slot, 1), Ok(None));
    assert_eq!(slot.holder(3), Some(2));

    // The hash was handed to the second command while it waited.
    assert!(other.advance(&mut slot, 2));
    assert!(other.acquired());
    assert_eq!(other.retreat(&mut slot, 9), Err(LatchError::NotHolder));
    assert_eq!(other.owned_count(), 1);
    assert_eq!(slot.holder(3), Some(2));
}
