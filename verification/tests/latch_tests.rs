use latch::latch::Latch;
use latch::lock::Lock;

#[test]
fn test_lock() {
    let keys = vec!["hello", "world"];
    let lock = Lock::new(&keys);
    assert!(!lock.acquired());
}

#[test]
fn test_latch() {
    let mut l = Latch::new();
    l.wait_for_wake(1024, 1);
    l.wait_for_wake(1025, 2);
    l.wait_for_wake(1024, 9);
    l.wait_for_wake(1026, 3);
    assert_eq!(l.pop_front(1024), Some((1024, 1)));
    assert_eq!(l.pop_front(1024), Some((1024, 9)));
    assert_eq!(l.pop_front(1026), Some((1026, 3)));
    assert_eq!(l.pop_front(1025), Some((1025, 2)));
    assert_eq!(l.pop_front(1024), None);
    assert_eq!(l.pop_front(1025), None);
    assert_eq!(l.pop_front(1026), None);
}

#[test]
fn pop_front_takes_the_oldest_entry_of_each_hash() {
    let mut l = Latch::new();
    l.wait_for_wake(7, 1);
    l.wait_for_wake(8, 2);
    l.wait_for_wake(7, 3);
    l.wait_for_wake(8, 4);
    assert_eq!(l.get_first_req_by_hash(8), Some(2));
    assert_eq!(l.pop_front(8), Some((8, 2)));
    assert_eq!(l.get_first_req_by_hash(8), Some(4));
    assert_eq!(l.get_first_req_by_hash(7), Some(1));
    assert_eq!(l.pop_front(8), Some((8, 4)));
    assert_eq!(l.get_first_req_by_hash(8), None);
    assert_eq!(l.pop_front(7), Some((7, 1)));
    assert_eq!(l.pop_front(7), Some((7, 3)));
    assert_eq!(l.get_first_req_by_hash(7), None);
}

#[test]
fn get_first_req_by_hash_on_an_empty_latch() {
    let l = Latch::new();
    assert_eq!(l.get_first_req_by_hash(0), None);
    assert_eq!(l.holder(0), None);
    assert!(!l.is_waiting(0, 0));
}

#[test]
fn maybe_shrink_keeps_the_entries() {
    let mut l = Latch::new();
    l.wait_for_wake(1, 10);
    l.wait_for_wake(2, 20);
    l.wait_for_wake(1, 30);
    assert_eq!(l.pop_front(2), Some((2, 20)));
    l.maybe_shrink();
    assert_eq!(l.pop_front(1), Some((1, 10)));
    l.maybe_shrink();
    assert_eq!(l.pop_front(1), Some((1, 30)));
    l.maybe_shrink();
    assert_eq!(l.pop_front(1), None);
}

#[test]
fn waiting_list_gives_storage_back() {
    let mut l = Latch::new();
    for cid in 0..20u64 {
        l.wait_for_wake(42, cid);
    }
    assert!(l.waiting_capacity() >= 20);
    for cid in 0..20u64 {
        assert_eq!(l.pop_front(42), Some((42, cid)));
    }
    assert_eq!(l.pop_front(42), None);
    assert!(l.waiting_capacity() <= latch::latch::WAITING_LIST_MAX_CAPACITY);
}

#[test]
fn waiting_list_gives_storage_back_after_scattered_pops() {
    let mut l = Latch::new();
    for cid in 0..20u64 {
        l.wait_for_wake(cid % 2, cid);
    }
    for cid in 0..10u64 {
        assert_eq!(l.pop_front(1), Some((1, 2 * cid + 1)));
    }
    for cid in 0..10u64 {
        assert_eq!(l.pop_front(0), Some((0, 2 * cid)));
    }
    assert!(l.waiting_capacity() <= latch::latch::WAITING_LIST_MAX_CAPACITY);
}

#[test]
fn shrink_marks() {
    assert_eq!(latch::latch::WAITING_LIST_SHRINK_SIZE, 8);
    assert_eq!(latch::latch::WAITING_LIST_MAX_CAPACITY, 16);
}

#[test]
fn waiting_capacity_covers_the_entries() {
    let mut l = Latch::new();
    for cid in 0..5u64 {
        l.wait_for_wake(3, cid);
        assert!(l.waiting_capacity() >= (cid + 1) as usize);
    }
    for cid in 5..40u64 {
        l.wait_for_wake(3, cid);
    }
    assert!(l.waiting_capacity() >= 40);
}
