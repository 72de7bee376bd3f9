use latch::latch::{Latch, LatchError};

#[test]
fn free_hash_is_granted_at_once() {
    let mut l = Latch::new();
    assert_eq!(l.acquire(9, 1), Ok(true));
    assert_eq!(l.holder(9), Some(1));
    assert_eq!(l.get_first_req_by_hash(9), None);
}

#[test]
fn first_come_first_served() {
    let mut l = Latch::new();
    assert_eq!(l.acquire(9, 100), Ok(true));
    assert_eq!(l.acquire(9, 1), Ok(false));
    assert_eq!(l.acquire(9, 2), Ok(false));
    assert_eq!(l.acquire(9, 3), Ok(false));
    assert_eq!(l.release(9, 100), Ok(Some(1)));
    assert_eq!(l.holder(9), Some(1));
    assert_eq!(l.release(9, 1), Ok(Some(2)));
    assert_eq!(l.holder(9), Some(2));
    assert_eq!(l.release(9, 2), Ok(Some(3)));
    assert_eq!(l.holder(9), Some(3));
    assert_eq!(l.release(9, 3), Ok(None));
    assert_eq!(l.holder(9), None);
}

#[test]
fn first_come_first_served_between_other_hashes() {
    let mut l = Latch::new();
    assert_eq!(l.acquire(9, 100), Ok(true));
    assert_eq!(l.acquire(13, 200), Ok(true));
    assert_eq!(l.acquire(9, 1), Ok(false));
    assert_eq!(l.acquire(13, 7), Ok(false));
    assert_eq!(l.acquire(9, 2), Ok(false));
    assert_eq!(l.acquire(13, 8), Ok(false));
    assert_eq!(l.acquire(9, 3), Ok(false));
    assert_eq!(l.release(13, 200), Ok(Some(7)));
    assert_eq!(l.release(9, 100), Ok(Some(1)));
    assert_eq!(l.release(9, 1), Ok(Some(2)));
    assert_eq!(l.release(13, 7), Ok(Some(8)));
    assert_eq!(l.release(9, 2), Ok(Some(3)));
    assert_eq!(l.release(9, 3), Ok(None));
    assert_eq!(l.release(13, 8), Ok(None));
}

#[test]
fn one_holder_at_a_time() {
    let mut l = Latch::new();
    assert_eq!(l.acquire(5, 1), Ok(true));
    assert_eq!(l.acquire(5, 2), Ok(false));
    assert_eq!(l.holder(5), Some(1));
    assert_eq!(l.release(5, 2), Err(LatchError::NotHolder));
    assert_eq!(l.holder(5), Some(1));
    assert_eq!(l.acquire(5, 3), Ok(false));
    assert_eq!(l.holder(5), Some(1));
    assert_eq!(l.release(5, 1), Ok(Some(2)));
    assert_eq!(l.holder(5), Some(2));
    assert_eq!(l.release(5, 1), Err(LatchError::NotHolder));
    assert_eq!(l.holder(5), Some(2));
}

#[test]
fn acquiring_a_held_hash_again_is_refused() {
    let mut l = Latch::new();
    assert_eq!(l.acquire(5, 1), Ok(true));
    assert_eq!(l.acquire(5, 1), Err(LatchError::AlreadyHeld));
    assert_eq!(l.holder(5), Some(1));
    assert_eq!(l.get_first_req_by_hash(5), None);
}

#[test]
fn releasing_a_free_hash_is_refused() {
    let mut l = Latch::new();
    assert_eq!(l.release(5, 1), Err(LatchError::NotHolder));
    assert_eq!(l.holder(5), None);
}

#[test]
fn a_waiting_command_that_asks_again_keeps_its_place() {
    let mut l = Latch::new();
    assert_eq!(l.acquire(5, 1), Ok(true));
    assert_eq!(l.acquire(5, 2), Ok(false));
    assert_eq!(l.acquire(5, 3), Ok(false));
    assert_eq!(l.acquire(5, 2), Ok(false));
    assert!(l.is_waiting(5, 2));
    assert_eq!(l.release(5, 1), Ok(Some(2)));
    assert!(!l.is_waiting(5, 2));
    assert_eq!(l.release(5, 2), Ok(Some(3)));
    assert_eq!(l.release(5, 3), Ok(None));
}

#[test]
fn withdraw_takes_only_the_own_entry() {
    let mut l = Latch::new();
    assert_eq!(l.acquire(5, 1), Ok(true));
    assert_eq!(l.acquire(6, 9), Ok(true));
    assert_eq!(l.acquire(5, 2), Ok(false));
    assert_eq!(l.acquire(6, 3), Ok(false));
    assert_eq!(l.acquire(5, 3), Ok(false));
    assert_eq!(l.acquire(5, 4), Ok(false));
    l.withdraw(5, 3);
    assert!(!l.is_waiting(5, 3));
    assert!(l.is_waiting(6, 3));
    assert!(l.is_waiting(5, 2));
    assert!(l.is_waiting(5, 4));
    assert_eq!(l.holder(5), Some(1));
    assert_eq!(l.release(5, 1), Ok(Some(2)));
    assert_eq!(l.release(5, 2), Ok(Some(4)));
    assert_eq!(l.release(5, 4), Ok(None));
    assert_eq!(l.release(6, 9), Ok(Some(3)));
}

#[test]
fn withdraw_of_a_command_that_does_not_wait_changes_nothing() {
    let mut l = Latch::new();
    assert_eq!(l.acquire(5, 1), Ok(true));
    assert_eq!(l.acquire(5, 2), Ok(false));
    l.withdraw(5, 7);
    l.withdraw(6, 2);
    assert_eq!(l.holder(5), Some(1));
    assert_eq!(l.release(5, 1), Ok(Some(2)));
}

#[test]
fn withdraw_of_the_front_entry() {
    let mut l = Latch::new();
    assert_eq!(l.acquire(5, 1), Ok(true));
    assert_eq!(l.acquire(5, 2), Ok(false));
    assert_eq!(l.acquire(5, 3), Ok(false));
    l.withdraw(5, 2);
    assert_eq!(l.get_first_req_by_hash(5), Some(3));
    assert_eq!(l.release(5, 1), Ok(Some(3)));
}

#[test]
fn abandon_by_the_holder_hands_the_hash_on() {
    let mut l = Latch::new();
    assert_eq!(l.acquire(5, 1), Ok(true));
    assert_eq!(l.acquire(5, 2), Ok(false));
    assert_eq!(l.abandon(5, 1), Some(2));
    assert_eq!(l.holder(5), Some(2));
    assert_eq!(l.abandon(5, 1), None);
    assert_eq!(l.holder(5), Some(2));
    assert_eq!(l.abandon(5, 2), None);
    assert_eq!(l.holder(5), None);
}

#[test]
fn abandon_by_a_waiter_leaves_the_queue() {
    let mut l = Latch::new();
    assert_eq!(l.acquire(5, 1), Ok(true));
    assert_eq!(l.acquire(5, 2), Ok(false));
    assert_eq!(l.acquire(5, 3), Ok(false));
    assert_eq!(l.abandon(5, 2), None);
    assert_eq!(l.holder(5), Some(1));
    assert_eq!(l.release(5, 1), Ok(Some(3)));
}

#[test]
fn a_hash_with_waiters_but_no_holder_is_not_granted() {
    let mut l = Latch::new();
    l.wait_for_wake(5, 1);
    assert_eq!(l.acquire(5, 2), Ok(false));
    assert_eq!(l.holder(5), None);
    assert_eq!(l.pop_front(5), Some((5, 1)));
    assert_eq!(l.pop_front(5), Some((5, 2)));
}
