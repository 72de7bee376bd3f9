use latch::latch::LatchError;
use latch::local::LocalLatches;
use latch::lock::Lock;

#[test]
fn local_table_size_is_rounded_up_to_a_power_of_two() {
    assert_eq!(LocalLatches::new(0).size(), 1);
    assert_eq!(LocalLatches::new(3).size(), 4);
    assert_eq!(LocalLatches::new(4).size(), 4);
    assert_eq!(LocalLatches::new(17).size(), 32);
    let table = LocalLatches::new(3);
    assert_eq!(table.bucket_for(5), 1);
    assert_eq!(table.bucket_for(6), 2);
    assert_eq!(table.bucket_for(u64::MAX), 3);
}

#[test]
fn local_two_commands_that_share_a_key() {
    let (a, b, c) = (1u64, 5u64, 2u64);
    let mut table = LocalLatches::new(3);
    let mut lock1 = Lock::from_hashes(vec![a, b]);
    let mut lock2 = Lock::from_hashes(vec![b, c]);

    assert!(table.try_acquire(1, &mut lock1));
    assert!(!table.try_acquire(2, &mut lock2));
    assert_eq!(lock2.owned_count(), 1);
    assert_eq!(table.holder(c), Some(2));
    assert_eq!(table.holder(b), Some(1));
    assert_eq!(table.release_all(1, &mut lock1), Ok(vec![2]));
    assert_eq!(table.holder(a), None);
    assert_eq!(table.holder(b), Some(2));
    assert!(table.try_acquire(2, &mut lock2));
    assert!(lock2.acquired());
}

#[test]
fn local_release_then_reacquire() {
    let mut table = LocalLatches::new(4);
    let mut lock1 = Lock::from_hashes(vec![1, 5, 9]);
    let mut lock2 = Lock::from_hashes(vec![5, 9, 13]);
    assert!(table.try_acquire(1, &mut lock1));
    assert_eq!(table.release_all(1, &mut lock1), Ok(vec![]));
    assert_eq!(lock1.owned_count(), 0);
    assert!(table.try_acquire(2, &mut lock2));
    assert_eq!(table.holder(5), Some(2));
    assert_eq!(table.holder(13), Some(2));
}

#[test]
fn local_first_come_first_served() {
    let mut table = LocalLatches::new(2);
    assert_eq!(table.acquire(4, 10), Ok(true));
    assert_eq!(table.acquire(4, 1), Ok(false));
    assert_eq!(table.acquire(6, 20), Ok(true));
    assert_eq!(table.acquire(4, 2), Ok(false));
    assert_eq!(table.acquire(6, 3), Ok(false));
    assert_eq!(table.acquire(4, 3), Ok(false));
    assert_eq!(table.release(4, 10), Ok(Some(1)));
    assert_eq!(table.release(4, 1), Ok(Some(2)));
    assert_eq!(table.release(6, 20), Ok(Some(3)));
    assert_eq!(table.release(4, 2), Ok(Some(3)));
    assert_eq!(table.release(4, 3), Ok(None));
    assert_eq!(table.release(6, 3), Ok(None));
}

#[test]
fn local_misuse_is_reported() {
    let mut table = LocalLatches::new(4);
    let mut lock = Lock::from_hashes(vec![1, 2]);
    assert!(table.try_acquire(1, &mut lock));
    assert_eq!(table.acquire(1, 1), Err(LatchError::AlreadyHeld));
    assert_eq!(table.release(1, 2), Err(LatchError::NotHolder));
    assert_eq!(table.release_all(2, &mut lock), Err(LatchError::NotHolder));
    assert_eq!(lock.owned_count(), 2);
    assert_eq!(table.release(1, 1), Ok(None));
    // The larger hash is given up, then the call ends at the smaller.
    assert_eq!(table.release_all(1, &mut lock), Err(LatchError::NotHolder));
    assert_eq!(lock.owned_count(), 1);
    assert_eq!(table.holder(2), None);
}

#[test]
fn local_abandon_gives_up_and_leaves_the_queues() {
    let mut table = LocalLatches::new(4);
    let mut lock1 = Lock::from_hashes(vec![5]);
    let mut lock2 = Lock::from_hashes(vec![2, 5]);
    let mut lock3 = Lock::from_hashes(vec![2]);
    let mut lock4 = Lock::from_hashes(vec![5]);
    assert!(table.try_acquire(1, &mut lock1));
    assert!(!table.try_acquire(2, &mut lock2));
    assert!(!table.try_acquire(3, &mut lock3));
    assert!(!table.try_acquire(4, &mut lock4));
    assert_eq!(table.abandon(2, &mut lock2), vec![3]);
    assert_eq!(lock2.owned_count(), 0);
    assert_eq!(table.abandon(2, &mut lock2), Vec::<u64>::new());
    assert_eq!(table.holder(2), Some(3));
    assert_eq!(table.release_all(1, &mut lock1), Ok(vec![4]));
    assert!(table.try_acquire(4, &mut lock4));
    assert!(table.try_acquire(3, &mut lock3));
}

#[test]
fn local_empty_lock_is_acquired_at_once() {
    let mut table = LocalLatches::new(8);
    let mut busy = Lock::from_hashes(vec![0, 1, 2, 3, 4, 5, 6, 7]);
    assert!(table.try_acquire(9, &mut busy));
    let mut lock = Lock::from_hashes(vec![]);
    assert!(table.try_acquire(1, &mut lock));
    assert_eq!(table.release_all(1, &mut lock), Ok(vec![]));
}
