use latch::latch::LatchError;
use latch::latches::Latches;
use latch::lock::Lock;

#[test]
fn table_size_is_rounded_up_to_a_power_of_two() {
    assert_eq!(Latches::new(0).size(), 1);
    assert_eq!(Latches::new(1).size(), 1);
    assert_eq!(Latches::new(2).size(), 2);
    assert_eq!(Latches::new(3).size(), 4);
    assert_eq!(Latches::new(4).size(), 4);
    assert_eq!(Latches::new(5).size(), 8);
    assert_eq!(Latches::new(1000).size(), 1024);
}

#[test]
fn bucket_is_the_low_bits_of_the_hash() {
    let table = Latches::new(3);
    assert_eq!(table.bucket_for(0), 0);
    assert_eq!(table.bucket_for(1), 1);
    assert_eq!(table.bucket_for(5), 1);
    assert_eq!(table.bucket_for(2), 2);
    assert_eq!(table.bucket_for(7), 3);
    assert_eq!(table.bucket_for(u64::MAX), 3);
    let one = Latches::new(1);
    assert_eq!(one.bucket_for(12345), 0);
}

#[test]
fn two_commands_that_share_a_key() {
    // "a" and "b" fall into slot 1, "c" into slot 2.
    let (a, b, c) = (1u64, 5u64, 2u64);
    let table = Latches::new(3);
    assert_eq!(table.size(), 4);
    assert_eq!(table.bucket_for(a), 1);
    assert_eq!(table.bucket_for(b), 1);
    assert_eq!(table.bucket_for(c), 2);

    let mut lock1 = Lock::from_hashes(vec![a, b]);
    let mut lock2 = Lock::from_hashes(vec![b, c]);

    assert!(table.try_acquire(1, &mut lock1));
    assert!(lock1.acquired());
    assert_eq!(table.holder(a), Some(1));
    assert_eq!(table.holder(b), Some(1));

    assert!(!table.try_acquire(2, &mut lock2));
    assert!(!lock2.acquired());
    assert_eq!(lock2.owned_count(), 1);
    assert_eq!(table.holder(c), Some(2));
    assert_eq!(table.holder(b), Some(1));

    assert_eq!(table.release_all(1, &mut lock1), Ok(vec![2]));
    assert_eq!(lock1.owned_count(), 0);
    assert_eq!(table.holder(a), None);
    assert_eq!(table.holder(b), Some(2));

    assert!(table.try_acquire(2, &mut lock2));
    assert!(lock2.acquired());
    assert_eq!(lock2.owned_count(), 2);
}

#[test]
fn a_command_blocked_on_its_smallest_key_takes_no_other() {
    let (a, b, c) = (1u64, 5u64, 6u64);
    let table = Latches::new(3);
    let mut lock1 = Lock::from_hashes(vec![a, b]);
    let mut lock2 = Lock::from_hashes(vec![b, c]);

    assert!(table.try_acquire(1, &mut lock1));
    assert!(!table.try_acquire(2, &mut lock2));
    assert_eq!(lock2.owned_count(), 0);
    assert_eq!(table.holder(c), None);

    assert_eq!(table.release_all(1, &mut lock1), Ok(vec![2]));
    assert_eq!(table.holder(b), Some(2));
    assert!(table.try_acquire(2, &mut lock2));
    assert_eq!(table.holder(c), Some(2));
    assert_eq!(table.release_all(2, &mut lock2), Ok(vec![]));
    assert_eq!(table.holder(b), None);
    assert_eq!(table.holder(c), None);
}

#[test]
fn empty_lock_is_acquired_on_any_table() {
    for size in [0usize, 1, 3, 64] {
        let table = Latches::new(size);
        let mut busy = Lock::from_hashes(vec![1, 2, 3]);
        assert!(table.try_acquire(9, &mut busy));
        let mut lock = Lock::from_hashes(vec![]);
        assert!(lock.acquired());
        assert!(table.try_acquire(1, &mut lock));
        assert_eq!(table.release_all(1, &mut lock), Ok(vec![]));
        assert_eq!(table.abandon(1, &mut lock), Vec::<u64>::new());
    }
}

#[test]
fn release_then_reacquire() {
    let table = Latches::new(4);
    let mut lock1 = Lock::from_hashes(vec![1, 5, 9]);
    let mut lock2 = Lock::from_hashes(vec![5, 9, 13]);
    assert!(table.try_acquire(1, &mut lock1));
    assert_eq!(table.release_all(1, &mut lock1), Ok(vec![]));
    assert!(table.try_acquire(2, &mut lock2));
    assert_eq!(lock2.owned_count(), 3);
    assert_eq!(table.holder(1), None);
    assert_eq!(table.holder(5), Some(2));
    assert_eq!(table.holder(9), Some(2));
    assert_eq!(table.holder(13), Some(2));
}

#[test]
fn try_acquire_again_changes_nothing() {
    let table = Latches::new(4);
    let mut lock1 = Lock::from_hashes(vec![1, 2]);
    let mut lock2 = Lock::from_hashes(vec![2, 3]);
    assert!(table.try_acquire(1, &mut lock1));
    assert!(table.try_acquire(1, &mut lock1));
    assert_eq!(lock1.owned_count(), 2);
    assert!(!table.try_acquire(2, &mut lock2));
    assert!(!table.try_acquire(2, &mut lock2));
    assert_eq!(lock2.owned_count(), 0);
    assert_eq!(table.release_all(1, &mut lock1), Ok(vec![2]));
    assert!(table.try_acquire(2, &mut lock2));
    assert_eq!(table.release_all(2, &mut lock2), Ok(vec![]));
    assert_eq!(table.holder(2), None);
}

#[test]
fn commands_that_share_two_keys_both_finish() {
    let table = Latches::new(8);
    let mut lock1 = Lock::from_hashes(vec![20, 10, 30]);
    let mut lock2 = Lock::from_hashes(vec![30, 20, 40]);
    // The steps of the two commands alternate.
    assert_eq!(table.acquire(10, 1), Ok(true));
    assert_eq!(table.acquire(20, 2), Ok(true));
    assert_eq!(table.acquire(20, 1), Ok(false));
    assert_eq!(table.acquire(30, 2), Ok(true));
    assert_eq!(table.acquire(40, 2), Ok(true));
    // Command 2 owns all its keys, works, and gives them up.
    assert_eq!(table.release(40, 2), Ok(None));
    assert_eq!(table.release(30, 2), Ok(None));
    assert_eq!(table.release(20, 2), Ok(Some(1)));
    // Command 1 was woken and goes on.
    assert!(table.try_acquire(1, &mut lock1));
    assert_eq!(lock1.owned_count(), 3);
    assert_eq!(table.release_all(1, &mut lock1), Ok(vec![]));
    assert!(table.try_acquire(2, &mut lock2));
    assert_eq!(table.release_all(2, &mut lock2), Ok(vec![]));
    for h in [10u64, 20, 30, 40] {
        assert_eq!(table.holder(h), None);
    }
}

#[test]
fn release_all_wakes_one_command_for_each_key() {
    let table = Latches::new(2);
    let mut lock1 = Lock::from_hashes(vec![1, 2, 3]);
    let mut lock2 = Lock::from_hashes(vec![1]);
    let mut lock3 = Lock::from_hashes(vec![3]);
    let mut lock4 = Lock::from_hashes(vec![3]);
    assert!(table.try_acquire(1, &mut lock1));
    assert!(!table.try_acquire(2, &mut lock2));
    assert!(!table.try_acquire(3, &mut lock3));
    assert!(!table.try_acquire(4, &mut lock4));
    // The largest key is given up first.
    assert_eq!(table.release_all(1, &mut lock1), Ok(vec![3, 2]));
    assert!(table.try_acquire(2, &mut lock2));
    assert!(table.try_acquire(3, &mut lock3));
    assert!(!table.try_acquire(4, &mut lock4));
    assert_eq!(table.release_all(3, &mut lock3), Ok(vec![4]));
    assert!(table.try_acquire(4, &mut lock4));
}

#[test]
fn release_all_by_a_command_that_does_not_hold_is_refused() {
    let table = Latches::new(4);
    let mut lock = Lock::from_hashes(vec![1, 2]);
    assert!(table.try_acquire(1, &mut lock));
    assert_eq!(table.release_all(2, &mut lock), Err(LatchError::NotHolder));
    assert_eq!(lock.owned_count(), 2);
    assert_eq!(table.holder(1), Some(1));
    assert_eq!(table.holder(2), Some(1));
    assert_eq!(table.release_all(1, &mut lock), Ok(vec![]));
    assert_eq!(lock.owned_count(), 0);
    assert_eq!(table.release_all(1, &mut lock), Ok(vec![]));
}

#[test]
fn single_key_misuse_is_reported() {
    let table = Latches::new(4);
    assert_eq!(table.acquire(7, 1), Ok(true));
    assert_eq!(table.acquire(7, 1), Err(LatchError::AlreadyHeld));
    assert_eq!(table.release(7, 2), Err(LatchError::NotHolder));
    assert_eq!(table.release(8, 1), Err(LatchError::NotHolder));
    assert_eq!(table.release(7, 1), Ok(None));
    assert_eq!(table.release(7, 1), Err(LatchError::NotHolder));
}

#[test]
fn abandon_gives_up_and_leaves_the_queues() {
    let table = Latches::new(4);
    let mut lock1 = Lock::from_hashes(vec![5]);
    let mut lock2 = Lock::from_hashes(vec![2, 5]);
    let mut lock3 = Lock::from_hashes(vec![2]);
    let mut lock4 = Lock::from_hashes(vec![5]);
    assert!(table.try_acquire(1, &mut lock1));
    assert!(!table.try_acquire(2, &mut lock2));
    assert_eq!(lock2.owned_count(), 1);
    assert!(!table.try_acquire(3, &mut lock3));
    assert!(!table.try_acquire(4, &mut lock4));

    assert_eq!(table.abandon(2, &mut lock2), vec![3]);
    assert_eq!(lock2.owned_count(), 0);
    assert_eq!(table.holder(2), Some(3));
    assert_eq!(table.holder(5), Some(1));
    // A second call finds nothing to do.
    assert_eq!(table.abandon(2, &mut lock2), Vec::<u64>::new());
    assert_eq!(table.holder(2), Some(3));

    // Command 4 kept its place behind command 1.
    assert_eq!(table.release_all(1, &mut lock1), Ok(vec![4]));
    assert!(table.try_acquire(4, &mut lock4));
    assert!(table.try_acquire(3, &mut lock3));
}

#[test]
fn abandon_gives_up_a_key_that_was_handed_over_unseen() {
    let table = Latches::new(4);
    let mut lock1 = Lock::from_hashes(vec![5]);
    let mut lock2 = Lock::from_hashes(vec![5]);
    assert!(table.try_acquire(1, &mut lock1));
    assert!(!table.try_acquire(2, &mut lock2));
    assert_eq!(table.release_all(1, &mut lock1), Ok(vec![2]));
    assert_eq!(lock2.owned_count(), 0);
    assert_eq!(table.abandon(2, &mut lock2), Vec::<u64>::new());
    assert_eq!(table.holder(5), None);
}

fn shared<T: Send + Sync>(t: T) -> T {
    t
}

#[test]
fn table_can_be_shared_between_threads() {
    let table = shared(Latches::new(16));
    assert_eq!(table.size(), 16);
}

#[test]
fn a_release_never_wakes_the_releasing_command() {
    let table = Latches::new(2);
    assert_eq!(table.acquire(4, 1), Ok(true));
    assert_eq!(table.acquire(4, 2), Ok(false));
    assert_eq!(table.acquire(4, 3), Ok(false));
    assert_eq!(table.release(4, 1), Ok(Some(2)));
    assert_eq!(table.release(4, 2), Ok(Some(3)));
    assert_eq!(table.release(4, 3), Ok(None));
}
