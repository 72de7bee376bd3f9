//! The latch table as a whole, seen as plain values: what each operation of
//! the table does to each key hash, and what a command's run over its keys
//! comes to where no other command moves in between.

use crate::key::{
    lemma_abandon_by_key, lemma_abandon_by_stranger, lemma_abandon_twice, lemma_acquire_by_key,
    lemma_key_consistent, lemma_release_by_key, KeyView,
};
use crate::latch::{
    lemma_abandon_consistent, lemma_acquire_consistent, lemma_release_consistent, LatchError,
    LatchView,
};
use crate::latches::{bucket_of, is_power_of_two};
use crate::lock::{strictly_ascending, LockView};
use vstd::prelude::*;

verus! {

/// The slots of a table, in their order.
pub struct TableView {
    pub slots: Seq<LatchView>,
}

impl TableView {
    /// A table of `size` slots in which nothing is held and nobody waits.
    pub open spec fn empty(size: nat) -> TableView {
        TableView { slots: Seq::new(size, |i: int| LatchView::empty()) }
    }

    /// The number of slots is a power of two that a machine word can count,
    /// and every slot is consistent.
    pub open spec fn wf(self) -> bool {
        &&& is_power_of_two(self.slots.len())
        &&& self.slots.len() <= usize::MAX
        &&& forall|i: int| 0 <= i < self.slots.len() ==> (#[trigger] self.slots[i]).consistent()
    }

    /// The place of the slot that `h` falls into.
    pub open spec fn bucket(self, h: u64) -> int {
        bucket_of(h, self.slots.len()) as int
    }

    /// What the table holds for the hash `h`.
    pub open spec fn key(self, h: u64) -> KeyView {
        self.slots[self.bucket(h)].key(h)
    }

    /// One attempt of `cid` to take `h`, made on the slot of `h`.
    pub open spec fn acquire(self, h: u64, cid: u64) -> (TableView, Result<bool, LatchError>) {
        let done = self.slots[self.bucket(h)].acquire(h, cid);
        (TableView { slots: self.slots.update(self.bucket(h), done.0) }, done.1)
    }

    /// `cid` gives `h` up, on the slot of `h`.
    pub open spec fn release(self, h: u64, cid: u64) -> (
        TableView,
        Result<Option<u64>, LatchError>,
    ) {
        let done = self.slots[self.bucket(h)].release(h, cid);
        (TableView { slots: self.slots.update(self.bucket(h), done.0) }, done.1)
    }

    /// `cid` wants nothing more of `h`, on the slot of `h`.
    pub open spec fn abandon(self, h: u64, cid: u64) -> (TableView, Option<u64>) {
        let done = self.slots[self.bucket(h)].abandon(h, cid);
        (TableView { slots: self.slots.update(self.bucket(h), done.0) }, done.1)
    }

    /// The table and the lock after the command `cid` has been driven, with
    /// no other command moving in between: it takes its missing hashes,
    /// smallest first, up to the first that it has to wait for. Each round
    /// is one [`crate::lock::Lock::advance`] on the slot of the next hash.
    pub open spec fn try_acquire(self, cid: u64, lock: LockView) -> (TableView, LockView)
        decreases lock.required_hashes.len() - lock.owned_count,
    {
        if lock.owned_count >= lock.required_hashes.len() {
            (self, lock)
        } else {
            let done = self.acquire(lock.next_hash(), cid);
            if done.1 == Ok::<bool, LatchError>(false) {
                (done.0, lock)
            } else {
                done.0.try_acquire(cid, lock.advanced())
            }
        }
    }

    /// The table, the lock and the commands to wake after the command `cid`
    /// has given up what its lock owns, largest hash first, with no other
    /// command moving in between. It stops at a hash that `cid` does not
    /// hold; the last part of the result says whether it came to the end.
    /// Each round is one [`crate::lock::Lock::retreat`] on the slot of the
    /// largest owned hash.
    pub open spec fn release_all(self, cid: u64, lock: LockView) -> (
        TableView,
        LockView,
        Seq<u64>,
        bool,
    )
        decreases lock.owned_count,
    {
        if lock.owned_count == 0 {
            (self, lock, Seq::empty(), true)
        } else {
            let done = self.release(lock.last_hash(), cid);
            match done.1 {
                Err(_) => (self, lock, Seq::empty(), false),
                Ok(next) => {
                    let rest = done.0.release_all(cid, lock.retreated());
                    (
                        rest.0,
                        rest.1,
                        match next {
                            Some(c) => seq![c] + rest.2,
                            None => rest.2,
                        },
                        rest.3,
                    )
                },
            }
        }
    }

    /// The table and the commands to wake after the command `cid` has said
    /// of each of `hashes`, from place `from` on, that it wants nothing more
    /// of it, with no other command moving in between.
    pub open spec fn abandon_all(self, cid: u64, hashes: Seq<u64>, from: int) -> (
        TableView,
        Seq<u64>,
    )
        decreases hashes.len() - from,
    {
        if from < 0 || from >= hashes.len() {
            (self, Seq::empty())
        } else {
            let done = self.abandon(hashes[from], cid);
            let rest = done.0.abandon_all(cid, hashes, from + 1);
            (
                rest.0,
                match done.1 {
                    Some(c) => seq![c] + rest.1,
                    None => rest.1,
                },
            )
        }
    }
}

/// Every hash falls into a slot of the table.
pub proof fn lemma_bucket_in_table(t: TableView, h: u64)
    requires
        is_power_of_two(t.slots.len()),
        t.slots.len() <= usize::MAX,
    ensures
        0 <= t.bucket(h) < t.slots.len(),
{
    let e = choose|e: nat| t.slots.len() == vstd::arithmetic::power2::pow2(e);
    vstd::arithmetic::power2::lemma_pow2_pos(e);
    let mask = (t.slots.len() - 1) as u64;
    assert(h & mask <= mask) by (bit_vector);
}

/// An empty table is well formed, and all its hashes are free.
pub proof fn lemma_empty_table(size: nat, h: u64)
    requires
        is_power_of_two(size),
        size <= usize::MAX,
    ensures
        TableView::empty(size).wf(),
        TableView::empty(size).key(h) == KeyView::free(),
{
    let t = TableView::empty(size);
    lemma_bucket_in_table(t, h);
    assert(t.slots[t.bucket(h)] == LatchView::empty());
    assert(LatchView::empty().key(h).waiters =~= Seq::<u64>::empty());
    assert(LatchView::empty().key(h) == KeyView::free());
}

/// In a well formed table every hash is consistent by itself.
pub proof fn lemma_table_key_consistent(t: TableView, h: u64)
    requires
        t.wf(),
    ensures
        t.key(h).consistent(),
{
    lemma_bucket_in_table(t, h);
    lemma_key_consistent(t.slots[t.bucket(h)], h);
}

/// An attempt on `h` does to `h` what [`KeyView::acquire`] says and leaves
/// every other hash of the table as it is.
pub proof fn lemma_table_acquire(t: TableView, h: u64, cid: u64)
    requires
        t.wf(),
    ensures
        t.acquire(h, cid).0.wf(),
        t.acquire(h, cid).0.slots.len() == t.slots.len(),
        t.acquire(h, cid).0.key(h) == t.key(h).acquire(cid).0,
        t.acquire(h, cid).1 == t.key(h).acquire(cid).1,
        forall|h2: u64| h2 != h ==> #[trigger] t.acquire(h, cid).0.key(h2) == t.key(h2),
{
    let b = t.bucket(h);
    lemma_bucket_in_table(t, h);
    lemma_acquire_consistent(t.slots[b], h, cid);
    lemma_acquire_by_key(t.slots[b], h, cid);
    let after = t.acquire(h, cid).0;
    assert forall|h2: u64| h2 != h implies #[trigger] after.key(h2) == t.key(h2) by {
        lemma_bucket_in_table(t, h2);
    }
}

/// Giving `h` up does to `h` what [`KeyView::release`] says and leaves
/// every other hash of the table as it is.
pub proof fn lemma_table_release(t: TableView, h: u64, cid: u64)
    requires
        t.wf(),
    ensures
        t.release(h, cid).0.wf(),
        t.release(h, cid).0.slots.len() == t.slots.len(),
        t.release(h, cid).0.key(h) == t.key(h).release(cid).0,
        t.release(h, cid).1 == t.key(h).release(cid).1,
        forall|h2: u64| h2 != h ==> #[trigger] t.release(h, cid).0.key(h2) == t.key(h2),
{
    let b = t.bucket(h);
    lemma_bucket_in_table(t, h);
    lemma_release_consistent(t.slots[b], h, cid);
    lemma_release_by_key(t.slots[b], h, cid);
    let after = t.release(h, cid).0;
    assert forall|h2: u64| h2 != h implies #[trigger] after.key(h2) == t.key(h2) by {
        lemma_bucket_in_table(t, h2);
    }
}

/// That a command wants nothing more of `h` does to `h` what
/// [`KeyView::abandon`] says and leaves every other hash of the table as it
/// is.
pub proof fn lemma_table_abandon(t: TableView, h: u64, cid: u64)
    requires
        t.wf(),
    ensures
        t.abandon(h, cid).0.wf(),
        t.abandon(h, cid).0.slots.len() == t.slots.len(),
        t.abandon(h, cid).0.key(h) == t.key(h).abandon(cid).0,
        t.abandon(h, cid).1 == t.key(h).abandon(cid).1,
        forall|h2: u64| h2 != h ==> #[trigger] t.abandon(h, cid).0.key(h2) == t.key(h2),
{
    let b = t.bucket(h);
    lemma_bucket_in_table(t, h);
    lemma_abandon_consistent(t.slots[b], h, cid);
    lemma_abandon_by_key(t.slots[b], h, cid);
    let after = t.abandon(h, cid).0;
    assert forall|h2: u64| h2 != h implies #[trigger] after.key(h2) == t.key(h2) by {
        lemma_bucket_in_table(t, h2);
    }
}

/// Whether `h` is one of the hashes of `lock` from place `from` on.
pub open spec fn needs_from(lock: LockView, from: int, h: u64) -> bool {
    exists|k: int| from <= k < lock.required_hashes.len() && lock.required_hashes[k] == h
}

/// A hash that `cid` holds and nobody waits for.
pub open spec fn held_alone(cid: u64) -> KeyView {
    KeyView { holder: Some(cid), waiters: Seq::empty() }
}

/// A command whose missing hashes are all free takes them all in one run:
/// it then holds each of them, with nobody waiting, and every other hash
/// is as it was.
pub proof fn lemma_free_keys_are_acquired(t: TableView, cid: u64, lock: LockView)
    requires
        t.wf(),
        lock.wf(),
        forall|k: int|
            lock.owned_count <= k < lock.required_hashes.len() ==> t.key(
                #[trigger] lock.required_hashes[k],
            ).is_free(),
    ensures
        t.try_acquire(cid, lock).0.wf(),
        t.try_acquire(cid, lock).0.slots.len() == t.slots.len(),
        t.try_acquire(cid, lock).1.required_hashes == lock.required_hashes,
        t.try_acquire(cid, lock).1.acquired(),
        forall|h: u64|
            #[trigger] t.try_acquire(cid, lock).0.key(h) == if needs_from(
                lock,
                lock.owned_count as int,
                h,
            ) {
                held_alone(cid)
            } else {
                t.key(h)
            },
    decreases lock.required_hashes.len() - lock.owned_count,
{
    let n = lock.owned_count as int;
    if lock.owned_count < lock.required_hashes.len() {
        let h0 = lock.required_hashes[n];
        let t1 = t.acquire(h0, cid).0;
        let next = lock.advanced();
        lemma_table_acquire(t, h0, cid);
        assert(t.key(h0).is_free());
        assert(t1.key(h0) == held_alone(cid)) by {
            assert(t.key(h0).waiters =~= Seq::<u64>::empty());
        }
        assert forall|k: int| n + 1 <= k < lock.required_hashes.len() implies t1.key(
            #[trigger] lock.required_hashes[k],
        ).is_free() by {
            assert(lock.required_hashes[n] < lock.required_hashes[k]);
        }
        lemma_free_keys_are_acquired(t1, cid, next);
        let t2 = t.try_acquire(cid, lock).0;
        assert(t2 == t1.try_acquire(cid, next).0);
        assert forall|h: u64| #[trigger] t2.key(h) == if needs_from(lock, n, h) {
            held_alone(cid)
        } else {
            t.key(h)
        } by {
            if needs_from(next, n + 1, h) {
                let k = choose|k: int|
                    n + 1 <= k < lock.required_hashes.len() && lock.required_hashes[k] == h;
                assert(n <= k < lock.required_hashes.len() && lock.required_hashes[k] == h);
            } else if h == h0 {
                assert(n <= n < lock.required_hashes.len() && lock.required_hashes[n] == h);
            } else {
                if needs_from(lock, n, h) {
                    let k = choose|k: int|
                        n <= k < lock.required_hashes.len() && lock.required_hashes[k] == h;
                    assert(n + 1 <= k < lock.required_hashes.len() && lock.required_hashes[k]
                        == h);
                }
            }
        }
    } else {
        assert forall|h: u64| !needs_from(lock, n, h) by {}
    }
}

/// Whether `h` is one of the hashes of `lock` before place `to`.
pub open spec fn owns_before(lock: LockView, to: int, h: u64) -> bool {
    exists|k: int| 0 <= k < to && lock.required_hashes[k] == h
}

/// A command that holds what its lock owns, with nobody waiting, gives it
/// all up in one run and wakes nobody: each of these hashes is then free,
/// and every other hash is as it was.
pub proof fn lemma_held_keys_are_released(t: TableView, cid: u64, lock: LockView)
    requires
        t.wf(),
        lock.wf(),
        forall|k: int|
            0 <= k < lock.owned_count ==> t.key(#[trigger] lock.required_hashes[k]) == held_alone(
                cid,
            ),
    ensures
        t.release_all(cid, lock).0.wf(),
        t.release_all(cid, lock).0.slots.len() == t.slots.len(),
        t.release_all(cid, lock).1.required_hashes == lock.required_hashes,
        t.release_all(cid, lock).1.owned_count == 0,
        t.release_all(cid, lock).2 == Seq::<u64>::empty(),
        t.release_all(cid, lock).3,
        forall|h: u64|
            #[trigger] t.release_all(cid, lock).0.key(h) == if owns_before(
                lock,
                lock.owned_count as int,
                h,
            ) {
                KeyView::free()
            } else {
                t.key(h)
            },
    decreases lock.owned_count,
{
    let n = lock.owned_count as int;
    if n > 0 {
        let h0 = lock.required_hashes[n - 1];
        let t1 = t.release(h0, cid).0;
        let next = lock.retreated();
        lemma_table_release(t, h0, cid);
        assert(t.key(h0) == held_alone(cid));
        assert(t1.key(h0) == KeyView::free());
        assert forall|k: int| 0 <= k < n - 1 implies t1.key(#[trigger] lock.required_hashes[k])
            == held_alone(cid) by {
            assert(lock.required_hashes[k] < lock.required_hashes[n - 1]);
        }
        lemma_held_keys_are_released(t1, cid, next);
        let t2 = t.release_all(cid, lock).0;
        assert(t2 == t1.release_all(cid, next).0);
        assert forall|h: u64| #[trigger] t2.key(h) == if owns_before(lock, n, h) {
            KeyView::free()
        } else {
            t.key(h)
        } by {
            if owns_before(next, n - 1, h) {
                let k = choose|k: int| 0 <= k < n - 1 && lock.required_hashes[k] == h;
                assert(0 <= k < n && lock.required_hashes[k] == h);
            } else if h == h0 {
                assert(0 <= n - 1 < n && lock.required_hashes[n - 1] == h);
            } else {
                if owns_before(lock, n, h) {
                    let k = choose|k: int| 0 <= k < n && lock.required_hashes[k] == h;
                    assert(0 <= k < n - 1 && lock.required_hashes[k] == h);
                }
            }
        }
    } else {
        assert forall|h: u64| !owns_before(lock, n, h) by {}
    }
}

/// The round trip. On a table in which the hashes of two commands are
/// free, the first command takes all of its hashes in one run and gives
/// them all up in the next, waking nobody; every hash is then as it was
/// before, and the second command, whatever hashes it shares with the
/// first, takes all of its own in one run.
pub proof fn lemma_release_then_reacquire(
    t: TableView,
    first: u64,
    first_lock: LockView,
    second: u64,
    second_lock: LockView,
)
    requires
        t.wf(),
        first_lock.wf(),
        second_lock.wf(),
        first_lock.owned_count == 0,
        second_lock.owned_count == 0,
        forall|k: int|
            0 <= k < first_lock.required_hashes.len() ==> t.key(
                #[trigger] first_lock.required_hashes[k],
            ).is_free(),
        forall|k: int|
            0 <= k < second_lock.required_hashes.len() ==> t.key(
                #[trigger] second_lock.required_hashes[k],
            ).is_free(),
    ensures
        ({
            let taken = t.try_acquire(first, first_lock);
            let given = taken.0.release_all(first, taken.1);
            let again = given.0.try_acquire(second, second_lock);
            &&& taken.1.acquired()
            &&& given.3
            &&& given.2 == Seq::<u64>::empty()
            &&& given.1.owned_count == 0
            &&& forall|h: u64| #[trigger] given.0.key(h) == t.key(h)
            &&& again.1.acquired()
            &&& forall|k: int|
                0 <= k < second_lock.required_hashes.len() ==> again.0.key(
                    #[trigger] second_lock.required_hashes[k],
                ).holder == Some(second)
        }),
{
    let taken = t.try_acquire(first, first_lock);
    lemma_free_keys_are_acquired(t, first, first_lock);
    let keys = first_lock.required_hashes;
    assert forall|k: int| 0 <= k < taken.1.owned_count implies taken.0.key(
        #[trigger] taken.1.required_hashes[k],
    ) == held_alone(first) by {
        assert(needs_from(first_lock, 0, keys[k]));
    }
    lemma_held_keys_are_released(taken.0, first, taken.1);
    let given = taken.0.release_all(first, taken.1);
    assert forall|h: u64| #[trigger] given.0.key(h) == t.key(h) by {
        if owns_before(taken.1, taken.1.owned_count as int, h) {
            let k = choose|k: int| 0 <= k < taken.1.owned_count && keys[k] == h;
            assert(t.key(keys[k]).is_free());
            assert(t.key(h).waiters =~= Seq::<u64>::empty());
        } else {
            if needs_from(first_lock, 0, h) {
                let k = choose|k: int| 0 <= k < keys.len() && keys[k] == h;
                assert(0 <= k < taken.1.owned_count && keys[k] == h);
            }
        }
    }
    lemma_free_keys_are_acquired(given.0, second, second_lock);
    let again = given.0.try_acquire(second, second_lock);
    assert forall|k: int| 0 <= k < second_lock.required_hashes.len() implies again.0.key(
        #[trigger] second_lock.required_hashes[k],
    ).holder == Some(second) by {
        assert(needs_from(second_lock, 0, second_lock.required_hashes[k]));
    }
}

/// Whether `h` is one of `hashes` from place `from` on.
pub open spec fn among(hashes: Seq<u64>, from: int, h: u64) -> bool {
    exists|k: int| from <= k < hashes.len() && hashes[k] == h
}

/// A command that gives up for good does to each hash of its lock what
/// [`KeyView::abandon`] says, and leaves every other hash as it is.
pub proof fn lemma_abandon_all_by_key(t: TableView, cid: u64, hashes: Seq<u64>, from: int)
    requires
        t.wf(),
        strictly_ascending(hashes),
        0 <= from <= hashes.len(),
    ensures
        t.abandon_all(cid, hashes, from).0.wf(),
        t.abandon_all(cid, hashes, from).0.slots.len() == t.slots.len(),
        forall|h: u64|
            #[trigger] t.abandon_all(cid, hashes, from).0.key(h) == if among(hashes, from, h) {
                t.key(h).abandon(cid).0
            } else {
                t.key(h)
            },
    decreases hashes.len() - from,
{
    if from < hashes.len() {
        let h0 = hashes[from];
        let t1 = t.abandon(h0, cid).0;
        lemma_table_abandon(t, h0, cid);
        lemma_abandon_all_by_key(t1, cid, hashes, from + 1);
        let t2 = t.abandon_all(cid, hashes, from).0;
        assert(t2 == t1.abandon_all(cid, hashes, from + 1).0);
        assert forall|h: u64| #[trigger] t2.key(h) == if among(hashes, from, h) {
            t.key(h).abandon(cid).0
        } else {
            t.key(h)
        } by {
            if among(hashes, from + 1, h) {
                let k = choose|k: int| from + 1 <= k < hashes.len() && hashes[k] == h;
                assert(hashes[from] < hashes[k]);
                assert(from <= k < hashes.len() && hashes[k] == h);
            } else if h == h0 {
                assert(from <= from < hashes.len() && hashes[from] == h);
            } else {
                if among(hashes, from, h) {
                    let k = choose|k: int| from <= k < hashes.len() && hashes[k] == h;
                    assert(from + 1 <= k < hashes.len() && hashes[k] == h);
                }
            }
        }
    } else {
        assert forall|h: u64| !among(hashes, from, h) by {}
    }
}

/// A command that holds none of the given hashes and waits for none of them
/// has nothing to give up: every hash stays as it is and nobody is woken.
pub proof fn lemma_abandon_all_by_stranger(t: TableView, cid: u64, hashes: Seq<u64>, from: int)
    requires
        t.wf(),
        0 <= from <= hashes.len(),
        forall|k: int|
            from <= k < hashes.len() ==> {
                &&& t.key(#[trigger] hashes[k]).holder != Some(cid)
                &&& !t.key(hashes[k]).waiters.contains(cid)
            },
    ensures
        t.abandon_all(cid, hashes, from).1 == Seq::<u64>::empty(),
        forall|h: u64| #[trigger] t.abandon_all(cid, hashes, from).0.key(h) == t.key(h),
    decreases hashes.len() - from,
{
    if from < hashes.len() {
        let h0 = hashes[from];
        let t1 = t.abandon(h0, cid).0;
        lemma_table_abandon(t, h0, cid);
        lemma_abandon_by_stranger(t.key(h0), cid);
        assert forall|h: u64| #[trigger] t1.key(h) == t.key(h) by {}
        assert forall|k: int| from + 1 <= k < hashes.len() implies t1.key(
            #[trigger] hashes[k],
        ).holder != Some(cid) && !t1.key(hashes[k]).waiters.contains(cid) by {
            assert(t1.key(hashes[k]) == t.key(hashes[k]));
        }
        lemma_abandon_all_by_stranger(t1, cid, hashes, from + 1);
        assert(t.abandon_all(cid, hashes, from).1 =~= Seq::<u64>::empty());
    }
}

/// Giving up for good is done once and for all: a second call finds every
/// hash as the first call left it, and wakes nobody.
pub proof fn lemma_abandon_all_twice(t: TableView, cid: u64, hashes: Seq<u64>)
    requires
        t.wf(),
        strictly_ascending(hashes),
    ensures
        ({
            let once = t.abandon_all(cid, hashes, 0);
            let twice = once.0.abandon_all(cid, hashes, 0);
            &&& twice.1 == Seq::<u64>::empty()
            &&& forall|h: u64| #[trigger] twice.0.key(h) == once.0.key(h)
        }),
{
    let once = t.abandon_all(cid, hashes, 0);
    lemma_abandon_all_by_key(t, cid, hashes, 0);
    assert forall|k: int| 0 <= k < hashes.len() implies once.0.key(#[trigger] hashes[k]).holder
        != Some(cid) && !once.0.key(hashes[k]).waiters.contains(cid) by {
        assert(among(hashes, 0, hashes[k]));
        lemma_table_key_consistent(t, hashes[k]);
        lemma_abandon_twice(t.key(hashes[k]), cid);
    }
    lemma_abandon_all_by_stranger(once.0, cid, hashes, 0);
}

} // verus!
