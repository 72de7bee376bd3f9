//! The latch table for one thread: the same slots without their locks.
//! Nothing moves between two calls, so every call says exactly what it did
//! to the table.

use crate::latch::{Latch, LatchError, LatchView};
use crate::latches::round_up_to_power_of_two;
use crate::lock::{Lock, LockView};
use crate::table::{
    lemma_bucket_in_table, lemma_table_abandon, lemma_table_acquire, lemma_table_release,
    TableView,
};
use vstd::prelude::*;

verus! {

/// A latch table that one thread has to itself.
pub struct LocalLatches {
    slots: Vec<Latch>,
}

impl View for LocalLatches {
    type V = TableView;

    closed spec fn view(&self) -> TableView {
        TableView { slots: Seq::new(self.slots@.len(), |i: int| self.slots@[i]@) }
    }
}

impl LocalLatches {
    /// Creates a table of at least `size` slots: `size` rounded up to a
    /// power of two. Nothing is held and nobody waits.
    pub fn new(size: usize) -> (table: LocalLatches)
        requires
            size <= usize::MAX / 2 + 1,
        ensures
            table@.wf(),
            table@ == TableView::empty(table@.slots.len()),
            size <= table@.slots.len(),
            forall|p: nat|
                crate::latches::is_power_of_two(p) && size <= p ==> table@.slots.len() <= p,
    {
        let n = round_up_to_power_of_two(size);
        let mut slots: Vec<Latch> = Vec::with_capacity(n);
        let mut i: usize = 0;
        while i < n
            invariant
                i <= n,
                slots@.len() == i,
                forall|k: int| 0 <= k < i ==> (#[trigger] slots@[k])@ == LatchView::empty(),
            decreases n - i,
        {
            slots.push(Latch::new());
            i += 1;
        }
        let table = LocalLatches { slots };
        proof {
            assert(table@.slots =~= TableView::empty(n as nat).slots);
            crate::table::lemma_empty_table(n as nat, 0);
        }
        table
    }

    /// The number of slots.
    pub fn size(&self) -> (n: usize)
        ensures
            n == self@.slots.len(),
    {
        self.slots.len()
    }

    /// The slot that `key_hash` falls into.
    pub fn bucket_for(&self, key_hash: u64) -> (bucket: usize)
        requires
            self@.wf(),
        ensures
            bucket == self@.bucket(key_hash),
            bucket < self@.slots.len(),
    {
        proof {
            lemma_bucket_in_table(self@, key_hash);
        }
        let mask: u64 = (self.slots.len() - 1) as u64;
        assert(key_hash & mask <= mask) by (bit_vector);
        (key_hash & mask) as usize
    }

    /// The command that holds `key_hash`.
    pub fn holder(&self, key_hash: u64) -> (held_by: Option<u64>)
        requires
            self@.wf(),
        ensures
            held_by == self@.key(key_hash).holder,
    {
        let bucket = self.bucket_for(key_hash);
        self.slots[bucket].holder(key_hash)
    }

    /// One attempt of `cid` to take `key_hash`: granted, `Ok(true)`, where
    /// nobody holds the hash and nobody waits for it; else `cid` waits in
    /// the queue of the slot, `Ok(false)`. A command that holds the hash
    /// already is refused.
    pub fn acquire(&mut self, key_hash: u64, cid: u64) -> (r: Result<bool, LatchError>)
        requires
            old(self)@.wf(),
        ensures
            final(self)@ == old(self)@.acquire(key_hash, cid).0,
            r == old(self)@.acquire(key_hash, cid).1,
            final(self)@.wf(),
    {
        let bucket = self.bucket_for(key_hash);
        let r = self.slots[bucket].acquire(key_hash, cid);
        proof {
            lemma_table_acquire(old(self)@, key_hash, cid);
            assert(self@.slots =~= old(self)@.acquire(key_hash, cid).0.slots);
        }
        r
    }

    /// `cid` gives `key_hash` up. The command that has waited longest for it
    /// becomes its holder and is returned, to be driven again. A command
    /// that does not hold the hash is refused.
    pub fn release(&mut self, key_hash: u64, cid: u64) -> (r: Result<Option<u64>, LatchError>)
        requires
            old(self)@.wf(),
        ensures
            final(self)@ == old(self)@.release(key_hash, cid).0,
            r == old(self)@.release(key_hash, cid).1,
            final(self)@.wf(),
    {
        let bucket = self.bucket_for(key_hash);
        let r = self.slots[bucket].release(key_hash, cid);
        proof {
            lemma_table_release(old(self)@, key_hash, cid);
            assert(self@.slots =~= old(self)@.release(key_hash, cid).0.slots);
        }
        r
    }

    /// Drives the lock of command `command_id` as far as the table lets it
    /// go: takes the hashes that are still missing, smallest first, and
    /// stops at the first that another command holds, with `command_id` in
    /// the queue for it. Returns whether the command owns all its hashes
    /// now.
    pub fn try_acquire(&mut self, command_id: u64, lock: &mut Lock) -> (acquired: bool)
        requires
            old(self)@.wf(),
        ensures
            final(self)@ == old(self)@.try_acquire(command_id, old(lock)@).0,
            final(lock)@ == old(self)@.try_acquire(command_id, old(lock)@).1,
            acquired == final(lock)@.acquired(),
            final(self)@.wf(),
            final(lock)@.wf(),
    {
        proof {
            use_type_invariant(&*lock);
        }
        loop
            invariant
                self@.wf(),
                lock@.wf(),
                self@.try_acquire(command_id, lock@) == old(self)@.try_acquire(
                    command_id,
                    old(lock)@,
                ),
            decreases lock@.required_hashes.len() - lock@.owned_count,
        {
            if lock.acquired() {
                return true;
            }
            let ghost table = self@;
            let ghost key_hash = lock@.next_hash();
            let bucket = self.bucket_for(lock.required_hashes()[lock.owned_count()]);
            let granted = lock.advance(&mut self.slots[bucket], command_id);
            proof {
                lemma_table_acquire(table, key_hash, command_id);
                assert(self@.slots =~= table.acquire(key_hash, command_id).0.slots);
            }
            if !granted {
                return false;
            }
        }
    }

    /// Gives up every hash that the lock of command `command_id` owns,
    /// largest first. Returns the commands that hold one of these hashes
    /// from now on, each to be driven again.
    ///
    /// Where the table says of a hash that `command_id` does not hold it,
    /// the call ends there with the error; the lock then counts the hashes
    /// that were not given up.
    pub fn release_all(&mut self, command_id: u64, lock: &mut Lock) -> (r: Result<
        Vec<u64>,
        LatchError,
    >)
        requires
            old(self)@.wf(),
        ensures
            final(self)@ == old(self)@.release_all(command_id, old(lock)@).0,
            final(lock)@ == old(self)@.release_all(command_id, old(lock)@).1,
            match r {
                Ok(promoted) => {
                    &&& old(self)@.release_all(command_id, old(lock)@).3
                    &&& promoted@ == old(self)@.release_all(command_id, old(lock)@).2
                },
                Err(e) => {
                    &&& !old(self)@.release_all(command_id, old(lock)@).3
                    &&& e == LatchError::NotHolder
                },
            },
            final(self)@.wf(),
            final(lock)@.wf(),
    {
        let ghost whole = self@.release_all(command_id, lock@);
        let mut promoted: Vec<u64> = Vec::new();
        proof {
            use_type_invariant(&*lock);
        }
        loop
            invariant
                self@.wf(),
                lock@.wf(),
                whole == old(self)@.release_all(command_id, old(lock)@),
                ({
                    let rest = self@.release_all(command_id, lock@);
                    &&& whole.0 == rest.0
                    &&& whole.1 == rest.1
                    &&& whole.3 == rest.3
                    &&& rest.3 ==> whole.2 == promoted@ + rest.2
                }),
            decreases lock@.owned_count,
        {
            if lock.owned_count() == 0 {
                proof {
                    assert(promoted@ + Seq::<u64>::empty() =~= promoted@);
                }
                return Ok(promoted);
            }
            let ghost table = self@;
            let ghost before = lock@;
            let ghost woken = promoted@;
            let ghost key_hash = lock@.last_hash();
            let bucket = self.bucket_for(lock.required_hashes()[lock.owned_count() - 1]);
            let given = lock.retreat(&mut self.slots[bucket], command_id);
            proof {
                lemma_table_release(table, key_hash, command_id);
                assert(self@.slots =~= table.release(key_hash, command_id).0.slots);
            }
            match given {
                Ok(Some(cid)) => {
                    promoted.push(cid);
                    proof {
                        let rest = self@.release_all(command_id, lock@);
                        assert(woken + (seq![cid] + rest.2) =~= promoted@ + rest.2);
                    }
                },
                Ok(None) => {},
                Err(e) => {
                    proof {
                        assert(self@.slots =~= table.slots);
                    }
                    return Err(e);
                },
            }
        }
    }

    /// Command `command_id` gives up for good: every hash of its lock that
    /// it holds is given up, and it leaves the queue of every other. Returns
    /// the commands that hold one of these hashes from now on, each to be
    /// driven again. A second call finds nothing left to do.
    pub fn abandon(&mut self, command_id: u64, lock: &mut Lock) -> (promoted: Vec<u64>)
        requires
            old(self)@.wf(),
        ensures
            final(self)@ == old(self)@.abandon_all(command_id, old(lock)@.required_hashes, 0).0,
            promoted@ == old(self)@.abandon_all(command_id, old(lock)@.required_hashes, 0).1,
            final(lock)@ == (LockView {
                required_hashes: old(lock)@.required_hashes,
                owned_count: 0,
            }),
            final(self)@.wf(),
    {
        let ghost hashes = lock@.required_hashes;
        let ghost whole = self@.abandon_all(command_id, hashes, 0);
        let mut promoted: Vec<u64> = Vec::new();
        let mut i: usize = 0;
        let n = lock.required_hashes().len();
        while i < n
            invariant
                self@.wf(),
                *lock == *old(lock),
                hashes == lock@.required_hashes,
                n == hashes.len(),
                i <= n,
                whole == old(self)@.abandon_all(command_id, hashes, 0),
                whole.0 == self@.abandon_all(command_id, hashes, i as int).0,
                whole.1 == promoted@ + self@.abandon_all(command_id, hashes, i as int).1,
            decreases n - i,
        {
            let ghost table = self@;
            let ghost woken = promoted@;
            let key_hash = lock.required_hashes()[i];
            let bucket = self.bucket_for(key_hash);
            let next = self.slots[bucket].abandon(key_hash, command_id);
            proof {
                lemma_table_abandon(table, key_hash, command_id);
                assert(self@.slots =~= table.abandon(key_hash, command_id).0.slots);
            }
            if let Some(cid) = next {
                promoted.push(cid);
                proof {
                    let rest = self@.abandon_all(command_id, hashes, i + 1);
                    assert(woken + (seq![cid] + rest.1) =~= promoted@ + rest.1);
                }
            }
            i += 1;
        }
        proof {
            assert(promoted@ + Seq::<u64>::empty() =~= promoted@);
        }
        lock.forget();
        promoted
    }
}

} // verus!
