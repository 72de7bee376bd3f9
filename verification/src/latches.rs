//! The latch table: a fixed number of slots, each behind a lock of its own,
//! and the protocol by which a command takes and gives up its keys.

use crate::latch::{
    lemma_abandon_consistent, lemma_acquire_consistent, lemma_release_consistent,
    lemma_wakes_another, Latch, LatchError,
};
use crate::lock::Lock;
use crossbeam::utils::CachePadded;
use std::ops::Deref;
use vstd::arithmetic::power2::{lemma_pow2_strictly_increases, lemma_pow2_unfold, pow2};
use vstd::prelude::*;
use vstd::rwlock::{RwLock, RwLockPredicate};

verus! {

/// `crossbeam::utils::CachePadded`: a value padded to the length of a cache
/// line, so that two neighbours never share one. Its inside is hidden here.
#[verifier::external_type_specification]
#[verifier::external_body]
#[verifier::reject_recursive_types(T)]
pub struct ExCachePadded<T>(CachePadded<T>);

/// `CachePadded::new`: pads a value. Only the type of the result is claimed.
pub assume_specification<T>[ CachePadded::<T>::new ](t: T) -> (padded: CachePadded<T>)
;

/// `CachePadded::deref`: lends the padded value. Only the type of the result
/// is claimed.
pub assume_specification<T>[ <CachePadded<T> as Deref>::deref ](padded: &CachePadded<T>) -> (inner:
    &T)
;

/// What the lock of a slot keeps true of the slot whenever the lock is free.
pub struct SlotInv;

impl RwLockPredicate<Latch> for SlotInv {
    open spec fn inv(self, v: Latch) -> bool {
        v@.consistent()
    }
}

/// Whether `n` is a power of two.
pub open spec fn is_power_of_two(n: nat) -> bool {
    exists|e: nat| n == pow2(e)
}

/// The slot that `key_hash` falls into, in a table of `size` slots: the
/// low bits of the hash.
pub open spec fn bucket_of(key_hash: u64, size: nat) -> nat {
    (key_hash & ((size - 1) as u64)) as nat
}

/// The smallest power of two that is not below `size`.
pub fn round_up_to_power_of_two(size: usize) -> (n: usize)
    requires
        size <= usize::MAX / 2 + 1,
    ensures
        is_power_of_two(n as nat),
        size <= n,
        forall|p: nat| is_power_of_two(p) && size <= p ==> n <= p,
{
    let mut n: usize = 1;
    let ghost mut e: nat = 0;
    proof {
        vstd::arithmetic::power2::lemma2_to64();
    }
    while n < size
        invariant
            n == pow2(e),
            n >= 1,
            size <= usize::MAX / 2 + 1,
            e == 0 || pow2((e - 1) as nat) < size,
        decreases usize::MAX - n,
    {
        proof {
            lemma_pow2_unfold(e + 1);
        }
        n = n * 2;
        proof {
            e = e + 1;
        }
    }
    proof {
        assert forall|p: nat| is_power_of_two(p) && size <= p implies n <= p by {
            let k = choose|k: nat| p == pow2(k);
            if k < e {
                if k < e - 1 {
                    lemma_pow2_strictly_increases(k, (e - 1) as nat);
                }
            } else if k > e {
                lemma_pow2_strictly_increases(e, k);
            }
        }
    }
    n
}

/// The latch table. Every key hash falls into one slot, for good: the
/// number of slots never changes.
pub struct Latches {
    slots: Vec<CachePadded<RwLock<Latch, SlotInv>>>,
    size: usize,
}

impl Latches {
    #[verifier::type_invariant]
    spec fn inv(&self) -> bool {
        &&& self.slots@.len() == self.size
        &&& is_power_of_two(self.size as nat)
    }

    /// The number of slots.
    pub closed spec fn spec_size(&self) -> nat {
        self.size as nat
    }

    /// Creates a table of at least `size` slots: `size` rounded up to a
    /// power of two.
    pub fn new(size: usize) -> (table: Latches)
        requires
            size <= usize::MAX / 2 + 1,
        ensures
            is_power_of_two(table.spec_size()),
            size <= table.spec_size(),
            forall|p: nat| is_power_of_two(p) && size <= p ==> table.spec_size() <= p,
    {
        let n = round_up_to_power_of_two(size);
        let mut slots: Vec<CachePadded<RwLock<Latch, SlotInv>>> = Vec::with_capacity(n);
        let mut i: usize = 0;
        while i < n
            invariant
                i <= n,
                slots@.len() == i,
            decreases n - i,
        {
            let latch = Latch::new();
            slots.push(CachePadded::new(RwLock::new(latch, Ghost(SlotInv))));
            i += 1;
        }
        Latches { slots, size: n }
    }

    /// The number of slots.
    pub fn size(&self) -> (n: usize)
        ensures
            n == self.spec_size(),
            is_power_of_two(self.spec_size()),
    {
        proof {
            use_type_invariant(self);
        }
        self.size
    }

    /// The slot that `key_hash` falls into.
    pub fn bucket_for(&self, key_hash: u64) -> (bucket: usize)
        ensures
            bucket == bucket_of(key_hash, self.spec_size()),
            bucket < self.spec_size(),
    {
        proof {
            use_type_invariant(self);
            let e = choose|e: nat| self.size as nat == pow2(e);
            vstd::arithmetic::power2::lemma_pow2_pos(e);
        }
        let mask: u64 = (self.size - 1) as u64;
        assert(key_hash & mask <= mask) by (bit_vector);
        (key_hash & mask) as usize
    }

    /// The padded lock of the slot that `key_hash` falls into.
    fn slot(&self, key_hash: u64) -> (slot: &CachePadded<RwLock<Latch, SlotInv>>)
        ensures
            bucket_of(key_hash, self.spec_size()) < self.slots@.len(),
            *slot == self.slots@[bucket_of(key_hash, self.spec_size()) as int],
    {
        let bucket = self.bucket_for(key_hash);
        proof {
            use_type_invariant(self);
        }
        &self.slots[bucket]
    }

    /// The command that holds `key_hash` at the moment of the call.
    pub fn holder(&self, key_hash: u64) -> (held_by: Option<u64>) {
        let handle = self.slot(key_hash).deref().acquire_read();
        let held_by = handle.borrow().holder(key_hash);
        handle.release_read();
        held_by
    }

    /// One attempt of `cid` to take `key_hash`, made on the slot of the hash
    /// alone and under its lock: see [`Latch::acquire`].
    pub fn acquire(&self, key_hash: u64, cid: u64) -> (r: Result<bool, LatchError>)
        ensures
            r is Err ==> r == Err::<bool, LatchError>(LatchError::AlreadyHeld),
    {
        let (mut latch, handle) = self.slot(key_hash).deref().acquire_write();
        proof {
            lemma_acquire_consistent(latch@, key_hash, cid);
        }
        let r = latch.acquire(key_hash, cid);
        handle.release_write(latch);
        r
    }

    /// `cid` gives `key_hash` up, on the slot of the hash alone and under
    /// its lock: see [`Latch::release`]. The command that is woken, if any,
    /// is another one than `cid`.
    pub fn release(&self, key_hash: u64, cid: u64) -> (r: Result<Option<u64>, LatchError>)
        ensures
            r is Err ==> r == Err::<Option<u64>, LatchError>(LatchError::NotHolder),
            r != Ok::<Option<u64>, LatchError>(Some(cid)),
    {
        let (mut latch, handle) = self.slot(key_hash).deref().acquire_write();
        proof {
            lemma_release_consistent(latch@, key_hash, cid);
            lemma_wakes_another(latch@, key_hash, cid);
        }
        let r = latch.release(key_hash, cid);
        handle.release_write(latch);
        r
    }

    /// `cid` wants nothing more of `key_hash`, on the slot of the hash alone
    /// and under its lock: see [`Latch::abandon`]. The command that is
    /// woken, if any, is another one than `cid`.
    fn abandon_key(&self, key_hash: u64, cid: u64) -> (promoted: Option<u64>)
        ensures
            promoted != Some(cid),
    {
        let (mut latch, handle) = self.slot(key_hash).deref().acquire_write();
        proof {
            lemma_abandon_consistent(latch@, key_hash, cid);
            lemma_wakes_another(latch@, key_hash, cid);
        }
        let promoted = latch.abandon(key_hash, cid);
        handle.release_write(latch);
        promoted
    }

    /// Drives the lock of command `command_id` as far as the table lets it
    /// go: takes the hashes that are still missing, smallest first, and
    /// stops at the first that another command holds, with `command_id` in
    /// the queue for it. A hash that a release has handed to `command_id`
    /// since its last attempt counts as taken. Returns whether the command
    /// owns all its hashes now.
    ///
    /// A blocked command is driven again when a release names it.
    pub fn try_acquire(&self, command_id: u64, lock: &mut Lock) -> (acquired: bool)
        ensures
            final(lock)@.required_hashes == old(lock)@.required_hashes,
            old(lock)@.owned_count <= final(lock)@.owned_count,
            final(lock)@.wf(),
            acquired == final(lock)@.acquired(),
            old(lock)@.acquired() ==> final(lock)@ == old(lock)@,
    {
        proof {
            use_type_invariant(&*lock);
        }
        while lock.owned_count < lock.required_hashes.len()
            invariant
                lock@.required_hashes == old(lock)@.required_hashes,
                old(lock)@.owned_count <= lock@.owned_count,
                lock@.wf(),
                old(lock)@.acquired() ==> lock@ == old(lock)@,
            decreases lock@.required_hashes.len() - lock@.owned_count,
        {
            let key_hash = lock.required_hashes[lock.owned_count];
            let (mut latch, handle) = self.slot(key_hash).deref().acquire_write();
            proof {
                lemma_acquire_consistent(latch@, key_hash, command_id);
            }
            let granted = lock.advance(&mut latch, command_id);
            handle.release_write(latch);
            if !granted {
                return false;
            }
        }
        true
    }

    /// Gives up every hash that the lock of command `command_id` owns,
    /// largest first. Returns the commands that hold one of these hashes
    /// from now on, each to be driven again.
    ///
    /// Where the table says of a hash that `command_id` does not hold it,
    /// the call ends there with the error; the lock then counts the hashes
    /// that were not given up.
    pub fn release_all(&self, command_id: u64, lock: &mut Lock) -> (r: Result<
        Vec<u64>,
        LatchError,
    >)
        ensures
            final(lock)@.required_hashes == old(lock)@.required_hashes,
            final(lock)@.owned_count <= old(lock)@.owned_count,
            final(lock)@.wf(),
            match r {
                Ok(promoted) => final(lock)@.owned_count == 0 && promoted@.len() <= old(
                    lock,
                )@.owned_count,
                Err(e) => e == LatchError::NotHolder && final(lock)@.owned_count > 0,
            },
    {
        proof {
            use_type_invariant(&*lock);
        }
        let mut promoted: Vec<u64> = Vec::new();
        while lock.owned_count > 0
            invariant
                lock@.required_hashes == old(lock)@.required_hashes,
                lock@.owned_count <= old(lock)@.owned_count,
                lock@.wf(),
                promoted@.len() + lock@.owned_count <= old(lock)@.owned_count,
            decreases lock@.owned_count,
        {
            let key_hash = lock.required_hashes[lock.owned_count - 1];
            let (mut latch, handle) = self.slot(key_hash).deref().acquire_write();
            proof {
                lemma_release_consistent(latch@, key_hash, command_id);
            }
            let given = lock.retreat(&mut latch, command_id);
            handle.release_write(latch);
            match given {
                Ok(Some(cid)) => {
                    promoted.push(cid);
                },
                Ok(None) => {},
                Err(e) => {
                    return Err(e);
                },
            }
        }
        Ok(promoted)
    }

    /// Command `command_id` gives up for good: every hash of its lock that
    /// it holds is given up, and it leaves the queue of every other. Returns
    /// the commands that hold one of these hashes from now on, each to be
    /// driven again. A second call finds nothing left to do.
    pub fn abandon(&self, command_id: u64, lock: &mut Lock) -> (promoted: Vec<u64>)
        ensures
            final(lock)@.required_hashes == old(lock)@.required_hashes,
            final(lock)@.owned_count == 0,
            final(lock)@.wf(),
            promoted@.len() <= old(lock)@.required_hashes.len(),
    {
        proof {
            use_type_invariant(&*lock);
        }
        let mut promoted: Vec<u64> = Vec::new();
        let mut i: usize = 0;
        while i < lock.required_hashes.len()
            invariant
                *lock == *old(lock),
                i <= lock@.required_hashes.len(),
                promoted@.len() <= i,
            decreases lock@.required_hashes.len() - i,
        {
            if let Some(cid) = self.abandon_key(lock.required_hashes[i], command_id) {
                promoted.push(cid);
            }
            i += 1;
        }
        lock.owned_count = 0;
        promoted
    }
}

} // verus!
