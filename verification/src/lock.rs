//! The set of key hashes that one command must own before it may run.

use crate::latch::{Latch, LatchError};
use std::collections::hash_map::DefaultHasher;
use std::hash::Hasher;
use vstd::prelude::*;
use vstd::std_specs::hash::DefaultHasherAdditionalSpecFns;
use vstd::string::StringSliceAdditionalSpecFns;

verus! {

/// What a [`Lock`] stands for: the hashes it needs, and how many of them,
/// counted from the front, its command already owns.
pub struct LockView {
    pub required_hashes: Seq<u64>,
    pub owned_count: nat,
}

/// The keys one command needs, as a sorted list of distinct 64-bit hashes,
/// together with the number of them that have been granted so far.
///
/// Two distinct keys with the same 64-bit hash are treated as one key. This
/// costs concurrency, never exclusion.
#[derive(Debug)]
pub struct Lock {
    pub(crate) required_hashes: Vec<u64>,
    pub(crate) owned_count: usize,
}

/// Every element is smaller than each one after it: sorted, and nothing twice.
pub open spec fn strictly_ascending(s: Seq<u64>) -> bool {
    forall|i: int, j: int| 0 <= i < j < s.len() ==> s[i] < s[j]
}

/// The hash of one key: what the standard hasher returns after it was fed
/// the key's bytes and then the byte `0xff` that ends a string.
pub open spec fn key_hash(key: Seq<u8>) -> u64 {
    DefaultHasher::spec_finish(seq![key, seq![0xffu8]])
}

/// The hashes of a list of keys, in the order of the keys.
pub open spec fn key_hashes(keys: Seq<&str>) -> Seq<u64> {
    Seq::new(keys.len(), |i: int| key_hash(keys[i].spec_bytes()))
}

/// Hashes one key.
pub fn hash_key(key: &str) -> (h: u64)
    ensures
        h == key_hash(key.spec_bytes()),
{
    let mut state = DefaultHasher::new();
    state.write(key.as_bytes());
    let end: [u8; 1] = [0xffu8];
    state.write(end.as_slice());
    proof {
        assert(end@ =~= seq![0xffu8]);
        assert(state@ =~= seq![key.spec_bytes(), seq![0xffu8]]);
    }
    state.finish()
}

/// Puts `h` at its place in a sorted list of distinct values, unless it is
/// there already.
fn insert_unique(v: &mut Vec<u64>, h: u64)
    requires
        strictly_ascending(old(v)@),
    ensures
        strictly_ascending(final(v)@),
        forall|x: u64| final(v)@.contains(x) <==> old(v)@.contains(x) || x == h,
        final(v)@.len() == old(v)@.len() + (if old(v)@.contains(h) { 0int } else { 1int }),
{
    let mut p: usize = 0;
    while p < v.len() && v[p] < h
        invariant
            p <= v.len(),
            *v == *old(v),
            forall|k: int| 0 <= k < p ==> v@[k] < h,
        decreases v.len() - p,
    {
        p += 1;
    }
    let ghost before = v@;
    if p < v.len() && v[p] == h {
        assert(before.contains(h));
        return ;
    }
    assert(!before.contains(h)) by {
        if before.contains(h) {
            let k = choose|k: int| 0 <= k < before.len() && before[k] == h;
            if k > p {
                assert(before[p as int] < before[k]);
            }
        }
    }
    v.insert(p, h);
    assert forall|x: u64| v@.contains(x) <==> before.contains(x) || x == h by {
        if v@.contains(x) {
            let k = choose|k: int| 0 <= k < v@.len() && v@[k] == x;
            if k < p {
                assert(before[k] == x);
            } else if k > p {
                assert(before[k - 1] == x);
            }
        }
        if before.contains(x) {
            let k = choose|k: int| 0 <= k < before.len() && before[k] == x;
            if k < p {
                assert(v@[k] == x);
            } else {
                assert(v@[k + 1] == x);
            }
        }
        if x == h {
            assert(v@[p as int] == x);
        }
    }
    assert forall|i: int, j: int| 0 <= i < j < v@.len() implies v@[i] < v@[j] by {
        let bi = if i < p { i } else { i - 1 };
        let bj = if j < p { j } else { j - 1 };
        if i != p && j != p {
            assert(before[bi] < before[bj]);
        } else if i == p {
            assert(before[bj] >= h);
            assert(before[p as int] <= before[bj]) by {
                if bj > p {
                    assert(before[p as int] < before[bj]);
                }
            }
        }
    }
}

impl View for Lock {
    type V = LockView;

    open(crate) spec fn view(&self) -> LockView {
        LockView { required_hashes: self.required_hashes@, owned_count: self.owned_count as nat }
    }
}

impl LockView {
    /// The hashes are sorted and distinct, and no more are owned than needed.
    pub open spec fn wf(self) -> bool {
        &&& strictly_ascending(self.required_hashes)
        &&& self.owned_count <= self.required_hashes.len()
    }

    /// Every required hash is owned.
    pub open spec fn acquired(self) -> bool {
        self.owned_count == self.required_hashes.len()
    }

    /// The smallest hash that is not owned yet.
    pub open spec fn next_hash(self) -> u64 {
        self.required_hashes[self.owned_count as int]
    }

    /// The largest hash that is owned.
    pub open spec fn last_hash(self) -> u64 {
        self.required_hashes[self.owned_count - 1]
    }

    /// The lock with one more hash owned.
    pub open spec fn advanced(self) -> LockView {
        LockView { required_hashes: self.required_hashes, owned_count: self.owned_count + 1 }
    }

    /// The lock with one hash less owned.
    pub open spec fn retreated(self) -> LockView {
        LockView {
            required_hashes: self.required_hashes,
            owned_count: (self.owned_count - 1) as nat,
        }
    }
}

impl Lock {
    #[verifier::type_invariant]
    pub(crate) open spec fn inv(&self) -> bool {
        self@.wf()
    }

    /// Builds the lock for a command that needs `keys`: hashes every key,
    /// sorts the hashes and drops the repeated ones. Nothing is owned yet.
    pub fn new(keys: &[&str]) -> (lock: Lock)
        ensures
            lock@.wf(),
            lock@.owned_count == 0,
            forall|h: u64| lock@.required_hashes.contains(h) <==> key_hashes(keys@).contains(h),
            lock@.required_hashes.len() <= keys@.len(),
            keys@.len() == 0 ==> lock@.acquired(),
    {
        let mut hashes: Vec<u64> = Vec::new();
        let mut i: usize = 0;
        while i < keys.len()
            invariant
                i <= keys.len(),
                hashes@ == key_hashes(keys@).subrange(0, i as int),
            decreases keys.len() - i,
        {
            let h = hash_key(keys[i]);
            hashes.push(h);
            proof {
                assert(hashes@ =~= key_hashes(keys@).subrange(0, i + 1));
            }
            i += 1;
        }
        proof {
            assert(hashes@ =~= key_hashes(keys@));
        }
        Lock::from_hashes(hashes)
    }

    /// Builds the lock for a command whose keys are already hashed: sorts
    /// the hashes and drops the repeated ones. Nothing is owned yet.
    pub fn from_hashes(hashes: Vec<u64>) -> (lock: Lock)
        ensures
            lock@.wf(),
            lock@.owned_count == 0,
            forall|h: u64| lock@.required_hashes.contains(h) <==> hashes@.contains(h),
            lock@.required_hashes.len() <= hashes@.len(),
            hashes@.len() == 0 ==> lock@.acquired(),
    {
        let mut sorted: Vec<u64> = Vec::new();
        let mut i: usize = 0;
        while i < hashes.len()
            invariant
                i <= hashes.len(),
                strictly_ascending(sorted@),
                sorted@.len() <= i,
                forall|h: u64|
                    sorted@.contains(h) <==> hashes@.subrange(0, i as int).contains(h),
            decreases hashes.len() - i,
        {
            let ghost seen = hashes@.subrange(0, i as int);
            let ghost prev = sorted@;
            insert_unique(&mut sorted, hashes[i]);
            proof {
                let next = hashes@.subrange(0, i + 1);
                assert(next =~= seen.push(hashes@[i as int]));
                assert forall|h: u64| sorted@.contains(h) <==> next.contains(h) by {
                    if next.contains(h) {
                        let k = choose|k: int| 0 <= k < next.len() && next[k] == h;
                        if k < i {
                            assert(seen[k] == h);
                        }
                    }
                    if prev.contains(h) {
                        let k = choose|k: int| 0 <= k < seen.len() && seen[k] == h;
                        assert(next[k] == h);
                    }
                    if h == hashes@[i as int] {
                        assert(next[i as int] == h);
                    }
                }
            }
            i += 1;
        }
        proof {
            assert(hashes@.subrange(0, i as int) =~= hashes@);
        }
        Lock { required_hashes: sorted, owned_count: 0 }
    }

    /// One round of taking: command `cid` makes one attempt on the smallest
    /// hash that its lock misses, in `slot`, which is the slot of that hash.
    /// The lock counts the hash as owned where the slot grants it, and where
    /// the slot says that `cid` holds it already, for then a release has
    /// handed it over. Returns `false` where the command has to wait. A
    /// lock that misses nothing leaves the slot alone.
    pub fn advance(&mut self, slot: &mut Latch, cid: u64) -> (granted: bool)
        ensures
            old(self)@.acquired() ==> {
                &&& granted
                &&& final(self)@ == old(self)@
                &&& final(slot)@ == old(slot)@
            },
            !old(self)@.acquired() ==> {
                let done = old(slot)@.acquire(old(self)@.next_hash(), cid);
                &&& final(slot)@ == done.0
                &&& granted == (done.1 != Ok::<bool, LatchError>(false))
                &&& final(self)@ == if granted {
                    old(self)@.advanced()
                } else {
                    old(self)@
                }
            },
            final(self)@.wf(),
    {
        proof {
            use_type_invariant(&*self);
        }
        if self.owned_count >= self.required_hashes.len() {
            return true;
        }
        match slot.acquire(self.required_hashes[self.owned_count], cid) {
            Ok(false) => false,
            _ => {
                self.owned_count = self.owned_count + 1;
                true
            },
        }
    }

    /// One round of giving up: command `cid` gives up the largest hash that
    /// its lock owns, in `slot`, which is the slot of that hash. Returns the
    /// command that holds the hash from now on, if there is one. Where the
    /// slot says that `cid` does not hold the hash, nothing changes and the
    /// error is returned. A lock that owns nothing leaves the slot alone.
    pub fn retreat(&mut self, slot: &mut Latch, cid: u64) -> (r: Result<Option<u64>, LatchError>)
        ensures
            old(self)@.owned_count == 0 ==> {
                &&& r == Ok::<Option<u64>, LatchError>(None)
                &&& final(self)@ == old(self)@
                &&& final(slot)@ == old(slot)@
            },
            old(self)@.owned_count > 0 ==> {
                let done = old(slot)@.release(old(self)@.last_hash(), cid);
                &&& final(slot)@ == done.0
                &&& r == done.1
                &&& final(self)@ == if r is Ok {
                    old(self)@.retreated()
                } else {
                    old(self)@
                }
            },
            final(self)@.wf(),
    {
        proof {
            use_type_invariant(&*self);
        }
        if self.owned_count == 0 {
            return Ok(None);
        }
        let r = slot.release(self.required_hashes[self.owned_count - 1], cid);
        if r.is_ok() {
            self.owned_count = self.owned_count - 1;
        }
        r
    }

    /// The lock counts no hash as owned any more.
    pub(crate) fn forget(&mut self)
        ensures
            final(self)@ == (LockView {
                required_hashes: old(self)@.required_hashes,
                owned_count: 0,
            }),
            final(self)@.wf(),
    {
        proof {
            use_type_invariant(&*self);
        }
        self.owned_count = 0;
    }

    /// Whether the command owns every hash it needs.
    pub fn acquired(&self) -> (r: bool)
        ensures
            r == self@.acquired(),
    {
        self.required_hashes.len() == self.owned_count
    }

    /// Whether the command needs any key at all. One that needs none never
    /// waits.
    pub fn is_write_lock(&self) -> (r: bool)
        ensures
            r == (self@.required_hashes.len() > 0),
    {
        !self.required_hashes.is_empty()
    }

    /// The hashes the command needs, sorted and distinct.
    pub fn required_hashes(&self) -> (r: &Vec<u64>)
        ensures
            r@ == self@.required_hashes,
            self@.wf(),
    {
        proof {
            use_type_invariant(self);
        }
        &self.required_hashes
    }

    /// How many of the required hashes, counted from the smallest, the
    /// command owns.
    pub fn owned_count(&self) -> (r: usize)
        ensures
            r == self@.owned_count,
            self@.wf(),
    {
        proof {
            use_type_invariant(self);
        }
        self.owned_count
    }
}

impl Clone for Lock {
    fn clone(&self) -> (copy: Lock)
        ensures
            copy@ == self@,
    {
        proof {
            use_type_invariant(self);
        }
        let required_hashes = self.required_hashes.clone();
        proof {
            assert(required_hashes@ =~= self.required_hashes@);
        }
        Lock { required_hashes, owned_count: self.owned_count }
    }
}

/// Builds the lock for a command that needs `keys`; see [`Lock::new`].
pub fn build_lock(keys: &[&str]) -> (lock: Lock)
    ensures
        lock@.wf(),
        lock@.owned_count == 0,
        forall|h: u64| lock@.required_hashes.contains(h) <==> key_hashes(keys@).contains(h),
        lock@.required_hashes.len() <= keys@.len(),
        keys@.len() == 0 ==> lock@.acquired(),
{
    Lock::new(keys)
}

} // verus!
