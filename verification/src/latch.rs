//! One slot of the latch table: who holds each key hash that falls into the
//! slot, and who waits for one, oldest first.

use std::collections::HashMap;
use std::collections::VecDeque;
use vstd::prelude::*;

verus! {

broadcast use vstd::std_specs::hash::group_hash_axioms;

/// A waiting list that has fallen under this length may give storage back.
pub const WAITING_LIST_SHRINK_SIZE: usize = 8;

/// A waiting list gives storage back only while it holds room for more
/// entries than this.
pub const WAITING_LIST_MAX_CAPACITY: usize = 16;

/// A misuse of the latches by the caller.
#[derive(Clone, Copy, Debug, PartialEq, Eq, Structural)]
pub enum LatchError {
    /// The command asked for a key hash that it holds already.
    AlreadyHeld,
    /// The command gave up a key hash that it does not hold.
    NotHolder,
}

/// What a [`Latch`] stands for.
pub struct LatchView {
    /// The pairs of key hash and command that wait, oldest first.
    pub waiting: Seq<(u64, u64)>,
    /// The command that holds each key hash that is held.
    pub holders: Map<u64, u64>,
}

/// One slot: a queue of waiting commands, in which a popped entry may leave
/// an empty place behind, and the holder of each held key hash.
pub struct Latch {
    waiting: VecDeque<Option<(u64, u64)>>,
    holders: HashMap<u64, u64>,
}

/// The entries of a queue without its empty places, in the queue's order.
pub open spec fn live(q: Seq<Option<(u64, u64)>>) -> Seq<(u64, u64)>
    decreases q.len(),
{
    if q.len() == 0 {
        Seq::empty()
    } else {
        match q.last() {
            Some(e) => live(q.drop_last()).push(e),
            None => live(q.drop_last()),
        }
    }
}

/// The place of the oldest entry for `h` in `w`, or the length of `w` where
/// there is none.
pub open spec fn first_index(w: Seq<(u64, u64)>, h: u64) -> int
    decreases w.len(),
{
    if w.len() == 0 {
        0
    } else if w[0].0 == h {
        0
    } else {
        1 + first_index(w.drop_first(), h)
    }
}

/// `first_index` is the least place that holds an entry for `h`.
pub proof fn lemma_first_index(w: Seq<(u64, u64)>, h: u64)
    ensures
        0 <= first_index(w, h) <= w.len(),
        first_index(w, h) < w.len() ==> w[first_index(w, h)].0 == h,
        forall|j: int| 0 <= j < first_index(w, h) ==> (#[trigger] w[j]).0 != h,
    decreases w.len(),
{
    if w.len() > 0 && w[0].0 != h {
        let rest = w.drop_first();
        lemma_first_index(rest, h);
        assert forall|j: int| 0 <= j < first_index(w, h) implies (#[trigger] w[j]).0 != h by {
            if j > 0 {
                assert(rest[j - 1] == w[j]);
            }
        }
    }
}

/// A place before which nothing is for `h`, and which holds an entry for
/// `h` or is the end, is `first_index`.
pub proof fn lemma_first_index_is(w: Seq<(u64, u64)>, h: u64, i: int)
    requires
        0 <= i <= w.len(),
        forall|j: int| 0 <= j < i ==> (#[trigger] w[j]).0 != h,
        i < w.len() ==> w[i].0 == h,
    ensures
        first_index(w, h) == i,
{
    lemma_first_index(w, h);
    let f = first_index(w, h);
    if f < i {
        assert(w[f].0 != h);
    } else if f > i {
        assert(w[i].0 != h);
    }
}

proof fn lemma_live_concat(a: Seq<Option<(u64, u64)>>, b: Seq<Option<(u64, u64)>>)
    ensures
        live(a + b) == live(a) + live(b),
    decreases b.len(),
{
    if b.len() == 0 {
        assert(a + b =~= a);
        assert(live(a) + live(b) =~= live(a));
    } else {
        lemma_live_concat(a, b.drop_last());
        assert((a + b).drop_last() =~= a + b.drop_last());
        assert((a + b).last() == b.last());
        match b.last() {
            Some(e) => {
                assert(live(a) + live(b.drop_last()).push(e) =~= (live(a) + live(
                    b.drop_last(),
                )).push(e));
            },
            None => {},
        }
    }
}

/// A queue holds no more entries than places.
proof fn lemma_live_len(q: Seq<Option<(u64, u64)>>)
    ensures
        live(q).len() <= q.len(),
    decreases q.len(),
{
    if q.len() > 0 {
        lemma_live_len(q.drop_last());
    }
}

proof fn lemma_live_one(x: Option<(u64, u64)>)
    ensures
        live(seq![x]) == match x {
            Some(e) => seq![e],
            None => Seq::<(u64, u64)>::empty(),
        },
{
    let none = Seq::<Option<(u64, u64)>>::empty();
    assert(seq![x].drop_last() =~= none);
    assert(seq![x].last() == x);
    assert(live(none) =~= Seq::<(u64, u64)>::empty());
    match x {
        Some(e) => {
            assert(live(none).push(e) =~= seq![e]);
        },
        None => {},
    }
}

/// Splits a queue at place `k`: what is live before it, the entry, and what
/// is live after it.
proof fn lemma_live_split(q: Seq<Option<(u64, u64)>>, k: int)
    requires
        0 <= k < q.len(),
    ensures
        live(q) == live(q.subrange(0, k)) + live(seq![q[k]]) + live(
            q.subrange(k + 1, q.len() as int),
        ),
{
    let a = q.subrange(0, k);
    let b = q.subrange(k + 1, q.len() as int);
    assert(q =~= a + seq![q[k]] + b);
    lemma_live_concat(a + seq![q[k]], b);
    lemma_live_concat(a, seq![q[k]]);
}

impl LatchView {
    /// A slot in which nothing is held and nobody waits.
    pub open spec fn empty() -> LatchView {
        LatchView { waiting: Seq::empty(), holders: Map::empty() }
    }

    /// The oldest waiting entry for `h`.
    pub open spec fn first_entry(self, h: u64) -> Option<(u64, u64)> {
        let i = first_index(self.waiting, h);
        if i < self.waiting.len() {
            Some(self.waiting[i])
        } else {
            None
        }
    }

    /// The command that has waited longest for `h`.
    pub open spec fn first_waiter(self, h: u64) -> Option<u64> {
        match self.first_entry(h) {
            Some(e) => Some(e.1),
            None => None,
        }
    }

    /// The command that holds `h`.
    pub open spec fn holder(self, h: u64) -> Option<u64> {
        if self.holders.contains_key(h) {
            Some(self.holders[h])
        } else {
            None
        }
    }

    /// The slot after `cid` has joined the queue for `h`.
    pub open spec fn enqueue(self, h: u64, cid: u64) -> LatchView {
        LatchView { waiting: self.waiting.push((h, cid)), holders: self.holders }
    }

    /// The slot after the oldest entry for `h` has left the queue.
    pub open spec fn pop(self, h: u64) -> LatchView {
        let i = first_index(self.waiting, h);
        if i < self.waiting.len() {
            LatchView { waiting: self.waiting.remove(i), holders: self.holders }
        } else {
            self
        }
    }

    /// Whether `cid` is in the queue for `h`.
    pub open spec fn is_waiting(self, h: u64, cid: u64) -> bool {
        self.waiting.contains((h, cid))
    }

    /// What one attempt of `cid` to take `h` does to the slot, and what it
    /// answers. A command that holds `h` already is refused. A hash that
    /// nobody holds and nobody waits for is granted at once: `Ok(true)`.
    /// Otherwise the command waits, `Ok(false)`: it joins the back of the
    /// queue, unless it is in the queue for `h` already and keeps its place.
    pub open spec fn acquire(self, h: u64, cid: u64) -> (LatchView, Result<bool, LatchError>) {
        if self.holder(h) == Some(cid) {
            (self, Err(LatchError::AlreadyHeld))
        } else if self.holder(h) is None && self.first_waiter(h) is None {
            (LatchView { waiting: self.waiting, holders: self.holders.insert(h, cid) }, Ok(true))
        } else if self.is_waiting(h, cid) {
            (self, Ok(false))
        } else {
            (self.enqueue(h, cid), Ok(false))
        }
    }

    /// What it does to the slot that `cid` gives `h` up, and what that
    /// answers. A command that does not hold `h` is refused. Otherwise the
    /// command that has waited longest for `h` leaves the queue, holds `h`
    /// from now on and is named in the answer; where nobody waits, `h` is
    /// free.
    pub open spec fn release(self, h: u64, cid: u64) -> (
        LatchView,
        Result<Option<u64>, LatchError>,
    ) {
        if self.holder(h) == Some(cid) {
            match self.first_waiter(h) {
                Some(next) => (
                    LatchView { waiting: self.pop(h).waiting, holders: self.holders.insert(h, next) },
                    Ok(Some(next)),
                ),
                None => (
                    LatchView { waiting: self.waiting, holders: self.holders.remove(h) },
                    Ok(None),
                ),
            }
        } else {
            (self, Err(LatchError::NotHolder))
        }
    }

    /// The slot after `cid` has stopped waiting for `h`: its entries for `h`
    /// are gone, every other entry is where it was among the others.
    pub open spec fn withdraw(self, h: u64, cid: u64) -> LatchView {
        LatchView { waiting: self.waiting.filter(other_than(h, cid)), holders: self.holders }
    }

    /// What it does to the slot that `cid` wants nothing more of `h`: where
    /// it holds `h` it gives it up, as `release` says; where it does not, it
    /// stops waiting for it, as `withdraw` says. The answer is the command
    /// that holds `h` in its place, if there is one.
    pub open spec fn abandon(self, h: u64, cid: u64) -> (LatchView, Option<u64>) {
        if self.holder(h) == Some(cid) {
            (
                self.release(h, cid).0,
                match self.release(h, cid).1 {
                    Ok(next) => next,
                    Err(_) => None,
                },
            )
        } else {
            (self.withdraw(h, cid), None)
        }
    }

    /// What holds of a slot that only `acquire`, `release` and `withdraw`
    /// have worked on: a command waits only for a hash that is held, by
    /// another command, and waits for it once.
    pub open spec fn consistent(self) -> bool {
        &&& forall|i: int|
            0 <= i < self.waiting.len() ==> self.holders.contains_key(
                (#[trigger] self.waiting[i]).0,
            )
        &&& forall|i: int|
            0 <= i < self.waiting.len() ==> self.holders[(#[trigger] self.waiting[i]).0]
                != self.waiting[i].1
        &&& forall|i: int, j: int|
            0 <= i < j < self.waiting.len() ==> self.waiting[i] != self.waiting[j]
    }
}

/// The test that every entry passes but the one of `cid` for `h`.
pub open spec fn other_than(h: u64, cid: u64) -> spec_fn((u64, u64)) -> bool {
    |e: (u64, u64)| e != (h, cid)
}

/// An attempt to take a hash keeps a slot consistent.
pub proof fn lemma_acquire_consistent(v: LatchView, h: u64, cid: u64)
    requires
        v.consistent(),
    ensures
        v.acquire(h, cid).0.consistent(),
{
    let after = v.acquire(h, cid).0;
    lemma_first_index(v.waiting, h);
    if v.holder(h) == Some(cid) {
    } else if v.holder(h) is None && v.first_waiter(h) is None {
    } else if v.is_waiting(h, cid) {
    } else {
        if v.holder(h) is None {
            assert(v.holders.contains_key(v.waiting[first_index(v.waiting, h)].0));
        }
        let w = after.waiting;
        assert forall|i: int, j: int| 0 <= i < j < w.len() implies w[i] != w[j] by {
            if j == v.waiting.len() {
                assert(v.waiting[i] == w[i]);
            }
        }
    }
}

/// Giving a hash up keeps a slot consistent.
pub proof fn lemma_release_consistent(v: LatchView, h: u64, cid: u64)
    requires
        v.consistent(),
    ensures
        v.release(h, cid).0.consistent(),
{
    let after = v.release(h, cid).0;
    let first = first_index(v.waiting, h);
    lemma_first_index(v.waiting, h);
    if v.holder(h) == Some(cid) {
        if first < v.waiting.len() {
            let w = after.waiting;
            assert(w == v.waiting.remove(first));
            assert forall|i: int| 0 <= i < w.len() implies after.holders.contains_key(
                (#[trigger] w[i]).0,
            ) && after.holders[w[i].0] != w[i].1 by {
                let k = if i < first { i } else { i + 1 };
                assert(w[i] == v.waiting[k]);
                if k < first {
                    assert(v.waiting[k] != v.waiting[first]);
                } else {
                    assert(v.waiting[first] != v.waiting[k]);
                }
            }
            assert forall|i: int, j: int| 0 <= i < j < w.len() implies w[i] != w[j] by {
                let ki = if i < first { i } else { i + 1 };
                let kj = if j < first { j } else { j + 1 };
                assert(v.waiting[ki] != v.waiting[kj]);
            }
        } else {
            assert forall|i: int| 0 <= i < v.waiting.len() implies (#[trigger] v.waiting[i]).0
                != h by {}
        }
    }
}

/// What is left of a list of distinct entries after a test has taken some
/// out: distinct entries of the list.
proof fn lemma_filter_distinct(w: Seq<(u64, u64)>, keep: spec_fn((u64, u64)) -> bool)
    requires
        forall|i: int, j: int| 0 <= i < j < w.len() ==> w[i] != w[j],
    ensures
        forall|i: int, j: int|
            0 <= i < j < w.filter(keep).len() ==> w.filter(keep)[i] != w.filter(keep)[j],
        forall|i: int| 0 <= i < w.filter(keep).len() ==> w.contains(#[trigger] w.filter(keep)[i]),
    decreases w.len(),
{
    reveal(Seq::filter);
    if w.len() > 0 {
        let rest = w.drop_last();
        let kept = rest.filter(keep);
        let all = w.filter(keep);
        lemma_filter_distinct(rest, keep);
        assert forall|i: int| 0 <= i < all.len() implies w.contains(#[trigger] all[i]) by {
            if i < kept.len() {
                let k = choose|k: int| 0 <= k < rest.len() && rest[k] == kept[i];
                assert(w[k] == all[i]);
            } else {
                assert(w[w.len() - 1] == all[i]);
            }
        }
        assert forall|i: int, j: int| 0 <= i < j < all.len() implies all[i] != all[j] by {
            if j == kept.len() {
                let k = choose|k: int| 0 <= k < rest.len() && rest[k] == kept[i];
                assert(w[k] != w[w.len() - 1]);
            }
        }
    }
}

/// A command that stops waiting leaves a slot consistent.
pub proof fn lemma_withdraw_consistent(v: LatchView, h: u64, cid: u64)
    requires
        v.consistent(),
    ensures
        v.withdraw(h, cid).consistent(),
{
    let w = v.withdraw(h, cid).waiting;
    lemma_filter_distinct(v.waiting, other_than(h, cid));
    assert forall|i: int| 0 <= i < w.len() implies v.holders.contains_key((#[trigger] w[i]).0)
        && v.holders[w[i].0] != w[i].1 by {
        let k = choose|k: int| 0 <= k < v.waiting.len() && v.waiting[k] == w[i];
        assert(v.holders.contains_key(v.waiting[k].0));
    }
}

/// In a consistent slot a command that gives a hash up never hands it to
/// itself: the command that is woken is another one.
pub proof fn lemma_wakes_another(v: LatchView, h: u64, cid: u64)
    requires
        v.consistent(),
    ensures
        v.release(h, cid).1 != Ok::<Option<u64>, LatchError>(Some(cid)),
        v.abandon(h, cid).1 != Some(cid),
{
    lemma_first_index(v.waiting, h);
    let first = first_index(v.waiting, h);
    if v.holder(h) == Some(cid) && first < v.waiting.len() {
        assert(v.holders[v.waiting[first].0] != v.waiting[first].1);
    }
}

/// A command that wants nothing more of a hash leaves a slot consistent.
pub proof fn lemma_abandon_consistent(v: LatchView, h: u64, cid: u64)
    requires
        v.consistent(),
    ensures
        v.abandon(h, cid).0.consistent(),
{
    lemma_release_consistent(v, h, cid);
    lemma_withdraw_consistent(v, h, cid);
}

impl View for Latch {
    type V = LatchView;

    closed spec fn view(&self) -> LatchView {
        LatchView { waiting: live(self.waiting@), holders: self.holders@ }
    }
}

/// `VecDeque::capacity`: the number of entries the queue can hold without
/// asking for more storage. It holds the entries it has; how much room there
/// is beyond them, the allocator decides.
#[verifier::external_body]
fn queue_capacity(q: &VecDeque<Option<(u64, u64)>>) -> (room: usize)
    ensures
        room >= q@.len(),
{
    q.capacity()
}

/// `VecDeque::shrink_to_fit`: gives spare room back and leaves the entries
/// as they are.
#[verifier::external_body]
fn queue_shrink(q: &mut VecDeque<Option<(u64, u64)>>)
    ensures
        final(q)@ == old(q)@,
{
    q.shrink_to_fit()
}

/// `VecDeque::index_mut`: the entry at place `i`, to be changed where it
/// lies. The other entries stay.
#[verifier::external_body]
fn queue_entry(q: &mut VecDeque<Option<(u64, u64)>>, i: usize) -> (entry: &mut Option<(u64, u64)>)
    requires
        i < old(q)@.len(),
    ensures
        *entry == old(q)@[i as int],
        final(q)@ == old(q)@.update(i as int, *final(entry)),
{
    &mut q[i]
}

impl Latch {
    /// Whether the queue, if it holds anything, starts with an entry and not
    /// with an empty place.
    pub closed spec fn front_is_live(&self) -> bool {
        self.waiting@.len() > 0 ==> self.waiting@[0] is Some
    }

    /// A slot in which nothing is held and nobody waits.
    pub fn new() -> (latch: Latch)
        ensures
            latch@ == LatchView::empty(),
            latch.front_is_live(),
    {
        let latch = Latch { waiting: VecDeque::new(), holders: HashMap::new() };
        proof {
            assert(latch@.holders =~= Map::<u64, u64>::empty());
        }
        latch
    }

    /// Puts `cid` at the back of the queue, to wait for `key_hash`.
    pub fn wait_for_wake(&mut self, key_hash: u64, cid: u64)
        ensures
            final(self)@ == old(self)@.enqueue(key_hash, cid),
            old(self).front_is_live() ==> final(self).front_is_live(),
    {
        let ghost before = self.waiting@;
        self.waiting.push_back(Some((key_hash, cid)));
        proof {
            assert(self.waiting@.drop_last() =~= before);
        }
    }

    /// The place in the queue of the oldest entry for `hash`.
    fn position(&self, hash: u64) -> (found: Option<usize>)
        ensures
            match found {
                Some(k) => {
                    &&& k < self.waiting@.len()
                    &&& self.waiting@[k as int] is Some
                    &&& self@.first_entry(hash) == self.waiting@[k as int]
                    &&& first_index(self@.waiting, hash) == live(
                        self.waiting@.subrange(0, k as int),
                    ).len()
                },
                None => self@.first_entry(hash) is None,
            },
    {
        let ghost q = self.waiting@;
        let mut k: usize = 0;
        while k < self.waiting.len()
            invariant
                k <= q.len(),
                q == self.waiting@,
                forall|j: int|
                    0 <= j < live(q.subrange(0, k as int)).len() ==> (#[trigger] live(
                        q.subrange(0, k as int),
                    )[j]).0 != hash,
            decreases q.len() - k,
        {
            let ghost pre = live(q.subrange(0, k as int));
            proof {
                assert(q.subrange(0, k + 1).drop_last() =~= q.subrange(0, k as int));
                assert(q.subrange(0, k + 1).last() == q[k as int]);
            }
            match self.waiting[k] {
                Some((h, _)) => {
                    if h == hash {
                        proof {
                            let e = q[k as int]->0;
                            lemma_live_split(q, k as int);
                            lemma_live_one(q[k as int]);
                            let w = live(q);
                            assert(w[pre.len() as int] == e);
                            assert forall|j: int| 0 <= j < pre.len() implies (#[trigger] w[j]).0
                                != hash by {
                                assert(w[j] == pre[j]);
                            }
                            lemma_first_index_is(w, hash, pre.len() as int);
                        }
                        return Some(k);
                    }
                },
                None => {},
            }
            k += 1;
        }
        proof {
            assert(q.subrange(0, k as int) =~= q);
            lemma_first_index_is(live(q), hash, live(q).len() as int);
        }
        None
    }

    /// The command that has waited longest for `hash`, if any waits for it.
    pub fn get_first_req_by_hash(&self, hash: u64) -> (first: Option<u64>)
        ensures
            first == self@.first_waiter(hash),
    {
        match self.position(hash) {
            Some(k) => match self.waiting[k] {
                Some((_, cid)) => Some(cid),
                None => None,
            },
            None => None,
        }
    }

    /// Takes the oldest entry for `key_hash` out of the queue. The entries
    /// that stay keep their order.
    pub fn pop_front(&mut self, key_hash: u64) -> (popped: Option<(u64, u64)>)
        ensures
            popped == old(self)@.first_entry(key_hash),
            final(self)@ == old(self)@.pop(key_hash),
            old(self).front_is_live() ==> final(self).front_is_live(),
    {
        let ghost q = self.waiting@;
        // Often the front entry is the one.
        if let Some(item) = self.waiting.pop_front() {
            proof {
                assert(q =~= seq![item] + self.waiting@);
                lemma_live_concat(seq![item], self.waiting@);
                lemma_live_one(item);
            }
            if let Some(x) = item {
                if x.0 == key_hash {
                    proof {
                        lemma_first_index_is(live(q), key_hash, 0);
                        assert(live(q).remove(0) =~= live(self.waiting@));
                    }
                    self.maybe_shrink();
                    return item;
                }
            }
            // It is not: back to its place.
            self.waiting.push_front(item);
            proof {
                assert(self.waiting@ =~= q);
            }
        }
        match self.position(key_hash) {
            Some(k) => {
                let found = self.waiting[k];
                let entry = queue_entry(&mut self.waiting, k);
                *entry = None;
                proof {
                    let after = self.waiting@;
                    lemma_live_split(q, k as int);
                    lemma_live_split(after, k as int);
                    lemma_live_one(q[k as int]);
                    lemma_live_one(after[k as int]);
                    assert(after.subrange(0, k as int) =~= q.subrange(0, k as int));
                    assert(after.subrange(k + 1, after.len() as int) =~= q.subrange(
                        k + 1,
                        q.len() as int,
                    ));
                    let pre = live(q.subrange(0, k as int));
                    assert(live(q).remove(pre.len() as int) =~= live(after));
                    if old(self).front_is_live() {
                        assert(k > 0) by {
                            if k == 0 {
                                assert(q.subrange(0, 0) =~= Seq::<Option<(u64, u64)>>::empty());
                                lemma_first_index(live(q), key_hash);
                            }
                        }
                    }
                }
                self.maybe_shrink();
                found
            },
            None => None,
        }
    }

    /// Drops the empty places at the front of the queue, and gives storage
    /// back where the queue has become short but still holds much room.
    /// Who waits, and in which order, stays as it is.
    pub fn maybe_shrink(&mut self)
        ensures
            final(self)@ == old(self)@,
            final(self).front_is_live(),
    {
        while self.waiting.len() > 0 && self.waiting[0].is_none()
            invariant
                live(self.waiting@) == live(old(self).waiting@),
                self.holders == old(self).holders,
            decreases self.waiting@.len(),
        {
            let ghost q = self.waiting@;
            self.waiting.pop_front();
            proof {
                assert(q =~= seq![q[0]] + self.waiting@);
                lemma_live_concat(seq![q[0]], self.waiting@);
                lemma_live_one(q[0]);
                assert(live(q) =~= live(self.waiting@));
            }
        }
        if queue_capacity(&self.waiting) > WAITING_LIST_MAX_CAPACITY && self.waiting.len()
            < WAITING_LIST_SHRINK_SIZE {
            queue_shrink(&mut self.waiting);
        }
    }

    /// Whether `cid` is in the queue for `key_hash`.
    pub fn is_waiting(&self, key_hash: u64, cid: u64) -> (r: bool)
        ensures
            r == self@.is_waiting(key_hash, cid),
    {
        let ghost q = self.waiting@;
        let mut k: usize = 0;
        while k < self.waiting.len()
            invariant
                k <= q.len(),
                q == self.waiting@,
                !live(q.subrange(0, k as int)).contains((key_hash, cid)),
            decreases q.len() - k,
        {
            let ghost pre = live(q.subrange(0, k as int));
            proof {
                assert(q.subrange(0, k + 1).drop_last() =~= q.subrange(0, k as int));
                assert(q.subrange(0, k + 1).last() == q[k as int]);
            }
            match self.waiting[k] {
                Some((h, c)) => {
                    if h == key_hash && c == cid {
                        proof {
                            lemma_live_split(q, k as int);
                            lemma_live_one(q[k as int]);
                            assert(live(q)[pre.len() as int] == (key_hash, cid));
                        }
                        return true;
                    }
                    proof {
                        let next = live(q.subrange(0, k + 1));
                        if next.contains((key_hash, cid)) {
                            let j = choose|j: int|
                                0 <= j < next.len() && next[j] == (key_hash, cid);
                            if j < pre.len() {
                                assert(pre[j] == (key_hash, cid));
                            }
                        }
                    }
                },
                None => {},
            }
            k += 1;
        }
        proof {
            assert(q.subrange(0, k as int) =~= q);
        }
        false
    }

    /// The command that holds `key_hash`, if one does.
    pub fn holder(&self, key_hash: u64) -> (held_by: Option<u64>)
        ensures
            held_by == self@.holder(key_hash),
    {
        match self.holders.get(&key_hash) {
            Some(cid) => Some(*cid),
            None => None,
        }
    }

    /// One attempt of `cid` to take `key_hash`: granted, `Ok(true)`, where
    /// nobody holds it and nobody waits for it; else `cid` waits in the
    /// queue, `Ok(false)`. A command that holds the hash already is refused.
    pub fn acquire(&mut self, key_hash: u64, cid: u64) -> (r: Result<bool, LatchError>)
        ensures
            final(self)@ == old(self)@.acquire(key_hash, cid).0,
            r == old(self)@.acquire(key_hash, cid).1,
            old(self).front_is_live() ==> final(self).front_is_live(),
    {
        let held_by = self.holder(key_hash);
        if held_by == Some(cid) {
            return Err(LatchError::AlreadyHeld);
        }
        if held_by.is_none() && self.get_first_req_by_hash(key_hash).is_none() {
            self.holders.insert(key_hash, cid);
            return Ok(true);
        }
        if !self.is_waiting(key_hash, cid) {
            self.wait_for_wake(key_hash, cid);
        }
        Ok(false)
    }

    /// `cid` gives `key_hash` up. The command that has waited longest for it
    /// becomes its holder and is returned, to be told so. A command that
    /// does not hold the hash is refused.
    pub fn release(&mut self, key_hash: u64, cid: u64) -> (r: Result<Option<u64>, LatchError>)
        ensures
            final(self)@ == old(self)@.release(key_hash, cid).0,
            r == old(self)@.release(key_hash, cid).1,
            old(self).front_is_live() ==> final(self).front_is_live(),
    {
        if self.holder(key_hash) != Some(cid) {
            return Err(LatchError::NotHolder);
        }
        match self.pop_front(key_hash) {
            Some((_, next)) => {
                self.holders.insert(key_hash, next);
                Ok(Some(next))
            },
            None => {
                self.holders.remove(&key_hash);
                Ok(None)
            },
        }
    }

    /// `cid` stops waiting for `key_hash`. Every other entry keeps its place
    /// among the others; who holds what stays as it is.
    pub fn withdraw(&mut self, key_hash: u64, cid: u64)
        ensures
            final(self)@ == old(self)@.withdraw(key_hash, cid),
            final(self).front_is_live(),
    {
        let ghost q = self.waiting@;
        let ghost keep = other_than(key_hash, cid);
        let mut k: usize = 0;
        while k < self.waiting.len()
            invariant
                k <= q.len(),
                self.waiting@.len() == q.len(),
                self.holders == old(self).holders,
                q == old(self).waiting@,
                keep == other_than(key_hash, cid),
                self.waiting@.subrange(k as int, q.len() as int) == q.subrange(
                    k as int,
                    q.len() as int,
                ),
                live(self.waiting@.subrange(0, k as int)) == live(q.subrange(0, k as int)).filter(
                    keep,
                ),
            decreases q.len() - k,
        {
            let ghost cur = self.waiting@;
            let ghost pre = live(q.subrange(0, k as int));
            let entry = self.waiting[k];
            proof {
                assert(cur[k as int] == cur.subrange(k as int, q.len() as int)[0]);
                assert(q[k as int] == q.subrange(k as int, q.len() as int)[0]);
                assert(q.subrange(0, k + 1).drop_last() =~= q.subrange(0, k as int));
                assert(q.subrange(0, k + 1).last() == q[k as int]);
            }
            let mut gone = false;
            if let Some((h, c)) = entry {
                if h == key_hash && c == cid {
                    let place = queue_entry(&mut self.waiting, k);
                    *place = None;
                    gone = true;
                }
            }
            proof {
                let now = self.waiting@;
                assert(now.subrange(0, k + 1).drop_last() =~= cur.subrange(0, k as int));
                assert(now.subrange(0, k + 1).last() == now[k as int]);
                assert(now.subrange(k + 1, q.len() as int) =~= q.subrange(k + 1, q.len() as int))
                    by {
                    assert forall|j: int| k < j < q.len() implies #[trigger] now[j] == q[j] by {
                        assert(cur.subrange(k as int, q.len() as int)[j - k] == q.subrange(
                            k as int,
                            q.len() as int,
                        )[j - k]);
                    }
                }
                let done = live(cur.subrange(0, k as int));
                assert(q[k as int] == entry);
                match entry {
                    Some(e) => {
                        assert(live(q.subrange(0, k + 1)) == pre.push(e));
                        assert(keep(e) == (e != (key_hash, cid)));
                        pre.lemma_filter_push(e, keep);
                        if gone {
                            assert(e == (key_hash, cid));
                            assert(now[k as int] is None);
                            assert(live(now.subrange(0, k + 1)) == done);
                            assert(pre.push(e).filter(keep) == pre.filter(keep));
                        } else {
                            assert(now[k as int] == entry);
                            assert(live(now.subrange(0, k + 1)) == done.push(e));
                            assert(pre.push(e).filter(keep) == pre.filter(keep).push(e));
                        }
                    },
                    None => {
                        assert(now[k as int] is None);
                        assert(live(now.subrange(0, k + 1)) == done);
                        assert(live(q.subrange(0, k + 1)) == pre);
                    },
                }
            }
            k += 1;
        }
        proof {
            assert(self.waiting@.subrange(0, k as int) =~= self.waiting@);
            assert(q.subrange(0, k as int) =~= q);
        }
        self.maybe_shrink();
    }

    /// `cid` wants nothing more of `key_hash`: it gives the hash up where it
    /// holds it, and leaves the queue for it where it does not. Returns the
    /// command that holds the hash in its place, if there is one.
    pub fn abandon(&mut self, key_hash: u64, cid: u64) -> (promoted: Option<u64>)
        ensures
            final(self)@ == old(self)@.abandon(key_hash, cid).0,
            promoted == old(self)@.abandon(key_hash, cid).1,
    {
        match self.release(key_hash, cid) {
            Ok(next) => next,
            Err(_) => {
                self.withdraw(key_hash, cid);
                None
            },
        }
    }

    /// The number of entries the queue has room for: no fewer than wait in
    /// it.
    pub fn waiting_capacity(&self) -> (room: usize)
        ensures
            room >= self@.waiting.len(),
    {
        proof {
            lemma_live_len(self.waiting@);
        }
        queue_capacity(&self.waiting)
    }
}

} // verus!
