//! One key hash seen by itself: its holder and the commands that wait for
//! it. A slot serves many hashes out of one queue; what it does to each of
//! them is what is said here, and it never touches another.

use crate::latch::{first_index, lemma_first_index, lemma_first_index_is, other_than};
use crate::latch::{LatchError, LatchView};
use vstd::prelude::*;

verus! {

/// The state of one key hash.
pub struct KeyView {
    /// The command that holds the hash.
    pub holder: Option<u64>,
    /// The commands that wait for the hash, oldest first.
    pub waiters: Seq<u64>,
}

/// The test that every command passes but `cid`.
pub open spec fn not_command(cid: u64) -> spec_fn(u64) -> bool {
    |c: u64| c != cid
}

impl KeyView {
    /// A hash that nobody holds and nobody waits for.
    pub open spec fn free() -> KeyView {
        KeyView { holder: None, waiters: Seq::empty() }
    }

    /// Whether nobody holds the hash and nobody waits for it.
    pub open spec fn is_free(self) -> bool {
        self.holder is None && self.waiters.len() == 0
    }

    /// One attempt of `cid` to take the hash.
    pub open spec fn acquire(self, cid: u64) -> (KeyView, Result<bool, LatchError>) {
        if self.holder == Some(cid) {
            (self, Err(LatchError::AlreadyHeld))
        } else if self.is_free() {
            (KeyView { holder: Some(cid), waiters: self.waiters }, Ok(true))
        } else if self.waiters.contains(cid) {
            (self, Ok(false))
        } else {
            (KeyView { holder: self.holder, waiters: self.waiters.push(cid) }, Ok(false))
        }
    }

    /// `cid` gives the hash up.
    pub open spec fn release(self, cid: u64) -> (KeyView, Result<Option<u64>, LatchError>) {
        if self.holder == Some(cid) {
            if self.waiters.len() > 0 {
                (
                    KeyView { holder: Some(self.waiters[0]), waiters: self.waiters.drop_first() },
                    Ok(Some(self.waiters[0])),
                )
            } else {
                (KeyView { holder: None, waiters: self.waiters }, Ok(None))
            }
        } else {
            (self, Err(LatchError::NotHolder))
        }
    }

    /// `cid` stops waiting for the hash.
    pub open spec fn withdraw(self, cid: u64) -> KeyView {
        KeyView { holder: self.holder, waiters: self.waiters.filter(not_command(cid)) }
    }

    /// `cid` wants nothing more of the hash.
    pub open spec fn abandon(self, cid: u64) -> (KeyView, Option<u64>) {
        if self.holder == Some(cid) {
            (
                self.release(cid).0,
                match self.release(cid).1 {
                    Ok(next) => next,
                    Err(_) => None,
                },
            )
        } else {
            (self.withdraw(cid), None)
        }
    }

    /// Commands wait only for a hash that is held, the holder is not among
    /// them, and none waits twice.
    pub open spec fn consistent(self) -> bool {
        &&& self.waiters.len() > 0 ==> self.holder is Some
        &&& forall|i: int| 0 <= i < self.waiters.len() ==> self.holder != Some(self.waiters[i])
        &&& forall|i: int, j: int|
            0 <= i < j < self.waiters.len() ==> self.waiters[i] != self.waiters[j]
    }
}

/// The commands that wait for `h` in a queue, oldest first.
pub open spec fn waiters_in(w: Seq<(u64, u64)>, h: u64) -> Seq<u64>
    decreases w.len(),
{
    if w.len() == 0 {
        Seq::empty()
    } else if w.last().0 == h {
        waiters_in(w.drop_last(), h).push(w.last().1)
    } else {
        waiters_in(w.drop_last(), h)
    }
}

impl LatchView {
    /// What the slot holds for the hash `h`.
    pub open spec fn key(self, h: u64) -> KeyView {
        KeyView { holder: self.holder(h), waiters: waiters_in(self.waiting, h) }
    }
}

proof fn lemma_waiters_push(w: Seq<(u64, u64)>, e: (u64, u64), h: u64)
    ensures
        waiters_in(w.push(e), h) == if e.0 == h {
            waiters_in(w, h).push(e.1)
        } else {
            waiters_in(w, h)
        },
{
    assert(w.push(e).drop_last() =~= w);
    assert(w.push(e).last() == e);
}

/// A command waits for `h` exactly where the queue holds its entry for `h`.
proof fn lemma_waiters_contains(w: Seq<(u64, u64)>, h: u64, c: u64)
    ensures
        waiters_in(w, h).contains(c) <==> w.contains((h, c)),
    decreases w.len(),
{
    if w.len() > 0 {
        let d = w.drop_last();
        let x = w.last();
        lemma_waiters_contains(d, h, c);
        let p = waiters_in(w, h);
        let q = waiters_in(d, h);
        if p.contains(c) {
            let i = choose|i: int| 0 <= i < p.len() && p[i] == c;
            if x.0 == h && i == q.len() {
                assert(w[w.len() - 1] == (h, c));
            } else {
                assert(q[i] == c);
                let k = choose|k: int| 0 <= k < d.len() && d[k] == (h, c);
                assert(w[k] == (h, c));
            }
        }
        if w.contains((h, c)) {
            let k = choose|k: int| 0 <= k < w.len() && w[k] == (h, c);
            if k == w.len() - 1 {
                assert(p[q.len() as int] == c);
            } else {
                assert(d[k] == (h, c));
                let i = choose|i: int| 0 <= i < q.len() && q[i] == c;
                assert(p[i] == c);
            }
        }
    }
}

/// The oldest entry for `h` is the entry of the first command that waits
/// for `h`; without it, the others wait for `h` as before, and every other
/// hash keeps its waiters.
proof fn lemma_waiters_first(w: Seq<(u64, u64)>, h: u64)
    ensures
        first_index(w, h) < w.len() <==> waiters_in(w, h).len() > 0,
        first_index(w, h) < w.len() ==> {
            &&& w[first_index(w, h)].1 == waiters_in(w, h)[0]
            &&& waiters_in(w.remove(first_index(w, h)), h) == waiters_in(w, h).drop_first()
            &&& forall|h2: u64|
                h2 != h ==> #[trigger] waiters_in(w.remove(first_index(w, h)), h2) == waiters_in(
                    w,
                    h2,
                )
        },
    decreases w.len(),
{
    lemma_first_index(w, h);
    if w.len() > 0 {
        let d = w.drop_last();
        let x = w.last();
        lemma_waiters_first(d, h);
        lemma_first_index(d, h);
        let fd = first_index(d, h);
        assert(w =~= d.push(x));
        if fd < d.len() {
            assert forall|j: int| 0 <= j < fd implies (#[trigger] w[j]).0 != h by {
                assert(w[j] == d[j]);
            }
            assert(w[fd] == d[fd]);
            lemma_first_index_is(w, h, fd);
            assert(w.remove(fd) =~= d.remove(fd).push(x));
            assert forall|h2: u64| true implies #[trigger] waiters_in(w.remove(fd), h2) == if h2
                == h {
                waiters_in(w, h).drop_first()
            } else {
                waiters_in(w, h2)
            } by {
                lemma_waiters_push(d.remove(fd), x, h2);
                lemma_waiters_push(d, x, h2);
                if h2 == h && x.0 == h {
                    assert(waiters_in(d, h).push(x.1).drop_first() =~= waiters_in(
                        d,
                        h,
                    ).drop_first().push(x.1));
                }
            }
            lemma_waiters_push(d, x, h);
        } else {
            assert forall|j: int| 0 <= j < d.len() implies (#[trigger] w[j]).0 != h by {
                assert(w[j] == d[j]);
            }
            if x.0 == h {
                lemma_first_index_is(w, h, d.len() as int);
                assert(w.remove(d.len() as int) =~= d);
                lemma_waiters_push(d, x, h);
                assert(waiters_in(d, h).push(x.1).drop_first() =~= waiters_in(d, h));
                assert forall|h2: u64| h2 != h implies #[trigger] waiters_in(
                    w.remove(d.len() as int),
                    h2,
                ) == waiters_in(w, h2) by {
                    lemma_waiters_push(d, x, h2);
                }
            } else {
                lemma_first_index_is(w, h, w.len() as int);
                lemma_waiters_push(d, x, h);
            }
        }
    }
}

/// Taking the entries of one command for `h` out of a queue takes the
/// command out of the waiters for `h` and leaves every other hash its
/// waiters.
proof fn lemma_waiters_filter(w: Seq<(u64, u64)>, h: u64, cid: u64, h2: u64)
    ensures
        waiters_in(w.filter(other_than(h, cid)), h2) == if h2 == h {
            waiters_in(w, h).filter(not_command(cid))
        } else {
            waiters_in(w, h2)
        },
    decreases w.len(),
{
    reveal(Seq::filter);
    if w.len() > 0 {
        let d = w.drop_last();
        let x = w.last();
        lemma_waiters_filter(d, h, cid, h2);
        assert(w =~= d.push(x));
        d.lemma_filter_push(x, other_than(h, cid));
        lemma_waiters_push(d, x, h2);
        lemma_waiters_push(d.filter(other_than(h, cid)), x, h2);
        if h2 == h {
            waiters_in(d, h).lemma_filter_push(x.1, not_command(cid));
        }
    }
}

/// In a queue of distinct entries nobody waits twice for one hash.
proof fn lemma_waiters_distinct(w: Seq<(u64, u64)>, h: u64)
    requires
        forall|i: int, j: int| 0 <= i < j < w.len() ==> w[i] != w[j],
    ensures
        forall|i: int, j: int|
            0 <= i < j < waiters_in(w, h).len() ==> waiters_in(w, h)[i] != waiters_in(w, h)[j],
    decreases w.len(),
{
    if w.len() > 0 {
        let d = w.drop_last();
        let x = w.last();
        lemma_waiters_distinct(d, h);
        let p = waiters_in(w, h);
        let q = waiters_in(d, h);
        if x.0 == h {
            assert forall|i: int, j: int| 0 <= i < j < p.len() implies p[i] != p[j] by {
                if j == q.len() && p[i] == p[j] {
                    assert(q[i] == x.1);
                    lemma_waiters_contains(d, h, x.1);
                    let k = choose|k: int| 0 <= k < d.len() && d[k] == (h, x.1);
                    assert(w[k] == w[w.len() - 1]);
                }
            }
        }
    }
}

/// In a consistent slot every hash is consistent by itself.
pub proof fn lemma_key_consistent(v: LatchView, h: u64)
    requires
        v.consistent(),
    ensures
        v.key(h).consistent(),
{
    let q = waiters_in(v.waiting, h);
    lemma_waiters_distinct(v.waiting, h);
    assert forall|i: int| 0 <= i < q.len() implies v.holders.contains_key(h) && v.holder(h)
        != Some(q[i]) by {
        lemma_waiters_contains(v.waiting, h, q[i]);
        let k = choose|k: int| 0 <= k < v.waiting.len() && v.waiting[k] == (h, q[i]);
        assert(v.holders.contains_key(v.waiting[k].0));
    }
    if q.len() > 0 {
        lemma_waiters_contains(v.waiting, h, q[0]);
        let k = choose|k: int| 0 <= k < v.waiting.len() && v.waiting[k] == (h, q[0]);
        assert(v.holders.contains_key(v.waiting[k].0));
    }
}

/// What an attempt on `h` does in a slot is what it does to `h` by itself;
/// every other hash of the slot stays as it is.
pub proof fn lemma_acquire_by_key(v: LatchView, h: u64, cid: u64)
    ensures
        v.acquire(h, cid).0.key(h) == v.key(h).acquire(cid).0,
        v.acquire(h, cid).1 == v.key(h).acquire(cid).1,
        forall|h2: u64| h2 != h ==> #[trigger] v.acquire(h, cid).0.key(h2) == v.key(h2),
{
    lemma_waiters_first(v.waiting, h);
    lemma_waiters_contains(v.waiting, h, cid);
    let after = v.acquire(h, cid).0;
    assert forall|h2: u64| true implies waiters_in(after.waiting, h2) == if h2 == h
        && after.waiting != v.waiting {
        waiters_in(v.waiting, h).push(cid)
    } else {
        waiters_in(v.waiting, h2)
    } by {
        lemma_waiters_push(v.waiting, (h, cid), h2);
    }
}

/// What giving `h` up does in a slot is what it does to `h` by itself;
/// every other hash of the slot stays as it is.
pub proof fn lemma_release_by_key(v: LatchView, h: u64, cid: u64)
    ensures
        v.release(h, cid).0.key(h) == v.key(h).release(cid).0,
        v.release(h, cid).1 == v.key(h).release(cid).1,
        forall|h2: u64| h2 != h ==> #[trigger] v.release(h, cid).0.key(h2) == v.key(h2),
{
    lemma_waiters_first(v.waiting, h);
    lemma_first_index(v.waiting, h);
}

/// What it does in a slot that a command stops waiting for `h` is what it
/// does to `h` by itself; every other hash of the slot stays as it is.
pub proof fn lemma_withdraw_by_key(v: LatchView, h: u64, cid: u64)
    ensures
        v.withdraw(h, cid).key(h) == v.key(h).withdraw(cid),
        forall|h2: u64| h2 != h ==> #[trigger] v.withdraw(h, cid).key(h2) == v.key(h2),
{
    assert forall|h2: u64| true implies waiters_in(v.withdraw(h, cid).waiting, h2) == if h2 == h {
        waiters_in(v.waiting, h).filter(not_command(cid))
    } else {
        waiters_in(v.waiting, h2)
    } by {
        lemma_waiters_filter(v.waiting, h, cid, h2);
    }
}

/// What it does in a slot that a command wants nothing more of `h` is what
/// it does to `h` by itself; every other hash of the slot stays as it is.
pub proof fn lemma_abandon_by_key(v: LatchView, h: u64, cid: u64)
    ensures
        v.abandon(h, cid).0.key(h) == v.key(h).abandon(cid).0,
        v.abandon(h, cid).1 == v.key(h).abandon(cid).1,
        forall|h2: u64| h2 != h ==> #[trigger] v.abandon(h, cid).0.key(h2) == v.key(h2),
{
    lemma_release_by_key(v, h, cid);
    lemma_withdraw_by_key(v, h, cid);
}

/// First come, first served. Where `c0` holds `h` and nobody waits for it,
/// and `c1`, `c2` and `c3` then ask for it in this order, each of them has
/// to wait, and the three releases that follow hand `h` to `c1`, then to
/// `c2`, then to `c3`.
pub proof fn lemma_first_come_first_served(
    v: LatchView,
    h: u64,
    c0: u64,
    c1: u64,
    c2: u64,
    c3: u64,
)
    requires
        v.key(h).holder == Some(c0),
        v.key(h).waiters.len() == 0,
        c0 != c1 && c0 != c2 && c0 != c3 && c1 != c2 && c1 != c3 && c2 != c3,
    ensures
        ({
            let a1 = v.acquire(h, c1);
            let a2 = a1.0.acquire(h, c2);
            let a3 = a2.0.acquire(h, c3);
            let r0 = a3.0.release(h, c0);
            let r1 = r0.0.release(h, c1);
            let r2 = r1.0.release(h, c2);
            &&& a1.1 == Ok::<bool, LatchError>(false)
            &&& a2.1 == Ok::<bool, LatchError>(false)
            &&& a3.1 == Ok::<bool, LatchError>(false)
            &&& a3.0.key(h).waiters == seq![c1, c2, c3]
            &&& r0.1 == Ok::<Option<u64>, LatchError>(Some(c1))
            &&& r1.1 == Ok::<Option<u64>, LatchError>(Some(c2))
            &&& r2.1 == Ok::<Option<u64>, LatchError>(Some(c3))
            &&& r2.0.key(h) == KeyView { holder: Some(c3), waiters: Seq::empty() }
        }),
{
    let a1 = v.acquire(h, c1);
    let a2 = a1.0.acquire(h, c2);
    let a3 = a2.0.acquire(h, c3);
    let r0 = a3.0.release(h, c0);
    let r1 = r0.0.release(h, c1);
    let r2 = r1.0.release(h, c2);
    lemma_acquire_by_key(v, h, c1);
    assert(a1.0.key(h).waiters =~= seq![c1]);
    lemma_acquire_by_key(a1.0, h, c2);
    assert(!seq![c1].contains(c2));
    assert(a2.0.key(h).waiters =~= seq![c1, c2]);
    lemma_acquire_by_key(a2.0, h, c3);
    assert(!seq![c1, c2].contains(c3));
    assert(a3.0.key(h).waiters =~= seq![c1, c2, c3]);
    lemma_release_by_key(a3.0, h, c0);
    assert(r0.0.key(h).waiters =~= seq![c2, c3]);
    lemma_release_by_key(r0.0, h, c1);
    assert(r1.0.key(h).waiters =~= seq![c3]);
    lemma_release_by_key(r1.0, h, c2);
    assert(r2.0.key(h).waiters =~= Seq::<u64>::empty());
}

/// A release hands the hash to the command that has waited longest; the
/// others move up one place and keep their order.
pub proof fn lemma_release_serves_oldest(v: LatchView, h: u64, cid: u64)
    requires
        v.key(h).holder == Some(cid),
        v.key(h).waiters.len() > 0,
    ensures
        v.release(h, cid).1 == Ok::<Option<u64>, LatchError>(Some(v.key(h).waiters[0])),
        v.release(h, cid).0.key(h).holder == Some(v.key(h).waiters[0]),
        v.release(h, cid).0.key(h).waiters == v.key(h).waiters.drop_first(),
{
    lemma_release_by_key(v, h, cid);
}

/// A command that has to wait goes to the back of the waiters for the hash.
pub proof fn lemma_wait_at_back(v: LatchView, h: u64, cid: u64)
    requires
        v.acquire(h, cid).1 == Ok::<bool, LatchError>(false),
        !v.key(h).waiters.contains(cid),
    ensures
        v.acquire(h, cid).0.key(h).waiters == v.key(h).waiters.push(cid),
        v.acquire(h, cid).0.key(h).holder == v.key(h).holder,
{
    lemma_acquire_by_key(v, h, cid);
}

/// A hash is granted only while nobody holds it, and to the command that
/// asked alone.
pub proof fn lemma_granted_was_free(v: LatchView, h: u64, cid: u64)
    requires
        v.acquire(h, cid).1 == Ok::<bool, LatchError>(true),
    ensures
        v.key(h).is_free(),
        v.acquire(h, cid).0.key(h).holder == Some(cid),
{
    lemma_acquire_by_key(v, h, cid);
}

/// Mutual exclusion. While `a` holds `h`, no other command is granted `h`,
/// and nothing that another command does, on `h` or on another hash of the
/// slot, takes `h` from `a`: it holds `h` until it gives it up itself.
pub proof fn lemma_holder_keeps(v: LatchView, h: u64, a: u64, h2: u64, b: u64)
    requires
        v.key(h).holder == Some(a),
        b != a || h2 != h,
    ensures
        b != a ==> v.acquire(h, b).1 == Ok::<bool, LatchError>(false),
        v.acquire(h2, b).0.key(h).holder == Some(a),
        v.release(h2, b).0.key(h).holder == Some(a),
        v.withdraw(h2, b).key(h).holder == Some(a),
        v.abandon(h2, b).0.key(h).holder == Some(a),
{
    lemma_acquire_by_key(v, h, b);
    lemma_acquire_by_key(v, h2, b);
    lemma_release_by_key(v, h2, b);
    lemma_withdraw_by_key(v, h2, b);
    lemma_abandon_by_key(v, h2, b);
}

/// In a list without repeats, taking out the value at place `p` is taking
/// out the element at place `p`.
proof fn lemma_filter_is_remove(s: Seq<u64>, p: int)
    requires
        0 <= p < s.len(),
        forall|i: int, j: int| 0 <= i < j < s.len() ==> s[i] != s[j],
    ensures
        s.filter(not_command(s[p])) == s.remove(p),
    decreases s.len(),
{
    reveal(Seq::filter);
    let keep = not_command(s[p]);
    let d = s.drop_last();
    assert(s =~= d.push(s.last()));
    d.lemma_filter_push(s.last(), keep);
    if p == s.len() - 1 {
        assert(s.remove(p) =~= d);
        lemma_filter_keeps_all(d, s[p]);
    } else {
        lemma_filter_is_remove(d, p);
        assert(s.remove(p) =~= d.remove(p).push(s.last()));
    }
}

/// Taking out a value that does not occur changes nothing.
proof fn lemma_filter_keeps_all(s: Seq<u64>, c: u64)
    requires
        !s.contains(c),
    ensures
        s.filter(not_command(c)) == s,
    decreases s.len(),
{
    reveal(Seq::filter);
    if s.len() > 0 {
        let d = s.drop_last();
        assert(s =~= d.push(s.last()));
        d.lemma_filter_push(s.last(), not_command(c));
        assert(s[s.len() - 1] != c);
        assert(!d.contains(c)) by {
            if d.contains(c) {
                let k = choose|k: int| 0 <= k < d.len() && d[k] == c;
                assert(s[k] == c);
            }
        }
        lemma_filter_keeps_all(d, c);
    }
}

/// A command that leaves the queue takes its own entry with it and nothing
/// else. Where it waits for `h` at place `p`, the waiters for `h` are
/// afterwards the same without place `p`: those before it stay where they
/// are, those behind it move up one place. Where it does not wait for `h`,
/// nothing changes for `h`. Every other hash keeps its holder and its
/// waiters, and `h` keeps its holder.
pub proof fn lemma_withdraw_takes_own_entry(v: LatchView, h: u64, cid: u64)
    requires
        v.consistent(),
    ensures
        v.withdraw(h, cid).holders == v.holders,
        !v.withdraw(h, cid).key(h).waiters.contains(cid),
        forall|p: int|
            0 <= p < v.key(h).waiters.len() && v.key(h).waiters[p] == cid ==> v.withdraw(
                h,
                cid,
            ).key(h).waiters == v.key(h).waiters.remove(p),
        !v.key(h).waiters.contains(cid) ==> v.withdraw(h, cid).key(h) == v.key(h),
        forall|h2: u64| h2 != h ==> #[trigger] v.withdraw(h, cid).key(h2) == v.key(h2),
{
    lemma_withdraw_by_key(v, h, cid);
    lemma_key_consistent(v, h);
    let w = v.key(h).waiters;
    if w.contains(cid) {
        let p = choose|p: int| 0 <= p < w.len() && w[p] == cid;
        lemma_filter_is_remove(w, p);
        assert forall|q: int| 0 <= q < w.len() && w[q] == cid implies q == p by {
            if q < p {
                assert(w[q] != w[p]);
            } else if p < q {
                assert(w[p] != w[q]);
            }
        }
        assert(!w.remove(p).contains(cid)) by {
            if w.remove(p).contains(cid) {
                let k = choose|k: int| 0 <= k < w.remove(p).len() && w.remove(p)[k] == cid;
                let q = if k < p { k } else { k + 1 };
                assert(w[q] == cid);
            }
        }
    } else {
        lemma_filter_keeps_all(w, cid);
    }
}

/// A command that gives up a hash it only waited for takes its own entry
/// out of the queue and does nothing else: nobody is woken, the holder
/// stays, and the others wait as [`lemma_withdraw_takes_own_entry`] says.
pub proof fn lemma_abandon_by_waiter(v: LatchView, h: u64, cid: u64)
    requires
        v.key(h).holder != Some(cid),
    ensures
        v.abandon(h, cid).0 == v.withdraw(h, cid),
        v.abandon(h, cid).1 == None::<u64>,
        v.abandon(h, cid).0.holders == v.holders,
{
}

/// A command that neither holds a hash nor waits for it has nothing to give
/// up: the hash stays as it is and nobody is woken.
pub proof fn lemma_abandon_by_stranger(k: KeyView, cid: u64)
    requires
        k.holder != Some(cid),
        !k.waiters.contains(cid),
    ensures
        k.abandon(cid).0 == k,
        k.abandon(cid).1 == None::<u64>,
{
    lemma_filter_keeps_all(k.waiters, cid);
}

/// Giving up twice is giving up once: a command that wanted nothing more
/// of a hash finds, when it says so again, nothing left to do.
pub proof fn lemma_abandon_twice(k: KeyView, cid: u64)
    requires
        k.consistent(),
    ensures
        k.abandon(cid).0.abandon(cid).0 == k.abandon(cid).0,
        k.abandon(cid).0.abandon(cid).1 == None::<u64>,
        k.abandon(cid).0.holder != Some(cid),
        !k.abandon(cid).0.waiters.contains(cid),
{
    let a = k.abandon(cid).0;
    assert(!a.waiters.contains(cid)) by {
        if a.waiters.contains(cid) {
            let p = choose|p: int| 0 <= p < a.waiters.len() && a.waiters[p] == cid;
            if k.holder == Some(cid) {
                assert(k.waiters[p + 1] == cid);
            } else {
                k.waiters.lemma_filter_pred(not_command(cid), p);
            }
        }
    }
    if k.holder == Some(cid) && k.waiters.len() > 0 {
        assert(k.holder != Some(k.waiters[0]));
    }
    lemma_filter_keeps_all(a.waiters, cid);
}

} // verus!
