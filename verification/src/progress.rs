//! Commands that share a table, each moving one step at a time and in any
//! order: no two of them ever own the same hash, one of them can always
//! move while any is unfinished, and every run comes to an end.

use crate::key::KeyView;
use crate::latch::LatchError;
use crate::latches::is_power_of_two;
use crate::lock::LockView;
use crate::table::{
    lemma_empty_table, lemma_table_acquire, lemma_table_key_consistent, lemma_table_release,
    owns_before, TableView,
};
use vstd::prelude::*;

verus! {

/// Where a command stands.
pub enum Phase {
    /// It takes its hashes, smallest first.
    Acquiring,
    /// It was told to wait for its next hash and sleeps until a release
    /// hands that hash to it.
    Parked,
    /// It owned all its hashes, has done its work and gives them up,
    /// largest first.
    Releasing,
    /// It has given up everything.
    Done,
}

/// One command: its number, its lock and where it stands.
pub struct CommandView {
    pub cid: u64,
    pub lock: LockView,
    pub phase: Phase,
}

impl CommandView {
    /// The hash the command takes next.
    pub open spec fn next_hash(self) -> u64 {
        self.lock.next_hash()
    }

    /// Whether the lock counts `h` as owned.
    pub open spec fn owns(self, h: u64) -> bool {
        owns_before(self.lock, self.lock.owned_count as int, h)
    }

    /// Whether the command sleeps until it gets `h`.
    pub open spec fn awaits(self, h: u64) -> bool {
        self.phase is Parked && self.next_hash() == h
    }

    /// The lock is well formed, a sleeping command misses a hash, and a
    /// finished one owns none.
    pub open spec fn wf(self) -> bool {
        &&& self.lock.wf()
        &&& self.phase is Parked ==> self.lock.owned_count < self.lock.required_hashes.len()
        &&& self.phase is Done ==> self.lock.owned_count == 0
    }

    /// A bound on the steps the command has still to make.
    pub open spec fn steps_left(self) -> nat {
        let missing = self.lock.required_hashes.len() - self.lock.owned_count;
        match self.phase {
            Phase::Acquiring => (2 * missing + self.lock.required_hashes.len() + 2) as nat,
            Phase::Parked => (2 * missing + self.lock.required_hashes.len() + 1) as nat,
            Phase::Releasing => self.lock.owned_count + 1,
            Phase::Done => 0,
        }
    }

    /// The command with its next hash counted as owned.
    pub open spec fn granted(self) -> CommandView {
        CommandView { cid: self.cid, lock: self.lock.advanced(), phase: Phase::Acquiring }
    }

    /// The command with its largest owned hash given up.
    pub open spec fn reduced(self) -> CommandView {
        CommandView { cid: self.cid, lock: self.lock.retreated(), phase: Phase::Releasing }
    }

    /// The command in another phase.
    pub open spec fn in_phase(self, phase: Phase) -> CommandView {
        CommandView { cid: self.cid, lock: self.lock, phase }
    }
}

/// The steps that a list of commands has still to make, at most.
pub open spec fn steps_left(commands: Seq<CommandView>) -> nat
    decreases commands.len(),
{
    if commands.len() == 0 {
        0
    } else {
        steps_left(commands.drop_last()) + commands.last().steps_left()
    }
}

/// A table and the commands that work on it.
pub struct World {
    pub table: TableView,
    pub commands: Seq<CommandView>,
}

impl World {
    /// Whether command `i` can make a step: it is not finished, and where it
    /// sleeps, the hash it sleeps for has been handed to it.
    pub open spec fn enabled(self, i: int) -> bool {
        &&& 0 <= i < self.commands.len()
        &&& match self.commands[i].phase {
            Phase::Done => false,
            Phase::Parked => self.table.key(self.commands[i].next_hash()).holder == Some(
                self.commands[i].cid,
            ),
            _ => true,
        }
    }

    /// The world with command `i` replaced.
    pub open spec fn with_command(self, table: TableView, i: int, c: CommandView) -> World {
        World { table, commands: self.commands.update(i, c) }
    }

    /// The world after command `i` has made its next step. A command that
    /// takes hashes makes one attempt on its next hash, which is one round
    /// of [`crate::lock::Lock::advance`] on the slot of that hash, or finds
    /// that it owns them all and goes to work. A command that gives hashes
    /// up gives up the largest it owns, which is one round of
    /// [`crate::lock::Lock::retreat`], or finds that it owns none and is
    /// finished.
    pub open spec fn step(self, i: int) -> World {
        let c = self.commands[i];
        match c.phase {
            Phase::Done => self,
            Phase::Releasing => {
                if c.lock.owned_count == 0 {
                    self.with_command(self.table, i, c.in_phase(Phase::Done))
                } else {
                    let done = self.table.release(c.lock.last_hash(), c.cid);
                    match done.1 {
                        Ok(_) => self.with_command(done.0, i, c.reduced()),
                        Err(_) => self,
                    }
                }
            },
            _ => {
                if c.lock.acquired() {
                    self.with_command(self.table, i, c.in_phase(Phase::Releasing))
                } else {
                    let done = self.table.acquire(c.next_hash(), c.cid);
                    if done.1 == Ok::<bool, LatchError>(false) {
                        self.with_command(done.0, i, c.in_phase(Phase::Parked))
                    } else {
                        self.with_command(done.0, i, c.granted())
                    }
                }
            },
        }
    }

    /// Command `i` holds, in the table, the hash at place `k` of its lock.
    pub open spec fn holds_own(self, i: int, k: int) -> bool {
        self.table.key(self.commands[i].lock.required_hashes[k]).holder == Some(
            self.commands[i].cid,
        )
    }

    /// Command `i` is the holder of `h` and knows of it: its lock counts `h`
    /// as owned, or it sleeps for `h` and will find that it has it.
    pub open spec fn claimed_by(self, h: u64, i: int) -> bool {
        &&& 0 <= i < self.commands.len()
        &&& self.table.key(h).holder == Some(self.commands[i].cid)
        &&& (self.commands[i].owns(h) || self.commands[i].awaits(h))
    }

    /// Where `h` is held, a command answers for it.
    pub open spec fn holder_known(self, h: u64) -> bool {
        self.table.key(h).holder is Some ==> exists|i: int| #[trigger] self.claimed_by(h, i)
    }

    /// Command `i` is the waiter at place `p` of `h` and sleeps for `h`.
    pub open spec fn waits_at(self, h: u64, p: int, i: int) -> bool {
        &&& 0 <= i < self.commands.len()
        &&& self.table.key(h).waiters[p] == self.commands[i].cid
        &&& self.commands[i].awaits(h)
    }

    /// A command answers for the waiter at place `p` of `h`.
    pub open spec fn waiter_known(self, h: u64, p: int) -> bool {
        exists|i: int| #[trigger] self.waits_at(h, p, i)
    }

    /// Where command `i` sleeps, the table has it: as the holder of the hash
    /// it sleeps for, or among those that wait for it.
    pub open spec fn parked_known(self, i: int) -> bool {
        self.commands[i].phase is Parked ==> {
            let k = self.table.key(self.commands[i].next_hash());
            k.holder == Some(self.commands[i].cid) || k.waiters.contains(self.commands[i].cid)
        }
    }

    /// What holds of a world at every moment of every run.
    pub open spec fn inv(self) -> bool {
        &&& self.table.wf()
        &&& forall|i: int| 0 <= i < self.commands.len() ==> (#[trigger] self.commands[i]).wf()
        &&& forall|i: int, j: int|
            0 <= i < self.commands.len() && 0 <= j < self.commands.len() && i != j ==> (
            #[trigger] self.commands[i]).cid != (#[trigger] self.commands[j]).cid
        &&& forall|i: int, k: int|
            0 <= i < self.commands.len() && 0 <= k < self.commands[i].lock.owned_count
                ==> #[trigger] self.holds_own(i, k)
        &&& forall|h: u64| #[trigger] self.holder_known(h)
        &&& forall|h: u64, p: int|
            0 <= p < self.table.key(h).waiters.len() ==> #[trigger] self.waiter_known(h, p)
        &&& forall|i: int| 0 <= i < self.commands.len() ==> #[trigger] self.parked_known(i)
    }

    /// A world at its start: an empty table, and commands that own nothing
    /// yet and are about to take their first hash.
    pub open spec fn at_start(self) -> bool {
        &&& is_power_of_two(self.table.slots.len())
        &&& self.table.slots.len() <= usize::MAX
        &&& self.table == TableView::empty(self.table.slots.len())
        &&& forall|i: int|
            0 <= i < self.commands.len() ==> {
                &&& (#[trigger] self.commands[i]).lock.wf()
                &&& self.commands[i].lock.owned_count == 0
                &&& self.commands[i].phase is Acquiring
            }
        &&& forall|i: int, j: int|
            0 <= i < self.commands.len() && 0 <= j < self.commands.len() && i != j ==> (
            #[trigger] self.commands[i]).cid != (#[trigger] self.commands[j]).cid
    }

    /// Whether every command is finished.
    pub open spec fn all_done(self) -> bool {
        forall|i: int| 0 <= i < self.commands.len() ==> (#[trigger] self.commands[i]).phase is Done
    }

    /// The world after the commands named in `order` have each made a step,
    /// one after the other.
    pub open spec fn run(self, order: Seq<int>) -> World
        decreases order.len(),
    {
        if order.len() == 0 {
            self
        } else {
            self.step(order[0]).run(order.drop_first())
        }
    }

    /// Whether each command named in `order` can make its step when its
    /// turn comes.
    pub open spec fn can_run(self, order: Seq<int>) -> bool
        decreases order.len(),
    {
        order.len() > 0 ==> self.enabled(order[0]) && self.step(order[0]).can_run(
            order.drop_first(),
        )
    }
}

/// A world at its start satisfies the invariant.
pub proof fn lemma_start(w: World)
    requires
        w.at_start(),
    ensures
        w.inv(),
{
    assert forall|h: u64| w.table.key(h) == KeyView::free() by {
        lemma_empty_table(w.table.slots.len(), h);
    }
    lemma_empty_table(w.table.slots.len(), 0);
    assert forall|h: u64| #[trigger] w.holder_known(h) by {}
    assert forall|h: u64, p: int|
        0 <= p < w.table.key(h).waiters.len() implies #[trigger] w.waiter_known(h, p) by {}
}

/// Two commands have two numbers: a command with the number of command `i`
/// is command `i`.
proof fn lemma_same_command(w: World, i: int, j: int)
    requires
        w.inv(),
        0 <= i < w.commands.len(),
        0 <= j < w.commands.len(),
        w.commands[i].cid == w.commands[j].cid,
    ensures
        i == j,
{
}

/// A hash that a lock counts as owned lies before the next hash.
proof fn lemma_owned_is_smaller(c: CommandView, h: u64)
    requires
        c.wf(),
        c.owns(h),
        c.lock.owned_count < c.lock.required_hashes.len(),
    ensures
        h < c.next_hash(),
{
    let k = choose|k: int| 0 <= k < c.lock.owned_count && c.lock.required_hashes[k] == h;
    assert(c.lock.required_hashes[k] < c.lock.required_hashes[c.lock.owned_count as int]);
}

/// Replacing one command by one with fewer steps left leaves fewer steps.
proof fn lemma_fewer_steps(commands: Seq<CommandView>, i: int, c: CommandView)
    requires
        0 <= i < commands.len(),
        c.steps_left() < commands[i].steps_left(),
    ensures
        steps_left(commands.update(i, c)) < steps_left(commands),
    decreases commands.len(),
{
    let after = commands.update(i, c);
    if i == commands.len() - 1 {
        assert(after.drop_last() =~= commands.drop_last());
    } else {
        assert(after.drop_last() =~= commands.drop_last().update(i, c));
        lemma_fewer_steps(commands.drop_last(), i, c);
    }
}

/// Mutual exclusion among the commands of a world: no hash is counted as
/// owned by two locks.
pub proof fn lemma_owned_by_one(w: World, i: int, j: int, h: u64)
    requires
        w.inv(),
        0 <= i < w.commands.len(),
        0 <= j < w.commands.len(),
        w.commands[i].owns(h),
        w.commands[j].owns(h),
    ensures
        i == j,
{
    let ki = choose|k: int|
        0 <= k < w.commands[i].lock.owned_count && w.commands[i].lock.required_hashes[k] == h;
    let kj = choose|k: int|
        0 <= k < w.commands[j].lock.owned_count && w.commands[j].lock.required_hashes[k] == h;
    assert(w.holds_own(i, ki));
    assert(w.holds_own(j, kj));
}

/// An attempt of a command on its next hash keeps the invariant and leaves
/// fewer steps.
proof fn lemma_attempt(w: World, i: int)
    requires
        w.inv(),
        w.enabled(i),
        !(w.commands[i].phase is Releasing),
        !w.commands[i].lock.acquired(),
    ensures
        w.step(i).inv(),
        w.step(i).commands.len() == w.commands.len(),
        steps_left(w.step(i).commands) < steps_left(w.commands),
{
    let c = w.commands[i];
    let h = c.next_hash();
    let t = w.table;
    let t2 = t.acquire(h, c.cid).0;
    let w2 = w.step(i);
    let n = c.lock.owned_count as int;
    lemma_table_acquire(t, h, c.cid);
    lemma_table_key_consistent(t, h);
    let k = t.key(h);
    assert(c.wf());
    assert(!c.owns(h)) by {
        if c.owns(h) {
            lemma_owned_is_smaller(c, h);
        }
    }
    assert(w.holder_known(h));
    assert(w.parked_known(i));
    if k.holder == Some(c.cid) {
        // The hash was handed to the command while it slept.
        let j0 = choose|j: int| w.claimed_by(h, j);
        lemma_same_command(w, i, j0);
        assert(c.phase is Parked);
        let c2 = c.granted();
        assert(w2 == w.with_command(t2, i, c2));
        assert forall|h2: u64| #[trigger] t2.key(h2) == t.key(h2) by {}
        assert forall|j: int, kk: int|
            0 <= j < w2.commands.len() && 0 <= kk < w2.commands[j].lock.owned_count
                implies #[trigger] w2.holds_own(j, kk) by {
            if j != i || kk < n {
                assert(w.holds_own(j, kk));
            }
        }
        assert forall|h2: u64| #[trigger] w2.holder_known(h2) by {
            assert(w.holder_known(h2));
            if t.key(h2).holder is Some {
                let j = choose|j: int| w.claimed_by(h2, j);
                if j == i {
                    if c.owns(h2) {
                        let kk = choose|kk: int|
                            0 <= kk < n && c.lock.required_hashes[kk] == h2;
                        assert(0 <= kk < n + 1 && c2.lock.required_hashes[kk] == h2);
                    } else {
                        assert(0 <= n < n + 1 && c2.lock.required_hashes[n] == h2);
                    }
                    assert(c2.owns(h2));
                }
                assert(w2.claimed_by(h2, j));
            }
        }
        assert forall|h2: u64, p: int|
            0 <= p < w2.table.key(h2).waiters.len() implies #[trigger] w2.waiter_known(
            h2,
            p,
        ) by {
            assert(w.waiter_known(h2, p));
            let j = choose|j: int| w.waits_at(h2, p, j);
            assert(j != i);
            assert(w2.waits_at(h2, p, j));
        }
        assert forall|j: int| 0 <= j < w2.commands.len() implies #[trigger] w2.parked_known(
            j,
        ) by {
            assert(w.parked_known(j));
        }
        assert(w2.inv());
        lemma_fewer_steps(w.commands, i, c2);
    } else if k.is_free() {
        assert(c.phase is Acquiring);
        let c2 = c.granted();
        assert(w2 == w.with_command(t2, i, c2));
        assert(t2.key(h).holder == Some(c.cid));
        assert(t2.key(h).waiters.len() == 0);
        assert forall|j: int, kk: int|
            0 <= j < w2.commands.len() && 0 <= kk < w2.commands[j].lock.owned_count
                implies #[trigger] w2.holds_own(j, kk) by {
            if j == i {
                if kk < n {
                    assert(w.holds_own(i, kk));
                    assert(c.lock.required_hashes[kk] < c.lock.required_hashes[n]);
                }
            } else {
                assert(w.holds_own(j, kk));
            }
        }
        assert forall|h2: u64| #[trigger] w2.holder_known(h2) by {
            if h2 == h {
                assert(0 <= n < n + 1 && c2.lock.required_hashes[n] == h);
                assert(c2.owns(h));
                assert(w2.claimed_by(h, i));
            } else {
                assert(w.holder_known(h2));
                if t.key(h2).holder is Some {
                    let j = choose|j: int| w.claimed_by(h2, j);
                    if j == i {
                        let kk = choose|kk: int|
                            0 <= kk < n && c.lock.required_hashes[kk] == h2;
                        assert(0 <= kk < n + 1 && c2.lock.required_hashes[kk] == h2);
                        assert(c2.owns(h2));
                    }
                    assert(w2.claimed_by(h2, j));
                }
            }
        }
        assert forall|h2: u64, p: int|
            0 <= p < w2.table.key(h2).waiters.len() implies #[trigger] w2.waiter_known(
            h2,
            p,
        ) by {
            assert(h2 != h);
            assert(w.waiter_known(h2, p));
            let j = choose|j: int| w.waits_at(h2, p, j);
            assert(w2.waits_at(h2, p, j));
        }
        assert forall|j: int| 0 <= j < w2.commands.len() implies #[trigger] w2.parked_known(
            j,
        ) by {
            assert(w.parked_known(j));
        }
        assert(w2.inv());
        lemma_fewer_steps(w.commands, i, c2);
    } else {
        assert(c.phase is Acquiring);
        assert(!k.waiters.contains(c.cid)) by {
            if k.waiters.contains(c.cid) {
                let p = choose|p: int| 0 <= p < k.waiters.len() && k.waiters[p] == c.cid;
                assert(w.waiter_known(h, p));
                let j = choose|j: int| w.waits_at(h, p, j);
                lemma_same_command(w, i, j);
            }
        }
        let c2 = c.in_phase(Phase::Parked);
        assert(w2 == w.with_command(t2, i, c2));
        assert(t2.key(h).holder == k.holder);
        assert(t2.key(h).waiters == k.waiters.push(c.cid));
        assert forall|h2: u64| #[trigger] t2.key(h2).holder == t.key(h2).holder by {}
        assert forall|j: int, kk: int|
            0 <= j < w2.commands.len() && 0 <= kk < w2.commands[j].lock.owned_count
                implies #[trigger] w2.holds_own(j, kk) by {
            assert(w.holds_own(j, kk));
        }
        assert forall|h2: u64| #[trigger] w2.holder_known(h2) by {
            assert(w.holder_known(h2));
            if t.key(h2).holder is Some {
                let j = choose|j: int| w.claimed_by(h2, j);
                assert(w2.claimed_by(h2, j));
            }
        }
        assert forall|h2: u64, p: int|
            0 <= p < w2.table.key(h2).waiters.len() implies #[trigger] w2.waiter_known(
            h2,
            p,
        ) by {
            if h2 == h && p == k.waiters.len() {
                assert(w2.waits_at(h, p, i));
            } else {
                assert(w.waiter_known(h2, p));
                let j = choose|j: int| w.waits_at(h2, p, j);
                assert(w2.waits_at(h2, p, j));
            }
        }
        assert forall|j: int| 0 <= j < w2.commands.len() implies #[trigger] w2.parked_known(
            j,
        ) by {
            if j == i {
                assert(t2.key(h).waiters[k.waiters.len() as int] == c.cid);
            } else {
                assert(w.parked_known(j));
                let hj = w.commands[j].next_hash();
                if w.commands[j].phase is Parked && hj == h && k.holder != Some(
                    w.commands[j].cid,
                ) {
                    let q = choose|q: int|
                        0 <= q < k.waiters.len() && k.waiters[q] == w.commands[j].cid;
                    assert(t2.key(h).waiters[q] == w.commands[j].cid);
                }
            }
        }
        assert(w2.inv());
        lemma_fewer_steps(w.commands, i, c2);
    }
}

/// A command that owns all its hashes and goes to work keeps the invariant
/// and leaves fewer steps.
proof fn lemma_go_to_work(w: World, i: int)
    requires
        w.inv(),
        w.enabled(i),
        !(w.commands[i].phase is Releasing),
        w.commands[i].lock.acquired(),
    ensures
        w.step(i).inv(),
        w.step(i).commands.len() == w.commands.len(),
        steps_left(w.step(i).commands) < steps_left(w.commands),
{
    let c = w.commands[i];
    let c2 = c.in_phase(Phase::Releasing);
    let w2 = w.step(i);
    assert(c.wf());
    assert(c.phase is Acquiring);
    assert(w2 == w.with_command(w.table, i, c2));
    assert forall|j: int, kk: int|
        0 <= j < w2.commands.len() && 0 <= kk < w2.commands[j].lock.owned_count
            implies #[trigger] w2.holds_own(j, kk) by {
        assert(w.holds_own(j, kk));
    }
    assert forall|h2: u64| #[trigger] w2.holder_known(h2) by {
        assert(w.holder_known(h2));
        if w.table.key(h2).holder is Some {
            let j = choose|j: int| w.claimed_by(h2, j);
            assert(w2.claimed_by(h2, j));
        }
    }
    assert forall|h2: u64, p: int|
        0 <= p < w2.table.key(h2).waiters.len() implies #[trigger] w2.waiter_known(h2, p) by {
        assert(w.waiter_known(h2, p));
        let j = choose|j: int| w.waits_at(h2, p, j);
        assert(w2.waits_at(h2, p, j));
    }
    assert forall|j: int| 0 <= j < w2.commands.len() implies #[trigger] w2.parked_known(j) by {
        assert(w.parked_known(j));
    }
    lemma_fewer_steps(w.commands, i, c2);
}

/// A command that gives up its largest hash keeps the invariant and leaves
/// fewer steps.
proof fn lemma_give_up_one(w: World, i: int)
    requires
        w.inv(),
        w.enabled(i),
        w.commands[i].phase is Releasing,
        w.commands[i].lock.owned_count > 0,
    ensures
        w.step(i).inv(),
        w.step(i).commands.len() == w.commands.len(),
        steps_left(w.step(i).commands) < steps_left(w.commands),
{
    let c = w.commands[i];
    let n = c.lock.owned_count as int;
    let h = c.lock.required_hashes[n - 1];
    let t = w.table;
    let t2 = t.release(h, c.cid).0;
    let w2 = w.step(i);
    let c2 = c.reduced();
    let k = t.key(h);
    lemma_table_release(t, h, c.cid);
    lemma_table_key_consistent(t, h);
    assert(c.wf());
    assert(w.holds_own(i, n - 1));
    assert(w2 == w.with_command(t2, i, c2));
    assert forall|j: int, kk: int|
        0 <= j < w2.commands.len() && 0 <= kk < w2.commands[j].lock.owned_count
            implies #[trigger] w2.holds_own(j, kk) by {
        assert(w.holds_own(j, kk));
        if j == i {
            assert(c.lock.required_hashes[kk] < c.lock.required_hashes[n - 1]);
        } else if w.commands[j].lock.required_hashes[kk] == h {
            lemma_same_command(w, i, j);
        }
    }
    assert forall|h2: u64| #[trigger] w2.holder_known(h2) by {
        if h2 == h {
            if k.waiters.len() > 0 {
                assert(w.waiter_known(h, 0));
                let j = choose|j: int| w.waits_at(h, 0, j);
                assert(w2.claimed_by(h, j));
            }
        } else {
            assert(w.holder_known(h2));
            if t.key(h2).holder is Some {
                let j = choose|j: int| w.claimed_by(h2, j);
                if j == i {
                    let kk = choose|kk: int| 0 <= kk < n && c.lock.required_hashes[kk] == h2;
                    assert(0 <= kk < n - 1 && c2.lock.required_hashes[kk] == h2);
                    assert(c2.owns(h2));
                }
                assert(w2.claimed_by(h2, j));
            }
        }
    }
    assert forall|h2: u64, p: int|
        0 <= p < w2.table.key(h2).waiters.len() implies #[trigger] w2.waiter_known(h2, p) by {
        if h2 == h {
            let behind = p + 1;
            assert(w.waiter_known(h, behind));
            let j = choose|j: int| w.waits_at(h, behind, j);
            assert(w2.waits_at(h, p, j));
        } else {
            assert(w.waiter_known(h2, p));
            let j = choose|j: int| w.waits_at(h2, p, j);
            assert(w2.waits_at(h2, p, j));
        }
    }
    assert forall|j: int| 0 <= j < w2.commands.len() implies #[trigger] w2.parked_known(j) by {
        assert(w.parked_known(j));
        if j != i && w.commands[j].phase is Parked && w.commands[j].next_hash() == h {
            if k.holder == Some(w.commands[j].cid) {
                lemma_same_command(w, i, j);
            }
            let q = choose|q: int| 0 <= q < k.waiters.len() && k.waiters[q] == w.commands[j].cid;
            if q > 0 {
                assert(k.waiters.drop_first()[q - 1] == w.commands[j].cid);
            }
        }
    }
    lemma_fewer_steps(w.commands, i, c2);
}

/// A command that has given up everything and finishes keeps the invariant
/// and leaves fewer steps.
proof fn lemma_finish(w: World, i: int)
    requires
        w.inv(),
        w.enabled(i),
        w.commands[i].phase is Releasing,
        w.commands[i].lock.owned_count == 0,
    ensures
        w.step(i).inv(),
        w.step(i).commands.len() == w.commands.len(),
        steps_left(w.step(i).commands) < steps_left(w.commands),
{
    let c = w.commands[i];
    let c2 = c.in_phase(Phase::Done);
    let w2 = w.step(i);
    assert(c.wf());
    assert(w2 == w.with_command(w.table, i, c2));
    assert forall|j: int, kk: int|
        0 <= j < w2.commands.len() && 0 <= kk < w2.commands[j].lock.owned_count
            implies #[trigger] w2.holds_own(j, kk) by {
        assert(w.holds_own(j, kk));
    }
    assert forall|h2: u64| #[trigger] w2.holder_known(h2) by {
        assert(w.holder_known(h2));
        if w.table.key(h2).holder is Some {
            let j = choose|j: int| w.claimed_by(h2, j);
            assert(w2.claimed_by(h2, j));
        }
    }
    assert forall|h2: u64, p: int|
        0 <= p < w2.table.key(h2).waiters.len() implies #[trigger] w2.waiter_known(h2, p) by {
        assert(w.waiter_known(h2, p));
        let j = choose|j: int| w.waits_at(h2, p, j);
        assert(w2.waits_at(h2, p, j));
    }
    assert forall|j: int| 0 <= j < w2.commands.len() implies #[trigger] w2.parked_known(j) by {
        assert(w.parked_known(j));
    }
    lemma_fewer_steps(w.commands, i, c2);
}

/// Every step of a command that can move keeps the invariant, keeps the
/// commands, and leaves fewer steps to make.
pub proof fn lemma_step(w: World, i: int)
    requires
        w.inv(),
        w.enabled(i),
    ensures
        w.step(i).inv(),
        w.step(i).commands.len() == w.commands.len(),
        steps_left(w.step(i).commands) < steps_left(w.commands),
{
    let c = w.commands[i];
    if c.phase is Releasing {
        if c.lock.owned_count == 0 {
            lemma_finish(w, i);
        } else {
            lemma_give_up_one(w, i);
        }
    } else if c.lock.acquired() {
        lemma_go_to_work(w, i);
    } else {
        lemma_attempt(w, i);
    }
}

/// Behind every sleeping command stands one that can move: the holder of
/// the hash it sleeps for is awake, or sleeps itself for a larger hash.
proof fn lemma_behind_sleeper(w: World, i: int)
    requires
        w.inv(),
        0 <= i < w.commands.len(),
        w.commands[i].phase is Parked,
    ensures
        exists|j: int| w.enabled(j),
    decreases u64::MAX - w.commands[i].next_hash(),
{
    let c = w.commands[i];
    let h = c.next_hash();
    let k = w.table.key(h);
    assert(w.parked_known(i));
    lemma_table_key_consistent(w.table, h);
    if k.holder == Some(c.cid) {
        assert(w.enabled(i));
    } else {
        let p = choose|p: int| 0 <= p < k.waiters.len() && k.waiters[p] == c.cid;
        assert(k.holder is Some);
        assert(w.holder_known(h));
        let j = choose|j: int| w.claimed_by(h, j);
        let d = w.commands[j];
        assert(d.wf());
        if d.awaits(h) {
            assert(w.enabled(j));
        } else if d.phase is Parked {
            lemma_owned_is_smaller(d, h);
            lemma_behind_sleeper(w, j);
        } else {
            assert(d.lock.owned_count > 0) by {
                let kk = choose|kk: int|
                    0 <= kk < d.lock.owned_count && d.lock.required_hashes[kk] == h;
            }
            assert(w.enabled(j));
        }
    }
}

/// No deadlock: while a command is unfinished, a command can move.
pub proof fn lemma_no_deadlock(w: World)
    requires
        w.inv(),
        !w.all_done(),
    ensures
        exists|j: int| w.enabled(j),
{
    let i = choose|i: int| 0 <= i < w.commands.len() && !(w.commands[i].phase is Done);
    if w.commands[i].phase is Parked {
        lemma_behind_sleeper(w, i);
    } else {
        assert(w.enabled(i));
    }
}

/// No run goes on for ever: however the steps of the commands follow each
/// other, there are no more of them than the commands had steps left, and
/// the invariant holds at the end.
pub proof fn lemma_runs_end(w: World, order: Seq<int>)
    requires
        w.inv(),
        w.can_run(order),
    ensures
        w.run(order).inv(),
        w.run(order).commands.len() == w.commands.len(),
        order.len() + steps_left(w.run(order).commands) <= steps_left(w.commands),
    decreases order.len(),
{
    if order.len() > 0 {
        lemma_step(w, order[0]);
        lemma_runs_end(w.step(order[0]), order.drop_first());
    }
}

/// Deadlock freedom. Commands that start on an empty table and take their
/// hashes in ascending order, whatever hashes they share and in whatever
/// order their steps follow each other, never get stuck: after any run the
/// commands are all finished or one of them can move, and the run was no
/// longer than the steps the commands had to make at the start.
pub proof fn lemma_deadlock_free(w: World, order: Seq<int>)
    requires
        w.at_start(),
        w.can_run(order),
    ensures
        w.run(order).all_done() || exists|j: int| w.run(order).enabled(j),
        order.len() <= steps_left(w.commands),
{
    lemma_start(w);
    lemma_runs_end(w, order);
    if !w.run(order).all_done() {
        lemma_no_deadlock(w.run(order));
    }
}

} // verus!
