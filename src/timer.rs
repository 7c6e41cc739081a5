//! The timer queue: pending wake deadlines, ordered by deadline.
use vstd::prelude::*;

use crate::thread::ThreadId;

verus! {

/// One thread waiting for a deadline on the kernel's logical clock.
#[derive(Clone, Copy, Debug, PartialEq, Eq, Structural)]
pub struct TimerEntry {
    pub deadline: u64,
    pub thread: ThreadId,
}

/// Entries sorted by deadline, oldest first among equal deadlines.
pub open spec fn sorted_by_deadline(s: Seq<TimerEntry>) -> bool {
    forall|i: int, j: int| 0 <= i < j < s.len() ==> #[trigger] s[i].deadline <= #[trigger] s[j].deadline
}

/// No thread has two entries.
pub open spec fn one_entry_per_thread(s: Seq<TimerEntry>) -> bool {
    forall|i: int, j: int| 0 <= i < j < s.len() ==> #[trigger] s[i].thread != #[trigger] s[j].thread
}

/// Whether thread `t` has an entry.
pub open spec fn has_entry(s: Seq<TimerEntry>, t: ThreadId) -> bool {
    exists|i: int| 0 <= i < s.len() && #[trigger] s[i].thread == t
}

/// The threads of a list of entries, in order.
pub open spec fn threads_of(s: Seq<TimerEntry>) -> Seq<ThreadId> {
    s.map_values(|e: TimerEntry| e.thread)
}

/// The number of leading entries whose deadline has passed at `now`.
pub open spec fn is_expired_prefix(s: Seq<TimerEntry>, now: u64, k: int) -> bool {
    &&& 0 <= k <= s.len()
    &&& forall|i: int| 0 <= i < k ==> #[trigger] s[i].deadline <= now
    &&& k < s.len() ==> s[k].deadline > now
}

/// `p` is where an entry with deadline `d` goes in `s`: behind every entry
/// whose deadline is not later, ahead of every later one.
pub open spec fn insert_position(s: Seq<TimerEntry>, d: u64, p: int) -> bool {
    &&& 0 <= p <= s.len()
    &&& forall|i: int| 0 <= i < p ==> #[trigger] s[i].deadline <= d
    &&& forall|i: int| p <= i < s.len() ==> #[trigger] s[i].deadline > d
}

/// Inserting an entry adds exactly its thread.
pub proof fn lemma_has_entry_insert(s: Seq<TimerEntry>, p: int, e: TimerEntry, u: ThreadId)
    requires
        0 <= p <= s.len(),
    ensures
        has_entry(s.insert(p, e), u) == (has_entry(s, u) || e.thread == u),
{
    let n = s.insert(p, e);
    if has_entry(n, u) {
        let k = choose|k: int| 0 <= k < n.len() && #[trigger] n[k].thread == u;
        if k < p {
            assert(s[k].thread == u);
        } else if k > p {
            assert(s[k - 1].thread == u);
        }
    }
    if has_entry(s, u) {
        let k = choose|k: int| 0 <= k < s.len() && #[trigger] s[k].thread == u;
        if k < p {
            assert(n[k].thread == u);
        } else {
            assert(n[k + 1].thread == u);
        }
    }
    if e.thread == u {
        assert(n[p].thread == u);
    }
}

/// Removing entry `i` removes exactly its thread.
pub proof fn lemma_has_entry_remove(s: Seq<TimerEntry>, i: int, u: ThreadId)
    requires
        0 <= i < s.len(),
        one_entry_per_thread(s),
    ensures
        has_entry(s.remove(i), u) == (has_entry(s, u) && s[i].thread != u),
{
    let n = s.remove(i);
    if has_entry(n, u) {
        let k = choose|k: int| 0 <= k < n.len() && #[trigger] n[k].thread == u;
        let k2 = if k < i { k } else { k + 1 };
        assert(s[k2].thread == u);
        assert(s[k2].thread != s[i].thread);
    }
    if has_entry(s, u) && s[i].thread != u {
        let k = choose|k: int| 0 <= k < s.len() && #[trigger] s[k].thread == u;
        if k < i {
            assert(n[k].thread == u);
        } else {
            assert(n[k - 1].thread == u);
        }
    }
}

/// The queue of pending deadlines.
pub struct TimerQueue {
    entries: Vec<TimerEntry>,
}

impl View for TimerQueue {
    type V = Seq<TimerEntry>;

    closed spec fn view(&self) -> Seq<TimerEntry> {
        self.entries@
    }
}

impl TimerQueue {
    /// Sorted by deadline, with at most one entry per thread.
    pub open spec fn wf(&self) -> bool {
        sorted_by_deadline(self@) && one_entry_per_thread(self@)
    }

    /// An empty queue.
    pub fn new() -> (q: TimerQueue)
        ensures
            q@ == Seq::<TimerEntry>::empty(),
            q.wf(),
    {
        TimerQueue { entries: Vec::new() }
    }

    /// The number of pending entries.
    pub fn len(&self) -> (r: usize)
        ensures
            r == self@.len(),
    {
        self.entries.len()
    }

    /// The pending entries, earliest deadline first.
    pub fn entries(&self) -> (r: Vec<TimerEntry>)
        ensures
            r@ == self@,
    {
        self.entries.clone()
    }

    /// Whether thread `t` has a pending entry.
    pub fn contains(&self, t: ThreadId) -> (r: bool)
        ensures
            r == has_entry(self@, t),
    {
        let mut i: usize = 0;
        while i < self.entries.len()
            invariant
                0 <= i <= self.entries@.len(),
                forall|j: int| 0 <= j < i ==> #[trigger] self.entries@[j].thread != t,
            decreases self.entries@.len() - i,
        {
            if self.entries[i].thread == t {
                return true;
            }
            i = i + 1;
        }
        false
    }

    /// Adds an entry for thread `t`, which has none, behind every entry whose
    /// deadline is not later than `deadline`; returns where it went.
    pub fn insert(&mut self, deadline: u64, t: ThreadId) -> (pos: usize)
        requires
            old(self).wf(),
            !has_entry(old(self)@, t),
        ensures
            final(self).wf(),
            pos <= old(self)@.len(),
            final(self)@ == old(self)@.insert(pos as int, TimerEntry { deadline, thread: t }),
            insert_position(old(self)@, deadline, pos as int),
    {
        let mut p: usize = 0;
        while p < self.entries.len() && self.entries[p].deadline <= deadline
            invariant
                0 <= p <= self.entries@.len(),
                forall|i: int| 0 <= i < p ==> #[trigger] self.entries@[i].deadline <= deadline,
            decreases self.entries@.len() - p,
        {
            p = p + 1;
        }
        let e = TimerEntry { deadline, thread: t };
        self.entries.insert(p, e);
        proof {
            let o = old(self)@;
            let n = self@;
            assert forall|i: int| p <= i < o.len() implies #[trigger] o[i].deadline > deadline by {
                assert(o[p as int].deadline <= o[i].deadline);
            }
            assert forall|i: int, j: int| 0 <= i < j < n.len() implies #[trigger] n[i].deadline <= #[trigger] n[j].deadline by {
                if j < p {
                } else if j == p {
                    assert(o[i].deadline <= deadline);
                } else if i < p {
                    assert(o[i].deadline <= o[j - 1].deadline);
                } else if i == p {
                    assert(o[j - 1].deadline > deadline);
                } else {
                    assert(o[i - 1].deadline <= o[j - 1].deadline);
                }
            }
            assert forall|i: int, j: int| 0 <= i < j < n.len() implies #[trigger] n[i].thread != #[trigger] n[j].thread by {
                if j < p {
                } else if j == p {
                    assert(o[i].thread != t);
                } else if i < p {
                    assert(o[i].thread != o[j - 1].thread);
                } else if i == p {
                    assert(o[j - 1].thread != t);
                } else {
                    assert(o[i - 1].thread != o[j - 1].thread);
                }
            }
        }
        p
    }

    /// Removes the entry of thread `t`, if it has one, without waking it;
    /// returns whether there was one.
    pub fn cancel(&mut self, t: ThreadId) -> (found: bool)
        requires
            old(self).wf(),
        ensures
            final(self).wf(),
            found == has_entry(old(self)@, t),
            !has_entry(final(self)@, t),
            found ==> exists|i: int| 0 <= i < old(self)@.len() && old(self)@[i].thread == t
                && final(self)@ == old(self)@.remove(i),
            !found ==> final(self)@ == old(self)@,
    {
        let mut i: usize = 0;
        while i < self.entries.len()
            invariant
                self.entries@ == old(self)@,
                old(self).wf(),
                0 <= i <= self.entries@.len(),
                forall|j: int| 0 <= j < i ==> #[trigger] self.entries@[j].thread != t,
            decreases self.entries@.len() - i,
        {
            if self.entries[i].thread == t {
                self.entries.remove(i);
                proof {
                    let o = old(self)@;
                    let n = self@;
                    assert forall|a: int, b: int| 0 <= a < b < n.len() implies #[trigger] n[a].deadline <= #[trigger] n[b].deadline by {
                        let a2 = if a < i { a } else { a + 1 };
                        let b2 = if b < i { b } else { b + 1 };
                        assert(o[a2].deadline <= o[b2].deadline);
                    }
                    assert forall|a: int, b: int| 0 <= a < b < n.len() implies #[trigger] n[a].thread != #[trigger] n[b].thread by {
                        let a2 = if a < i { a } else { a + 1 };
                        let b2 = if b < i { b } else { b + 1 };
                        assert(o[a2].thread != o[b2].thread);
                    }
                    assert(!has_entry(n, t)) by {
                        if has_entry(n, t) {
                            let k = choose|k: int| 0 <= k < n.len() && #[trigger] n[k].thread == t;
                            let k2 = if k < i { k } else { k + 1 };
                            assert(o[k2].thread == t);
                        }
                    }
                }
                return true;
            }
            i = i + 1;
        }
        false
    }

    /// Removes every entry whose deadline is at or before `now` and returns
    /// their threads in deadline order.
    pub fn pop_expired(&mut self, now: u64) -> (woken: Vec<ThreadId>)
        requires
            old(self).wf(),
        ensures
            final(self).wf(),
            exists|k: int| is_expired_prefix(old(self)@, now, k)
                && woken@ == threads_of(old(self)@.subrange(0, k))
                && final(self)@ == old(self)@.subrange(k, old(self)@.len() as int),
    {
        let mut k: usize = 0;
        let mut woken: Vec<ThreadId> = Vec::new();
        while k < self.entries.len() && self.entries[k].deadline <= now
            invariant
                self.entries@ == old(self)@,
                0 <= k <= self.entries@.len(),
                forall|i: int| 0 <= i < k ==> #[trigger] self.entries@[i].deadline <= now,
                woken@ == threads_of(self.entries@.subrange(0, k as int)),
            decreases self.entries@.len() - k,
        {
            woken.push(self.entries[k].thread);
            k = k + 1;
            assert(woken@ =~= threads_of(self.entries@.subrange(0, k as int)));
        }
        let rest = self.entries.split_off(k);
        self.entries = rest;
        proof {
            let o = old(self)@;
            let n = self@;
            assert(is_expired_prefix(o, now, k as int));
            assert forall|a: int, b: int| 0 <= a < b < n.len() implies #[trigger] n[a].deadline <= #[trigger] n[b].deadline by {
                assert(o[a + k].deadline <= o[b + k].deadline);
            }
            assert forall|a: int, b: int| 0 <= a < b < n.len() implies #[trigger] n[a].thread != #[trigger] n[b].thread by {
                assert(o[a + k].thread != o[b + k].thread);
            }
        }
        woken
    }

    /// Removes and returns the earliest entry if its deadline is at or
    /// before `now`.
    pub fn pop_first_expired(&mut self, now: u64) -> (e: Option<TimerEntry>)
        requires
            old(self).wf(),
        ensures
            final(self).wf(),
            old(self)@.len() > 0 && old(self)@[0].deadline <= now ==> {
                &&& e == Some(old(self)@[0])
                &&& final(self)@ == old(self)@.remove(0)
            },
            !(old(self)@.len() > 0 && old(self)@[0].deadline <= now) ==> {
                &&& e is None
                &&& final(self)@ == old(self)@
            },
    {
        if self.entries.len() > 0 && self.entries[0].deadline <= now {
            let e = self.entries.remove(0);
            proof {
                let o = old(self)@;
                let n = self@;
                assert forall|a: int, b: int| 0 <= a < b < n.len() implies #[trigger] n[a].deadline <= #[trigger] n[b].deadline by {
                    assert(o[a + 1].deadline <= o[b + 1].deadline);
                }
                assert forall|a: int, b: int| 0 <= a < b < n.len() implies #[trigger] n[a].thread != #[trigger] n[b].thread by {
                    assert(o[a + 1].thread != o[b + 1].thread);
                }
            }
            Some(e)
        } else {
            None
        }
    }
}

} // verus!
