//! The state of a blocking mutex: its owner, its FIFO wait set and the value
//! it protects.
use vstd::prelude::*;

use crate::thread::ThreadId;

verus! {

/// The mathematical picture of a mutex.
pub struct MutexView {
    /// The thread that holds the mutex, if any.
    pub owner: Option<ThreadId>,
    /// The blocked threads, longest-waiting first.
    pub waiters: Seq<ThreadId>,
    /// The protected value.
    pub value: u64,
}

impl MutexView {
    /// At most one owner, nobody waits twice, the owner does not wait, and
    /// nobody waits on a free mutex.
    pub open spec fn wf(self) -> bool {
        &&& self.waiters.no_duplicates()
        &&& self.owner matches Some(o) ==> !self.waiters.contains(o)
        &&& self.owner is None ==> self.waiters.len() == 0
    }

    /// The state after `t` joins the back of the wait set.
    pub open spec fn enqueued(self, t: ThreadId) -> MutexView {
        MutexView { waiters: self.waiters.push(t), ..self }
    }

    /// The state after `n` releases in a row, each by the owner of the time.
    pub open spec fn released_n(self, n: nat) -> MutexView
        decreases n,
    {
        if n == 0 {
            self
        } else {
            self.released().released_n((n - 1) as nat)
        }
    }

    /// The state after the owner releases: the longest-waiting thread becomes
    /// the owner, or the mutex becomes free.
    pub open spec fn released(self) -> MutexView {
        if self.waiters.len() > 0 {
            MutexView { owner: Some(self.waiters[0]), waiters: self.waiters.drop_first(), ..self }
        } else {
            MutexView { owner: None, ..self }
        }
    }
}

/// The threads of `s`, in order, without those of `w`.
pub open spec fn without_threads(s: Seq<ThreadId>, w: Seq<ThreadId>) -> Seq<ThreadId>
    decreases s.len(),
{
    if s.len() == 0 {
        s
    } else if w.contains(s.last()) {
        without_threads(s.drop_last(), w)
    } else {
        without_threads(s.drop_last(), w).push(s.last())
    }
}

/// Dropping no thread keeps the sequence.
pub proof fn lemma_without_none(s: Seq<ThreadId>)
    ensures
        without_threads(s, Seq::empty()) == s,
    decreases s.len(),
{
    if s.len() > 0 {
        lemma_without_none(s.drop_last());
        assert(s.drop_last().push(s.last()) =~= s);
    }
}

/// Dropping a thread that `s` does not hold changes nothing.
pub proof fn lemma_without_absent(s: Seq<ThreadId>, w: Seq<ThreadId>, t: ThreadId)
    requires
        !s.contains(t),
    ensures
        without_threads(s, w.push(t)) == without_threads(s, w),
    decreases s.len(),
{
    if s.len() > 0 {
        assert(!s.drop_last().contains(t)) by {
            if s.drop_last().contains(t) {
                let k = choose|k: int| 0 <= k < s.drop_last().len() && s.drop_last()[k] == t;
                assert(s[k] == t);
            }
        }
        lemma_without_absent(s.drop_last(), w, t);
        assert(s[s.len() - 1] != t);
        assert(w.push(t).contains(s.last()) == w.contains(s.last())) by {
            if w.push(t).contains(s.last()) {
                let k = choose|k: int| 0 <= k < w.push(t).len() && w.push(t)[k] == s.last();
                assert(w[k] == s.last());
            }
            if w.contains(s.last()) {
                let k = choose|k: int| 0 <= k < w.len() && w[k] == s.last();
                assert(w.push(t)[k] == s.last());
            }
        }
    }
}

/// Every thread left after dropping is one of `s` and none of `w`.
pub proof fn lemma_without_contains(s: Seq<ThreadId>, w: Seq<ThreadId>, u: ThreadId)
    ensures
        without_threads(s, w).contains(u) == (s.contains(u) && !w.contains(u)),
    decreases s.len(),
{
    if s.len() > 0 {
        let p = s.drop_last();
        lemma_without_contains(p, w, u);
        let d = without_threads(p, w);
        if s.contains(u) && u != s.last() {
            let k = choose|k: int| 0 <= k < s.len() && s[k] == u;
            assert(p[k] == u);
        }
        if p.contains(u) {
            let k = choose|k: int| 0 <= k < p.len() && p[k] == u;
            assert(s[k] == u);
        }
        assert(s[s.len() - 1] == s.last());
        if !w.contains(s.last()) {
            assert(d.push(s.last())[d.len() as int] == s.last());
            if d.push(s.last()).contains(u) && u != s.last() {
                let k = choose|k: int| 0 <= k < d.push(s.last()).len() && d.push(s.last())[k] == u;
                assert(d[k] == u);
            }
            if d.contains(u) {
                let k = choose|k: int| 0 <= k < d.len() && d[k] == u;
                assert(d.push(s.last())[k] == u);
            }
        }
    }
}

/// Dropping a thread held at place `i` of the result removes that place.
pub proof fn lemma_without_one_more(s: Seq<ThreadId>, w: Seq<ThreadId>, t: ThreadId, i: int)
    requires
        s.no_duplicates(),
        0 <= i < without_threads(s, w).len(),
        without_threads(s, w)[i] == t,
    ensures
        without_threads(s, w.push(t)) == without_threads(s, w).remove(i),
    decreases s.len(),
{
    let p = s.drop_last();
    let x = s.last();
    let d = without_threads(p, w);
    assert(p.no_duplicates()) by {
        assert forall|a: int, b: int| 0 <= a < b < p.len() implies p[a] != p[b] by {
            assert(s[a] != s[b]);
        }
    }
    assert(!p.contains(x)) by {
        if p.contains(x) {
            let k = choose|k: int| 0 <= k < p.len() && p[k] == x;
            assert(s[k] == s[s.len() - 1]);
        }
    }
    assert(w.push(t).contains(x) == (w.contains(x) || x == t)) by {
        if w.push(t).contains(x) && x != t {
            let k = choose|k: int| 0 <= k < w.push(t).len() && w.push(t)[k] == x;
            assert(w[k] == x);
        }
        if w.contains(x) {
            let k = choose|k: int| 0 <= k < w.len() && w[k] == x;
            assert(w.push(t)[k] == x);
        }
        assert(w.push(t)[w.len() as int] == t);
    }
    if w.contains(x) {
        lemma_without_one_more(p, w, t, i);
    } else if x == t {
        // t is the last of s and so the last of the result.
        lemma_without_contains(p, w, t);
        assert(!d.contains(t));
        assert(i == d.len()) by {
            if i < d.len() {
                assert(d.push(x)[i] == d[i]);
                assert(d.contains(t));
            }
        }
        lemma_without_absent(p, w, t);
        assert(d.push(x).remove(i) =~= d);
    } else {
        assert(i < d.len()) by {
            if i == d.len() {
                assert(d.push(x)[i] == x);
            }
        }
        assert(d[i] == t);
        lemma_without_one_more(p, w, t, i);
        assert(d.remove(i).push(x) =~= d.push(x).remove(i));
    }
}

/// Dropping in two rounds drops both sets.
pub proof fn lemma_without_twice(s: Seq<ThreadId>, w: Seq<ThreadId>, v: Seq<ThreadId>)
    ensures
        without_threads(without_threads(s, w), v) == without_threads(s, w + v),
    decreases s.len(),
{
    if s.len() > 0 {
        let p = s.drop_last();
        let x = s.last();
        lemma_without_twice(p, w, v);
        assert((w + v).contains(x) == (w.contains(x) || v.contains(x))) by {
            if (w + v).contains(x) {
                let k = choose|k: int| 0 <= k < (w + v).len() && (w + v)[k] == x;
                if k < w.len() {
                    assert(w[k] == x);
                } else {
                    assert(v[k - w.len()] == x);
                }
            }
            if w.contains(x) {
                let k = choose|k: int| 0 <= k < w.len() && w[k] == x;
                assert((w + v)[k] == x);
            }
            if v.contains(x) {
                let k = choose|k: int| 0 <= k < v.len() && v[k] == x;
                assert((w + v)[k + w.len()] == x);
            }
        }
        if !w.contains(x) {
            let d = without_threads(p, w);
            assert(d.push(x).drop_last() =~= d);
            assert(d.push(x).last() == x);
        }
    }
}

/// A blocking mutex's own state. Which thread blocks and wakes is decided by
/// the kernel, which owns the mutexes alongside the scheduler.
pub struct Mutex {
    owner: Option<ThreadId>,
    waiters: Vec<ThreadId>,
    value: u64,
}

impl View for Mutex {
    type V = MutexView;

    closed spec fn view(&self) -> MutexView {
        MutexView { owner: self.owner, waiters: self.waiters@, value: self.value }
    }
}

impl Mutex {
    /// A free mutex protecting `value`.
    pub fn new(value: u64) -> (m: Mutex)
        ensures
            m@ == (MutexView { owner: None, waiters: Seq::empty(), value }),
            m@.wf(),
    {
        Mutex { owner: None, waiters: Vec::new(), value }
    }

    /// The thread that holds the mutex, if any.
    pub fn owner(&self) -> (r: Option<ThreadId>)
        ensures
            r == self@.owner,
    {
        self.owner
    }

    /// The blocked threads, longest-waiting first.
    pub fn waiters(&self) -> (r: Vec<ThreadId>)
        ensures
            r@ == self@.waiters,
    {
        self.waiters.clone()
    }

    /// The protected value.
    pub fn value(&self) -> (r: u64)
        ensures
            r == self@.value,
    {
        self.value
    }

    /// Replaces the protected value.
    pub fn set_value(&mut self, v: u64)
        ensures
            final(self)@ == (MutexView { value: v, ..old(self)@ }),
    {
        self.value = v;
    }

    /// Takes the mutex for `t` if it is free; returns whether it did.
    pub fn try_acquire(&mut self, t: ThreadId) -> (got: bool)
        requires
            old(self)@.wf(),
        ensures
            final(self)@.wf(),
            got == (old(self)@.owner is None),
            got ==> final(self)@ == (MutexView { owner: Some(t), ..old(self)@ }),
            !got ==> final(self)@ == old(self)@,
    {
        if self.owner.is_none() {
            self.owner = Some(t);
            true
        } else {
            false
        }
    }

    /// Puts `t` at the back of the wait set of a held mutex.
    pub fn enqueue(&mut self, t: ThreadId)
        requires
            old(self)@.wf(),
            old(self)@.owner is Some,
            old(self)@.owner != Some(t),
            !old(self)@.waiters.contains(t),
        ensures
            final(self)@.wf(),
            final(self)@ == old(self)@.enqueued(t),
    {
        self.waiters.push(t);
        proof {
            let o = old(self)@.waiters;
            let n = self@.waiters;
            assert forall|i: int, j: int| 0 <= i < j < n.len() implies n[i] != n[j] by {
                if j == o.len() {
                    assert(o.contains(o[i]));
                }
            }
            if let Some(w) = self.owner {
                assert(!n.contains(w)) by {
                    if n.contains(w) {
                        let k = choose|k: int| 0 <= k < n.len() && n[k] == w;
                        if k < o.len() {
                            assert(o.contains(w));
                        }
                    }
                }
            }
        }
    }

    /// Releases the mutex, handing it straight to the longest-waiting thread
    /// if there is one; returns that thread.
    pub fn release(&mut self) -> (next: Option<ThreadId>)
        requires
            old(self)@.wf(),
            old(self)@.owner is Some,
        ensures
            final(self)@.wf(),
            final(self)@ == old(self)@.released(),
            next == final(self)@.owner,
            next == (if old(self)@.waiters.len() > 0 {
                Some(old(self)@.waiters[0])
            } else {
                None::<ThreadId>
            }),
    {
        if self.waiters.len() > 0 {
            let t = self.waiters.remove(0);
            self.owner = Some(t);
            proof {
                let o = old(self)@.waiters;
                let n = self@.waiters;
                assert(n =~= o.drop_first());
                assert forall|i: int, j: int| 0 <= i < j < n.len() implies n[i] != n[j] by {
                    assert(o[i + 1] != o[j + 1]);
                }
                assert(!n.contains(t)) by {
                    if n.contains(t) {
                        let k = choose|k: int| 0 <= k < n.len() && n[k] == t;
                        assert(o[k + 1] == o[0]);
                    }
                }
            }
            Some(t)
        } else {
            self.owner = None;
            None
        }
    }

    /// Takes `t` out of the wait set, as a timed wait does when its deadline
    /// passes first; returns whether it was there.
    pub fn remove_waiter(&mut self, t: ThreadId) -> (found: bool)
        requires
            old(self)@.wf(),
        ensures
            final(self)@.wf(),
            found == old(self)@.waiters.contains(t),
            !final(self)@.waiters.contains(t),
            final(self)@.owner == old(self)@.owner,
            final(self)@.value == old(self)@.value,
            found ==> exists|i: int| 0 <= i < old(self)@.waiters.len()
                && old(self)@.waiters[i] == t
                && final(self)@.waiters == old(self)@.waiters.remove(i),
            !found ==> final(self)@ == old(self)@,
    {
        let mut i: usize = 0;
        while i < self.waiters.len()
            invariant
                self@ == old(self)@,
                old(self)@.wf(),
                0 <= i <= self.waiters@.len(),
                forall|j: int| 0 <= j < i ==> #[trigger] self.waiters@[j] != t,
            decreases self.waiters@.len() - i,
        {
            if self.waiters[i] == t {
                self.waiters.remove(i);
                proof {
                    let o = old(self)@.waiters;
                    let n = self@.waiters;
                    assert forall|a: int, b: int| 0 <= a < b < n.len() implies n[a] != n[b] by {
                        let a2 = if a < i { a } else { a + 1 };
                        let b2 = if b < i { b } else { b + 1 };
                        assert(o[a2] != o[b2]);
                    }
                    assert forall|w: ThreadId| n.contains(w) implies o.contains(w) by {
                        let k = choose|k: int| 0 <= k < n.len() && n[k] == w;
                        let k2 = if k < i { k } else { k + 1 };
                        assert(o[k2] == w);
                    }
                    assert(!n.contains(t)) by {
                        if n.contains(t) {
                            let k = choose|k: int| 0 <= k < n.len() && n[k] == t;
                            let k2 = if k < i { k } else { k + 1 };
                            assert(o[k2] == t);
                        }
                    }
                }
                return true;
            }
            i = i + 1;
        }
        false
    }
}

/// Mutual exclusion with FIFO hand-off: a thread at place `i` of the wait
/// set holds the mutex alone after exactly `i + 1` releases and not before,
/// and a thread that arrives later queues behind it.
pub proof fn lemma_fifo_handoff(mv: MutexView, i: int, late: ThreadId)
    requires
        mv.wf(),
        mv.owner is Some,
        0 <= i < mv.waiters.len(),
    ensures
        mv.released_n((i + 1) as nat).owner == Some(mv.waiters[i]),
        !mv.released_n((i + 1) as nat).waiters.contains(mv.waiters[i]),
        forall|j: nat| j <= i ==> (#[trigger] mv.released_n(j)).owner != Some(mv.waiters[i]),
        mv.enqueued(late).waiters[i] == mv.waiters[i],
    decreases i,
{
    let t = mv.waiters[i];
    let m2 = mv.released();
    lemma_released_wf(mv);
    assert(mv.released_n((i + 1) as nat) == m2.released_n(i as nat));
    if i == 0 {
        assert(m2.owner == Some(t));
        assert(!m2.waiters.contains(t));
        assert forall|j: nat| j <= i implies (#[trigger] mv.released_n(j)).owner != Some(t) by {
            assert(mv.released_n(0) == mv);
            assert(mv.waiters.contains(t));
        }
    } else {
        assert(m2.waiters[i - 1] == t);
        lemma_fifo_handoff(m2, i - 1, late);
        assert forall|j: nat| j <= i implies (#[trigger] mv.released_n(j)).owner != Some(t) by {
            if j == 0 {
                assert(mv.released_n(0) == mv);
                assert(mv.waiters.contains(t));
            } else {
                assert(mv.released_n(j) == m2.released_n((j - 1) as nat));
            }
        }
    }
}

/// Releasing keeps a mutex well formed.
pub proof fn lemma_released_wf(mv: MutexView)
    requires
        mv.wf(),
    ensures
        mv.released().wf(),
{
    if mv.waiters.len() > 0 {
        let w = mv.waiters;
        let n = w.drop_first();
        assert forall|i: int, j: int| 0 <= i < j < n.len() implies n[i] != n[j] by {
            assert(w[i + 1] != w[j + 1]);
        }
        assert(!n.contains(w[0])) by {
            if n.contains(w[0]) {
                let k = choose|k: int| 0 <= k < n.len() && n[k] == w[0];
                assert(w[k + 1] == w[0]);
            }
        }
    }
}

} // verus!
