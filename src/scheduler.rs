//! The scheduler: the thread table, the FIFO run queue, the current-thread
//! slot and the idle thread.
use vstd::prelude::*;

use crate::thread::{ThreadId, ThreadState};

verus! {

/// The mathematical picture of the scheduler.
pub struct SchedView {
    /// The state of each thread, indexed by its id.
    pub states: Seq<ThreadState>,
    /// The Ready threads, in the order in which they became Ready.
    pub queue: Seq<ThreadId>,
    /// The thread that the core runs, once the scheduler is bootstrapped.
    pub current: Option<ThreadId>,
    /// The idle thread, once it has been started.
    pub idle: Option<ThreadId>,
}

impl SchedView {
    pub open spec fn valid_id(self, t: int) -> bool {
        0 <= t < self.states.len()
    }

    pub open spec fn state_of(self, t: int) -> ThreadState {
        self.states[t]
    }

    /// Each thread sits in exactly the container that its state names: the
    /// run queue holds the Ready threads once each, the current slot holds the
    /// one Running thread, and the idle thread never leaves Ready or Running.
    pub open spec fn wf(self) -> bool {
        &&& self.queue.no_duplicates()
        &&& self.queue_holds_ready()
        &&& self.ready_are_queued()
        &&& self.running_is_current()
        &&& self.current_ok()
        &&& self.idle_ok()
    }

    pub open spec fn queue_holds_ready(self) -> bool {
        forall|i: int|
            0 <= i < self.queue.len() ==> self.valid_id(#[trigger] self.queue[i] as int)
                && self.states[self.queue[i] as int] == ThreadState::Ready
    }

    pub open spec fn ready_are_queued(self) -> bool {
        forall|t: ThreadId|
            self.valid_id(t as int) && #[trigger] self.states[t as int] == ThreadState::Ready
                ==> self.queue.contains(t)
    }

    pub open spec fn running_is_current(self) -> bool {
        forall|t: ThreadId|
            self.valid_id(t as int) && #[trigger] self.states[t as int] == ThreadState::Running
                ==> self.current == Some(t)
    }

    pub open spec fn current_ok(self) -> bool {
        match self.current {
            Some(c) => self.valid_id(c as int) && self.states[c as int] == ThreadState::Running,
            None => true,
        }
    }

    pub open spec fn idle_ok(self) -> bool {
        match self.idle {
            Some(i) => self.valid_id(i as int) && (self.states[i as int] == ThreadState::Ready
                || self.states[i as int] == ThreadState::Running),
            None => true,
        }
    }

    /// Bootstrapped with the idle thread started: the state in which the
    /// kernel runs after its first thread has finished bringing it up.
    pub open spec fn running_with_idle(self) -> bool {
        self.current is Some && self.idle is Some
    }

    /// A new thread enters the table, Unstarted.
    pub open spec fn add(self) -> SchedView {
        SchedView { states: self.states.push(ThreadState::Unstarted), ..self }
    }

    /// An Unstarted or waiting thread becomes Ready at the back of the queue.
    pub open spec fn make_ready(self, t: ThreadId) -> SchedView {
        SchedView {
            states: self.states.update(t as int, ThreadState::Ready),
            queue: self.queue.push(t),
            ..self
        }
    }

    /// The half context switch: `t` becomes the running thread with no
    /// thread to switch away from.
    pub open spec fn bootstrap(self, t: ThreadId) -> SchedView {
        SchedView {
            states: self.states.update(t as int, ThreadState::Running),
            current: Some(t),
            ..self
        }
    }

    /// The queue once the current thread has left the core in state `s`: a
    /// thread that stays Ready goes to the back.
    pub open spec fn queue_after_leave(self, s: ThreadState) -> Seq<ThreadId> {
        if s == ThreadState::Ready {
            self.queue.push(self.current->0)
        } else {
            self.queue
        }
    }

    /// The thread that runs next once the current thread left in state `s`.
    pub open spec fn next_after(self, s: ThreadState) -> ThreadId {
        self.queue_after_leave(s)[0]
    }

    /// The state after the current thread yields `n` times in a row.
    pub open spec fn yielded(self, n: nat) -> SchedView
        decreases n,
    {
        if n == 0 {
            self
        } else {
            self.switch_out(ThreadState::Ready).yielded((n - 1) as nat)
        }
    }

    /// The current thread leaves the core in state `s`, and the head of the
    /// run queue takes its place.
    pub open spec fn switch_out(self, s: ThreadState) -> SchedView {
        let c = self.current->0;
        let q = self.queue_after_leave(s);
        SchedView {
            states: self.states.update(c as int, s).update(q[0] as int, ThreadState::Running),
            queue: q.remove(0),
            current: Some(q[0]),
            idle: self.idle,
        }
    }
}

/// Which thread the core leaves and which it runs next; `from == to` when
/// the current thread keeps the core.
#[derive(Clone, Copy, Debug, PartialEq, Eq, Structural)]
pub struct Switch {
    pub from: ThreadId,
    pub to: ThreadId,
}

/// The scheduler's state: the thread table, the run queue, the current
/// thread and the idle thread.
pub struct SchedulerState {
    threads: Vec<ThreadState>,
    run_queue: Vec<ThreadId>,
    current: Option<ThreadId>,
    idle: Option<ThreadId>,
}

impl View for SchedulerState {
    type V = SchedView;

    closed spec fn view(&self) -> SchedView {
        SchedView {
            states: self.threads@,
            queue: self.run_queue@,
            current: self.current,
            idle: self.idle,
        }
    }
}

impl SchedulerState {
    /// An empty scheduler: no threads, nothing running, no idle thread.
    pub fn new() -> (s: SchedulerState)
        ensures
            s@.states.len() == 0,
            s@.queue.len() == 0,
            s@.current is None,
            s@.idle is None,
            s@.wf(),
    {
        SchedulerState { threads: Vec::new(), run_queue: Vec::new(), current: None, idle: None }
    }

    /// The current state of thread `t`.
    pub fn state(&self, t: ThreadId) -> (r: ThreadState)
        requires
            self@.valid_id(t as int),
        ensures
            r == self@.states[t as int],
    {
        self.threads[t]
    }

    /// The number of threads in the table.
    pub fn thread_count(&self) -> (r: usize)
        ensures
            r == self@.states.len(),
    {
        self.threads.len()
    }

    /// The thread that the core runs, if the scheduler has been bootstrapped.
    pub fn current(&self) -> (r: Option<ThreadId>)
        ensures
            r == self@.current,
    {
        self.current
    }

    /// The idle thread, if it has been started.
    pub fn idle(&self) -> (r: Option<ThreadId>)
        ensures
            r == self@.idle,
    {
        self.idle
    }

    /// The Ready threads in the order in which they will run.
    pub fn run_queue(&self) -> (r: Vec<ThreadId>)
        ensures
            r@ == self@.queue,
    {
        self.run_queue.clone()
    }

    /// Adds an Unstarted thread to the table and returns its id.
    pub fn add_thread(&mut self) -> (t: ThreadId)
        requires
            old(self)@.wf(),
            old(self)@.states.len() < usize::MAX,
        ensures
            t as int == old(self)@.states.len(),
            final(self)@ == old(self)@.add(),
            final(self)@.wf(),
    {
        let t = self.threads.len();
        self.threads.push(ThreadState::Unstarted);
        proof {
            let m = self@;
            assert forall|i: int| 0 <= i < m.queue.len() implies m.valid_id(#[trigger] m.queue[i] as int)
                && m.states[m.queue[i] as int] == ThreadState::Ready by {
                assert(old(self)@.valid_id(old(self)@.queue[i] as int));
            }
            assert forall|u: ThreadId| m.valid_id(u as int) && #[trigger] m.states[u as int] == ThreadState::Ready
                implies m.queue.contains(u) by {
                assert(old(self)@.states[u as int] == ThreadState::Ready);
            }
            assert forall|u: ThreadId| m.valid_id(u as int) && #[trigger] m.states[u as int] == ThreadState::Running
                implies m.current == Some(u) by {
                assert(old(self)@.states[u as int] == ThreadState::Running);
            }
            if let Some(c) = m.current {
                assert(m.states[c as int] == old(self)@.states[c as int]);
            }
            if let Some(i) = m.idle {
                assert(m.states[i as int] == old(self)@.states[i as int]);
            }
        }
        t
    }

    /// Starts an Unstarted thread: it becomes Ready at the back of the run
    /// queue. Starting a thread twice is a programming error, ruled out by
    /// the precondition.
    pub fn start_thread(&mut self, t: ThreadId)
        requires
            old(self)@.wf(),
            old(self)@.valid_id(t as int),
            old(self)@.states[t as int] == ThreadState::Unstarted,
        ensures
            final(self)@ == old(self)@.make_ready(t),
            final(self)@.wf(),
    {
        self.make_ready(t);
    }

    /// Starts the idle thread, which then never leaves Ready or Running.
    pub fn start_idle_thread(&mut self, t: ThreadId)
        requires
            old(self)@.wf(),
            old(self)@.idle is None,
            old(self)@.valid_id(t as int),
            old(self)@.states[t as int] == ThreadState::Unstarted,
        ensures
            final(self)@ == (SchedView { idle: Some(t), ..old(self)@.make_ready(t) }),
            final(self)@.wf(),
    {
        self.make_ready(t);
        self.idle = Some(t);
        assert(self@.states[t as int] == ThreadState::Ready);
    }

    /// Moves a thread that is Unstarted, Blocked or Sleeping to the back of
    /// the run queue.
    pub fn make_ready(&mut self, t: ThreadId)
        requires
            old(self)@.wf(),
            old(self)@.valid_id(t as int),
            old(self)@.states[t as int] == ThreadState::Unstarted
                || old(self)@.states[t as int] == ThreadState::Blocked
                || old(self)@.states[t as int] == ThreadState::Sleeping,
        ensures
            final(self)@ == old(self)@.make_ready(t),
            final(self)@.wf(),
    {
        proof {
            let m = self@;
            assert(!m.queue.contains(t)) by {
                if m.queue.contains(t) {
                    let i = choose|i: int| 0 <= i < m.queue.len() && m.queue[i] == t;
                    assert(m.valid_id(m.queue[i] as int));
                }
            }
        }
        self.threads.set(t, ThreadState::Ready);
        self.run_queue.push(t);
        proof {
            let o = old(self)@;
            let m = self@;
            assert(m.states == o.states.update(t as int, ThreadState::Ready));
            assert forall|i: int| 0 <= i < m.queue.len() implies m.valid_id(#[trigger] m.queue[i] as int)
                && m.states[m.queue[i] as int] == ThreadState::Ready by {
                if i < o.queue.len() {
                    assert(o.valid_id(o.queue[i] as int));
                }
            }
            assert forall|u: ThreadId| m.valid_id(u as int) && #[trigger] m.states[u as int] == ThreadState::Ready
                implies m.queue.contains(u) by {
                if u == t {
                    assert(m.queue[o.queue.len() as int] == t);
                } else {
                    assert(o.states[u as int] == ThreadState::Ready);
                    let k = choose|k: int| 0 <= k < o.queue.len() && o.queue[k] == u;
                    assert(m.queue[k] == u);
                }
            }
            assert forall|u: ThreadId| m.valid_id(u as int) && #[trigger] m.states[u as int] == ThreadState::Running
                implies m.current == Some(u) by {
                assert(o.states[u as int] == ThreadState::Running);
            }
            if let Some(c) = o.current {
                assert(c != t);
                assert(m.states[c as int] == ThreadState::Running);
            }
            if let Some(i) = o.idle {
                assert(i != t);
                assert(m.states[i as int] == o.states[i as int]);
            }
        }
    }

    /// The half context switch that turns the boot context into the first
    /// thread: `t` runs with no thread to switch away from.
    pub fn bootstrap(&mut self, t: ThreadId)
        requires
            old(self)@.wf(),
            old(self)@.current is None,
            old(self)@.valid_id(t as int),
            old(self)@.states[t as int] == ThreadState::Unstarted,
        ensures
            final(self)@ == old(self)@.bootstrap(t),
            final(self)@.wf(),
    {
        self.threads.set(t, ThreadState::Running);
        self.current = Some(t);
        proof {
            let o = old(self)@;
            let m = self@;
            assert forall|i: int| 0 <= i < m.queue.len() implies m.valid_id(#[trigger] m.queue[i] as int)
                && m.states[m.queue[i] as int] == ThreadState::Ready by {
                assert(o.valid_id(o.queue[i] as int));
            }
            assert forall|u: ThreadId| m.valid_id(u as int) && #[trigger] m.states[u as int] == ThreadState::Ready
                implies m.queue.contains(u) by {
                assert(o.states[u as int] == ThreadState::Ready);
            }
            assert forall|u: ThreadId| m.valid_id(u as int) && #[trigger] m.states[u as int] == ThreadState::Running
                implies m.current == Some(u) by {
                if u != t {
                    assert(o.states[u as int] == ThreadState::Running);
                }
            }
        }
    }

    /// The current thread leaves the core in state `s` (Ready to yield,
    /// Blocked or Sleeping to wait) and the head of the run queue runs next.
    /// Only a thread other than the idle thread may wait, which keeps the
    /// run queue from ever being empty here.
    pub fn switch_out(&mut self, s: ThreadState) -> (sw: Switch)
        requires
            old(self)@.wf(),
            old(self)@.current is Some,
            s == ThreadState::Ready || ((s == ThreadState::Blocked || s == ThreadState::Sleeping)
                && old(self)@.idle is Some && old(self)@.current != old(self)@.idle),
        ensures
            final(self)@ == old(self)@.switch_out(s),
            final(self)@.wf(),
            sw.from == old(self)@.current->0,
            sw.to == old(self)@.next_after(s),
            final(self)@.current == Some(sw.to),
    {
        proof {
            if s != ThreadState::Ready {
                lemma_queue_nonempty_when_idle_waits(self@);
            }
        }
        let c = match self.current {
            Some(c) => c,
            None => 0,
        };
        self.threads.set(c, s);
        if s == ThreadState::Ready {
            proof {
                let m = self@;
                assert(!m.queue.contains(c)) by {
                    if m.queue.contains(c) {
                        let i = choose|i: int| 0 <= i < m.queue.len() && m.queue[i] == c;
                        assert(old(self)@.valid_id(old(self)@.queue[i] as int));
                    }
                }
            }
            self.run_queue.push(c);
        }
        proof {
            let q = old(self)@.queue_after_leave(s);
            assert(self.run_queue@ == q);
            if s != ThreadState::Ready {
                assert(old(self)@.valid_id(q[0] as int));
            }
        }
        let next = self.run_queue.remove(0);
        self.threads.set(next, ThreadState::Running);
        self.current = Some(next);
        proof {
            let o = old(self)@;
            let m = self@;
            let q = o.queue_after_leave(s);
            assert(self.run_queue@ == q.remove(0));
            assert(q.no_duplicates()) by {
                if s == ThreadState::Ready {
                    assert forall|i: int, j: int| 0 <= i < j < q.len() implies q[i] != q[j] by {
                        if j == q.len() - 1 {
                            assert(o.valid_id(o.queue[i] as int));
                        }
                    }
                }
            }
            assert forall|i: int| 0 <= i < q.len() implies o.valid_id(#[trigger] q[i] as int)
                && (q[i] == c || o.states[q[i] as int] == ThreadState::Ready) by {
                if i < o.queue.len() {
                    assert(o.valid_id(o.queue[i] as int));
                }
            }
            assert(m == o.switch_out(s));
            assert(o.valid_id(q[0] as int));
            assert forall|i: int| 0 <= i < m.queue.len() implies m.valid_id(#[trigger] m.queue[i] as int)
                && m.states[m.queue[i] as int] == ThreadState::Ready by {
                assert(m.queue[i] == q[i + 1]);
                assert(o.valid_id(q[i + 1] as int));
                assert(q[i + 1] != q[0]);
            }
            assert forall|u: ThreadId| m.valid_id(u as int) && #[trigger] m.states[u as int] == ThreadState::Ready
                implies m.queue.contains(u) by {
                assert(u != q[0]);
                let k: int = if u == c {
                    q.len() - 1
                } else {
                    assert(o.states[u as int] == ThreadState::Ready);
                    choose|k: int| 0 <= k < o.queue.len() && o.queue[k] == u
                };
                assert(q[k] == u);
                assert(k != 0);
                assert(m.queue[k - 1] == u);
            }
            assert forall|u: ThreadId| m.valid_id(u as int) && #[trigger] m.states[u as int] == ThreadState::Running
                implies m.current == Some(u) by {
                if u != q[0] && u != c {
                    assert(o.states[u as int] == ThreadState::Running);
                }
            }
            assert forall|i: int, j: int| 0 <= i < j < m.queue.len() implies m.queue[i] != m.queue[j] by {
                assert(q[i + 1] != q[j + 1]);
            }
        }
        Switch { from: c, to: next }
    }

    /// Gives up the rest of the current thread's time slice: it goes to the
    /// back of the run queue and the head runs next; with nothing else Ready
    /// the current thread keeps running.
    pub fn yield_timeslice(&mut self) -> (sw: Switch)
        requires
            old(self)@.wf(),
            old(self)@.current is Some,
        ensures
            final(self)@ == old(self)@.switch_out(ThreadState::Ready),
            final(self)@.wf(),
            sw.from == old(self)@.current->0,
            sw.to == old(self)@.next_after(ThreadState::Ready),
            old(self)@.queue.len() == 0 ==> sw.to == sw.from,
    {
        self.switch_out(ThreadState::Ready)
    }
}

/// With the idle thread started and some other thread running, the idle
/// thread waits in the run queue, so the queue is not empty.
pub proof fn lemma_queue_nonempty_when_idle_waits(m: SchedView)
    requires
        m.wf(),
        m.running_with_idle(),
        m.current != m.idle,
    ensures
        m.queue.len() > 0,
        m.queue.contains(m.idle->0),
{
    let i = m.idle->0;
    assert(m.states[i as int] == ThreadState::Ready);
}

/// Whenever the running thread leaves the core, whether it yields, blocks
/// or sleeps, every Ready thread moves one place up the run queue, and the
/// one at its head runs next.
pub proof fn lemma_ready_thread_moves_up(m: SchedView, s: ThreadState, i: int)
    requires
        m.current is Some,
        s == ThreadState::Ready || s == ThreadState::Blocked || s == ThreadState::Sleeping,
        0 <= i < m.queue.len(),
    ensures
        i == 0 ==> m.switch_out(s).current == Some(m.queue[i]),
        i > 0 ==> m.switch_out(s).queue[i - 1] == m.queue[i],
{
}

/// Starting or waking another thread puts it behind every Ready thread, so
/// no Ready thread loses its place.
pub proof fn lemma_make_ready_keeps_places(m: SchedView, u: ThreadId, i: int)
    requires
        0 <= i < m.queue.len(),
    ensures
        m.make_ready(u).queue[i] == m.queue[i],
{
}

/// No starvation: a thread at place `i` of the run queue runs after at most
/// `i + 1` yields of the running threads.
pub proof fn lemma_ready_thread_runs_after_yields(m: SchedView, i: int)
    requires
        m.current is Some,
        0 <= i < m.queue.len(),
    ensures
        m.yielded((i + 1) as nat).current == Some(m.queue[i]),
    decreases i,
{
    let m2 = m.switch_out(ThreadState::Ready);
    lemma_ready_thread_moves_up(m, ThreadState::Ready, i);
    if i > 0 {
        lemma_ready_thread_runs_after_yields(m2, i - 1);
        assert(m.yielded((i + 1) as nat) == m2.yielded(i as nat));
    } else {
        assert(m.yielded(1) == m2.yielded(0));
    }
}

/// Once bootstrapped with the idle thread started, some thread is always
/// runnable: the idle thread is Running or waits Ready in the run queue, so
/// the queue is empty only while the idle thread itself runs.
pub proof fn lemma_idle_always_runnable(m: SchedView)
    requires
        m.wf(),
        m.running_with_idle(),
    ensures
        m.states[m.idle->0 as int] == ThreadState::Ready || m.states[m.idle->0 as int] == ThreadState::Running,
        m.current != m.idle ==> m.queue.contains(m.idle->0),
        m.queue.len() == 0 ==> m.current == m.idle,
{
    if m.current != m.idle {
        lemma_queue_nonempty_when_idle_waits(m);
    }
}

/// The state after starting each thread of `ts` in turn.
pub open spec fn started_all(m: SchedView, ts: Seq<ThreadId>) -> SchedView
    decreases ts.len(),
{
    if ts.len() == 0 {
        m
    } else {
        started_all(m, ts.drop_last()).make_ready(ts.last())
    }
}

/// FIFO admission: starting threads one after another appends them to the
/// run queue in the order they were started, each Ready, and leaves the
/// running thread alone.
pub proof fn lemma_starts_queue_in_order(m: SchedView, ts: Seq<ThreadId>)
    requires
        forall|i: int| 0 <= i < ts.len() ==> m.valid_id(#[trigger] ts[i] as int),
    ensures
        started_all(m, ts).queue == m.queue + ts,
        started_all(m, ts).current == m.current,
        forall|i: int| 0 <= i < ts.len() ==> started_all(m, ts).states[#[trigger] ts[i] as int] == ThreadState::Ready,
        started_all(m, ts).states.len() == m.states.len(),
    decreases ts.len(),
{
    if ts.len() > 0 {
        let p = ts.drop_last();
        assert forall|i: int| 0 <= i < p.len() implies m.valid_id(#[trigger] p[i] as int) by {
            assert(p[i] == ts[i]);
        }
        assert(m.valid_id(ts[ts.len() - 1] as int));
        lemma_starts_queue_in_order(m, p);
        assert(m.queue + p.push(ts.last()) =~= (m.queue + p).push(ts.last()));
        assert(p.push(ts.last()) =~= ts);
        assert forall|i: int| 0 <= i < ts.len()
            implies started_all(m, ts).states[#[trigger] ts[i] as int] == ThreadState::Ready by {
            if i < p.len() && ts[i] != ts.last() {
                assert(p[i] == ts[i]);
            }
        }
    }
}

} // verus!
