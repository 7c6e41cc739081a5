//! The kernel state: the scheduler, the timer queue and the mutexes under
//! one lock, with the operations that move threads between them.
use vstd::prelude::*;

use crate::mutex::{
    lemma_without_absent, lemma_without_none, lemma_without_one_more, lemma_without_twice, without_threads, Mutex,
    MutexView,
};
use crate::scheduler::{SchedView, SchedulerState, Switch};
use crate::thread::{ThreadId, ThreadState};
use crate::time::Clock;
use crate::timer::{
    has_entry, is_expired_prefix, threads_of, insert_position, lemma_has_entry_insert, lemma_has_entry_remove, one_entry_per_thread,
    sorted_by_deadline, TimerEntry, TimerQueue,
};

verus! {

/// What a thread that is not Ready or Running waits for.
#[derive(Clone, Copy, Debug, PartialEq, Eq, Structural)]
pub enum Wait {
    /// It waits for nothing.
    Nothing,
    /// It sleeps in the timer queue.
    Sleep,
    /// It is blocked on mutex `mutex`; with `timed`, it also has a deadline in
    /// the timer queue.
    Lock { mutex: usize, timed: bool },
}

/// How a contended lock request ended.
#[derive(Clone, Copy, Debug, PartialEq, Eq, Structural)]
pub enum LockResult {
    /// The mutex was handed to the waiting thread.
    Granted,
    /// The deadline passed first.
    TimedOut,
}

/// What a lock request did at once.
#[derive(Clone, Copy, Debug, PartialEq, Eq, Structural)]
pub enum LockStep {
    /// The mutex was free and now belongs to the caller.
    Acquired,
    /// The caller blocked; the core switches to another thread.
    Blocked(Switch),
}

/// The mathematical picture of the kernel.
pub struct KernelView {
    pub sched: SchedView,
    pub timers: Seq<TimerEntry>,
    pub mutexes: Seq<MutexView>,
    /// What each thread waits for.
    pub waits: Seq<Wait>,
    /// For each thread, the deadline of its latest sleep.
    pub not_before: Seq<u64>,
    /// For each thread, how its latest contended lock request ended.
    pub results: Seq<Option<LockResult>>,
    pub now: u64,
}

impl KernelView {
    pub open spec fn valid_thread(self, t: ThreadId) -> bool {
        (t as int) < self.sched.states.len()
    }

    pub open spec fn valid_mutex(self, m: usize) -> bool {
        (m as int) < self.mutexes.len()
    }

    /// Whether `t` sits in the wait set of mutex `m`.
    pub open spec fn waits_on(self, m: usize, t: ThreadId) -> bool {
        self.mutexes[m as int].waiters.contains(t)
    }

    /// Thread `t`'s state, its timer entry, the wait sets that hold it and
    /// its sleep deadline agree with what it waits for.
    pub open spec fn thread_ok(self, t: ThreadId) -> bool {
        let s = self.sched.states[t as int];
        match self.waits[t as int] {
            Wait::Nothing => {
                &&& s != ThreadState::Sleeping && s != ThreadState::Blocked
                &&& !has_entry(self.timers, t)
                &&& forall|m: usize| self.valid_mutex(m) ==> !#[trigger] self.waits_on(m, t)
                &&& self.not_before[t as int] <= self.now
            },
            Wait::Sleep => {
                &&& s == ThreadState::Sleeping
                &&& has_entry(self.timers, t)
                &&& forall|m: usize| self.valid_mutex(m) ==> !#[trigger] self.waits_on(m, t)
            },
            Wait::Lock { mutex, timed } => {
                &&& s == ThreadState::Blocked
                &&& self.valid_mutex(mutex)
                &&& has_entry(self.timers, t) == timed
                &&& forall|m: usize| self.valid_mutex(m) ==> (#[trigger] self.waits_on(m, t) <==> m == mutex)
                &&& self.not_before[t as int] <= self.now
                &&& self.results[t as int] is None
            },
        }
    }

    /// The kernel's invariant.
    pub open spec fn wf(self) -> bool {
        &&& self.sched.wf()
        &&& sorted_by_deadline(self.timers)
        &&& one_entry_per_thread(self.timers)
        &&& self.waits.len() == self.sched.states.len()
        &&& self.not_before.len() == self.sched.states.len()
        &&& self.results.len() == self.sched.states.len()
        &&& forall|m: int| 0 <= m < self.mutexes.len() ==> (#[trigger] self.mutexes[m]).wf()
        &&& forall|i: int| 0 <= i < self.timers.len() ==> self.valid_thread(#[trigger] self.timers[i].thread)
        &&& forall|i: int| 0 <= i < self.timers.len()
            && #[trigger] self.waits[self.timers[i].thread as int] == Wait::Sleep
            ==> self.timers[i].deadline == self.not_before[self.timers[i].thread as int]
        &&& forall|m: usize, i: int| self.valid_mutex(m) && 0 <= i < self.mutexes[m as int].waiters.len()
            ==> self.valid_thread(#[trigger] self.mutexes[m as int].waiters[i])
        &&& forall|t: ThreadId| self.valid_thread(t) ==> #[trigger] self.thread_ok(t)
    }

    /// `k` is this state after the clock moved to `now` and the threads
    /// `woken`, every one whose deadline is at or before `now`, were woken in
    /// deadline order: they join the back of the run queue, wait for nothing
    /// more, and a timed lock request among them ends as a timeout and leaves
    /// its wait set. Nothing else changes.
    pub open spec fn ticked(self, k: KernelView, now: u64, woken: Seq<ThreadId>) -> bool {
        &&& k.now == now
        &&& k.sched.current == self.sched.current
        &&& k.sched.idle == self.sched.idle
        &&& k.sched.states.len() == self.sched.states.len()
        &&& k.sched.queue == self.sched.queue + woken
        &&& k.not_before == self.not_before
        &&& k.mutexes.len() == self.mutexes.len()
        &&& forall|m: usize| self.valid_mutex(m) ==> #[trigger] k.mutexes[m as int] == (MutexView {
            waiters: without_threads(self.mutexes[m as int].waiters, woken),
            ..self.mutexes[m as int]
        })
        &&& forall|u: ThreadId| k.valid_thread(u) && !woken.contains(u) ==> {
            &&& #[trigger] k.waits[u as int] == self.waits[u as int]
            &&& k.results[u as int] == self.results[u as int]
            &&& k.sched.states[u as int] == self.sched.states[u as int]
        }
        &&& exists|n: int| is_expired_prefix(self.timers, now, n)
            && woken == threads_of(self.timers.subrange(0, n))
            && k.timers == self.timers.subrange(n, self.timers.len() as int)
        &&& forall|i: int| 0 <= i < woken.len() ==> {
            let t = #[trigger] woken[i];
            &&& k.sched.states[t as int] == ThreadState::Ready
            &&& k.waits[t as int] == Wait::Nothing
            &&& self.waits[t as int] is Lock ==> k.results[t as int] == Some(LockResult::TimedOut)
            &&& self.waits[t as int] is Sleep ==> k.results[t as int] == self.results[t as int]
        }
    }

    /// The sleep law: every thread that is not sleeping has reached the
    /// deadline of its latest sleep.
    pub open spec fn sleepers_resume_after_deadline(self) -> bool {
        forall|t: ThreadId| self.valid_thread(t) && #[trigger] self.sched.states[t as int] != ThreadState::Sleeping
            ==> self.not_before[t as int] <= self.now
    }
}

/// `thread_ok` of a thread carries over to a state in which nothing that it
/// reads of that thread has changed.
proof fn lemma_thread_ok_frame(o: KernelView, k: KernelView, u: ThreadId)
    requires
        o.thread_ok(u),
        o.valid_thread(u),
        k.valid_thread(u),
        (k.sched.states[u as int] == ThreadState::Sleeping) == (o.sched.states[u as int] == ThreadState::Sleeping),
        (k.sched.states[u as int] == ThreadState::Blocked) == (o.sched.states[u as int] == ThreadState::Blocked),
        k.waits[u as int] == o.waits[u as int],
        k.not_before[u as int] == o.not_before[u as int],
        k.results[u as int] == o.results[u as int],
        o.now <= k.now,
        has_entry(k.timers, u) == has_entry(o.timers, u),
        o.mutexes.len() <= k.mutexes.len(),
        forall|m: usize| k.valid_mutex(m) ==> (#[trigger] k.waits_on(m, u) == (o.valid_mutex(m) && o.waits_on(m, u))),
    ensures
        k.thread_ok(u),
{
    match o.waits[u as int] {
        Wait::Nothing => {
            assert forall|m: usize| k.valid_mutex(m) implies !#[trigger] k.waits_on(m, u) by {
                if o.valid_mutex(m) {
                    assert(!o.waits_on(m, u));
                }
            }
        },
        Wait::Sleep => {
            assert forall|m: usize| k.valid_mutex(m) implies !#[trigger] k.waits_on(m, u) by {
                if o.valid_mutex(m) {
                    assert(!o.waits_on(m, u));
                }
            }
        },
        Wait::Lock { mutex, .. } => {
            assert forall|m: usize| k.valid_mutex(m) implies (#[trigger] k.waits_on(m, u) <==> m == mutex) by {
                if o.valid_mutex(m) {
                    assert(o.waits_on(m, u) <==> m == mutex);
                }
            }
        },
    }
}

/// A scheduler step that moves no thread into or out of Sleeping or Blocked
/// keeps the kernel's invariant.
proof fn lemma_sched_step(o: KernelView, s: SchedView)
    requires
        o.wf(),
        s.wf(),
        s.states.len() == o.sched.states.len(),
        forall|t: int| 0 <= t < s.states.len() ==> (#[trigger] s.states[t] == ThreadState::Sleeping)
            == (o.sched.states[t] == ThreadState::Sleeping),
        forall|t: int| 0 <= t < s.states.len() ==> (#[trigger] s.states[t] == ThreadState::Blocked)
            == (o.sched.states[t] == ThreadState::Blocked),
    ensures
        (KernelView { sched: s, ..o }).wf(),
{
    let k = KernelView { sched: s, ..o };
    assert forall|u: ThreadId| k.valid_thread(u) implies #[trigger] k.thread_ok(u) by {
        assert(o.thread_ok(u));
        assert(s.states[u as int] == s.states[u as int]);
        lemma_thread_ok_frame(o, k, u);
    }
}

/// Removing element `i` of a sequence leaves every other element in it.
proof fn lemma_contains_remove(s: Seq<ThreadId>, i: int, u: ThreadId)
    requires
        0 <= i < s.len(),
        s[i] != u,
    ensures
        s.remove(i).contains(u) == s.contains(u),
{
    let n = s.remove(i);
    if n.contains(u) {
        let k = choose|k: int| 0 <= k < n.len() && n[k] == u;
        let k2 = if k < i { k } else { k + 1 };
        assert(s[k2] == u);
    }
    if s.contains(u) {
        let k = choose|k: int| 0 <= k < s.len() && s[k] == u;
        if k < i {
            assert(n[k] == u);
        } else {
            assert(n[k - 1] == u);
        }
    }
}

/// The kernel's state.
pub struct KernelState {
    scheduler: SchedulerState,
    timer_queue: TimerQueue,
    mutexes: Vec<Mutex>,
    waits: Vec<Wait>,
    not_before: Vec<u64>,
    results: Vec<Option<LockResult>>,
    clock: Clock,
}

impl View for KernelState {
    type V = KernelView;

    closed spec fn view(&self) -> KernelView {
        KernelView {
            sched: self.scheduler@,
            timers: self.timer_queue@,
            mutexes: self.mutexes@.map_values(|m: Mutex| m@),
            waits: self.waits@,
            not_before: self.not_before@,
            results: self.results@,
            now: self.clock.ticks(),
        }
    }
}

/// Read access to the parts of the kernel state.
pub trait Kernel {
    spec fn sched_view(&self) -> SchedView;

    spec fn timers_view(&self) -> Seq<TimerEntry>;

    /// The scheduler.
    fn get_scheduler(&self) -> (r: &SchedulerState)
        ensures
            r@ == self.sched_view(),
    ;

    /// The timer queue.
    fn get_timer_queue(&self) -> (r: &TimerQueue)
        ensures
            r@ == self.timers_view(),
    ;
}

impl Kernel for KernelState {
    open spec fn sched_view(&self) -> SchedView {
        self@.sched
    }

    open spec fn timers_view(&self) -> Seq<TimerEntry> {
        self@.timers
    }

    fn get_scheduler(&self) -> (r: &SchedulerState) {
        &self.scheduler
    }

    fn get_timer_queue(&self) -> (r: &TimerQueue) {
        &self.timer_queue
    }
}

impl KernelState {
    /// A kernel with no threads, no mutexes and the clock at zero.
    pub fn new() -> (k: KernelState)
        ensures
            k@.wf(),
            k@.sched.states.len() == 0,
            k@.sched.current is None,
            k@.sched.idle is None,
            k@.timers.len() == 0,
            k@.mutexes.len() == 0,
            k@.now == 0,
    {
        let k = KernelState {
            scheduler: SchedulerState::new(),
            timer_queue: TimerQueue::new(),
            mutexes: Vec::new(),
            waits: Vec::new(),
            not_before: Vec::new(),
            results: Vec::new(),
            clock: Clock::new(),
        };
        assert(k@.mutexes =~= Seq::<MutexView>::empty());
        k
    }

    /// The current time on the logical clock.
    pub fn now(&self) -> (r: u64)
        ensures
            r == self@.now,
    {
        self.clock.now()
    }

    /// What thread `t` waits for.
    pub fn wait_of(&self, t: ThreadId) -> (r: Wait)
        requires
            self@.wf(),
            self@.valid_thread(t),
        ensures
            r == self@.waits[t as int],
    {
        self.waits[t]
    }

    /// How thread `t`'s latest contended lock request ended, once it has.
    pub fn lock_result(&self, t: ThreadId) -> (r: Option<LockResult>)
        requires
            self@.wf(),
            self@.valid_thread(t),
        ensures
            r == self@.results[t as int],
    {
        self.results[t]
    }

    /// The number of mutexes.
    pub fn mutex_count(&self) -> (r: usize)
        ensures
            r == self@.mutexes.len(),
    {
        self.mutexes.len()
    }

    /// Mutex `m`'s owner, if any.
    pub fn mutex_owner(&self, m: usize) -> (r: Option<ThreadId>)
        requires
            self@.valid_mutex(m),
        ensures
            r == self@.mutexes[m as int].owner,
    {
        self.mutexes[m].owner()
    }

    /// Mutex `m`'s blocked threads, longest-waiting first.
    pub fn mutex_waiters(&self, m: usize) -> (r: Vec<ThreadId>)
        requires
            self@.valid_mutex(m),
        ensures
            r@ == self@.mutexes[m as int].waiters,
    {
        self.mutexes[m].waiters()
    }

    /// The value that mutex `m` protects.
    pub fn mutex_value(&self, m: usize) -> (r: u64)
        requires
            self@.valid_mutex(m),
        ensures
            r == self@.mutexes[m as int].value,
    {
        self.mutexes[m].value()
    }

    /// Adds an Unstarted thread and returns its id.
    pub fn create_thread(&mut self) -> (t: ThreadId)
        requires
            old(self)@.wf(),
            old(self)@.sched.states.len() < usize::MAX,
        ensures
            final(self)@.wf(),
            t as int == old(self)@.sched.states.len(),
            final(self)@ == (KernelView {
                sched: old(self)@.sched.add(),
                waits: old(self)@.waits.push(Wait::Nothing),
                not_before: old(self)@.not_before.push(old(self)@.now),
                results: old(self)@.results.push(None),
                ..old(self)@
            }),
    {
        let now = self.clock.now();
        let t = self.scheduler.add_thread();
        self.waits.push(Wait::Nothing);
        self.not_before.push(now);
        self.results.push(None);
        proof {
            let o = old(self)@;
            let k = self@;
            assert(!has_entry(k.timers, t)) by {
                if has_entry(k.timers, t) {
                    let i = choose|i: int| 0 <= i < k.timers.len() && #[trigger] k.timers[i].thread == t;
                    assert(o.valid_thread(o.timers[i].thread));
                }
            }
            assert forall|m: usize| k.valid_mutex(m) implies !#[trigger] k.waits_on(m, t) by {
                if k.waits_on(m, t) {
                    let i = choose|i: int| 0 <= i < k.mutexes[m as int].waiters.len() && k.mutexes[m as int].waiters[i] == t;
                    assert(o.valid_thread(o.mutexes[m as int].waiters[i]));
                }
            }
            assert forall|u: ThreadId| k.valid_thread(u) implies #[trigger] k.thread_ok(u) by {
                if u != t {
                    assert(o.thread_ok(u));
                    lemma_thread_ok_frame(o, k, u);
                }
            }
            assert forall|i: int| 0 <= i < k.timers.len()
                && #[trigger] k.waits[k.timers[i].thread as int] == Wait::Sleep
                implies k.timers[i].deadline == k.not_before[k.timers[i].thread as int] by {
                assert(o.valid_thread(o.timers[i].thread));
            }
        }
        t
    }

    /// Adds a free mutex protecting `value` and returns its id.
    pub fn create_mutex(&mut self, value: u64) -> (m: usize)
        requires
            old(self)@.wf(),
        ensures
            final(self)@.wf(),
            m as int == old(self)@.mutexes.len(),
            final(self)@ == (KernelView {
                mutexes: old(self)@.mutexes.push(MutexView { owner: None, waiters: Seq::empty(), value }),
                ..old(self)@
            }),
    {
        let m = self.mutexes.len();
        self.mutexes.push(Mutex::new(value));
        proof {
            let o = old(self)@;
            let k = self@;
            assert(k.mutexes =~= o.mutexes.push(MutexView { owner: None, waiters: Seq::empty(), value }));
            assert forall|n: int| 0 <= n < k.mutexes.len() implies (#[trigger] k.mutexes[n]).wf() by {
                if n < o.mutexes.len() {
                    assert(o.mutexes[n].wf());
                }
            }
            assert forall|n: usize, i: int| k.valid_mutex(n) && 0 <= i < k.mutexes[n as int].waiters.len()
                implies k.valid_thread(#[trigger] k.mutexes[n as int].waiters[i]) by {
                assert(o.valid_thread(o.mutexes[n as int].waiters[i]));
            }
            assert forall|u: ThreadId| k.valid_thread(u) implies #[trigger] k.thread_ok(u) by {
                assert(o.thread_ok(u));
                assert(!k.waits_on(m, u));
                assert forall|n: usize| k.valid_mutex(n) implies #[trigger] k.waits_on(n, u) == (o.valid_mutex(n) && o.waits_on(n, u)) by {
                    if n != m {
                        assert(k.mutexes[n as int] == o.mutexes[n as int]);
                    }
                }
                lemma_thread_ok_frame(o, k, u);
            }
        }
        m
    }

    /// Replaces the value that mutex `m` protects; only its owner, running,
    /// may do so.
    pub fn set_mutex_value(&mut self, m: usize, v: u64)
        requires
            old(self)@.wf(),
            old(self)@.valid_mutex(m),
            old(self)@.sched.current is Some,
            old(self)@.mutexes[m as int].owner == old(self)@.sched.current,
        ensures
            final(self)@.wf(),
            final(self)@ == (KernelView {
                mutexes: old(self)@.mutexes.update(m as int, MutexView { value: v, ..old(self)@.mutexes[m as int] }),
                ..old(self)@
            }),
    {
        self.mutexes[m].set_value(v);
        proof {
            let o = old(self)@;
            let k = self@;
            assert(k.mutexes =~= o.mutexes.update(m as int, MutexView { value: v, ..o.mutexes[m as int] }));
            assert forall|n: int| 0 <= n < k.mutexes.len() implies (#[trigger] k.mutexes[n]).wf() by {
                if n < o.mutexes.len() {
                    assert(o.mutexes[n].wf());
                }
            }
            assert forall|n: usize, i: int| k.valid_mutex(n) && 0 <= i < k.mutexes[n as int].waiters.len()
                implies k.valid_thread(#[trigger] k.mutexes[n as int].waiters[i]) by {
                assert(o.valid_thread(o.mutexes[n as int].waiters[i]));
            }
            assert forall|u: ThreadId| k.valid_thread(u) implies #[trigger] k.thread_ok(u) by {
                assert(o.thread_ok(u));
                assert forall|n: usize| k.valid_mutex(n) implies #[trigger] k.waits_on(n, u) == (o.valid_mutex(n) && o.waits_on(n, u)) by {
                    if n != m {
                        assert(k.mutexes[n as int] == o.mutexes[n as int]);
                    }
                }
                lemma_thread_ok_frame(o, k, u);
            }
        }
    }

    /// Starts an Unstarted thread: it becomes Ready at the back of the run
    /// queue. Starting a thread twice is a programming error, ruled out by
    /// the precondition.
    pub fn start_thread(&mut self, t: ThreadId)
        requires
            old(self)@.wf(),
            old(self)@.valid_thread(t),
            old(self)@.sched.states[t as int] == ThreadState::Unstarted,
        ensures
            final(self)@.wf(),
            final(self)@ == (KernelView { sched: old(self)@.sched.make_ready(t), ..old(self)@ }),
    {
        self.scheduler.start_thread(t);
        proof {
            lemma_sched_step(old(self)@, self@.sched);
        }
    }

    /// Starts the idle thread, which keeps the run queue from ever running
    /// dry: from here on it is always Ready or Running.
    pub fn start_idle_thread(&mut self, t: ThreadId)
        requires
            old(self)@.wf(),
            old(self)@.sched.idle is None,
            old(self)@.valid_thread(t),
            old(self)@.sched.states[t as int] == ThreadState::Unstarted,
        ensures
            final(self)@.wf(),
            final(self)@ == (KernelView {
                sched: SchedView { idle: Some(t), ..old(self)@.sched.make_ready(t) },
                ..old(self)@
            }),
    {
        self.scheduler.start_idle_thread(t);
        proof {
            lemma_sched_step(old(self)@, self@.sched);
        }
    }

    /// The half context switch that makes Unstarted thread `t` the first
    /// running thread.
    pub fn bootstrap(&mut self, t: ThreadId)
        requires
            old(self)@.wf(),
            old(self)@.sched.current is None,
            old(self)@.valid_thread(t),
            old(self)@.sched.states[t as int] == ThreadState::Unstarted,
        ensures
            final(self)@.wf(),
            final(self)@ == (KernelView { sched: old(self)@.sched.bootstrap(t), ..old(self)@ }),
    {
        self.scheduler.bootstrap(t);
        proof {
            lemma_sched_step(old(self)@, self@.sched);
        }
    }

    /// The current thread gives up the rest of its time slice and goes to
    /// the back of the run queue; the head of the queue runs next.
    pub fn yield_timeslice(&mut self) -> (sw: Switch)
        requires
            old(self)@.wf(),
            old(self)@.sched.current is Some,
        ensures
            final(self)@.wf(),
            final(self)@ == (KernelView { sched: old(self)@.sched.switch_out(ThreadState::Ready), ..old(self)@ }),
            sw.from == old(self)@.sched.current->0,
            sw.to == old(self)@.sched.next_after(ThreadState::Ready),
            old(self)@.sched.queue.len() == 0 ==> sw.to == sw.from,
    {
        let sw = self.scheduler.yield_timeslice();
        proof {
            let o = old(self)@.sched;
            let c = o.current->0;
            let q = o.queue_after_leave(ThreadState::Ready);
            assert(o.valid_id(q[0] as int)) by {
                if o.queue.len() > 0 {
                    assert(o.valid_id(o.queue[0] as int));
                }
            }
            lemma_sched_step(old(self)@, self@.sched);
        }
        sw
    }

    /// The current thread sleeps until `deadline`: it enters the timer queue,
    /// becomes Sleeping, and the head of the run queue runs next. Only a
    /// thread other than the idle thread may sleep.
    pub fn sleep_until(&mut self, deadline: u64) -> (sw: Switch)
        requires
            old(self)@.wf(),
            old(self)@.sched.running_with_idle(),
            old(self)@.sched.current != old(self)@.sched.idle,
        ensures
            final(self)@.wf(),
            sw.from == old(self)@.sched.current->0,
            sw.to == old(self)@.sched.next_after(ThreadState::Sleeping),
            exists|p: int| insert_position(old(self)@.timers, deadline, p)
                && final(self)@ == (KernelView {
                    sched: old(self)@.sched.switch_out(ThreadState::Sleeping),
                    timers: old(self)@.timers.insert(p, TimerEntry { deadline, thread: sw.from }),
                    waits: old(self)@.waits.update(sw.from as int, Wait::Sleep),
                    not_before: old(self)@.not_before.update(sw.from as int, deadline),
                    ..old(self)@
                }),
    {
        let c = match self.scheduler.current() {
            Some(c) => c,
            None => 0,
        };
        proof {
            assert(old(self)@.thread_ok(c));
        }
        let pos = self.timer_queue.insert(deadline, c);
        self.waits.set(c, Wait::Sleep);
        self.not_before.set(c, deadline);
        proof {
            crate::scheduler::lemma_queue_nonempty_when_idle_waits(old(self)@.sched);
            assert(old(self)@.sched.valid_id(old(self)@.sched.queue[0] as int));
        }
        let sw = self.scheduler.switch_out(ThreadState::Sleeping);
        proof {
            let o = old(self)@;
            let k = self@;
            let e = TimerEntry { deadline, thread: c };
            let nx = sw.to;
            assert(nx != c);
            assert(o.sched.states[nx as int] == ThreadState::Ready);
            assert forall|u: ThreadId| k.valid_thread(u) implies #[trigger] k.thread_ok(u) by {
                lemma_has_entry_insert(o.timers, pos as int, e, u);
                assert(o.thread_ok(u));
                if u != c {
                    lemma_thread_ok_frame(o, k, u);
                } else {
                    assert(k.timers[pos as int].thread == c);
                    assert(k.waits[c as int] == Wait::Sleep);
                    assert(k.sched.states[c as int] == ThreadState::Sleeping);
                    assert(has_entry(k.timers, c));
                    assert forall|m: usize| k.valid_mutex(m) implies !#[trigger] k.waits_on(m, c) by {
                        assert(!o.waits_on(m, c));
                    }
                }
            }
            assert forall|i: int| 0 <= i < k.timers.len() implies k.valid_thread(#[trigger] k.timers[i].thread) by {
                if i < pos {
                    assert(k.timers[i] == o.timers[i]);
                } else if i > pos {
                    assert(k.timers[i] == o.timers[i - 1]);
                }
            }
            assert forall|i: int| 0 <= i < k.timers.len()
                && #[trigger] k.waits[k.timers[i].thread as int] == Wait::Sleep
                implies k.timers[i].deadline == k.not_before[k.timers[i].thread as int] by {
                if i < pos {
                    assert(k.timers[i] == o.timers[i]);
                    assert(o.timers[i].thread != c);
                } else if i > pos {
                    assert(k.timers[i] == o.timers[i - 1]);
                    assert(o.timers[i - 1].thread != c);
                }
            }
            assert(insert_position(o.timers, deadline, pos as int));
            assert(k == KernelView {
                sched: o.sched.switch_out(ThreadState::Sleeping),
                timers: o.timers.insert(pos as int, e),
                waits: o.waits.update(c as int, Wait::Sleep),
                not_before: o.not_before.update(c as int, deadline),
                ..o
            });
        }
        sw
    }

    /// Wakes the thread of the earliest timer entry if its deadline is at or
    /// before the current time; a thread whose timed lock request this ends
    /// leaves the mutex's wait set with a timeout.
    fn expire_first(&mut self) -> (woken: Option<ThreadId>)
        requires
            old(self)@.wf(),
        ensures
            final(self)@.wf(),
            final(self)@.now == old(self)@.now,
            final(self)@.sched.current == old(self)@.sched.current,
            final(self)@.sched.idle == old(self)@.sched.idle,
            final(self)@.sched.states.len() == old(self)@.sched.states.len(),
            final(self)@.not_before == old(self)@.not_before,
            final(self)@.mutexes.len() == old(self)@.mutexes.len(),
            old(self)@.timers.len() > 0 && old(self)@.timers[0].deadline <= old(self)@.now ==> {
                let t = old(self)@.timers[0].thread;
                &&& woken == Some(t)
                &&& final(self)@.timers == old(self)@.timers.remove(0)
                &&& final(self)@.sched == old(self)@.sched.make_ready(t)
                &&& final(self)@.waits == old(self)@.waits.update(t as int, Wait::Nothing)
                &&& old(self)@.waits[t as int] is Lock ==> final(self)@.results == old(self)@.results.update(
                    t as int,
                    Some(LockResult::TimedOut),
                )
                &&& old(self)@.waits[t as int] is Sleep ==> final(self)@.results == old(self)@.results
                &&& forall|m: usize| old(self)@.valid_mutex(m) ==> #[trigger] final(self)@.mutexes[m as int] == (MutexView {
                    waiters: without_threads(old(self)@.mutexes[m as int].waiters, seq![t]),
                    ..old(self)@.mutexes[m as int]
                })
            },
            !(old(self)@.timers.len() > 0 && old(self)@.timers[0].deadline <= old(self)@.now) ==> {
                &&& woken is None
                &&& final(self)@ == old(self)@
            },
    {
        let now = self.clock.now();
        let e = match self.timer_queue.pop_first_expired(now) {
            Some(e) => e,
            None => {
                return None;
            },
        };
        let t = e.thread;
        proof {
            let o = old(self)@;
            assert(o.valid_thread(o.timers[0].thread));
            assert(has_entry(o.timers, t));
            assert(o.thread_ok(t));
        }
        let w = self.waits[t];
        match w {
            Wait::Lock { mutex, .. } => {
                proof {
                    assert(self.mutexes@.map_values(|m: Mutex| m@)[mutex as int] == old(self)@.mutexes[mutex as int]);
                    assert(old(self)@.mutexes[mutex as int].wf());
                }
                self.mutexes[mutex].remove_waiter(t);
                self.results.set(t, Some(LockResult::TimedOut));
                proof {
                    let o = old(self)@;
                    let mv = self.mutexes@.map_values(|m: Mutex| m@);
                    assert(mv =~= o.mutexes.update(mutex as int, mv[mutex as int]));
                    assert(o.waits_on(mutex, t));
                    let ow = o.mutexes[mutex as int].waiters;
                    let i = choose|i: int| 0 <= i < ow.len() && ow[i] == t
                        && mv[mutex as int].waiters == ow.remove(i);
                    assert forall|m: usize, u: ThreadId| o.valid_mutex(m)
                        implies #[trigger] mv[m as int].waiters.contains(u) == (o.waits_on(m, u) && u != t) by {
                        if m == mutex && u != t {
                            lemma_contains_remove(ow, i, u);
                        }
                        if m != mutex && o.waits_on(m, t) {
                            assert(o.thread_ok(t));
                        }
                    }
                }
            },
            _ => {
                proof {
                    let o = old(self)@;
                    assert forall|m: usize, u: ThreadId| o.valid_mutex(m)
                        implies #[trigger] o.mutexes[m as int].waiters.contains(u) == (o.waits_on(m, u) && u != t) by {
                        if u == t {
                            assert(!o.waits_on(m, t));
                        }
                    }
                }
            },
        }
        self.waits.set(t, Wait::Nothing);
        self.scheduler.make_ready(t);
        proof {
            let o = old(self)@;
            let k = self@;
            assert(k.mutexes.len() == o.mutexes.len());
            assert forall|m: usize, u: ThreadId| k.valid_mutex(m)
                implies #[trigger] k.waits_on(m, u) == (o.waits_on(m, u) && u != t) by {
                assert(k.mutexes[m as int].waiters.contains(u) == (o.waits_on(m, u) && u != t));
            }
            assert(k.timers == o.timers.remove(0));
            assert forall|u: ThreadId| k.valid_thread(u) implies #[trigger] k.thread_ok(u) by {
                lemma_has_entry_remove(o.timers, 0, u);
                assert(o.thread_ok(u));
                if u != t {
                    lemma_thread_ok_frame(o, k, u);
                } else {
                    assert forall|m: usize| k.valid_mutex(m) implies !#[trigger] k.waits_on(m, t) by {}
                    if o.waits[t as int] == Wait::Sleep {
                        assert(o.timers[0].deadline == o.not_before[t as int]);
                    }
                }
            }
            assert forall|m: int| 0 <= m < k.mutexes.len() implies (#[trigger] k.mutexes[m]).wf() by {
                assert(o.mutexes[m].wf());
            }
            assert forall|m: usize, i: int| k.valid_mutex(m) && 0 <= i < k.mutexes[m as int].waiters.len()
                implies k.valid_thread(#[trigger] k.mutexes[m as int].waiters[i]) by {
                let u = k.mutexes[m as int].waiters[i];
                assert(k.mutexes[m as int].waiters.contains(u));
                assert(k.waits_on(m, u));
                let j = choose|j: int| 0 <= j < o.mutexes[m as int].waiters.len() && o.mutexes[m as int].waiters[j] == u;
                assert(o.valid_thread(o.mutexes[m as int].waiters[j]));
            }
            assert forall|i: int| 0 <= i < k.timers.len() implies k.valid_thread(#[trigger] k.timers[i].thread) by {
                assert(o.valid_thread(o.timers[i + 1].thread));
            }
            assert forall|i: int| 0 <= i < k.timers.len()
                && #[trigger] k.waits[k.timers[i].thread as int] == Wait::Sleep
                implies k.timers[i].deadline == k.not_before[k.timers[i].thread as int] by {
                assert(k.timers[i] == o.timers[i + 1]);
                assert(o.timers[i + 1].thread != o.timers[0].thread);
            }
        }
        proof {
            let o = old(self)@;
            let k = self@;
            assert(Seq::<ThreadId>::empty().push(t) =~= seq![t]);
            assert forall|m: usize| o.valid_mutex(m) implies #[trigger] k.mutexes[m as int] == (MutexView {
                waiters: without_threads(o.mutexes[m as int].waiters, seq![t]),
                ..o.mutexes[m as int]
            }) by {
                let ow = o.mutexes[m as int].waiters;
                lemma_without_none(ow);
                if let Wait::Lock { mutex, .. } = o.waits[t as int] {
                    if m == mutex {
                        let i = choose|i: int| 0 <= i < ow.len() && ow[i] == t
                            && k.mutexes[m as int].waiters == ow.remove(i);
                        assert(o.mutexes[m as int].wf());
                        lemma_without_one_more(ow, Seq::empty(), t, i);
                    } else {
                        assert(!o.waits_on(m, t));
                        lemma_without_absent(ow, Seq::empty(), t);
                    }
                } else {
                    assert(!o.waits_on(m, t));
                    lemma_without_absent(ow, Seq::empty(), t);
                }
            }
        }
        Some(t)
    }

    /// Advances the clock to `now` and wakes, in deadline order, every
    /// thread whose deadline is at or before it: they join the back of the
    /// run queue in that order. A timed lock request that this ends comes out
    /// as a timeout. Returns the woken threads.
    pub fn tick(&mut self, now: u64) -> (woken: Vec<ThreadId>)
        requires
            old(self)@.wf(),
            old(self)@.now <= now,
        ensures
            final(self)@.wf(),
            old(self)@.ticked(final(self)@, now, woken@),
    {
        self.clock.advance_to(now);
        proof {
            let o = old(self)@;
            let k = self@;
            assert forall|u: ThreadId| k.valid_thread(u) implies #[trigger] k.thread_ok(u) by {
                assert(o.thread_ok(u));
                lemma_thread_ok_frame(o, k, u);
            }
        }
        let ghost t0 = self@.timers;
        let ghost w0 = self@.waits;
        let ghost n: int = 0;
        let mut woken: Vec<ThreadId> = Vec::new();
        assert(self@.sched.queue =~= old(self)@.sched.queue + woken@);
        proof {
            assert forall|m: usize| old(self)@.valid_mutex(m) implies #[trigger] self@.mutexes[m as int] == (MutexView {
                waiters: without_threads(old(self)@.mutexes[m as int].waiters, woken@),
                ..old(self)@.mutexes[m as int]
            }) by {
                lemma_without_none(old(self)@.mutexes[m as int].waiters);
                assert(woken@ =~= Seq::<ThreadId>::empty());
            }
        }
        loop
            invariant
                self@.wf(),
                self@.now == now,
                t0 == old(self)@.timers,
                w0 == old(self)@.waits,
                self@.sched.current == old(self)@.sched.current,
                self@.sched.idle == old(self)@.sched.idle,
                self@.sched.states.len() == old(self)@.sched.states.len(),
                self@.not_before == old(self)@.not_before,
                self@.mutexes.len() == old(self)@.mutexes.len(),
                self@.sched.queue == old(self)@.sched.queue + woken@,
                0 <= n <= t0.len(),
                forall|i: int| 0 <= i < n ==> #[trigger] t0[i].deadline <= now,
                woken@ == threads_of(t0.subrange(0, n)),
                self@.timers == t0.subrange(n, t0.len() as int),
                forall|i: int| 0 <= i < woken@.len() ==> {
                    let t = #[trigger] woken@[i];
                    &&& self@.valid_thread(t)
                    &&& self@.sched.states[t as int] == ThreadState::Ready
                    &&& self@.waits[t as int] == Wait::Nothing
                    &&& w0[t as int] is Lock ==> self@.results[t as int] == Some(LockResult::TimedOut)
                },
                w0.len() == self@.waits.len(),
                forall|u: ThreadId| self@.valid_thread(u) && !woken@.contains(u) ==> #[trigger] self@.waits[u as int] == w0[u as int],
                forall|u: ThreadId| self@.valid_thread(u) && !woken@.contains(u)
                    ==> #[trigger] self@.results[u as int] == old(self)@.results[u as int],
                forall|u: ThreadId| self@.valid_thread(u) && !woken@.contains(u)
                    ==> #[trigger] self@.sched.states[u as int] == old(self)@.sched.states[u as int],
                forall|m: usize| old(self)@.valid_mutex(m) ==> #[trigger] self@.mutexes[m as int] == (MutexView {
                    waiters: without_threads(old(self)@.mutexes[m as int].waiters, woken@),
                    ..old(self)@.mutexes[m as int]
                }),
                forall|i: int| 0 <= i < woken@.len() ==> {
                    let t = #[trigger] woken@[i];
                    w0[t as int] is Sleep ==> self@.results[t as int] == old(self)@.results[t as int]
                },
            ensures
                is_expired_prefix(t0, now, n),
            decreases self@.timers.len(),
        {
            let ghost before = self@;
            match self.expire_first() {
                Some(t) => {
                    proof {
                        assert(before.timers[0] == t0[n]);
                        assert(before.thread_ok(t));
                        assert(has_entry(before.timers, t));
                        assert(!woken@.contains(t)) by {
                            if woken@.contains(t) {
                                let j = choose|j: int| 0 <= j < woken@.len() && woken@[j] == t;
                                assert(before.waits[woken@[j] as int] == Wait::Nothing);
                            }
                        }
                        assert(w0[t as int] == before.waits[t as int]);
                    }
                    let ghost wb = woken@;
                    woken.push(t);
                    proof {
                        let k = self@;
                        assert(k.timers =~= t0.subrange(n + 1, t0.len() as int));
                        assert forall|i: int| 0 <= i < woken@.len() implies {
                            let u = #[trigger] woken@[i];
                            &&& k.valid_thread(u)
                            &&& k.sched.states[u as int] == ThreadState::Ready
                            &&& k.waits[u as int] == Wait::Nothing
                            &&& w0[u as int] is Lock ==> k.results[u as int] == Some(LockResult::TimedOut)
                        } by {
                            if i < woken@.len() - 1 {
                                let u = woken@[i];
                                assert(before.thread_ok(u));
                                assert(u != t);
                            }
                        }
                        assert forall|u: ThreadId| k.valid_thread(u) && !woken@.contains(u)
                            implies #[trigger] k.waits[u as int] == w0[u as int] by {
                            if wb.contains(u) {
                                let j = choose|j: int| 0 <= j < wb.len() && wb[j] == u;
                                assert(woken@[j] == u);
                            }
                            assert(u != t) by {
                                assert(woken@[woken@.len() - 1] == t);
                            }
                        }
                        assert forall|u: ThreadId| k.valid_thread(u) && !woken@.contains(u)
                            implies #[trigger] k.results[u as int] == old(self)@.results[u as int] by {
                            if wb.contains(u) {
                                let j = choose|j: int| 0 <= j < wb.len() && wb[j] == u;
                                assert(woken@[j] == u);
                            }
                            assert(u != t) by {
                                assert(woken@[woken@.len() - 1] == t);
                            }
                            assert(before.results[u as int] == old(self)@.results[u as int]);
                            assert(before.sched.states[u as int] == old(self)@.sched.states[u as int]);
                        }
                        assert forall|u: ThreadId| k.valid_thread(u) && !woken@.contains(u)
                            implies #[trigger] k.sched.states[u as int] == old(self)@.sched.states[u as int] by {
                            if wb.contains(u) {
                                let j = choose|j: int| 0 <= j < wb.len() && wb[j] == u;
                                assert(woken@[j] == u);
                            }
                            assert(u != t) by {
                                assert(woken@[woken@.len() - 1] == t);
                            }
                            assert(before.results[u as int] == old(self)@.results[u as int]);
                            assert(before.sched.states[u as int] == old(self)@.sched.states[u as int]);
                        }
                        assert forall|i: int| 0 <= i < woken@.len() implies {
                            let u = #[trigger] woken@[i];
                            w0[u as int] is Sleep ==> k.results[u as int] == old(self)@.results[u as int]
                        } by {
                            let u = woken@[i];
                            if i < woken@.len() - 1 {
                                assert(before.thread_ok(u));
                                assert(u != t);
                                assert(wb[i] == u);
                            } else {
                                assert(before.results[t as int] == old(self)@.results[t as int]);
                            }
                        }
                        assert(wb + seq![t] =~= woken@);
                        assert forall|m: usize| old(self)@.valid_mutex(m) implies #[trigger] k.mutexes[m as int] == (MutexView {
                            waiters: without_threads(old(self)@.mutexes[m as int].waiters, woken@),
                            ..old(self)@.mutexes[m as int]
                        }) by {
                            lemma_without_twice(old(self)@.mutexes[m as int].waiters, wb, seq![t]);
                            assert(before.mutexes[m as int] == (MutexView {
                                waiters: without_threads(old(self)@.mutexes[m as int].waiters, wb),
                                ..old(self)@.mutexes[m as int]
                            }));
                        }
                        n = n + 1;
                        assert(woken@ =~= threads_of(t0.subrange(0, n)));
                        assert(k.sched.queue =~= old(self)@.sched.queue + woken@);
                    }
                },
                None => {
                    proof {
                        if n < t0.len() {
                            assert(self@.timers[0] == t0[n]);
                        }
                        assert(is_expired_prefix(t0, now, n));
                    }
                    break;
                },
            }
        }
        woken
    }

    /// The timer interrupt: runs `tick` to `now`, then preempts the running
    /// thread when the tick woke some thread, a thread is running and
    /// preemption is not held off (`may_switch`). Returns the woken threads
    /// and the switch, if one was made.
    pub fn on_tick(&mut self, now: u64, may_switch: bool) -> (r: (Vec<ThreadId>, Option<Switch>))
        requires
            old(self)@.wf(),
            old(self)@.now <= now,
        ensures
            final(self)@.wf(),
            exists|mid: KernelView| {
                &&& #[trigger] old(self)@.ticked(mid, now, r.0@)
                &&& if r.0@.len() > 0 && may_switch && old(self)@.sched.current is Some {
                    &&& r.1 == Some(Switch {
                        from: old(self)@.sched.current->0,
                        to: mid.sched.next_after(ThreadState::Ready),
                    })
                    &&& final(self)@ == (KernelView { sched: mid.sched.switch_out(ThreadState::Ready), ..mid })
                } else {
                    &&& r.1 is None
                    &&& final(self)@ == mid
                }
            },
    {
        let woken = self.tick(now);
        let ghost mid = self@;
        let ghost w = woken@;
        let decide = woken.len() > 0 && may_switch && self.scheduler.current().is_some();
        let sw = if decide {
            Some(self.yield_timeslice())
        } else {
            None
        };
        let r = (woken, sw);
        proof {
            assert(r.0@ == w);
            assert(old(self)@.ticked(mid, now, r.0@));
            assert(decide == (r.0@.len() > 0 && may_switch && old(self)@.sched.current is Some));
        }
        r
    }

    /// The lock request of the current thread `c` on mutex `m`, with an
    /// optional deadline: a free mutex is taken at once; a held one puts `c`
    /// at the back of its wait set, Blocked, and the core moves on.
    fn lock_impl(&mut self, m: usize, deadline: Option<u64>) -> (step: LockStep)
        requires
            old(self)@.wf(),
            old(self)@.valid_mutex(m),
            old(self)@.sched.running_with_idle(),
            old(self)@.sched.current != old(self)@.sched.idle,
            old(self)@.mutexes[m as int].owner != old(self)@.sched.current,
        ensures
            final(self)@.wf(),
            ({
                let o = old(self)@;
                let k = final(self)@;
                let c = o.sched.current->0;
                let mv = o.mutexes[m as int];
                &&& mv.owner is None ==> step == LockStep::Acquired && k == (KernelView {
                    mutexes: o.mutexes.update(m as int, MutexView { owner: Some(c), ..mv }),
                    ..o
                })
                &&& mv.owner is Some ==> {
                    &&& step == LockStep::Blocked(Switch { from: c, to: o.sched.next_after(ThreadState::Blocked) })
                    &&& k.sched == o.sched.switch_out(ThreadState::Blocked)
                    &&& k.mutexes == o.mutexes.update(m as int, MutexView { waiters: mv.waiters.push(c), ..mv })
                    &&& k.waits == o.waits.update(c as int, Wait::Lock { mutex: m, timed: deadline is Some })
                    &&& k.results == o.results.update(c as int, None)
                    &&& k.not_before == o.not_before
                    &&& k.now == o.now
                    &&& deadline is None ==> k.timers == o.timers
                    &&& deadline matches Some(d) ==> exists|p: int| insert_position(o.timers, d, p)
                        && k.timers == o.timers.insert(p, TimerEntry { deadline: d, thread: c })
                }
            }),
    {
        let c = match self.scheduler.current() {
            Some(c) => c,
            None => 0,
        };
        proof {
            assert(old(self)@.thread_ok(c));
            assert(self.mutexes@.map_values(|x: Mutex| x@)[m as int] == old(self)@.mutexes[m as int]);
            assert(old(self)@.mutexes[m as int].wf());
        }
        if self.mutexes[m].try_acquire(c) {
            proof {
                let o = old(self)@;
                let k = self@;
                assert(k.mutexes =~= o.mutexes.update(m as int, MutexView { owner: Some(c), ..o.mutexes[m as int] }));
                assert forall|u: ThreadId| k.valid_thread(u) implies #[trigger] k.thread_ok(u) by {
                    assert(o.thread_ok(u));
                    assert forall|n: usize| k.valid_mutex(n) implies #[trigger] k.waits_on(n, u) == (o.valid_mutex(n) && o.waits_on(n, u)) by {}
                    lemma_thread_ok_frame(o, k, u);
                }
                assert forall|n: int| 0 <= n < k.mutexes.len() implies (#[trigger] k.mutexes[n]).wf() by {
                    assert(o.mutexes[n].wf());
                }
                assert forall|n: usize, i: int| k.valid_mutex(n) && 0 <= i < k.mutexes[n as int].waiters.len()
                    implies k.valid_thread(#[trigger] k.mutexes[n as int].waiters[i]) by {
                    assert(o.valid_thread(o.mutexes[n as int].waiters[i]));
                }
            }
            return LockStep::Acquired;
        }
        proof {
            let o = old(self)@;
            assert(!o.waits_on(m, c));
        }
        self.mutexes[m].enqueue(c);
        let ghost mid = self@;
        let timed = match deadline {
            Some(d) => {
                let pos = self.timer_queue.insert(d, c);
                proof {
                    assert(insert_position(old(self)@.timers, d, pos as int));
                }
                true
            },
            None => false,
        };
        self.waits.set(c, Wait::Lock { mutex: m, timed });
        self.results.set(c, None);
        proof {
            crate::scheduler::lemma_queue_nonempty_when_idle_waits(old(self)@.sched);
            assert(old(self)@.sched.valid_id(old(self)@.sched.queue[0] as int));
        }
        let sw = self.scheduler.switch_out(ThreadState::Blocked);
        proof {
            let o = old(self)@;
            let k = self@;
            let mv = o.mutexes[m as int];
            let nx = sw.to;
            assert(nx != c);
            assert(k.mutexes =~= o.mutexes.update(m as int, MutexView { waiters: mv.waiters.push(c), ..mv }));
            assert forall|n: usize, u: ThreadId| k.valid_mutex(n)
                implies #[trigger] k.waits_on(n, u) == (o.waits_on(n, u) || (n == m && u == c)) by {
                if n == m {
                    let w = mv.waiters;
                    if w.push(c).contains(u) && u != c {
                        let j = choose|j: int| 0 <= j < w.push(c).len() && w.push(c)[j] == u;
                        assert(w[j] == u);
                    }
                    if w.contains(u) {
                        let j = choose|j: int| 0 <= j < w.len() && w[j] == u;
                        assert(w.push(c)[j] == u);
                    }
                    assert(w.push(c)[w.len() as int] == c);
                }
            }
            assert forall|u: ThreadId| has_entry(k.timers, u) == (has_entry(o.timers, u) || (timed && u == c)) by {
                if let Some(d) = deadline {
                    let p = choose|p: int| insert_position(o.timers, d, p)
                        && k.timers == o.timers.insert(p, TimerEntry { deadline: d, thread: c });
                    lemma_has_entry_insert(o.timers, p, TimerEntry { deadline: d, thread: c }, u);
                }
            }
            assert forall|u: ThreadId| k.valid_thread(u) implies #[trigger] k.thread_ok(u) by {
                assert(o.thread_ok(u));
                if u != c {
                    lemma_thread_ok_frame(o, k, u);
                } else {
                    assert(k.sched.states[c as int] == ThreadState::Blocked);
                    assert forall|n: usize| k.valid_mutex(n) implies (#[trigger] k.waits_on(n, c) <==> n == m) by {
                        assert(!o.waits_on(n, c));
                    }
                }
            }
            assert forall|n: int| 0 <= n < k.mutexes.len() implies (#[trigger] k.mutexes[n]).wf() by {
                assert(o.mutexes[n].wf());
            }
            assert forall|n: usize, i: int| k.valid_mutex(n) && 0 <= i < k.mutexes[n as int].waiters.len()
                implies k.valid_thread(#[trigger] k.mutexes[n as int].waiters[i]) by {
                if n != m || i < mv.waiters.len() {
                    assert(o.valid_thread(o.mutexes[n as int].waiters[i]));
                }
            }
            if let Some(d) = deadline {
                let p = choose|p: int| insert_position(o.timers, d, p)
                    && k.timers == o.timers.insert(p, TimerEntry { deadline: d, thread: c });
                assert forall|i: int| 0 <= i < k.timers.len() implies k.valid_thread(#[trigger] k.timers[i].thread) by {
                    if i < p {
                        assert(k.timers[i] == o.timers[i]);
                    } else if i > p {
                        assert(k.timers[i] == o.timers[i - 1]);
                    }
                }
                assert forall|i: int| 0 <= i < k.timers.len()
                    && #[trigger] k.waits[k.timers[i].thread as int] == Wait::Sleep
                    implies k.timers[i].deadline == k.not_before[k.timers[i].thread as int] by {
                    if i < p {
                        assert(k.timers[i] == o.timers[i]);
                        assert(o.timers[i].thread != c);
                    } else if i > p {
                        assert(k.timers[i] == o.timers[i - 1]);
                        assert(o.timers[i - 1].thread != c);
                    }
                }
            } else {
                assert forall|i: int| 0 <= i < k.timers.len()
                    && #[trigger] k.waits[k.timers[i].thread as int] == Wait::Sleep
                    implies k.timers[i].deadline == k.not_before[k.timers[i].thread as int] by {
                    assert(o.valid_thread(o.timers[i].thread));
                    assert(has_entry(o.timers, o.timers[i].thread));
                    assert(o.timers[i].thread != c);
                }
            }
        }
        LockStep::Blocked(sw)
    }

    /// The current thread asks for mutex `m` and waits for as long as it
    /// takes. It must not hold `m` already, and the idle thread never asks.
    pub fn mutex_lock(&mut self, m: usize) -> (step: LockStep)
        requires
            old(self)@.wf(),
            old(self)@.valid_mutex(m),
            old(self)@.sched.running_with_idle(),
            old(self)@.sched.current != old(self)@.sched.idle,
            old(self)@.mutexes[m as int].owner != old(self)@.sched.current,
        ensures
            final(self)@.wf(),
            ({
                let o = old(self)@;
                let k = final(self)@;
                let c = o.sched.current->0;
                let mv = o.mutexes[m as int];
                &&& mv.owner is None ==> step == LockStep::Acquired && k == (KernelView {
                    mutexes: o.mutexes.update(m as int, MutexView { owner: Some(c), ..mv }),
                    ..o
                })
                &&& mv.owner is Some ==> {
                    &&& step == LockStep::Blocked(Switch { from: c, to: o.sched.next_after(ThreadState::Blocked) })
                    &&& k == (KernelView {
                        sched: o.sched.switch_out(ThreadState::Blocked),
                        mutexes: o.mutexes.update(m as int, MutexView { waiters: mv.waiters.push(c), ..mv }),
                        waits: o.waits.update(c as int, Wait::Lock { mutex: m, timed: false }),
                        results: o.results.update(c as int, None),
                        ..o
                    })
                }
            }),
    {
        let step = self.lock_impl(m, None);
        proof {
            let o = old(self)@;
            let k = self@;
            if o.mutexes[m as int].owner is Some {
                assert(k == KernelView {
                    sched: o.sched.switch_out(ThreadState::Blocked),
                    mutexes: k.mutexes,
                    waits: k.waits,
                    results: k.results,
                    ..o
                });
            }
        }
        step
    }

    /// The current thread asks for mutex `m` but waits no later than
    /// `deadline`: if the deadline passes first, a later `tick` takes it
    /// out of the wait set with a timeout; if the mutex is handed to it
    /// first, its timer entry is cancelled.
    pub fn mutex_lock_until(&mut self, m: usize, deadline: u64) -> (step: LockStep)
        requires
            old(self)@.wf(),
            old(self)@.valid_mutex(m),
            old(self)@.sched.running_with_idle(),
            old(self)@.sched.current != old(self)@.sched.idle,
            old(self)@.mutexes[m as int].owner != old(self)@.sched.current,
        ensures
            final(self)@.wf(),
            ({
                let o = old(self)@;
                let k = final(self)@;
                let c = o.sched.current->0;
                let mv = o.mutexes[m as int];
                &&& mv.owner is None ==> step == LockStep::Acquired && k == (KernelView {
                    mutexes: o.mutexes.update(m as int, MutexView { owner: Some(c), ..mv }),
                    ..o
                })
                &&& mv.owner is Some ==> {
                    &&& step == LockStep::Blocked(Switch { from: c, to: o.sched.next_after(ThreadState::Blocked) })
                    &&& exists|p: int| insert_position(o.timers, deadline, p) && k == (KernelView {
                        sched: o.sched.switch_out(ThreadState::Blocked),
                        timers: o.timers.insert(p, TimerEntry { deadline, thread: c }),
                        mutexes: o.mutexes.update(m as int, MutexView { waiters: mv.waiters.push(c), ..mv }),
                        waits: o.waits.update(c as int, Wait::Lock { mutex: m, timed: true }),
                        results: o.results.update(c as int, None),
                        ..o
                    })
                }
            }),
    {
        let step = self.lock_impl(m, Some(deadline));
        proof {
            let o = old(self)@;
            let k = self@;
            if o.mutexes[m as int].owner is Some {
                let p = choose|p: int| insert_position(o.timers, deadline, p)
                    && k.timers == o.timers.insert(p, TimerEntry { deadline, thread: o.sched.current->0 });
                assert(k == KernelView {
                    sched: o.sched.switch_out(ThreadState::Blocked),
                    timers: k.timers,
                    mutexes: k.mutexes,
                    waits: k.waits,
                    results: k.results,
                    ..o
                });
            }
        }
        step
    }

    /// The owner of mutex `m` releases it. With threads waiting, the mutex
    /// passes straight to the longest-waiting one, whose timer entry (if it
    /// had one) is cancelled and which becomes Ready with its request
    /// granted; returns that thread. Otherwise the mutex becomes free.
    pub fn mutex_unlock(&mut self, m: usize) -> (next: Option<ThreadId>)
        requires
            old(self)@.wf(),
            old(self)@.valid_mutex(m),
            old(self)@.sched.current is Some,
            old(self)@.mutexes[m as int].owner == old(self)@.sched.current,
        ensures
            final(self)@.wf(),
            ({
                let o = old(self)@;
                let k = final(self)@;
                let mv = o.mutexes[m as int];
                &&& next == mv.released().owner
                &&& k.mutexes == o.mutexes.update(m as int, mv.released())
                &&& k.now == o.now
                &&& k.not_before == o.not_before
                &&& mv.waiters.len() == 0 ==> k == (KernelView { mutexes: k.mutexes, ..o })
                &&& mv.waiters.len() > 0 ==> {
                    let t = mv.waiters[0];
                    &&& o.waits[t as int] is Lock
                    &&& k.sched == o.sched.make_ready(t)
                    &&& k.waits == o.waits.update(t as int, Wait::Nothing)
                    &&& k.results == o.results.update(t as int, Some(LockResult::Granted))
                    &&& !has_entry(k.timers, t)
                    &&& o.waits[t as int] == (Wait::Lock { mutex: m, timed: false }) ==> k.timers == o.timers
                    &&& o.waits[t as int] == (Wait::Lock { mutex: m, timed: true }) ==> exists|i: int|
                        0 <= i < o.timers.len() && o.timers[i].thread == t && k.timers == o.timers.remove(i)
                }
            }),
    {
        proof {
            assert(self.mutexes@.map_values(|x: Mutex| x@)[m as int] == old(self)@.mutexes[m as int]);
            assert(old(self)@.mutexes[m as int].wf());
        }
        let next = self.mutexes[m].release();
        let t = match next {
            Some(t) => t,
            None => {
                proof {
                    let o = old(self)@;
                    let k = self@;
                    assert(k.mutexes =~= o.mutexes.update(m as int, o.mutexes[m as int].released()));
                    assert forall|u: ThreadId| k.valid_thread(u) implies #[trigger] k.thread_ok(u) by {
                        assert(o.thread_ok(u));
                        assert forall|n: usize| k.valid_mutex(n) implies #[trigger] k.waits_on(n, u) == (o.valid_mutex(n) && o.waits_on(n, u)) by {}
                        lemma_thread_ok_frame(o, k, u);
                    }
                    assert forall|n: int| 0 <= n < k.mutexes.len() implies (#[trigger] k.mutexes[n]).wf() by {
                        assert(o.mutexes[n].wf());
                    }
                    assert forall|n: usize, i: int| k.valid_mutex(n) && 0 <= i < k.mutexes[n as int].waiters.len()
                        implies k.valid_thread(#[trigger] k.mutexes[n as int].waiters[i]) by {
                        assert(o.valid_thread(o.mutexes[n as int].waiters[i]));
                    }
                }
                return None;
            },
        };
        proof {
            let o = old(self)@;
            let w = o.mutexes[m as int].waiters;
            assert(w[0] == t);
            assert(o.valid_thread(o.mutexes[m as int].waiters[0]));
            assert(o.waits_on(m, t));
            assert(o.thread_ok(t));
        }
        let w = self.waits[t];
        let timed = match w {
            Wait::Lock { timed, .. } => timed,
            _ => false,
        };
        if timed {
            self.timer_queue.cancel(t);
        }
        self.waits.set(t, Wait::Nothing);
        self.results.set(t, Some(LockResult::Granted));
        self.scheduler.make_ready(t);
        proof {
            let o = old(self)@;
            let k = self@;
            let mv = o.mutexes[m as int];
            let ow = mv.waiters;
            assert(k.mutexes =~= o.mutexes.update(m as int, mv.released()));
            assert(mv.released().waiters == ow.remove(0));
            assert forall|n: usize, u: ThreadId| k.valid_mutex(n)
                implies #[trigger] k.waits_on(n, u) == (o.waits_on(n, u) && u != t) by {
                if n == m && u != t {
                    lemma_contains_remove(ow, 0, u);
                }
                if n != m && u == t {
                    assert(o.thread_ok(t));
                    assert(o.waits_on(m, t));
                    assert(!o.waits_on(n, t));
                }
                if n == m && u == t {
                    assert(!ow.remove(0).contains(t)) by {
                        if ow.remove(0).contains(t) {
                            let j = choose|j: int| 0 <= j < ow.remove(0).len() && ow.remove(0)[j] == t;
                            assert(ow[j + 1] == ow[0]);
                        }
                    }
                }
            }
            assert forall|u: ThreadId| has_entry(k.timers, u) == (has_entry(o.timers, u) && u != t) by {
                if timed {
                    let i = choose|i: int| 0 <= i < o.timers.len() && o.timers[i].thread == t
                        && k.timers == o.timers.remove(i);
                    lemma_has_entry_remove(o.timers, i, u);
                }
            }
            assert forall|u: ThreadId| k.valid_thread(u) implies #[trigger] k.thread_ok(u) by {
                assert(o.thread_ok(u));
                if u != t {
                    lemma_thread_ok_frame(o, k, u);
                } else {
                    assert forall|n: usize| k.valid_mutex(n) implies !#[trigger] k.waits_on(n, t) by {}
                }
            }
            assert forall|n: int| 0 <= n < k.mutexes.len() implies (#[trigger] k.mutexes[n]).wf() by {
                assert(o.mutexes[n].wf());
            }
            assert forall|n: usize, i: int| k.valid_mutex(n) && 0 <= i < k.mutexes[n as int].waiters.len()
                implies k.valid_thread(#[trigger] k.mutexes[n as int].waiters[i]) by {
                if n == m {
                    assert(o.valid_thread(ow[i + 1]));
                } else {
                    assert(o.valid_thread(o.mutexes[n as int].waiters[i]));
                }
            }
            if timed {
                let i = choose|i: int| 0 <= i < o.timers.len() && o.timers[i].thread == t
                    && k.timers == o.timers.remove(i);
                assert forall|j: int| 0 <= j < k.timers.len() implies k.valid_thread(#[trigger] k.timers[j].thread) by {
                    if j < i {
                        assert(k.timers[j] == o.timers[j]);
                    } else {
                        assert(k.timers[j] == o.timers[j + 1]);
                    }
                }
                assert forall|j: int| 0 <= j < k.timers.len()
                    && #[trigger] k.waits[k.timers[j].thread as int] == Wait::Sleep
                    implies k.timers[j].deadline == k.not_before[k.timers[j].thread as int] by {
                    let j2 = if j < i { j } else { j + 1 };
                    assert(k.timers[j] == o.timers[j2]);
                    assert(o.timers[j2].thread != t);
                }
            } else {
                assert forall|j: int| 0 <= j < k.timers.len()
                    && #[trigger] k.waits[k.timers[j].thread as int] == Wait::Sleep
                    implies k.timers[j].deadline == k.not_before[k.timers[j].thread as int] by {
                    assert(has_entry(o.timers, o.timers[j].thread));
                    assert(o.timers[j].thread != t);
                }
            }
        }
        next
    }

    /// Kernel entry on the boot context of a fresh kernel: creates the
    /// bootstrap thread and half-context-switches into it; returns its id.
    pub fn main(&mut self) -> (bootstrap: ThreadId)
        requires
            old(self)@.wf(),
            old(self)@.sched.current is None,
            old(self)@.sched.states.len() < usize::MAX,
        ensures
            final(self)@.wf(),
            bootstrap as int == old(self)@.sched.states.len(),
            final(self)@.sched.current == Some(bootstrap),
            final(self)@.sched.idle == old(self)@.sched.idle,
            final(self)@.sched.queue == old(self)@.sched.queue,
            final(self)@.sched.states == old(self)@.sched.states.push(ThreadState::Running),
            final(self)@ == (KernelView {
                sched: old(self)@.sched.add().bootstrap(bootstrap),
                waits: old(self)@.waits.push(Wait::Nothing),
                not_before: old(self)@.not_before.push(old(self)@.now),
                results: old(self)@.results.push(None),
                ..old(self)@
            }),
    {
        let t = self.create_thread();
        self.bootstrap(t);
        t
    }

    /// The bootstrap thread's first work: creates the idle thread and starts
    /// it, after which the run queue never runs dry; returns its id.
    pub fn bootstrap_thread_entry(&mut self) -> (idle: ThreadId)
        requires
            old(self)@.wf(),
            old(self)@.sched.current is Some,
            old(self)@.sched.idle is None,
            old(self)@.sched.states.len() < usize::MAX,
        ensures
            final(self)@.wf(),
            final(self)@.sched.running_with_idle(),
            final(self)@.sched.idle == Some(idle),
            idle as int == old(self)@.sched.states.len(),
            final(self)@.sched.current == old(self)@.sched.current,
            final(self)@.sched.queue == old(self)@.sched.queue.push(idle),
            final(self)@.sched.states == old(self)@.sched.states.push(ThreadState::Ready),
            final(self)@ == (KernelView {
                sched: SchedView { idle: Some(idle), ..old(self)@.sched.add().make_ready(idle) },
                waits: old(self)@.waits.push(Wait::Nothing),
                not_before: old(self)@.not_before.push(old(self)@.now),
                results: old(self)@.results.push(None),
                ..old(self)@
            }),
    {
        let t = self.create_thread();
        self.start_idle_thread(t);
        proof {
            assert(self@.sched.states =~= old(self)@.sched.states.push(ThreadState::Ready));
        }
        t
    }
}


/// A thread never resumes from a sleep before its deadline: in every state
/// of the kernel, each thread that is not sleeping has reached the deadline
/// of its latest sleep on the logical clock.
pub proof fn lemma_sleep_ends_after_deadline(k: KernelView)
    requires
        k.wf(),
    ensures
        k.sleepers_resume_after_deadline(),
{
    assert forall|t: ThreadId| k.valid_thread(t) && #[trigger] k.sched.states[t as int] != ThreadState::Sleeping
        implies k.not_before[t as int] <= k.now by {
        assert(k.thread_ok(t));
    }
}

/// A pending timed lock request sits in exactly the two containers that
/// can end it, the mutex's wait set and the timer queue, with no outcome
/// yet and without holding the mutex: `mutex_unlock` ends it as granted and
/// cancels its timer entry, `tick` ends it as timed out and takes it out of
/// the wait set.
pub proof fn lemma_timed_lock_pending(k: KernelView, t: ThreadId, m: usize)
    requires
        k.wf(),
        k.valid_thread(t),
        k.waits[t as int] == (Wait::Lock { mutex: m, timed: true }),
    ensures
        k.valid_mutex(m),
        k.waits_on(m, t),
        has_entry(k.timers, t),
        k.results[t as int] is None,
        k.mutexes[m as int].owner != Some(t),
        k.sched.states[t as int] == ThreadState::Blocked,
{
    assert(k.thread_ok(t));
    assert(k.mutexes[m as int].wf());
}

/// A request that has ended, either way, leaves its thread in neither
/// container: no release can hand it the mutex and no tick can time it out,
/// so no request ends twice.
pub proof fn lemma_ended_request_in_no_container(k: KernelView, t: ThreadId)
    requires
        k.wf(),
        k.valid_thread(t),
        k.waits[t as int] == Wait::Nothing,
    ensures
        !has_entry(k.timers, t),
        forall|m: usize| k.valid_mutex(m) ==> !#[trigger] k.waits_on(m, t),
{
    assert(k.thread_ok(t));
}

/// Mutual exclusion: in every state of the kernel each mutex has at most one
/// owner, its owner never waits on it, a free mutex has no waiters, and
/// every waiter is a thread Blocked on exactly that mutex.
pub proof fn lemma_mutual_exclusion(k: KernelView, m: usize, t: ThreadId)
    requires
        k.wf(),
        k.valid_mutex(m),
    ensures
        k.mutexes[m as int].owner matches Some(o) ==> !k.waits_on(m, o),
        k.mutexes[m as int].owner is None ==> k.mutexes[m as int].waiters.len() == 0,
        k.waits_on(m, t) ==> k.valid_thread(t) && k.sched.states[t as int] == ThreadState::Blocked
            && (k.waits[t as int] matches Wait::Lock { mutex, .. } && mutex == m),
{
    assert(k.mutexes[m as int].wf());
    if k.waits_on(m, t) {
        let i = choose|i: int| 0 <= i < k.mutexes[m as int].waiters.len() && k.mutexes[m as int].waiters[i] == t;
        assert(k.valid_thread(k.mutexes[m as int].waiters[i]));
        assert(k.thread_ok(t));
    }
}

} // verus!
