use kernel::{Kernel, KernelState, LockResult, LockStep, Switch, ThreadState, Wait};

struct Booted {
    k: KernelState,
    boot: usize,
    idle: usize,
    a: usize,
}

fn booted() -> Booted {
    let mut k = KernelState::new();
    let boot = k.main();
    let idle = k.bootstrap_thread_entry();
    let a = k.create_thread();
    k.start_thread(a);
    Booted { k, boot, idle, a }
}

#[test]
fn new_kernel_is_empty() {
    let k = KernelState::new();
    assert_eq!(k.get_scheduler().thread_count(), 0);
    assert_eq!(k.get_scheduler().current(), None);
    assert_eq!(k.get_timer_queue().len(), 0);
    assert_eq!(k.mutex_count(), 0);
    assert_eq!(k.now(), 0);
}

#[test]
fn bootstrap_runs_first_thread_and_idle_waits() {
    let b = booted();
    let s = b.k.get_scheduler();
    assert_eq!(s.current(), Some(b.boot));
    assert_eq!(s.idle(), Some(b.idle));
    assert_eq!(s.run_queue(), vec![b.idle, b.a]);
    assert_eq!(s.state(b.idle), ThreadState::Ready);
}

#[test]
fn sleep_does_not_resume_before_deadline() {
    let mut b = booted();
    let sw = b.k.sleep_until(100);
    assert_eq!(sw, Switch { from: b.boot, to: b.idle });
    assert_eq!(b.k.wait_of(b.boot), Wait::Sleep);
    assert_eq!(b.k.get_scheduler().state(b.boot), ThreadState::Sleeping);
    assert!(b.k.tick(99).is_empty());
    assert_eq!(b.k.get_scheduler().state(b.boot), ThreadState::Sleeping);
    assert_eq!(b.k.tick(100), vec![b.boot]);
    assert_eq!(b.k.get_scheduler().state(b.boot), ThreadState::Ready);
    assert_eq!(b.k.wait_of(b.boot), Wait::Nothing);
    assert!(b.k.now() >= 100);
}

#[test]
fn tick_wakes_sleepers_in_deadline_order() {
    let mut b = booted();
    b.k.sleep_until(50);
    b.k.yield_timeslice();
    assert_eq!(b.k.get_scheduler().current(), Some(b.a));
    b.k.sleep_until(20);
    assert_eq!(b.k.tick(60), vec![b.a, b.boot]);
    assert_eq!(b.k.get_scheduler().run_queue(), vec![b.a, b.boot]);
    assert_eq!(b.k.now(), 60);
}

#[test]
fn uncontended_lock_is_acquired() {
    let mut b = booted();
    let m = b.k.create_mutex(5);
    assert_eq!(b.k.mutex_lock(m), LockStep::Acquired);
    assert_eq!(b.k.mutex_owner(m), Some(b.boot));
    b.k.set_mutex_value(m, 6);
    assert_eq!(b.k.mutex_value(m), 6);
    assert_eq!(b.k.mutex_unlock(m), None);
    assert_eq!(b.k.mutex_owner(m), None);
}

#[test]
fn contended_lock_blocks_and_is_handed_off() {
    let mut b = booted();
    let m = b.k.create_mutex(0);
    b.k.mutex_lock(m);
    b.k.yield_timeslice(); // idle runs
    b.k.yield_timeslice(); // a runs
    assert_eq!(b.k.get_scheduler().current(), Some(b.a));
    let step = b.k.mutex_lock(m);
    assert!(matches!(step, LockStep::Blocked(Switch { from, .. }) if from == b.a));
    assert_eq!(b.k.get_scheduler().state(b.a), ThreadState::Blocked);
    assert_eq!(b.k.mutex_waiters(m), vec![b.a]);
    // Back to the owner.
    while b.k.get_scheduler().current() != Some(b.boot) {
        b.k.yield_timeslice();
    }
    assert_eq!(b.k.mutex_unlock(m), Some(b.a));
    assert_eq!(b.k.mutex_owner(m), Some(b.a));
    assert_eq!(b.k.lock_result(b.a), Some(LockResult::Granted));
    assert_eq!(b.k.get_scheduler().state(b.a), ThreadState::Ready);
}

#[test]
fn timed_lock_times_out_exactly_once() {
    let mut b = booted();
    let m = b.k.create_mutex(0);
    b.k.mutex_lock(m);
    b.k.yield_timeslice();
    b.k.yield_timeslice();
    assert!(matches!(b.k.mutex_lock_until(m, 30), LockStep::Blocked(_)));
    assert_eq!(b.k.wait_of(b.a), Wait::Lock { mutex: m, timed: true });
    assert!(b.k.get_timer_queue().contains(b.a));
    assert_eq!(b.k.tick(30), vec![b.a]);
    assert_eq!(b.k.lock_result(b.a), Some(LockResult::TimedOut));
    assert!(b.k.mutex_waiters(m).is_empty());
    assert_eq!(b.k.mutex_owner(m), Some(b.boot));
    while b.k.get_scheduler().current() != Some(b.boot) {
        b.k.yield_timeslice();
    }
    // The timed-out thread is not handed the mutex afterwards.
    assert_eq!(b.k.mutex_unlock(m), None);
    assert_eq!(b.k.lock_result(b.a), Some(LockResult::TimedOut));
}

#[test]
fn granted_timed_lock_cancels_its_timer() {
    let mut b = booted();
    let m = b.k.create_mutex(0);
    b.k.mutex_lock(m);
    b.k.yield_timeslice();
    b.k.yield_timeslice();
    b.k.mutex_lock_until(m, 30);
    while b.k.get_scheduler().current() != Some(b.boot) {
        b.k.yield_timeslice();
    }
    assert_eq!(b.k.mutex_unlock(m), Some(b.a));
    assert!(!b.k.get_timer_queue().contains(b.a));
    assert!(b.k.tick(1000).is_empty());
    assert_eq!(b.k.lock_result(b.a), Some(LockResult::Granted));
    assert_eq!(b.k.mutex_owner(m), Some(b.a));
}

#[test]
fn main_and_bootstrap_entry_touch_only_the_new_threads() {
    let mut k = KernelState::new();
    let m = k.create_mutex(3);
    let boot = k.main();
    assert_eq!(k.wait_of(boot), Wait::Nothing);
    assert_eq!(k.lock_result(boot), None);
    let idle = k.bootstrap_thread_entry();
    assert_eq!(k.get_scheduler().run_queue(), vec![idle]);
    assert_eq!(k.get_timer_queue().len(), 0);
    assert_eq!(k.mutex_value(m), 3);
    assert_eq!(k.mutex_owner(m), None);
    assert_eq!(k.now(), 0);
}

#[test]
fn on_tick_preempts_only_when_something_woke_and_allowed() {
    let mut b = booted();
    b.k.sleep_until(10);
    // idle runs; nothing due yet.
    assert_eq!(b.k.on_tick(5, true), (vec![], None));
    assert_eq!(b.k.get_scheduler().current(), Some(b.idle));
    // Due, but preemption held off: woken, no switch.
    assert_eq!(b.k.on_tick(10, false), (vec![b.boot], None));
    assert_eq!(b.k.get_scheduler().current(), Some(b.idle));
    b.k.yield_timeslice(); // a runs
    b.k.sleep_until(20); // a sleeps; next is boot
    assert_eq!(b.k.get_scheduler().current(), Some(b.boot));
    let (woken, sw) = b.k.on_tick(20, true);
    assert_eq!(woken, vec![b.a]);
    assert_eq!(sw, Some(Switch { from: b.boot, to: b.idle }));
    assert_eq!(b.k.get_scheduler().run_queue(), vec![b.a, b.boot]);
}

#[test]
fn tick_keeps_mutex_owner_value_and_other_waiters() {
    let mut k = KernelState::new();
    let boot = k.main();
    let idle = k.bootstrap_thread_entry();
    let a = k.create_thread();
    let c = k.create_thread();
    k.start_thread(a);
    k.start_thread(c);
    let m = k.create_mutex(42);
    k.mutex_lock(m);
    while k.get_scheduler().current() != Some(a) {
        k.yield_timeslice();
    }
    k.mutex_lock_until(m, 10);
    while k.get_scheduler().current() != Some(c) {
        k.yield_timeslice();
    }
    k.mutex_lock(m);
    assert_eq!(k.mutex_waiters(m), vec![a, c]);
    let idle_before = k.get_scheduler().state(idle);
    let current_before = k.get_scheduler().current();
    assert_eq!(k.tick(10), vec![a]);
    assert_eq!(k.mutex_waiters(m), vec![c]);
    assert_eq!(k.mutex_owner(m), Some(boot));
    assert_eq!(k.mutex_value(m), 42);
    assert_eq!(k.lock_result(c), None);
    assert_eq!(k.wait_of(c), Wait::Lock { mutex: m, timed: false });
    assert_eq!(k.get_scheduler().state(idle), idle_before);
    assert_eq!(k.get_scheduler().current(), current_before);
}
