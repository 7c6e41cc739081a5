use kernel::{SchedulerState, Switch, ThreadState};

fn three_ready() -> (SchedulerState, usize, usize, usize) {
    let mut s = SchedulerState::new();
    let boot = s.add_thread();
    let a = s.add_thread();
    let b = s.add_thread();
    s.bootstrap(boot);
    s.start_thread(a);
    s.start_thread(b);
    (s, boot, a, b)
}

#[test]
fn start_thread_appends_ready_in_fifo_order() {
    let (s, boot, a, b) = three_ready();
    assert_eq!(s.current(), Some(boot));
    assert_eq!(s.run_queue(), vec![a, b]);
    assert_eq!(s.state(a), ThreadState::Ready);
    assert_eq!(s.state(boot), ThreadState::Running);
    assert_eq!(s.thread_count(), 3);
}

#[test]
fn new_thread_is_unstarted() {
    let mut s = SchedulerState::new();
    let t = s.add_thread();
    assert_eq!(t, 0);
    assert_eq!(s.state(t), ThreadState::Unstarted);
    assert!(s.run_queue().is_empty());
    assert_eq!(s.current(), None);
    assert_eq!(s.idle(), None);
}

#[test]
fn yield_rotates_round_robin() {
    let (mut s, boot, a, b) = three_ready();
    assert_eq!(s.yield_timeslice(), Switch { from: boot, to: a });
    assert_eq!(s.run_queue(), vec![b, boot]);
    assert_eq!(s.yield_timeslice(), Switch { from: a, to: b });
    assert_eq!(s.yield_timeslice(), Switch { from: b, to: boot });
    assert_eq!(s.run_queue(), vec![a, b]);
    assert_eq!(s.state(boot), ThreadState::Running);
}

#[test]
fn every_ready_thread_runs_within_queue_length_yields() {
    let mut s = SchedulerState::new();
    let boot = s.add_thread();
    s.bootstrap(boot);
    let mut ids = Vec::new();
    for _ in 0..5 {
        let t = s.add_thread();
        s.start_thread(t);
        ids.push(t);
    }
    let mut ran = Vec::new();
    for _ in 0..5 {
        ran.push(s.yield_timeslice().to);
    }
    assert_eq!(ran, ids);
}

#[test]
fn yield_alone_keeps_running() {
    let mut s = SchedulerState::new();
    let t = s.add_thread();
    s.bootstrap(t);
    assert_eq!(s.yield_timeslice(), Switch { from: t, to: t });
    assert_eq!(s.state(t), ThreadState::Running);
    assert!(s.run_queue().is_empty());
}

#[test]
fn blocking_switches_to_head_and_wake_appends() {
    let mut s = SchedulerState::new();
    let boot = s.add_thread();
    let idle = s.add_thread();
    let a = s.add_thread();
    s.bootstrap(boot);
    s.start_idle_thread(idle);
    s.start_thread(a);
    assert_eq!(s.idle(), Some(idle));
    let sw = s.switch_out(ThreadState::Blocked);
    assert_eq!(sw, Switch { from: boot, to: idle });
    assert_eq!(s.state(boot), ThreadState::Blocked);
    assert_eq!(s.run_queue(), vec![a]);
    s.make_ready(boot);
    assert_eq!(s.run_queue(), vec![a, boot]);
    assert_eq!(s.state(boot), ThreadState::Ready);
}

#[test]
fn idle_keeps_run_queue_nonempty() {
    let mut s = SchedulerState::new();
    let boot = s.add_thread();
    let idle = s.add_thread();
    s.bootstrap(boot);
    s.start_idle_thread(idle);
    let sw = s.switch_out(ThreadState::Sleeping);
    assert_eq!(sw.to, idle);
    assert!(s.run_queue().is_empty());
    assert_eq!(s.current(), Some(idle));
    // The idle thread only ever yields, and comes straight back.
    assert_eq!(s.yield_timeslice(), Switch { from: idle, to: idle });
}
