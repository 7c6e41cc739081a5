use kernel::{Clock, InterruptState, PreemptState, SpinLock};

#[test]
fn lock_masks_and_unlock_restores() {
    let mut cpu = InterruptState::new(true);
    let mut l = SpinLock::new(1, 10);
    let g = l.lock(&mut cpu);
    assert!(l.locked());
    assert!(!cpu.interrupts_enabled());
    assert_eq!(l.get(&g), 10);
    l.set(&g, 11);
    assert_eq!(g.lock_id(), 1);
    l.unlock(g, &mut cpu);
    assert!(!l.locked());
    assert!(cpu.interrupts_enabled());
    assert_eq!(cpu.depth(), 0);
}

#[test]
fn nested_locks_restore_on_last_release_in_any_order() {
    let mut cpu = InterruptState::new(true);
    let mut a = SpinLock::new(1, 0);
    let mut b = SpinLock::new(2, 0);
    let ga = a.lock(&mut cpu);
    let gb = b.lock(&mut cpu);
    assert_eq!(cpu.depth(), 2);
    a.unlock(ga, &mut cpu);
    assert!(!cpu.interrupts_enabled());
    b.unlock(gb, &mut cpu);
    assert!(cpu.interrupts_enabled());
}

#[test]
fn release_keeps_interrupts_off_if_they_were_off() {
    let mut cpu = InterruptState::new(false);
    let mut a = SpinLock::new(1, 0);
    let g = a.lock(&mut cpu);
    a.unlock(g, &mut cpu);
    assert!(!cpu.interrupts_enabled());
    cpu.enable_interrupts();
    assert!(cpu.interrupts_enabled());
    cpu.disable_interrupts();
    assert!(!cpu.interrupts_enabled());
}

#[test]
fn clock_moves_forward() {
    let mut c = Clock::new();
    assert_eq!(c.now(), 0);
    c.advance_to(600);
    assert_eq!(c.now(), 600);
}

#[test]
fn preemption_returns_only_when_every_guard_is_back() {
    let mut p = PreemptState::new();
    assert!(p.may_switch());
    let g1 = p.disable();
    let g2 = p.disable();
    assert!(!p.may_switch());
    p.enable(g1);
    assert!(!p.may_switch());
    p.enable(g2);
    assert!(p.may_switch());
}
