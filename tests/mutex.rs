use kernel::Mutex;

#[test]
fn free_mutex_is_taken_at_once() {
    let mut m = Mutex::new(7);
    assert!(m.try_acquire(1));
    assert_eq!(m.owner(), Some(1));
    assert!(!m.try_acquire(2));
    assert_eq!(m.owner(), Some(1));
    assert_eq!(m.value(), 7);
}

#[test]
fn release_hands_off_in_fifo_order() {
    let mut m = Mutex::new(0);
    m.try_acquire(1);
    m.enqueue(2);
    m.enqueue(3);
    m.enqueue(4);
    assert_eq!(m.waiters(), vec![2, 3, 4]);
    assert_eq!(m.release(), Some(2));
    assert_eq!(m.owner(), Some(2));
    assert_eq!(m.release(), Some(3));
    assert_eq!(m.release(), Some(4));
    assert_eq!(m.release(), None);
    assert_eq!(m.owner(), None);
}

#[test]
fn removed_waiter_is_skipped() {
    let mut m = Mutex::new(0);
    m.try_acquire(1);
    m.enqueue(2);
    m.enqueue(3);
    assert!(m.remove_waiter(2));
    assert!(!m.remove_waiter(2));
    assert_eq!(m.release(), Some(3));
}

#[test]
fn set_value_replaces_value() {
    let mut m = Mutex::new(1);
    m.try_acquire(0);
    m.set_value(9);
    assert_eq!(m.value(), 9);
}
