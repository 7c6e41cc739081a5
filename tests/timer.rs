use kernel::{TimerEntry, TimerQueue};

fn e(deadline: u64, thread: usize) -> TimerEntry {
    TimerEntry { deadline, thread }
}

#[test]
fn insert_keeps_deadline_order_and_fifo_ties() {
    let mut q = TimerQueue::new();
    assert_eq!(q.insert(50, 1), 0);
    assert_eq!(q.insert(10, 2), 0);
    assert_eq!(q.insert(50, 3), 2);
    assert_eq!(q.insert(30, 4), 1);
    assert_eq!(q.entries(), vec![e(10, 2), e(30, 4), e(50, 1), e(50, 3)]);
    assert_eq!(q.len(), 4);
    assert!(q.contains(4));
    assert!(!q.contains(9));
}

#[test]
fn pop_expired_wakes_in_deadline_order() {
    let mut q = TimerQueue::new();
    q.insert(30, 1);
    q.insert(10, 2);
    q.insert(20, 3);
    q.insert(40, 4);
    assert_eq!(q.pop_expired(30), vec![2, 3, 1]);
    assert_eq!(q.entries(), vec![e(40, 4)]);
    assert_eq!(q.pop_expired(39), Vec::<usize>::new());
    assert_eq!(q.pop_expired(40), vec![4]);
    assert_eq!(q.len(), 0);
}

#[test]
fn pop_expired_on_empty_queue() {
    let mut q = TimerQueue::new();
    assert!(q.pop_expired(u64::MAX).is_empty());
}

#[test]
fn pop_first_expired_takes_only_due_head() {
    let mut q = TimerQueue::new();
    q.insert(5, 7);
    assert_eq!(q.pop_first_expired(4), None);
    assert_eq!(q.pop_first_expired(5), Some(e(5, 7)));
    assert_eq!(q.pop_first_expired(5), None);
}

#[test]
fn cancel_removes_without_waking() {
    let mut q = TimerQueue::new();
    q.insert(5, 1);
    q.insert(6, 2);
    q.insert(7, 3);
    assert!(q.cancel(2));
    assert!(!q.cancel(2));
    assert_eq!(q.entries(), vec![e(5, 1), e(7, 3)]);
}
