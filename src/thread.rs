//! Thread states and thread identities.
use vstd::prelude::*;

verus! {

/// A thread is named by its index in the scheduler's thread table.
pub type ThreadId = usize;

/// Where a thread stands in its life cycle.
#[derive(Clone, Copy, Debug, PartialEq, Eq, Structural)]
pub enum ThreadState {
    /// Initialized but never started.
    Unstarted,
    /// Waiting in the run queue for a core.
    Ready,
    /// Bound to the core's current-thread slot.
    Running,
    /// Waiting in the wait set of a mutex.
    Blocked,
    /// Waiting in the timer queue for its deadline.
    Sleeping,
}

} // verus!
