//! The concurrency and isolation core of a small real-time kernel: the
//! thread state machine, a FIFO run queue, a deadline-ordered timer queue,
//! spin locks and mutexes built on the scheduler, and memory-protection
//! configurations. Every transition is a plain-value function whose contract
//! says exactly how the kernel's state changes; the architecture layer that
//! performs the resulting context switches lives outside this crate.
pub mod kernel;
pub mod memory;
pub mod mutex;
pub mod preempt;
pub mod scheduler;
pub mod spinlock;
pub mod thread;
pub mod time;
pub mod timer;

pub use kernel::{Kernel, KernelState, KernelView, LockResult, LockStep, Wait};
pub use memory::{MemoryConfig, MemoryRegion, MemoryRegionType, ProtectionUnit, PMP_ENTRIES};
pub use mutex::Mutex;
pub use preempt::{PreemptDisableGuard, PreemptState};
pub use scheduler::{SchedulerState, Switch};
pub use spinlock::{InterruptState, SpinLock, SpinLockGuard};
pub use thread::{ThreadId, ThreadState};
pub use time::{Clock, TICKS_PER_SEC};
pub use timer::{TimerEntry, TimerQueue};
