//! Spin locks and the core's interrupt state: taking a lock masks
//! interrupts, and releasing the last lock held restores the state that was
//! in force before the first.
use vstd::prelude::*;

verus! {

/// The mathematical picture of a core's interrupt state.
pub struct InterruptView {
    /// Whether interrupts are enabled now.
    pub enabled: bool,
    /// How many spin locks the core holds.
    pub depth: nat,
    /// Whether interrupts were enabled before the first of those locks.
    pub saved: bool,
}

impl InterruptView {
    /// Interrupts are masked while any spin lock is held.
    pub open spec fn wf(self) -> bool {
        self.depth > 0 ==> !self.enabled
    }

    /// The state after one more lock is taken.
    pub open spec fn acquired(self) -> InterruptView {
        InterruptView {
            enabled: false,
            depth: self.depth + 1,
            saved: if self.depth == 0 { self.enabled } else { self.saved },
        }
    }

    /// The state after one lock is released.
    pub open spec fn released(self) -> InterruptView {
        InterruptView {
            enabled: if self.depth == 1 { self.saved } else { false },
            depth: (self.depth - 1) as nat,
            saved: self.saved,
        }
    }

    /// The state after `n` acquisitions.
    pub open spec fn acquired_n(self, n: nat) -> InterruptView
        decreases n,
    {
        if n == 0 { self } else { self.acquired_n((n - 1) as nat).acquired() }
    }

    /// The state after `n` releases.
    pub open spec fn released_n(self, n: nat) -> InterruptView
        decreases n,
    {
        if n == 0 { self } else { self.released_n((n - 1) as nat).released() }
    }
}

/// A core's interrupt state.
pub struct InterruptState {
    enabled: bool,
    depth: u64,
    saved: bool,
}

impl View for InterruptState {
    type V = InterruptView;

    closed spec fn view(&self) -> InterruptView {
        InterruptView { enabled: self.enabled, depth: self.depth as nat, saved: self.saved }
    }
}

impl InterruptState {
    /// A core with no lock held and interrupts enabled or not.
    pub fn new(enabled: bool) -> (s: InterruptState)
        ensures
            s@ == (InterruptView { enabled, depth: 0, saved: enabled }),
            s@.wf(),
    {
        InterruptState { enabled, depth: 0, saved: enabled }
    }

    /// Whether interrupts are enabled.
    pub fn interrupts_enabled(&self) -> (r: bool)
        ensures
            r == self@.enabled,
    {
        self.enabled
    }

    /// How many spin locks the core holds.
    pub fn depth(&self) -> (r: u64)
        ensures
            r as nat == self@.depth,
    {
        self.depth
    }

    /// Enables interrupts; not allowed while a spin lock is held.
    pub fn enable_interrupts(&mut self)
        requires
            old(self)@.depth == 0,
        ensures
            final(self)@ == (InterruptView { enabled: true, ..old(self)@ }),
    {
        self.enabled = true;
    }

    /// Disables interrupts.
    pub fn disable_interrupts(&mut self)
        requires
            old(self)@.wf(),
        ensures
            final(self)@ == (InterruptView { enabled: false, ..old(self)@ }),
            final(self)@.wf(),
    {
        self.enabled = false;
    }
}

/// Proof that the holder of a guard holds a spin lock; released exactly once
/// by handing it back to `SpinLock::unlock`.
#[must_use]
pub struct SpinLockGuard {
    lock_id: u64,
}

impl SpinLockGuard {
    /// The id of the lock this guard holds.
    pub fn lock_id(&self) -> (r: u64)
        ensures
            r == self.id(),
    {
        self.lock_id
    }

    pub closed spec fn id(self) -> u64 {
        self.lock_id
    }
}

/// A spin lock protecting a value.
pub struct SpinLock {
    id: u64,
    locked: bool,
    value: u64,
}

impl SpinLock {
    pub closed spec fn id(self) -> u64 {
        self.id
    }

    pub closed spec fn is_locked(self) -> bool {
        self.locked
    }

    pub closed spec fn value(self) -> u64 {
        self.value
    }

    /// A free lock named `id` protecting `value`.
    pub fn new(id: u64, value: u64) -> (l: SpinLock)
        ensures
            l.id() == id,
            !l.is_locked(),
            l.value() == value,
    {
        SpinLock { id, locked: false, value }
    }

    /// Whether the lock is held.
    pub fn locked(&self) -> (r: bool)
        ensures
            r == self.is_locked(),
    {
        self.locked
    }

    /// Takes the lock on a core that does not hold it, masking interrupts
    /// for the critical section.
    pub fn lock(&mut self, cpu: &mut InterruptState) -> (g: SpinLockGuard)
        requires
            !old(self).is_locked(),
            old(cpu)@.wf(),
            old(cpu)@.depth < u64::MAX,
        ensures
            final(self).is_locked(),
            final(self).id() == old(self).id(),
            final(self).value() == old(self).value(),
            g.id() == old(self).id(),
            final(cpu)@ == old(cpu)@.acquired(),
            final(cpu)@.wf(),
    {
        self.locked = true;
        if cpu.depth == 0 {
            cpu.saved = cpu.enabled;
        }
        cpu.enabled = false;
        cpu.depth = cpu.depth + 1;
        SpinLockGuard { lock_id: self.id }
    }

    /// The protected value, read under the lock.
    pub fn get(&self, g: &SpinLockGuard) -> (r: u64)
        requires
            self.is_locked(),
            g.id() == self.id(),
        ensures
            r == self.value(),
    {
        self.value
    }

    /// Replaces the protected value under the lock.
    pub fn set(&mut self, g: &SpinLockGuard, v: u64)
        requires
            old(self).is_locked(),
            g.id() == old(self).id(),
        ensures
            final(self).is_locked(),
            final(self).id() == old(self).id(),
            final(self).value() == v,
    {
        self.value = v;
    }

    /// Releases the lock; releasing the last lock the core holds restores
    /// the interrupt state from before the first.
    pub fn unlock(&mut self, g: SpinLockGuard, cpu: &mut InterruptState)
        requires
            old(self).is_locked(),
            g.id() == old(self).id(),
            old(cpu)@.wf(),
            old(cpu)@.depth > 0,
        ensures
            !final(self).is_locked(),
            final(self).id() == old(self).id(),
            final(self).value() == old(self).value(),
            final(cpu)@ == old(cpu)@.released(),
            final(cpu)@.wf(),
    {
        self.locked = false;
        cpu.depth = cpu.depth - 1;
        if cpu.depth == 0 {
            cpu.enabled = cpu.saved;
        } else {
            cpu.enabled = false;
        }
    }
}

/// Taking `n` spin locks and then releasing `n`, in whatever order, brings
/// a core that held none back to the interrupt state it started in, with
/// interrupts masked all the while in between.
pub proof fn lemma_nested_locks_restore_interrupts(s: InterruptView, n: nat)
    requires
        s.wf(),
        s.depth == 0,
    ensures
        s.acquired_n(n).released_n(n).enabled == s.enabled,
        s.acquired_n(n).released_n(n).depth == 0,
        forall|k: nat| 0 < k <= n ==> !(#[trigger] s.acquired_n(k)).enabled,
        forall|k: nat| k < n ==> !(#[trigger] s.acquired_n(n).released_n(k)).enabled,
{
    lemma_acquired_n(s, n);
    lemma_released_n(s, n, n);
    assert forall|k: nat| 0 < k <= n implies !(#[trigger] s.acquired_n(k)).enabled by {
        lemma_acquired_n(s, k);
    }
    assert forall|k: nat| k < n implies !(#[trigger] s.acquired_n(n).released_n(k)).enabled by {
        lemma_released_n(s, n, k);
    }
}

proof fn lemma_acquired_n(s: InterruptView, n: nat)
    requires
        s.depth == 0,
    ensures
        s.acquired_n(n).depth == n,
        n > 0 ==> !s.acquired_n(n).enabled && s.acquired_n(n).saved == s.enabled,
        n == 0 ==> s.acquired_n(n) == s,
    decreases n,
{
    if n > 0 {
        lemma_acquired_n(s, (n - 1) as nat);
    }
}

proof fn lemma_released_n(s: InterruptView, n: nat, k: nat)
    requires
        s.depth == 0,
        k <= n,
    ensures
        s.acquired_n(n).released_n(k).depth == n - k,
        n > 0 ==> s.acquired_n(n).released_n(k).saved == s.enabled,
        k < n ==> !s.acquired_n(n).released_n(k).enabled,
        k == n ==> s.acquired_n(n).released_n(k).enabled == s.enabled,
    decreases k,
{
    lemma_acquired_n(s, n);
    if k > 0 {
        lemma_released_n(s, n, (k - 1) as nat);
    }
}

} // verus!
