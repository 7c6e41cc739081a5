//! Preemption control: scoped tokens that keep the scheduler from
//! switching the running thread away while any is held.
use vstd::prelude::*;

verus! {

/// A token that holds preemption off; handing it back to
/// `PreemptState::enable` is its one release.
#[must_use]
pub struct PreemptDisableGuard {
    _private: (),
}

/// How many preempt-disable tokens the core has out.
pub struct PreemptState {
    count: u64,
}

impl View for PreemptState {
    type V = nat;

    closed spec fn view(&self) -> nat {
        self.count as nat
    }
}

impl PreemptState {
    /// Preemption allowed, no token out.
    pub fn new() -> (p: PreemptState)
        ensures
            p@ == 0,
    {
        PreemptState { count: 0 }
    }

    /// Hands out a token; preemption stays off until every token is back.
    pub fn disable(&mut self) -> (g: PreemptDisableGuard)
        requires
            old(self)@ < u64::MAX,
        ensures
            final(self)@ == old(self)@ + 1,
    {
        self.count = self.count + 1;
        PreemptDisableGuard { _private: () }
    }

    /// Takes a token back.
    pub fn enable(&mut self, _guard: PreemptDisableGuard)
        requires
            old(self)@ > 0,
        ensures
            final(self)@ == old(self)@ - 1,
    {
        self.count = self.count - 1;
    }

    /// Whether the scheduler may switch the running thread away.
    pub fn may_switch(&self) -> (r: bool)
        ensures
            r == (self@ == 0),
    {
        self.count == 0
    }
}

} // verus!
