//! Probes that look at a run without steering it.

use vstd::prelude::*;

verus! {

/// State displaced by a probe, owed back to the run.
#[must_use]
pub struct Displaced<S> {
    /// The state as the run left it.
    natural: S,
}

impl<S> View for Displaced<S> {
    type V = S;

    closed spec fn view(&self) -> S {
        self.natural
    }
}

impl<S> Displaced<S> {
    /// Installs `snap` and keeps the state it displaced.
    pub fn borrow(state: &mut S, snap: S) -> (d: Displaced<S>)
        ensures
            *final(state) == snap,
            d@ == *old(state),
    {
        let mut natural = snap;
        std::mem::swap(state, &mut natural);
        Displaced { natural }
    }

    /// Puts the displaced state back, whatever the probe left behind.
    pub fn give_back(self, state: &mut S)
        ensures
            *final(state) == self@,
    {
        *state = self.natural;
    }
}

} // verus!
