use vstd::prelude::*;

verus! {

/// The token handed to every resume call.
///
/// It carries no data: the scheduler never waits to be woken, it simply
/// resumes each pending task again, so every notification is a no-op.
#[derive(Clone, Copy, Debug, PartialEq, Eq, Structural)]
pub struct Signal {}

impl Signal {
    /// Produces a copy of the signal; the copy is indistinguishable from it.
    pub fn duplicate(&self) -> (r: Signal)
        ensures
            r == *self,
    {
        Signal {}
    }

    /// Notifies by value. Nothing happens.
    pub fn wake(self) {
    }

    /// Notifies by reference. Nothing happens and the signal is unchanged.
    pub fn wake_by_ref(&self) {
    }

    /// Releases the signal. Nothing is freed, as nothing was allocated.
    pub fn release(self) {
    }
}

/// The shared signal used for every resume call.
pub fn noop_waker() -> (r: Signal)
    ensures
        r == (Signal {}),
{
    Signal {}
}

} // verus!
