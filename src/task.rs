use vstd::prelude::*;

use crate::signal::Signal;

verus! {

/// The outcome of resuming a task once.
#[derive(Clone, Copy, Debug, PartialEq, Eq, Structural)]
pub enum Progress {
    /// The task has completed; it must not be resumed again.
    Finished,
    /// The task suspended itself and wants to be resumed later.
    StillRunning,
}

impl Progress {
    pub fn is_pending(&self) -> (r: bool)
        ensures
            r == (*self == Progress::StillRunning),
    {
        match self {
            Progress::Finished => false,
            Progress::StillRunning => true,
        }
    }
}

/// A suspendable computation that the scheduler drives by resuming it.
///
/// Its abstract state is the number of resumes that will still report
/// `StillRunning` before one reports `Finished`: every task completes after
/// a bounded number of resumes.
pub trait Task {
    spec fn pending_resumes(&self) -> nat;

    fn resume(&mut self, signal: &Signal) -> (p: Progress)
        ensures
            old(self).pending_resumes() == 0 ==> p == Progress::Finished,
            old(self).pending_resumes() > 0 ==> {
                &&& p == Progress::StillRunning
                &&& final(self).pending_resumes() == old(self).pending_resumes() - 1
            },
    ;
}

} // verus!
