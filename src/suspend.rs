use vstd::prelude::*;

use crate::signal::Signal;
use crate::task::{Progress, Task};

verus! {

/// A single-use yield: the first resume reports `StillRunning`, every
/// later one reports `Finished`.
pub struct WaitUntilNextPoll {
    pub already_polled: bool,
}

/// What one resume of a suspension point reports, given whether it was
/// resumed before.
pub open spec fn poll_outcome(already_polled: bool) -> Progress {
    if already_polled {
        Progress::Finished
    } else {
        Progress::StillRunning
    }
}

/// The outcomes of `n` successive resumes of a suspension point.
pub open spec fn poll_outcomes(already_polled: bool, n: nat) -> Seq<Progress>
    decreases n,
{
    if n == 0 {
        Seq::empty()
    } else {
        seq![poll_outcome(already_polled)] + poll_outcomes(true, (n - 1) as nat)
    }
}

/// A fresh suspension point.
pub fn wait_until_next_poll() -> (r: WaitUntilNextPoll)
    ensures
        !r.already_polled,
{
    WaitUntilNextPoll { already_polled: false }
}

impl Task for WaitUntilNextPoll {
    open spec fn pending_resumes(&self) -> nat {
        if self.already_polled {
            0
        } else {
            1
        }
    }

    fn resume(&mut self, signal: &Signal) -> (p: Progress)
        ensures
            p == poll_outcome(old(self).already_polled),
            final(self).already_polled,
    {
        if self.already_polled {
            Progress::Finished
        } else {
            self.already_polled = true;
            Progress::StillRunning
        }
    }
}

/// Resuming a fresh suspension point `n` times reports `StillRunning` once
/// and then `Finished` every time after.
pub proof fn lemma_suspension_determinism(n: nat)
    requires
        n >= 1,
    ensures
        poll_outcomes(false, n) == seq![Progress::StillRunning] + Seq::new(
            (n - 1) as nat,
            |i: int| Progress::Finished,
        ),
{
    lemma_spent_point_finishes((n - 1) as nat);
    assert(poll_outcomes(false, n) =~= seq![Progress::StillRunning] + poll_outcomes(
        true,
        (n - 1) as nat,
    ));
}

/// A point that was already resumed reports `Finished` on every resume.
pub proof fn lemma_spent_point_finishes(n: nat)
    ensures
        poll_outcomes(true, n) == Seq::new(n, |i: int| Progress::Finished),
    decreases n,
{
    if n > 0 {
        lemma_spent_point_finishes((n - 1) as nat);
        assert(poll_outcomes(true, n) =~= Seq::new(n, |i: int| Progress::Finished));
    } else {
        assert(poll_outcomes(true, n) =~= Seq::new(n, |i: int| Progress::Finished));
    }
}

/// A task that passes through a given number of suspension points, one
/// after another, and then completes.
pub struct SuspendTimes {
    pub points_left: u64,
    pub current: Option<WaitUntilNextPoll>,
}

/// A task that suspends `n` times before completing: it reports
/// `StillRunning` on its first `n` resumes and `Finished` on the next.
pub fn suspend_times(n: u64) -> (r: SuspendTimes)
    ensures
        r.pending_resumes() == n,
{
    SuspendTimes { points_left: n, current: None }
}

impl Task for SuspendTimes {
    open spec fn pending_resumes(&self) -> nat {
        (self.points_left + match self.current {
            Some(point) => point.pending_resumes(),
            None => 0,
        }) as nat
    }

    fn resume(&mut self, signal: &Signal) -> (p: Progress) {
        if let Some(point) = &mut self.current {
            let r = point.resume(signal);
            if r.is_pending() {
                return r;
            }
            self.current = None;
        }
        if self.points_left == 0 {
            return Progress::Finished;
        }
        self.points_left = self.points_left - 1;
        let mut point = wait_until_next_poll();
        let r = point.resume(signal);
        self.current = Some(point);
        r
    }
}

} // verus!
