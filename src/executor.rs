use vstd::prelude::*;

use std::collections::VecDeque;

use crate::signal::noop_waker;
use crate::task::{Progress, Task};

verus! {

/// How the schedule sees one queued task: its index among the admitted
/// tasks, and how many of its resumes will still report `StillRunning`.
pub type QueueEntry = (usize, nat);

/// The number of resumes still owed to the tasks in a queue.
pub open spec fn weight(q: Seq<QueueEntry>) -> nat
    decreases q.len(),
{
    if q.len() == 0 {
        0
    } else {
        q[0].1 + 1 + weight(q.drop_first())
    }
}

/// The queue after its front task has been resumed once: a task that still
/// runs goes to the back, a finished one is dropped.
pub open spec fn step(q: Seq<QueueEntry>) -> Seq<QueueEntry>
    recommends
        q.len() > 0,
{
    if q[0].1 == 0 {
        q.drop_first()
    } else {
        q.drop_first().push((q[0].0, (q[0].1 - 1) as nat))
    }
}

/// The order in which the tasks of a queue are resumed until it is empty,
/// each entry being the index of the task resumed.
pub open spec fn round_robin(q: Seq<QueueEntry>) -> Seq<usize>
    decreases weight(q),
    via round_robin_decreases
{
    if q.len() == 0 {
        Seq::empty()
    } else {
        seq![q[0].0] + round_robin(step(q))
    }
}

/// The queue right after admission: task `i` stands at position `i`.
pub open spec fn initial_queue(pending: Seq<nat>) -> Seq<QueueEntry> {
    Seq::new(pending.len(), |i: int| (i as usize, pending[i]))
}

/// The number of `StillRunning` resumes that each task still has ahead.
pub open spec fn pending_of<T: Task>(tasks: Seq<T>) -> Seq<nat> {
    tasks.map_values(|t: T| t.pending_resumes())
}

/// The order in which `execute_many` resumes the given tasks.
pub open spec fn schedule<T: Task>(tasks: Seq<T>) -> Seq<usize> {
    round_robin(initial_queue(pending_of(tasks)))
}

/// A queue of tasks as the schedule sees it.
pub open spec fn queue_model<T: Task>(q: Seq<(usize, T)>) -> Seq<QueueEntry> {
    Seq::new(q.len(), |i: int| (q[i].0, q[i].1.pending_resumes()))
}

pub(crate) proof fn lemma_weight_push(q: Seq<QueueEntry>, e: QueueEntry)
    ensures
        weight(q.push(e)) == weight(q) + e.1 + 1,
    decreases q.len(),
{
    if q.len() > 0 {
        assert(q.push(e).drop_first() =~= q.drop_first().push(e));
        lemma_weight_push(q.drop_first(), e);
    } else {
        assert(q.push(e).drop_first() =~= Seq::<QueueEntry>::empty());
        assert(weight(Seq::<QueueEntry>::empty()) == 0);
    }
}

pub(crate) proof fn lemma_step_weight(q: Seq<QueueEntry>)
    requires
        q.len() > 0,
    ensures
        weight(step(q)) < weight(q),
{
    if q[0].1 > 0 {
        lemma_weight_push(q.drop_first(), (q[0].0, (q[0].1 - 1) as nat));
    }
}

#[via_fn]
proof fn round_robin_decreases(q: Seq<QueueEntry>) {
    if q.len() > 0 {
        lemma_step_weight(q);
    }
}

/// Runs two tasks to completion, alternating between them while both still
/// run; returns the index (0 or 1) of the task resumed at each iteration.
pub fn concurrent<T: Task>(f1: T, f2: T) -> (order: Vec<usize>)
    ensures
        order@ == schedule(seq![f1, f2]),
{
    let mut fs: Vec<T> = Vec::new();
    fs.push(f1);
    fs.push(f2);
    assert(fs@ =~= seq![f1, f2]);
    execute_many(fs)
}

/// Runs every task to completion, resuming the front task of a queue once
/// per iteration and sending it to the back while it still runs.
///
/// Returns the index of the task resumed at each iteration, in order.
pub fn execute_many<T: Task>(fs: Vec<T>) -> (order: Vec<usize>)
    ensures
        order@ == schedule(fs@),
{
    let ghost admitted = fs@;
    let ghost pending = pending_of(admitted);
    let signal = noop_waker();
    let mut fs = fs;
    let mut queue: VecDeque<(usize, T)> = VecDeque::new();
    while fs.len() > 0
        invariant
            fs.len() <= admitted.len(),
            fs@ == admitted.take(fs.len() as int),
            pending == pending_of(admitted),
            queue_model(queue@) == initial_queue(pending).subrange(
                fs.len() as int,
                admitted.len() as int,
            ),
        decreases fs.len(),
    {
        let ghost old_model = queue_model(queue@);
        let t = fs.pop().unwrap();
        let id = fs.len();
        assert(t == admitted[id as int]);
        assert(pending[id as int] == t.pending_resumes());
        queue.push_front((id, t));
        assert(queue_model(queue@) =~= seq![(id, pending[id as int])] + old_model);
        assert(queue_model(queue@) =~= initial_queue(pending).subrange(
            fs.len() as int,
            admitted.len() as int,
        ));
    }
    assert(initial_queue(pending).subrange(0, admitted.len() as int) =~= initial_queue(pending));
    let mut order: Vec<usize> = Vec::new();
    while queue.len() > 0
        invariant
            order@ + round_robin(queue_model(queue@)) == round_robin(initial_queue(pending)),
        decreases weight(queue_model(queue@)),
    {
        let ghost q = queue_model(queue@);
        let ghost before = order@;
        let (id, mut task) = queue.pop_front().unwrap();
        let progress = task.resume(&signal);
        order.push(id);
        if progress.is_pending() {
            queue.push_back((id, task));
        }
        proof {
            assert(queue_model(queue@) =~= step(q));
            lemma_step_weight(q);
            assert(round_robin(q) == seq![id] + round_robin(step(q)));
            assert(order@ + round_robin(step(q)) =~= before + (seq![id] + round_robin(step(q))));
        }
    }
    assert(round_robin(queue_model(queue@)) =~= Seq::<usize>::empty());
    assert(order@ + Seq::<usize>::empty() =~= order@);
    order
}

} // verus!
