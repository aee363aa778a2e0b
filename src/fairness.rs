use vstd::prelude::*;

use crate::executor::{initial_queue, lemma_step_weight, round_robin, step, weight, QueueEntry};

verus! {

/// How many times task `id` occurs in the resume order `t`.
pub open spec fn resumes_of(t: Seq<usize>, id: usize) -> nat
    decreases t.len(),
{
    if t.len() == 0 {
        0
    } else {
        resumes_of(t.drop_last(), id) + if t.last() == id {
            1nat
        } else {
            0nat
        }
    }
}

/// Round-robin fairness of a resume order: whenever task `b` is resumed for
/// the (k+1)-th time, every task `a` admitted before it that needs more
/// than `k` resumes in all has already had its (k+1)-th resume.
pub open spec fn is_fair(t: Seq<usize>, pending: Seq<nat>) -> bool {
    forall|p: int, a: usize|
        #![trigger resumes_of(t.take(p), a), t[p]]
        0 <= p < t.len() && a < t[p] && resumes_of(t.take(p), t[p]) < pending[a as int] + 1
            ==> resumes_of(t.take(p), a) > resumes_of(t.take(p), t[p])
}

spec fn queued(q: Seq<QueueEntry>, a: usize) -> bool {
    exists|i: int| 0 <= i < q.len() && q[i].0 == a
}

/// What holds after the resumes `t`, with the queue `q` still to run.
spec fn run_invariant(t: Seq<usize>, q: Seq<QueueEntry>, pending: Seq<nat>) -> bool {
    &&& forall|p: int| 0 <= p < t.len() ==> (t[p] as int) < pending.len()
    &&& forall|i: int|
        0 <= i < q.len() ==> (q[i].0 as int) < pending.len() && q[i].1 + resumes_of(t, q[i].0)
            == pending[q[i].0 as int]
    &&& forall|i: int, j: int| 0 <= i < j < q.len() ==> q[i].0 != q[j].0
    &&& forall|a: usize|
        (a as int) < pending.len() && !queued(q, a) ==> resumes_of(t, a) == pending[a as int] + 1
    &&& forall|i: int, j: int|
        0 <= i < q.len() && 0 <= j < q.len() && q[i].0 < q[j].0 ==> {
            ||| i < j && resumes_of(t, q[i].0) == resumes_of(t, q[j].0)
            ||| i > j && resumes_of(t, q[i].0) == resumes_of(t, q[j].0) + 1
        }
    &&& is_fair(t, pending)
}

pub(crate) proof fn lemma_resumes_push(t: Seq<usize>, b: usize, x: usize)
    ensures
        resumes_of(t.push(b), x) == resumes_of(t, x) + if x == b {
            1nat
        } else {
            0nat
        },
{
    assert(t.push(b).drop_last() =~= t);
}

proof fn lemma_resumes_prefix(t: Seq<usize>, i: int, j: int, x: usize)
    requires
        0 <= i <= j <= t.len(),
    ensures
        resumes_of(t.take(i), x) <= resumes_of(t.take(j), x),
    decreases j - i,
{
    if i < j {
        lemma_resumes_prefix(t, i, j - 1, x);
        assert(t.take(j) =~= t.take(j - 1).push(t[j - 1]));
        lemma_resumes_push(t.take(j - 1), t[j - 1], x);
    }
}

proof fn lemma_run_step(t: Seq<usize>, q: Seq<QueueEntry>, pending: Seq<nat>)
    requires
        run_invariant(t, q, pending),
        q.len() > 0,
    ensures
        run_invariant(t.push(q[0].0), step(q), pending),
{
    let b = q[0].0;
    let t2 = t.push(b);
    let q2 = step(q);
    let last = q.len() - 1;
    assert forall|x: usize| #[trigger]
        resumes_of(t2, x) == resumes_of(t, x) + if x == b {
            1nat
        } else {
            0nat
        } by {
        lemma_resumes_push(t, b, x);
    }
    assert forall|i: int| 0 <= i < last implies #[trigger] q2[i] == q[i + 1] && q2[i].0 != b by {
        assert(q[i + 1].0 != q[0].0);
    }
    if q[0].1 > 0 {
        assert(q2.len() == q.len());
        assert(q2[last] == (b, (q[0].1 - 1) as nat));
    } else {
        assert(q2.len() == last);
    }
    // the resumes of every task stay within the admitted tasks
    assert forall|p: int| 0 <= p < t2.len() implies (t2[p] as int) < pending.len() by {
        if p < t.len() {
            assert(t2[p] == t[p]);
        }
    }
    // the entries still owe what the tasks have left
    assert forall|i: int| 0 <= i < q2.len() implies (q2[i].0 as int) < pending.len() && q2[i].1
        + resumes_of(t2, q2[i].0) == pending[q2[i].0 as int] by {
        if i < last {
            assert(q2[i] == q[i + 1]);
        }
    }
    // ids stay distinct
    assert forall|i: int, j: int| 0 <= i < j < q2.len() implies q2[i].0 != q2[j].0 by {
        if j < last {
            assert(q[i + 1].0 != q[j + 1].0);
        }
    }
    // a task that left the queue has had all its resumes
    assert forall|a: usize| (a as int) < pending.len() && !queued(q2, a) implies resumes_of(t2, a)
        == pending[a as int] + 1 by {
        if a == b {
            if q[0].1 > 0 {
                assert(q2[last].0 == a);
            }
        } else if queued(q, a) {
            let i = choose|i: int| 0 <= i < q.len() && q[i].0 == a;
            assert(i > 0);
            assert(q2[i - 1].0 == a);
        }
    }
    // the queue keeps tasks that have had one more resume ahead of the rest
    assert forall|i: int, j: int|
        0 <= i < q2.len() && 0 <= j < q2.len() && q2[i].0 < q2[j].0 implies {
        ||| i < j && resumes_of(t2, q2[i].0) == resumes_of(t2, q2[j].0)
        ||| i > j && resumes_of(t2, q2[i].0) == resumes_of(t2, q2[j].0) + 1
    } by {
        if i < last && j < last {
            assert(q[i + 1].0 < q[j + 1].0);
        } else if i < last {
            // j is the task that was just resumed
            assert(q[i + 1].0 < q[0].0);
        } else if j < last {
            assert(q[0].0 < q[j + 1].0);
        }
    }
    // fairness of the resume just made
    assert forall|p: int, a: usize|
        0 <= p < t2.len() && a < t2[p] && resumes_of(t2.take(p), t2[p]) < pending[a as int]
            + 1 implies resumes_of(t2.take(p), a) > resumes_of(t2.take(p), t2[p]) by {
        if p < t.len() {
            assert(t2.take(p) =~= t.take(p));
            assert(t2[p] == t[p]);
        } else {
            assert(t2.take(p) =~= t);
            if queued(q, a) {
                let i = choose|i: int| 0 <= i < q.len() && q[i].0 == a;
                assert(q[i].0 < q[0].0);
            }
        }
    }
    assert(is_fair(t2, pending));
}

proof fn lemma_run(t: Seq<usize>, q: Seq<QueueEntry>, pending: Seq<nat>)
    requires
        run_invariant(t, q, pending),
    ensures
        is_fair(t + round_robin(q), pending),
        forall|a: usize|
            (a as int) < pending.len() ==> #[trigger] resumes_of(t + round_robin(q), a)
                == pending[a as int] + 1,
        forall|p: int|
            0 <= p < (t + round_robin(q)).len() ==> ((t + round_robin(q))[p] as int)
                < pending.len(),
        (t + round_robin(q)).len() == t.len() + weight(q),
    decreases weight(q),
{
    if q.len() == 0 {
        assert(t + round_robin(q) =~= t);
        assert forall|a: usize| (a as int) < pending.len() implies #[trigger] resumes_of(
            t + round_robin(q),
            a,
        ) == pending[a as int] + 1 by {
            assert(!queued(q, a));
        }
    } else {
        lemma_run_step(t, q, pending);
        lemma_step_weight(q);
        lemma_step_weight_exact(q);
        lemma_run(t.push(q[0].0), step(q), pending);
        assert(t + round_robin(q) =~= t.push(q[0].0) + round_robin(step(q)));
    }
}

proof fn lemma_step_weight_exact(q: Seq<QueueEntry>)
    requires
        q.len() > 0,
    ensures
        weight(step(q)) + 1 == weight(q),
{
    if q[0].1 > 0 {
        crate::executor::lemma_weight_push(q.drop_first(), (q[0].0, (q[0].1 - 1) as nat));
    }
}

proof fn lemma_run_from_start(pending: Seq<nat>)
    requires
        pending.len() <= usize::MAX,
    ensures
        is_fair(round_robin(initial_queue(pending)), pending),
        forall|a: usize|
            (a as int) < pending.len() ==> #[trigger] resumes_of(
                round_robin(initial_queue(pending)),
                a,
            ) == pending[a as int] + 1,
        forall|p: int|
            0 <= p < round_robin(initial_queue(pending)).len() ==> (round_robin(
                initial_queue(pending),
            )[p] as int) < pending.len(),
        round_robin(initial_queue(pending)).len() == weight(initial_queue(pending)),
{
    let q = initial_queue(pending);
    let t = Seq::<usize>::empty();
    assert forall|a: usize| (a as int) < pending.len() implies queued(q, a) by {
        assert(q[a as int].0 == a);
    }
    assert(run_invariant(t, q, pending));
    lemma_run(t, q, pending);
    assert(t + round_robin(q) =~= round_robin(q));
}

/// Round-robin fairness: when tasks are admitted in order, a task's k-th
/// resume comes before the k-th resume of every task admitted after it,
/// for as long as it still needs k resumes.
pub proof fn lemma_round_robin_fair(pending: Seq<nat>)
    requires
        pending.len() <= usize::MAX,
    ensures
        is_fair(round_robin(initial_queue(pending)), pending),
{
    lemma_run_from_start(pending);
}

/// Termination: the run performs finitely many resumes, one more than the
/// pending count of each task, and every task gets exactly that many, so
/// every task has finished and the queue is empty when the run returns.
pub proof fn lemma_round_robin_completes(pending: Seq<nat>)
    requires
        pending.len() <= usize::MAX,
    ensures
        round_robin(initial_queue(pending)).len() == weight(initial_queue(pending)),
        forall|a: usize|
            (a as int) < pending.len() ==> #[trigger] resumes_of(
                round_robin(initial_queue(pending)),
                a,
            ) == pending[a as int] + 1,
{
    lemma_run_from_start(pending);
}

/// A task is never resumed again after the resume on which it reports
/// `Finished` (its resume number `pending + 1`).
pub proof fn lemma_finished_never_resumed(pending: Seq<nat>)
    requires
        pending.len() <= usize::MAX,
    ensures
        forall|p: int, r: int|
            #![trigger round_robin(initial_queue(pending))[p], round_robin(initial_queue(pending))[r]]
            0 <= p < r < round_robin(initial_queue(pending)).len() && resumes_of(
                round_robin(initial_queue(pending)).take(p + 1),
                round_robin(initial_queue(pending))[p],
            ) == pending[round_robin(initial_queue(pending))[p] as int] + 1
                ==> round_robin(initial_queue(pending))[r] != round_robin(
                initial_queue(pending),
            )[p],
{
    let t = round_robin(initial_queue(pending));
    lemma_run_from_start(pending);
    assert forall|p: int, r: int|
        0 <= p < r < t.len() && resumes_of(t.take(p + 1), t[p]) == pending[t[p] as int] + 1
            implies t[r] != t[p] by {
        if t[r] == t[p] {
            let x = t[p];
            lemma_resumes_prefix(t, p + 1, r, x);
            assert(t.take(r + 1) =~= t.take(r).push(t[r]));
            lemma_resumes_push(t.take(r), t[r], x);
            lemma_resumes_prefix(t, r + 1, t.len() as int, x);
            assert(t.take(t.len() as int) =~= t);
            assert(resumes_of(t, x) == pending[x as int] + 1);
        }
    }
}

} // verus!
