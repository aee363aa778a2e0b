use vstd::prelude::*;

use crate::fairness::resumes_of;

verus! {

/// The Fibonacci numbers: 0, 1, 1, 2, 3, 5, ...
pub open spec fn fib(n: nat) -> nat
    decreases n,
{
    if n < 2 {
        n
    } else {
        fib((n - 1) as nat) + fib((n - 2) as nat)
    }
}

/// Two consecutive Fibonacci numbers, as the sample Fibonacci task keeps them.
pub struct Fibonacci {
    pub index: u64,
    pub current: u64,
    pub next: u64,
}

impl Fibonacci {
    /// `current` is the Fibonacci number at `index`, `next` the one after.
    pub open spec fn wf(&self) -> bool {
        &&& self.current == fib(self.index as nat)
        &&& self.next == fib((self.index + 1) as nat)
    }

    /// Starts at fib(0) = 0 and fib(1) = 1.
    pub fn new() -> (r: Fibonacci)
        ensures
            r.wf(),
            r.index == 0,
    {
        Fibonacci { index: 0, current: 0, next: 1 }
    }

    /// Moves one step along the sequence. Returns false, and changes
    /// nothing, where the number after `next` does not fit in a `u64`.
    pub fn advance(&mut self) -> (moved: bool)
        requires
            old(self).wf(),
        ensures
            final(self).wf(),
            moved == (old(self).index < u64::MAX && fib((old(self).index + 2) as nat) <= u64::MAX),
            moved ==> final(self).index == old(self).index + 1,
            !moved ==> *final(self) == *old(self),
    {
        if self.index == u64::MAX {
            return false;
        }
        assert(fib((self.index + 2) as nat) == fib(self.index as nat) + fib((self.index + 1) as nat));
        match self.current.checked_add(self.next) {
            Some(after) => {
                self.index = self.index + 1;
                self.current = self.next;
                self.next = after;
                true
            },
            None => false,
        }
    }
}

/// The square of `i`, as the sample squares task prints it, where it fits
/// in a `u64`.
pub fn square(i: u64) -> (r: Option<u64>)
    ensures
        i * i <= u64::MAX ==> r == Some((i * i) as u64),
        i * i > u64::MAX ==> r is None,
{
    i.checked_mul(i)
}

/// One line of output of the two sample tasks: task 0 prints the Fibonacci
/// numbers, task 1 the squares.
#[derive(Clone, Copy, Debug, PartialEq, Eq, Structural)]
pub enum SampleLine {
    Fibonacci { index: u64, value: u64 },
    Square { index: u64, value: u64 },
}

impl View for SampleLine {
    /// Whether it is a Fibonacci line, its index and its value.
    type V = (bool, nat, nat);

    open spec fn view(&self) -> (bool, nat, nat) {
        match *self {
            SampleLine::Fibonacci { index, value } => (true, index as nat, value as nat),
            SampleLine::Square { index, value } => (false, index as nat, value as nat),
        }
    }
}

/// What the sample tasks print when resumed in the given order: task 0 prints
/// fib(k) on its resume k (from 0) and task 1 prints k * k on its resume k,
/// each for k below `amount`.
pub open spec fn sample_output(order: Seq<usize>, amount: nat) -> Seq<(bool, nat, nat)>
    decreases order.len(),
{
    if order.len() == 0 {
        Seq::empty()
    } else {
        let before = sample_output(order.drop_last(), amount);
        let k = resumes_of(order.drop_last(), order.last());
        if order.last() == 0 && k < amount {
            before.push((true, k, fib(k)))
        } else if order.last() == 1 && k < amount {
            before.push((false, k, k * k))
        } else {
            before
        }
    }
}

/// Every value of the output fits in a `u64`.
pub open spec fn output_fits(out: Seq<(bool, nat, nat)>) -> bool {
    forall|i: int| 0 <= i < out.len() ==> #[trigger] out[i].2 <= u64::MAX
}

proof fn lemma_output_prefix(order: Seq<usize>, amount: nat, i: int, j: int)
    requires
        0 <= i <= j <= order.len(),
    ensures
        sample_output(order.take(i), amount).len() <= sample_output(order.take(j), amount).len(),
        sample_output(order.take(i), amount) == sample_output(order.take(j), amount).take(
            sample_output(order.take(i), amount).len() as int,
        ),
    decreases j - i,
{
    if i < j {
        lemma_output_prefix(order, amount, i, j - 1);
        assert(order.take(j).drop_last() =~= order.take(j - 1));
        let a = sample_output(order.take(i), amount);
        let b = sample_output(order.take(j - 1), amount);
        let c = sample_output(order.take(j), amount);
        assert(c.take(a.len() as int) =~= b.take(a.len() as int));
    } else {
        let a = sample_output(order.take(i), amount);
        assert(a.take(a.len() as int) =~= a);
    }
}

proof fn lemma_output_step(order: Seq<usize>, amount: nat, p: int)
    requires
        0 <= p < order.len(),
    ensures
        ({
            let before = sample_output(order.take(p), amount);
            let k = resumes_of(order.take(p), order[p]);
            sample_output(order.take(p + 1), amount) == if order[p] == 0 && k < amount {
                before.push((true, k, fib(k)))
            } else if order[p] == 1 && k < amount {
                before.push((false, k, k * k))
            } else {
                before
            }
        }),
{
    assert(order.take(p + 1).drop_last() =~= order.take(p));
}

proof fn lemma_overflow_reported(
    order: Seq<usize>,
    amount: nat,
    p: int,
    entry: (bool, nat, nat),
)
    requires
        0 <= p < order.len(),
        sample_output(order.take(p + 1), amount) == sample_output(order.take(p), amount).push(
            entry,
        ),
        entry.2 > u64::MAX,
    ensures
        !output_fits(sample_output(order, amount)),
{
    let out = sample_output(order.take(p + 1), amount);
    lemma_output_prefix(order, amount, p + 1, order.len() as int);
    assert(order.take(order.len() as int) =~= order);
    let whole = sample_output(order, amount);
    assert(whole[out.len() - 1] == out[out.len() - 1]);
}

/// The lines that the two sample tasks print when resumed in the given
/// order, or `None` where a value to print does not fit in a `u64`.
pub fn sample_lines(order: &Vec<usize>, amount: u64) -> (r: Option<Vec<SampleLine>>)
    ensures
        match r {
            Some(lines) => lines@.map_values(|l: SampleLine| l@) == sample_output(
                order@,
                amount as nat,
            ),
            None => !output_fits(sample_output(order@, amount as nat)),
        },
{
    let ghost n = amount as nat;
    let mut lines: Vec<SampleLine> = Vec::new();
    let mut fib_seen: u64 = 0;
    let mut squares_seen: u64 = 0;
    let mut numbers = Fibonacci::new();
    let mut p: usize = 0;
    while p < order.len()
        invariant
            n == amount as nat,
            p <= order.len(),
            lines@.map_values(|l: SampleLine| l@) == sample_output(order@.take(p as int), n),
            fib_seen == resumes_of(order@.take(p as int), 0),
            squares_seen == resumes_of(order@.take(p as int), 1),
            fib_seen <= p,
            squares_seen <= p,
            numbers.wf(),
            numbers.index as int == if fib_seen < 2 || amount < 2 {
                0
            } else if fib_seen <= amount {
                fib_seen - 2
            } else {
                amount - 2
            },
        decreases order.len() - p,
    {
        let id = order[p];
        let ghost before = order@.take(p as int);
        proof {
            lemma_output_step(order@, n, p as int);
        }
        if id == 0 && fib_seen < amount {
            if fib_seen >= 2 {
                if !numbers.advance() {
                    proof {
                        let k = fib_seen as nat;
                        assert(sample_output(order@.take(p + 1), n) == sample_output(before, n).push(
                            (true, k, fib(k)),
                        ));
                        lemma_overflow_reported(order@, n, p as int, (true, k, fib(k)));
                    }
                    return None;
                }
            }
            let value = if fib_seen == 0 {
                numbers.current
            } else {
                numbers.next
            };
            lines.push(SampleLine::Fibonacci { index: fib_seen, value });
            fib_seen = fib_seen + 1;
        } else if id == 1 && squares_seen < amount {
            match square(squares_seen) {
                Some(value) => {
                    lines.push(SampleLine::Square { index: squares_seen, value });
                },
                None => {
                    proof {
                        let k = squares_seen as nat;
                        assert(sample_output(order@.take(p + 1), n) == sample_output(before, n).push(
                            (false, k, k * k),
                        ));
                        lemma_overflow_reported(order@, n, p as int, (false, k, k * k));
                    }
                    return None;
                },
            }
            squares_seen = squares_seen + 1;
        } else if id == 0 {
            fib_seen = fib_seen + 1;
        } else if id == 1 {
            squares_seen = squares_seen + 1;
        }
        proof {
            assert(order@.take(p + 1) =~= before.push(id));
            crate::fairness::lemma_resumes_push(before, id, 0);
            crate::fairness::lemma_resumes_push(before, id, 1);
        }
        assert(lines@.map_values(|l: SampleLine| l@) =~= sample_output(
            order@.take(p + 1),
            n,
        ));
        p = p + 1;
    }
    assert(order@.take(p as int) =~= order@);
    Some(lines)
}

} // verus!
