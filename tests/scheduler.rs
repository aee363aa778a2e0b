use tiny_executor::demo::{sample_lines, square, Fibonacci, SampleLine};
use tiny_executor::executor::{concurrent, execute_many};
use tiny_executor::signal::{noop_waker, Signal};
use tiny_executor::suspend::{suspend_times, wait_until_next_poll, SuspendTimes};
use tiny_executor::task::{Progress, Task};

#[test]
fn two_tasks_alternate_then_the_longer_runs_alone() {
    // A suspends three times, B once.
    let order = concurrent(suspend_times(3), suspend_times(1));
    assert_eq!(order, vec![0, 1, 0, 1, 0, 0]);
}

#[test]
fn single_task_without_suspension_is_resumed_once() {
    let order = execute_many(vec![suspend_times(0)]);
    assert_eq!(order, vec![0]);
}

#[test]
fn no_tasks_means_no_resumes() {
    let order = execute_many(Vec::<SuspendTimes>::new());
    assert!(order.is_empty());
}

#[test]
fn three_tasks_round_robin() {
    let order = execute_many(vec![suspend_times(2), suspend_times(0), suspend_times(1)]);
    assert_eq!(order, vec![0, 1, 2, 0, 2, 0]);
}

#[test]
fn earlier_task_gets_each_round_first() {
    let order = execute_many(vec![suspend_times(4), suspend_times(4)]);
    // a task's k-th resume comes before the other's k-th resume
    assert_eq!(order, vec![0, 1, 0, 1, 0, 1, 0, 1, 0, 1]);
}

#[test]
fn every_task_gets_its_resumes_and_no_more() {
    let counts: Vec<u64> = vec![5, 0, 3, 1];
    let tasks: Vec<SuspendTimes> = counts.iter().map(|c| suspend_times(*c)).collect();
    let order = execute_many(tasks);
    assert_eq!(order.len(), 13);
    assert_eq!(order, vec![0, 1, 2, 3, 0, 2, 3, 0, 2, 0, 2, 0, 0]);
    for (id, c) in counts.iter().enumerate() {
        let n = order.iter().filter(|x| **x == id).count() as u64;
        assert_eq!(n, c + 1);
    }
}

#[test]
fn fresh_suspension_point_yields_once() {
    let signal = noop_waker();
    let mut point = wait_until_next_poll();
    assert_eq!(point.resume(&signal), Progress::StillRunning);
    assert_eq!(point.resume(&signal), Progress::Finished);
    assert_eq!(point.resume(&signal), Progress::Finished);
    assert_eq!(point.resume(&signal), Progress::Finished);
}

#[test]
fn suspend_times_reports_in_order() {
    let signal = noop_waker();
    let mut task = suspend_times(2);
    assert_eq!(task.resume(&signal), Progress::StillRunning);
    assert_eq!(task.resume(&signal), Progress::StillRunning);
    assert_eq!(task.resume(&signal), Progress::Finished);
}

#[test]
fn signal_notifications_change_nothing() {
    let signal = noop_waker();
    for _ in 0..10 {
        signal.wake_by_ref();
    }
    let copy = signal.duplicate();
    assert_eq!(copy, signal);
    copy.wake();
    signal.duplicate().release();
    assert_eq!(signal, Signal {});
    let mut point = wait_until_next_poll();
    assert_eq!(point.resume(&signal), Progress::StillRunning);
}

#[test]
fn progress_is_pending_only_while_running() {
    assert!(Progress::StillRunning.is_pending());
    assert!(!Progress::Finished.is_pending());
}

#[test]
fn fibonacci_first_values() {
    let mut f = Fibonacci::new();
    let mut seen = vec![f.current];
    for _ in 0..7 {
        assert!(f.advance());
        seen.push(f.current);
    }
    assert_eq!(seen, vec![0, 1, 1, 2, 3, 5, 8, 13]);
    assert_eq!(f.index, 7);
    assert_eq!(f.next, 21);
}

#[test]
fn fibonacci_stops_before_overflow() {
    let mut f = Fibonacci::new();
    for _ in 0..92 {
        assert!(f.advance());
    }
    assert_eq!(f.index, 92);
    assert_eq!(f.current, 7540113804746346429);
    assert_eq!(f.next, 12200160415121876738);
    assert!(!f.advance());
    assert_eq!(f.index, 92);
    assert_eq!(f.next, 12200160415121876738);
}

#[test]
fn squares() {
    assert_eq!(square(0), Some(0));
    assert_eq!(square(4), Some(16));
    assert_eq!(square(4294967295), Some(18446744065119617025));
    assert_eq!(square(4294967296), None);
}

#[test]
fn sample_tasks_interleave_their_lines() {
    let order = concurrent(suspend_times(4), suspend_times(5));
    assert_eq!(order, vec![0, 1, 0, 1, 0, 1, 0, 1, 0, 1, 1]);
    let lines = sample_lines(&order, 5).unwrap();
    let expected = vec![
        SampleLine::Fibonacci { index: 0, value: 0 },
        SampleLine::Square { index: 0, value: 0 },
        SampleLine::Fibonacci { index: 1, value: 1 },
        SampleLine::Square { index: 1, value: 1 },
        SampleLine::Fibonacci { index: 2, value: 1 },
        SampleLine::Square { index: 2, value: 4 },
        SampleLine::Fibonacci { index: 3, value: 2 },
        SampleLine::Square { index: 3, value: 9 },
        SampleLine::Fibonacci { index: 4, value: 3 },
        SampleLine::Square { index: 4, value: 16 },
    ];
    assert_eq!(lines, expected);
}

#[test]
fn sample_lines_ignore_resumes_past_amount() {
    let lines = sample_lines(&vec![1, 1, 1, 2], 2).unwrap();
    assert_eq!(
        lines,
        vec![SampleLine::Square { index: 0, value: 0 }, SampleLine::Square { index: 1, value: 1 }]
    );
}

#[test]
fn sample_lines_largest_fibonacci_fits() {
    let order = vec![0usize; 94];
    let lines = sample_lines(&order, 94).unwrap();
    assert_eq!(lines.len(), 94);
    assert_eq!(lines[93], SampleLine::Fibonacci { index: 93, value: 12200160415121876738 });
}

#[test]
fn sample_lines_report_overflow() {
    let order = vec![0usize; 95];
    assert_eq!(sample_lines(&order, 95), None);
}
