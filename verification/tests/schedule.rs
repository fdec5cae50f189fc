use srmp::cfn::schedule::{RunSchedule, StopReason};

fn run(period: usize, max_iterations: usize, stalled_from: usize) -> (Vec<bool>, StopReason) {
    let mut schedule = RunSchedule::start(period);
    let mut computed = Vec::new();
    loop {
        computed.push(schedule.compute_solution);
        let stalled = schedule.iteration + 1 >= stalled_from;
        let (next, stop) = schedule.advance(period, max_iterations, false, stalled);
        schedule = next;
        if let Some(reason) = stop {
            return (computed, reason);
        }
    }
}

#[test]
fn schedule_computes_every_period_and_at_the_end() {
    let (computed, reason) = run(3, 7, usize::MAX);
    assert_eq!(computed, vec![true, false, false, true, false, false, true]);
    assert_eq!(reason, StopReason::MaxIterations);
}

#[test]
fn schedule_with_period_one_computes_always() {
    let (computed, reason) = run(1, 4, usize::MAX);
    assert_eq!(computed, vec![true, true, true, true]);
    assert_eq!(reason, StopReason::MaxIterations);
}

#[test]
fn schedule_with_period_zero_never_computes() {
    let (computed, reason) = run(0, 5, usize::MAX);
    assert_eq!(computed, vec![false, false, false, false, false]);
    assert_eq!(reason, StopReason::MaxIterations);
}

#[test]
fn schedule_stalled_lower_bound_stops_from_second_iteration() {
    // the lower bound is reported stalled from the first iteration on, but only counts after two
    let (computed, reason) = run(2, 100, 0);
    assert_eq!(computed.len(), 2);
    assert_eq!(reason, StopReason::LowerBoundStalled);
}

#[test]
fn schedule_time_limit_and_counters() {
    let schedule = RunSchedule::start(4);
    assert_eq!(schedule, RunSchedule { iteration: 0, iter_solution: 4, compute_solution: true });
    let (next, stop) = schedule.advance(4, 10, true, true);
    assert_eq!(next, RunSchedule { iteration: 1, iter_solution: 1, compute_solution: false });
    assert_eq!(stop, Some(StopReason::TimeLimit));
    let (next, stop) = next.advance(4, 10, false, false);
    assert_eq!(next, RunSchedule { iteration: 2, iter_solution: 2, compute_solution: false });
    assert_eq!(stop, None);
    // the maximum number of iterations is checked before the time limit
    let (_, stop) = next.advance(4, 3, true, true);
    assert_eq!(stop, Some(StopReason::MaxIterations));
}
