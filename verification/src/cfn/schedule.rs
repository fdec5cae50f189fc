use vstd::prelude::*;

use vstd::arithmetic::div_mod::{lemma_fundamental_div_mod, lemma_fundamental_div_mod_converse, lemma_mod_pos_bound};

verus! {

/// Why an SRMP run stops after an iteration.
#[derive(Clone, Copy, PartialEq, Eq, Structural, Debug)]
pub enum StopReason {
    /// The maximum number of iterations has been performed.
    MaxIterations,
    /// The time limit has been reached.
    TimeLimit,
    /// The lower bound increased by less than the precision over the last iteration.
    LowerBoundStalled,
}

/// The iteration bookkeeping of an SRMP run: the number of iterations performed, the counter
/// towards the next solution recomputation, and whether the coming iteration computes a
/// solution.
#[derive(Clone, Copy, PartialEq, Eq, Structural, Debug)]
pub struct RunSchedule {
    pub iteration: usize,
    pub iter_solution: usize,
    pub compute_solution: bool,
}

/// The schedule before the first iteration, with `period` iterations between solution
/// recomputations (0: never).
pub open spec fn schedule_start(period: nat) -> (int, int, bool) {
    (0, period as int, period > 0)
}

/// The schedule after one more iteration of a run with solution period `period` and at most
/// `max_iterations` iterations: the counter drops by the period after an iteration that
/// computed a solution and then counts the iteration; a solution is computed when the counter
/// reaches the period, and also in the last iteration, unless the period is 0.
pub open spec fn schedule_step(s: (int, int, bool), period: nat, max_iterations: nat) -> (int, int, bool) {
    let iteration = s.0 + 1;
    let iter_solution = s.1 - (if s.2 {
        period as int
    } else {
        0
    }) + 1;
    (iteration, iter_solution, period > 0 && (iter_solution == period || iteration + 1 == max_iterations))
}

/// The schedule after `k` iterations.
pub open spec fn schedule_after(period: nat, max_iterations: nat, k: nat) -> (int, int, bool)
    decreases k,
{
    if k == 0 {
        schedule_start(period)
    } else {
        schedule_step(schedule_after(period, max_iterations, (k - 1) as nat), period, max_iterations)
    }
}

/// Why a run stops after the iteration that leads to `s` (a schedule as `schedule_step` gives
/// it), if it does: the iteration count is checked first, then the time limit, then, from the
/// second iteration on, the lower bound.
pub open spec fn stop_reason(
    s: (int, int, bool),
    max_iterations: nat,
    time_limit_reached: bool,
    lower_bound_stalled: bool,
) -> Option<StopReason> {
    if s.0 >= max_iterations {
        Some(StopReason::MaxIterations)
    } else if time_limit_reached {
        Some(StopReason::TimeLimit)
    } else if s.0 > 1 && lower_bound_stalled {
        Some(StopReason::LowerBoundStalled)
    } else {
        None
    }
}

impl RunSchedule {
    /// The schedule as a triple of integers.
    pub open spec fn spec_triple(&self) -> (int, int, bool) {
        (self.iteration as int, self.iter_solution as int, self.compute_solution)
    }

    /// The schedule before the first iteration of a run with `compute_solution_period`
    /// iterations between solution recomputations (0: never).
    pub fn start(compute_solution_period: usize) -> (schedule: Self)
        ensures
            schedule.spec_triple() == schedule_start(compute_solution_period as nat),
    {
        RunSchedule {
            iteration: 0,
            iter_solution: compute_solution_period,
            compute_solution: compute_solution_period > 0,
        }
    }

    /// Advances the schedule past the iteration just performed and decides whether the run
    /// stops: `time_limit_reached` tells whether the elapsed time has reached the limit, and
    /// `lower_bound_stalled` whether the lower bound increased by less than the precision
    /// over the iteration.
    pub fn advance(
        &self,
        compute_solution_period: usize,
        max_iterations: usize,
        time_limit_reached: bool,
        lower_bound_stalled: bool,
    ) -> (next: (Self, Option<StopReason>))
        requires
            self.iteration + 2 <= usize::MAX,
            self.compute_solution ==> self.iter_solution >= compute_solution_period,
            self.iter_solution + 1 <= usize::MAX,
        ensures
            next.0.spec_triple() == schedule_step(
                self.spec_triple(),
                compute_solution_period as nat,
                max_iterations as nat,
            ),
            next.1 == stop_reason(next.0.spec_triple(), max_iterations as nat, time_limit_reached, lower_bound_stalled),
    {
        let iteration = self.iteration + 1;
        let mut iter_solution = self.iter_solution;
        if self.compute_solution {
            iter_solution = iter_solution - compute_solution_period;
        }
        iter_solution = iter_solution + 1;
        let compute_solution = compute_solution_period > 0 && (iter_solution == compute_solution_period
            || iteration + 1 == max_iterations);
        let next = RunSchedule { iteration, iter_solution, compute_solution };
        let stop = if iteration >= max_iterations {
            Some(StopReason::MaxIterations)
        } else if time_limit_reached {
            Some(StopReason::TimeLimit)
        } else if iteration > 1 && lower_bound_stalled {
            Some(StopReason::LowerBoundStalled)
        } else {
            None
        };
        (next, stop)
    }
}

/// With a positive period, the `k`-th iteration of a run (counting from 0) computes a solution
/// exactly when `k` is a multiple of the period or it is the last iteration, and the counter
/// then stands at `(k - 1) % period + 1` (at the period before the first iteration); before
/// the last iteration, the counter stands at the period whenever a solution is computed.
pub proof fn lemma_solution_period(period: nat, max_iterations: nat, k: nat)
    requires
        period > 0,
        k < max_iterations,
    ensures
        schedule_after(period, max_iterations, k).0 == k,
        schedule_after(period, max_iterations, k).1 == (if k == 0 {
            period as int
        } else {
            (k - 1) as int % (period as int) + 1
        }),
        schedule_after(period, max_iterations, k).2 == (k % period == 0 || k + 1 == max_iterations),
        k + 1 < max_iterations && schedule_after(period, max_iterations, k).2 ==> schedule_after(
            period,
            max_iterations,
            k,
        ).1 == period,
    decreases k,
{
    if k > 0 {
        let j = (k - 1) as nat;
        lemma_solution_period(period, max_iterations, j);
        let p = period as int;
        lemma_mod_succ(j as int, p);
        if j > 0 {
            lemma_mod_succ(j - 1, p);
        } else {
            lemma_mod_succ(-1, p);
            lemma_mod_succ(0, p);
        }
    }
}

/// The remainder of `x + 1` by `p` is one more than that of `x`, or 0 when that reaches `p`.
proof fn lemma_mod_succ(x: int, p: int)
    requires
        p > 0,
        x >= -1,
    ensures
        (x + 1) % p == (if x % p + 1 == p {
            0
        } else {
            x % p + 1
        }),
{
    if x == -1 {
        lemma_fundamental_div_mod_converse(0, p, 0, 0);
        lemma_fundamental_div_mod_converse(-1, p, -1, p - 1);
    } else {
        lemma_fundamental_div_mod(x, p);
        let q = x / p;
        let r = x % p;
        lemma_mod_pos_bound(x, p);
        if r + 1 < p {
            assert(x + 1 == q * p + (r + 1)) by (nonlinear_arith)
                requires
                    x == p * q + r,
            ;
            lemma_fundamental_div_mod_converse(x + 1, p, q, r + 1);
        } else {
            assert(x + 1 == (q + 1) * p + 0) by (nonlinear_arith)
                requires
                    x == p * q + r,
                    r + 1 == p,
            ;
            lemma_fundamental_div_mod_converse(x + 1, p, q + 1, 0);
        }
    }
}

/// With period 0, no iteration computes a solution and the counter counts the iterations.
pub proof fn lemma_no_solution_period(max_iterations: nat, k: nat)
    ensures
        schedule_after(0, max_iterations, k) == (k as int, k as int, false),
    decreases k,
{
    if k > 0 {
        lemma_no_solution_period(max_iterations, (k - 1) as nat);
    }
}

} // verus!
