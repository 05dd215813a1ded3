//! The decisions of the runner that drives an optimiser on a worker thread:
//! when to ask the worker for more steps, and what the worker reports.
use vstd::prelude::*;

use crate::problem::Solution;

verus! {

/// What the worker sends back after running a batch of steps.
#[derive(Clone)]
pub struct RunnerUpdate {
    pub solution: Solution,
    pub iterations_done: usize,
    pub total_iterations: usize,
    pub is_finished: bool,
}

impl RunnerUpdate {
    /// The report of a batch that took the iteration count from `before` to
    /// `after` (0 iterations done if the count went down).
    pub fn after_batch(solution: Solution, before: usize, after: usize, is_finished: bool) -> (r:
        RunnerUpdate)
        ensures
            r.solution == solution,
            r.iterations_done == (if after >= before {
                (after - before) as usize
            } else {
                0usize
            }),
            r.total_iterations == after,
            r.is_finished == is_finished,
    {
        RunnerUpdate {
            solution,
            iterations_done: after.saturating_sub(before),
            total_iterations: after,
            is_finished,
        }
    }
}

/// What the interface side knows of the worker.
pub struct RunnerState {
    pub awaiting_update: bool,
    pub is_finished: bool,
}

/// What the worker does after a batch: go on waiting for commands, or stop
/// because the optimiser is finished or nobody listens any more.
pub open spec fn worker_continues(sent: bool, finished: bool) -> bool {
    sent && !finished
}

/// Whether the worker goes on after a batch: only when its report was
/// delivered and the optimiser is not finished.
pub fn worker_should_continue(sent: bool, finished: bool) -> (r: bool)
    ensures
        r == worker_continues(sent, finished),
{
    sent && !finished
}

impl RunnerState {
    pub fn new() -> (r: RunnerState)
        ensures
            !r.awaiting_update,
            !r.is_finished,
    {
        RunnerState { awaiting_update: false, is_finished: false }
    }

    /// A new batch is asked for only when the run is not over and no report
    /// is pending.
    pub fn wants_step(&self) -> (r: bool)
        ensures
            r == (!self.is_finished && !self.awaiting_update),
    {
        !self.is_finished && !self.awaiting_update
    }

    /// After asking for a batch: a delivered request waits for its report, a
    /// request that could not be delivered ends the run.
    pub fn request_sent(&mut self, delivered: bool)
        ensures
            delivered ==> final(self).awaiting_update && final(self).is_finished == old(
                self,
            ).is_finished,
            !delivered ==> final(self).is_finished && final(self).awaiting_update == old(
                self,
            ).awaiting_update,
    {
        if delivered {
            self.awaiting_update = true;
        } else {
            self.is_finished = true;
        }
    }

    /// A report arrived: nothing is pending any more, and the run is over
    /// when the report says so.
    pub fn update_received(&mut self, update: &RunnerUpdate)
        ensures
            !final(self).awaiting_update,
            final(self).is_finished == update.is_finished,
    {
        self.awaiting_update = false;
        self.is_finished = update.is_finished;
    }

    pub fn is_finished(&self) -> (r: bool)
        ensures
            r == self.is_finished,
    {
        self.is_finished
    }
}

/// The solvers the interface offers.
#[derive(Clone, Copy, PartialEq, Eq, Structural, Debug)]
pub enum SolverKind {
    SimulatedAnnealing,
    TabuSearch,
}

} // verus!
