//! The integer side of the descent (hill climbing) and of simulated
//! annealing: how many neighbours were tried and accepted, when the descent
//! stops and when the annealing cools down.
use vstd::prelude::*;

verus! {

/// The descent has no parameter.
#[derive(Clone, Debug)]
pub struct HCParams {}

impl Default for HCParams {
    fn default() -> (r: HCParams)
        ensures
            r == (HCParams {  }),
    {
        HCParams {  }
    }
}

/// The parameters a new descent starts with.
pub fn create_default_params() -> (r: HCParams)
    ensures
        r == (HCParams {  }),
{
    HCParams::default()
}

/// The descent stops after this many neighbours in a row that did not
/// improve on the current solution.
pub const PATIENCE: usize = 10000;

/// What the descent counts.
pub struct DescentProgress {
    pub total_iterations: usize,
    pub nb_accepted: usize,
    pub no_better_solution_iterations: usize,
}

impl DescentProgress {
    pub fn new() -> (r: DescentProgress)
        ensures
            r.total_iterations == 0,
            r.nb_accepted == 0,
            r.no_better_solution_iterations == 0,
    {
        DescentProgress { total_iterations: 0, nb_accepted: 0, no_better_solution_iterations: 0 }
    }

    /// The descent is over after `PATIENCE` neighbours in a row without
    /// improvement.
    pub fn is_finished(&self) -> (r: bool)
        ensures
            r == (self.no_better_solution_iterations >= PATIENCE),
    {
        self.no_better_solution_iterations >= PATIENCE
    }

    /// Counts one neighbour: an improving one is accepted and resets the run
    /// of failures, another lengthens it.
    pub fn record(&mut self, improved: bool)
        requires
            old(self).total_iterations < usize::MAX,
            old(self).nb_accepted < usize::MAX,
            old(self).no_better_solution_iterations < usize::MAX,
        ensures
            final(self).total_iterations == old(self).total_iterations + 1,
            improved ==> final(self).nb_accepted == old(self).nb_accepted + 1
                && final(self).no_better_solution_iterations == 0,
            !improved ==> final(self).nb_accepted == old(self).nb_accepted
                && final(self).no_better_solution_iterations
                == old(self).no_better_solution_iterations + 1,
    {
        if improved {
            self.nb_accepted = self.nb_accepted + 1;
            self.no_better_solution_iterations = 0;
        } else {
            self.no_better_solution_iterations = self.no_better_solution_iterations + 1;
        }
        self.total_iterations = self.total_iterations + 1;
    }
}

/// What simulated annealing counts: neighbours tried, accepted, and tried
/// at the current temperature.
pub struct AnnealingProgress {
    pub total_iterations: usize,
    pub nb_accepted: usize,
    pub iter_in_temp: usize,
    pub iter_per_temp: usize,
}

impl AnnealingProgress {
    pub fn new(iter_per_temp: usize) -> (r: AnnealingProgress)
        ensures
            r.total_iterations == 0,
            r.nb_accepted == 0,
            r.iter_in_temp == 0,
            r.iter_per_temp == iter_per_temp,
    {
        AnnealingProgress { total_iterations: 0, nb_accepted: 0, iter_in_temp: 0, iter_per_temp }
    }

    /// Counts one neighbour, accepted or not, and says whether the
    /// temperature must drop now: after `iter_per_temp` neighbours at the
    /// same temperature, whose count then starts again from 0.
    pub fn record(&mut self, accepted: bool) -> (cool: bool)
        requires
            old(self).total_iterations < usize::MAX,
            old(self).nb_accepted < usize::MAX,
            old(self).iter_in_temp < usize::MAX,
        ensures
            final(self).total_iterations == old(self).total_iterations + 1,
            final(self).nb_accepted == old(self).nb_accepted + if accepted {
                1int
            } else {
                0int
            },
            final(self).iter_per_temp == old(self).iter_per_temp,
            cool == (old(self).iter_in_temp + 1 >= old(self).iter_per_temp),
            cool ==> final(self).iter_in_temp == 0,
            !cool ==> final(self).iter_in_temp == old(self).iter_in_temp + 1,
    {
        if accepted {
            self.nb_accepted = self.nb_accepted + 1;
        }
        self.total_iterations = self.total_iterations + 1;
        self.iter_in_temp = self.iter_in_temp + 1;
        if self.iter_in_temp >= self.iter_per_temp {
            self.iter_in_temp = 0;
            true
        } else {
            false
        }
    }
}

} // verus!
