//! Vehicle routing with capacities and time windows: instance parsing,
//! solutions and their feasibility, neighbourhood moves and the bookkeeping
//! of the optimisers that search over them.
use vstd::prelude::*;

pub mod text;
pub mod parser;
pub mod format_laws;
pub mod problem;
pub mod rng;
pub mod neighbouring;
pub mod aco;
pub mod tabu;
pub mod hill_climbing;
pub mod runner;

verus! {

/// Integer type used for coordinates, times and quantities.
pub type Int = u32;

} // verus!
