//! Simulation parameters and population counts.

use vstd::prelude::*;
use crate::grid::Grid;
use crate::state::{HealthState, count_state, lemma_count_state_step, lemma_counts_sum};

verus! {

/// One whole, in the millionths that rates and ratios are counted in.
pub const UNIT: u32 = 1_000_000;

/// Simulation configuration. Every field counts millionths: a `beta` of
/// 300_000 is an infection rate of 0.3.
#[derive(Debug, Clone, Copy, PartialEq, Eq)]
pub struct SirParams {
    /// Infection rate.
    pub beta: u32,
    /// Recovery rate.
    pub gamma: u32,
    /// Length of one time step.
    pub dt: u32,
    /// Share of the cells that start out infected.
    pub i_ratio: u32,
    /// Reserved; no rule reads it.
    pub s_ratio: u32,
}

/// Holds counts of how many cells are in each state.
#[derive(Debug, Clone, Copy, PartialEq, Eq)]
pub struct PopulationStats {
    pub susceptible: usize,
    pub infected: usize,
    pub recovered: usize,
}

/// Count how many cells are in each state.
pub fn count_states(grid: &Grid) -> (stats: PopulationStats)
    requires
        grid.wf(),
    ensures
        stats.susceptible == count_state(grid@, HealthState::Susceptible),
        stats.infected == count_state(grid@, HealthState::Infected),
        stats.recovered == count_state(grid@, HealthState::Recovered),
        stats.susceptible + stats.infected + stats.recovered == grid.grid_x * grid.grid_y,
{
    let mut stats = PopulationStats { susceptible: 0, infected: 0, recovered: 0 };
    let total_cells: usize = grid.grid_x * grid.grid_y;
    for idx in 0..total_cells
        invariant
            grid.wf(),
            total_cells == grid.cell_count(),
            stats.susceptible == count_state(grid@.take(idx as int), HealthState::Susceptible),
            stats.infected == count_state(grid@.take(idx as int), HealthState::Infected),
            stats.recovered == count_state(grid@.take(idx as int), HealthState::Recovered),
    {
        proof {
            lemma_counts_sum(grid@.take(idx as int));
            lemma_count_state_step(grid@, HealthState::Susceptible, idx as int);
            lemma_count_state_step(grid@, HealthState::Infected, idx as int);
            lemma_count_state_step(grid@, HealthState::Recovered, idx as int);
        }
        match grid.read(idx) {
            HealthState::Susceptible => stats.susceptible += 1,
            HealthState::Infected => stats.infected += 1,
            HealthState::Recovered => stats.recovered += 1,
        }
    }
    proof {
        assert(grid@.take(total_cells as int) =~= grid@);
        lemma_counts_sum(grid@);
    }
    stats
}

} // verus!
