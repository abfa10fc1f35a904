//! Epidemic spread on a two-dimensional grid of cells under the
//! Susceptible-Infected-Recovered model.
//!
//! Cells are packed two bits apiece into a byte buffer. A step reads a frozen
//! grid and writes the next one; each cell moves on its own, by the state of
//! its Moore neighbourhood and one uniform draw.

pub mod chance;
pub mod grid;
pub mod maths;
pub mod simulation;
pub mod state;
pub mod tile;

pub use grid::{Grid, GridError, MAX_CELLS};
pub use maths::{count_states, PopulationStats, SirParams, UNIT};
pub use simulation::{
    count_infected_neighbors, process_infected, process_susceptible, step_grid, step_grid_tiled,
    step_tile, transition,
};
pub use state::{HealthState, InvalidEncoding};
pub use tile::{tile_grid, Tile};
