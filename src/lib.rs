//! Broad-phase collision bookkeeping for a Verlet particle simulation:
//! a sparse spatial grid keyed by integer cell coordinates, the candidate
//! pairs it yields, and the frame's substep policy.

mod cell_map;
pub mod grid;
pub mod pairs;
pub mod step;

pub use cell_map::CellKey;
pub use grid::{Grid, fill_grid};
pub use pairs::{Pair, all_pairs, grid_pairs, neighbor};
pub use step::{HEAVY_POPULATION, substep_count};
