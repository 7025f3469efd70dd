//! Verified core of a molecular-dynamics engine: identifier allocation,
//! the cell grid with its Verlet neighbour lists, snapshot file naming,
//! molecule grouping, the run schedule and the box mesh layouts.

pub mod ids;
pub mod cell_lists;
pub mod cell_grid;
pub mod snapshot;
pub mod molecules;
pub mod box_mesh;
pub mod schedule;
pub mod neighbourhood;
