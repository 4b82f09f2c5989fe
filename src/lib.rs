//! Enumerates the placements of a sequence of blocks on a single line of a
//! nonogram-style puzzle, keeping those consistent with the cells already known.

pub mod model;
pub mod validity;
pub mod enumerate;
pub mod laws;

pub use model::{CellState, Placement};
pub use validity::placements_valid;
pub use enumerate::{find_placements, find_placements_at};
