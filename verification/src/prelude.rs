//! The items most callers need, gathered in one place.

pub use crate::board::Board;
pub use crate::cell::{Cell, CellKind, CellState};
pub use crate::coordinates::{get_neighbors, to_coords, to_index, Coordinates};
pub use crate::game::{Game, GameState};
pub use crate::setup::BoardError;
