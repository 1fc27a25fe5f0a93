//! A single cell of the board: what it holds and whether the player sees it.

use vstd::prelude::*;

verus! {

/// Visibility of a cell. The three states exclude each other.
#[derive(Clone, Copy, Debug, PartialEq, Eq, Structural)]
pub enum CellState {
    /// The cell is hidden from the player.
    Hidden,
    /// The cell has been revealed.
    Revealed,
    /// The cell has been flagged by the player as a potential mine.
    Flagged,
}

/// Content of a cell. A mine carries no count, so "no adjacent mines" and
/// "is a mine" can never be confused.
#[derive(Clone, Copy, Debug, PartialEq, Eq, Structural)]
pub enum CellKind {
    /// The cell is a mine.
    Mine,
    /// The cell is empty and carries the number of mines around it.
    Empty { adjacent_mines: usize },
}

/// One cell of the board.
#[derive(Clone, Copy, Debug, PartialEq, Eq, Structural)]
pub struct Cell {
    /// The visibility of the cell.
    pub state: CellState,
    /// The content of the cell (mine or empty).
    pub kind: CellKind,
}

impl Cell {
    /// Creates a hidden, empty cell with no adjacent mines.
    pub fn new() -> (cell: Self)
        ensures
            cell.state == CellState::Hidden,
            cell.kind == (CellKind::Empty { adjacent_mines: 0 }),
    {
        Self { state: CellState::Hidden, kind: CellKind::Empty { adjacent_mines: 0 } }
    }

    /// The same content with the given visibility.
    pub open spec fn with_state(self, state: CellState) -> Cell {
        Cell { state, kind: self.kind }
    }

    /// The cell after its flag is toggled: a hidden cell becomes flagged, a
    /// flagged cell hidden, and a revealed cell stays as it is.
    pub open spec fn toggled(self) -> Cell {
        match self.state {
            CellState::Hidden => self.with_state(CellState::Flagged),
            CellState::Flagged => self.with_state(CellState::Hidden),
            CellState::Revealed => self,
        }
    }

    /// Whether the cell holds a mine.
    pub open spec fn is_mine(self) -> bool {
        self.kind == CellKind::Mine
    }

    /// Whether the cell is empty with no mine around it, the only kind of
    /// cell from which a reveal spreads.
    pub open spec fn is_blank(self) -> bool {
        self.kind == (CellKind::Empty { adjacent_mines: 0 })
    }
}

} // verus!
