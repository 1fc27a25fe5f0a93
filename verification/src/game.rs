//! The state of a game as a whole: a board, and whether play is in progress,
//! won or lost. Once a game is won or lost nothing changes it.

use vstd::prelude::*;
use crate::board::{Board, BoardView};
use crate::coordinates::{cell_count, in_grid, linear_index, Coordinates};
use crate::layout::{all_hidden, mine_total};
use crate::setup::{count_error, valid_shape, BoardError};

verus! {

/// The possible states of a game.
#[derive(Clone, Copy, Debug, PartialEq, Eq, Structural)]
pub enum GameState {
    /// The game is currently in progress.
    InProgress,
    /// The player has won the game.
    Won,
    /// The player has lost the game.
    Lost,
}

/// A game: a board and the state of play.
pub struct Game {
    board: Board,
    state: GameState,
}

/// What a game is: its board and the state of play.
pub struct GameView {
    /// The board.
    pub board: BoardView,
    /// The state of play.
    pub state: GameState,
}

impl GameView {
    /// The game after a request to toggle the flag of the cell `index`: the
    /// flag is toggled while the game is in progress, and nothing changes
    /// once it is over.
    pub open spec fn toggled(self, index: int) -> GameView {
        if self.state == GameState::InProgress {
            GameView { board: self.board.toggled(index), state: self.state }
        } else {
            self
        }
    }

    /// The state of play after a reveal of the cell `index` of `board` in a
    /// game in progress: lost if the reveal uncovers a mine, else won if the
    /// board is cleared by it, else still in progress.
    pub open spec fn outcome(board: BoardView, index: int) -> GameState {
        if board.hits_mine(index) {
            GameState::Lost
        } else if board.revealed(index).cleared() {
            GameState::Won
        } else {
            GameState::InProgress
        }
    }

    /// The game after a request to reveal the cell `index`: the cell is
    /// revealed while the game is in progress, and nothing changes once it
    /// is over.
    pub open spec fn revealed(self, index: int) -> GameView {
        if self.state == GameState::InProgress {
            GameView {
                board: self.board.revealed(index),
                state: Self::outcome(self.board, index),
            }
        } else {
            self
        }
    }
}

impl View for Game {
    type V = GameView;

    closed spec fn view(&self) -> GameView {
        GameView { board: self.board@, state: self.state }
    }
}

impl Game {
    /// Creates a game in progress on a new board, as `Board::new` makes it.
    pub fn new(dimensions: Vec<usize>, num_mines: usize) -> (game: Self)
        requires
            valid_shape(dimensions@),
            num_mines <= cell_count(dimensions@),
        ensures
            game@.state == GameState::InProgress,
            game@.board.sound(),
            game@.board.shape == dimensions@,
            game@.board.num_mines == num_mines,
            mine_total(game@.board.cells) == num_mines,
            all_hidden(game@.board.cells),
            game@.board.freshly_drawn(dimensions@, num_mines as nat),
    {
        let board = Board::new(dimensions, num_mines);
        Self { board, state: GameState::InProgress }
    }

    /// Creates a game as `new` does, or says what is wrong with the shape or
    /// the number of mines.
    pub fn try_new(dimensions: Vec<usize>, num_mines: usize) -> (made: Result<Self, BoardError>)
        ensures
            match made {
                Ok(game) => {
                    &&& count_error(dimensions@, num_mines as nat) is None
                    &&& game@.state == GameState::InProgress
                    &&& game@.board.sound()
                    &&& game@.board.shape == dimensions@
                    &&& game@.board.num_mines == num_mines
                    &&& mine_total(game@.board.cells) == num_mines
                    &&& all_hidden(game@.board.cells)
                    &&& game@.board.freshly_drawn(dimensions@, num_mines as nat)
                },
                Err(e) => count_error(dimensions@, num_mines as nat) == Some(e),
            },
    {
        match Board::try_new(dimensions, num_mines) {
            Ok(board) => Ok(Self { board, state: GameState::InProgress }),
            Err(e) => Err(e),
        }
    }

    /// Starts a game in progress on a board that is already made.
    pub fn on_board(board: Board) -> (game: Self)
        ensures
            game@.state == GameState::InProgress,
            game@.board == board@,
    {
        Self { board, state: GameState::InProgress }
    }

    /// Returns the current state of the game.
    pub fn state(&self) -> (state: &GameState)
        ensures
            *state == self@.state,
    {
        &self.state
    }

    /// Says whether the coordinates address a cell of the board.
    pub fn contains(&self, coords: &Coordinates) -> (inside: bool)
        ensures
            inside == in_grid(coords@, self@.board.shape),
    {
        self.board.contains(coords)
    }

    /// The board of the game.
    pub fn board(&self) -> (board: &Board)
        ensures
            board@ == self@.board,
    {
        &self.board
    }

    /// Toggles a flag on a cell while the game is in progress. Once the game
    /// is over nothing changes.
    pub fn toggle_flag(&mut self, coords: &Coordinates)
        requires
            old(self)@.state == GameState::InProgress ==> old(self)@.board.well_formed() && in_grid(
                coords@,
                old(self)@.board.shape,
            ),
        ensures
            final(self)@ == old(self)@.toggled(linear_index(coords@, old(self)@.board.shape) as int),
            old(self)@.board.well_formed() ==> final(self)@.board.well_formed(),
    {
        match self.state {
            GameState::InProgress => {
                self.board.toggle_flag(coords);
            },
            _ => {},
        }
    }

    /// Reveals a cell while the game is in progress: the game is lost if a
    /// mine is revealed, and won if the board is cleared. Once the game is
    /// over nothing changes.
    pub fn reveal_at(&mut self, coords: &Coordinates)
        requires
            old(self)@.state == GameState::InProgress ==> old(self)@.board.well_formed() && in_grid(
                coords@,
                old(self)@.board.shape,
            ),
        ensures
            final(self)@ == old(self)@.revealed(linear_index(coords@, old(self)@.board.shape) as int),
            old(self)@.board.well_formed() ==> final(self)@.board.well_formed(),
    {
        match self.state {
            GameState::InProgress => {
                if self.board.reveal_at(coords) {
                    self.state = GameState::Lost;
                } else if self.is_won() {
                    self.state = GameState::Won;
                }
            },
            _ => {},
        }
    }

    /// Checks whether the board is cleared: every empty cell is revealed and
    /// no mine is.
    pub fn is_won(&self) -> (won: bool)
        ensures
            won == self@.board.cleared(),
    {
        self.board.is_cleared()
    }
}

} // verus!
