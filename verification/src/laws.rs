//! What holds of every board and every game: what play never changes, what
//! a flag protects, what ends a game, and when a single reveal wins.

use vstd::prelude::*;
use crate::adjacency::{gap, lemma_neighbor_cell, lemma_toward_step, toward};
use crate::board::BoardView;
use crate::cell::{Cell, CellState};
use crate::coordinates::{cell_count, coords_of, linear_index, positive_extents};
use crate::flood::{flooded, lemma_reach_hidden, lemma_reach_start, lemma_reach_step, reaches};
use crate::game::{GameState, GameView};
use crate::index_laws::{lemma_coords_of_index, lemma_index_of_coords};
use crate::layout::{
    all_hidden, count_right, lemma_mines_among_same, lemma_mines_below_same,
    lemma_neighbor_cells_in_range, mines_among, mines_around, mines_below, neighbor_cells,
    same_mines,
};

verus! {

/// The two sequences hold the same content at every place; only what is
/// visible may differ.
pub open spec fn same_content(first: Seq<Cell>, second: Seq<Cell>) -> bool {
    &&& first.len() == second.len()
    &&& forall|i: int| 0 <= i < first.len() ==> (#[trigger] first[i]).kind == second[i].kind
}

/// Cells with the same content as sound cells are sound: the number of
/// mines and the counts do not depend on what is visible.
pub proof fn lemma_content_decides(board: BoardView, cells: Seq<Cell>)
    requires
        board.sound(),
        same_content(cells, board.cells),
    ensures
        board.with_cells(cells).sound(),
{
    assert(same_mines(cells, board.cells));
    lemma_mines_below_same(cells, board.cells, cells.len() as int);
    assert forall|i: int| 0 <= i < cells.len() implies #[trigger] count_right(
        cells,
        board.shape,
        i,
    ) by {
        let around = neighbor_cells(board.shape, i);
        lemma_neighbor_cells_in_range(board.shape, i);
        lemma_mines_among_same(cells, board.cells, around, around.len() as int);
        assert(count_right(board.cells, board.shape, i));
    }
}

/// Toggling a flag changes the content of no cell, and the visibility of no
/// cell but the one named.
pub proof fn lemma_toggle_keeps_content(board: BoardView, index: int)
    requires
        0 <= index < board.cells.len(),
    ensures
        same_content(board.toggled(index).cells, board.cells),
        board.toggled(index).shape == board.shape,
        board.toggled(index).num_mines == board.num_mines,
        forall|i: int|
            0 <= i < board.cells.len() && i != index ==> #[trigger] board.toggled(index).cells[i]
                == board.cells[i],
        board.sound() ==> board.toggled(index).sound(),
{
    if board.sound() {
        lemma_content_decides(board, board.toggled(index).cells);
    }
}

/// A reveal changes the content of no cell. It hides no cell and flags
/// none: a cell is revealed by it or stays as it was.
pub proof fn lemma_reveal_keeps_content(board: BoardView, index: int)
    ensures
        same_content(board.revealed(index).cells, board.cells),
        board.revealed(index).shape == board.shape,
        board.revealed(index).num_mines == board.num_mines,
        forall|i: int|
            0 <= i < board.cells.len() ==> #[trigger] board.revealed(index).cells[i]
                == board.cells[i] || (board.cells[i].state == CellState::Hidden && board.revealed(
                index,
            ).cells[i] == board.cells[i].with_state(CellState::Revealed)),
        board.sound() ==> board.revealed(index).sound(),
{
    assert forall|i: int| 0 <= i < board.cells.len() implies #[trigger] board.revealed(
        index,
    ).cells[i] == board.cells[i] || (board.cells[i].state == CellState::Hidden && board.revealed(
        index,
    ).cells[i] == board.cells[i].with_state(CellState::Revealed)) by {
        if reaches(board.cells, board.shape, index, i) {
            lemma_reach_hidden(board.cells, board.shape, index, i);
        }
    }
    if board.sound() {
        lemma_content_decides(board, board.revealed(index).cells);
    }
}

/// A reveal of a cell that is flagged or already revealed leaves the board
/// as it is and uncovers no mine.
pub proof fn lemma_reveal_needs_hidden(board: BoardView, index: int)
    requires
        0 <= index < board.cells.len() ==> board.cells[index].state != CellState::Hidden,
    ensures
        board.revealed(index) == board,
        0 <= index < board.cells.len() ==> !board.hits_mine(index),
{
    assert forall|i: int| 0 <= i < board.cells.len() implies !reaches(
        board.cells,
        board.shape,
        index,
        i,
    ) by {
        if reaches(board.cells, board.shape, index, i) {
            lemma_reach_hidden(board.cells, board.shape, index, i);
        }
    }
    assert(flooded(board.cells, board.shape, index) =~= board.cells);
}

/// A flag protects from a reveal: once a hidden cell is flagged, a reveal of
/// it uncovers no mine and leaves the board as it is, the cell still flagged.
pub proof fn lemma_flag_protects(board: BoardView, index: int)
    requires
        0 <= index < board.cells.len(),
        board.cells[index].state == CellState::Hidden,
    ensures
        board.toggled(index).cells[index] == board.cells[index].with_state(CellState::Flagged),
        board.toggled(index).revealed(index) == board.toggled(index),
        !board.toggled(index).hits_mine(index),
{
    lemma_reveal_needs_hidden(board.toggled(index), index);
}

/// Toggling a flag twice gives the board back.
pub proof fn lemma_toggle_twice(board: BoardView, index: int)
    requires
        0 <= index < board.cells.len(),
    ensures
        board.toggled(index).toggled(index) == board,
{
    assert(board.toggled(index).toggled(index).cells =~= board.cells);
}

/// A game that is won or lost stays as it is: neither a reveal nor a flag
/// changes its state or its board.
pub proof fn lemma_game_over_is_final(game: GameView, index: int)
    requires
        game.state != GameState::InProgress,
    ensures
        game.revealed(index) == game,
        game.toggled(index) == game,
{
}

/// The state of a game moves one way only: a game that is in progress after
/// a reveal or a flag was in progress before, and a flag never ends a game.
pub proof fn lemma_game_state_one_way(game: GameView, index: int)
    ensures
        game.revealed(index).state == GameState::InProgress ==> game.state
            == GameState::InProgress,
        game.toggled(index).state == game.state,
{
}

/// On a board on which every cell is hidden and has no mine around it, a
/// reveal of any cell reaches every cell.
pub proof fn lemma_blank_board_connected(
    cells: Seq<Cell>,
    shape: Seq<usize>,
    start: int,
    target: int,
)
    requires
        positive_extents(shape),
        cells.len() == cell_count(shape),
        all_hidden(cells),
        forall|i: int| 0 <= i < cells.len() ==> (#[trigger] cells[i]).is_blank(),
        0 <= start < cells.len(),
        0 <= target < cells.len(),
    ensures
        reaches(cells, shape, start, target),
    decreases
            gap(coords_of(target as nat, shape), coords_of(start as nat, shape), shape.len() as int),
{
    let from = coords_of(start as nat, shape);
    let to = coords_of(target as nat, shape);
    lemma_index_of_coords(start as nat, shape);
    lemma_index_of_coords(target as nat, shape);
    if start == target {
        lemma_reach_start(cells, shape, start);
    } else {
        let near = toward(to, from);
        lemma_toward_step(to, from, shape);
        let via = linear_index(near, shape) as int;
        lemma_coords_of_index(near, shape);
        lemma_blank_board_connected(cells, shape, start, via);
        lemma_neighbor_cell(near, to, shape);
        assert(cells[via].is_blank());
        lemma_reach_step(cells, shape, start, via, target);
    }
}

/// Where there is no mine at all, the first cells hold none.
pub proof fn lemma_no_mine_below(cells: Seq<Cell>, upto: int, index: int)
    requires
        upto <= cells.len(),
        mines_below(cells, upto) == 0,
        0 <= index < upto,
    ensures
        !cells[index].is_mine(),
    decreases upto,
{
    if index < upto - 1 {
        lemma_no_mine_below(cells, upto - 1, index);
    }
}

/// Where no cell holds a mine, no mine is found among any cells.
pub proof fn lemma_none_among(cells: Seq<Cell>, around: Seq<int>, upto: int)
    requires
        upto <= around.len(),
        forall|t: int| 0 <= t < upto ==> 0 <= #[trigger] around[t] < cells.len(),
        forall|i: int| 0 <= i < cells.len() ==> !(#[trigger] cells[i]).is_mine(),
    ensures
        mines_among(cells, around, upto) == 0,
    decreases upto,
{
    if upto > 0 {
        lemma_none_among(cells, around, upto - 1);
        assert(!cells[around[upto - 1]].is_mine());
    }
}

/// On a sound board without mines every cell is empty with no mine around it.
pub proof fn lemma_no_mines_all_blank(board: BoardView)
    requires
        board.sound(),
        board.num_mines == 0,
    ensures
        forall|i: int| 0 <= i < board.cells.len() ==> (#[trigger] board.cells[i]).is_blank(),
{
    assert forall|i: int| 0 <= i < board.cells.len() implies !(#[trigger] board.cells[i]).is_mine() by {
        lemma_no_mine_below(board.cells, board.cells.len() as int, i);
    }
    assert forall|i: int| 0 <= i < board.cells.len() implies (#[trigger] board.cells[i]).is_blank() by {
        let around = neighbor_cells(board.shape, i);
        lemma_neighbor_cells_in_range(board.shape, i);
        lemma_none_among(board.cells, around, around.len() as int);
        assert(count_right(board.cells, board.shape, i));
        assert(mines_around(board.cells, board.shape, i) == 0);
    }
}

/// On a sound board without mines on which every cell is hidden, a reveal of
/// any cell reveals every cell, and the game is won.
pub proof fn lemma_reveal_wins_without_mines(game: GameView, index: int)
    requires
        game.state == GameState::InProgress,
        game.board.sound(),
        game.board.num_mines == 0,
        all_hidden(game.board.cells),
        0 <= index < game.board.cells.len(),
    ensures
        game.revealed(index).state == GameState::Won,
        forall|i: int|
            0 <= i < game.board.cells.len() ==> (#[trigger] game.revealed(index).board.cells[i]).state
                == CellState::Revealed,
{
    let board = game.board;
    lemma_no_mines_all_blank(board);
    let after = board.revealed(index);
    assert forall|i: int| 0 <= i < board.cells.len() implies (#[trigger] after.cells[i]).state
        == CellState::Revealed && !after.cells[i].is_mine() by {
        lemma_blank_board_connected(board.cells, board.shape, index, i);
        assert(board.cells[i].is_blank());
    }
    assert(!board.hits_mine(index)) by {
        assert(board.cells[index].is_blank());
    }
    assert(after.cleared());
}

} // verus!
