//! What a new board needs: a shape it can have and a sound choice of mines.

use vstd::prelude::*;
use crate::cell::{Cell, CellKind, CellState};
use crate::coordinates::{cell_count, positive_extents, stride};
use crate::index_laws::lemma_stride_monotone;
use crate::layout::{
    all_hidden, count_right, counts_correct, lemma_mines_among_same, lemma_mines_around_bound,
    lemma_mines_below_add, lemma_mines_below_same, lemma_neighbor_cells_in_range, lemma_no_mines,
    mine_total, neighbor_cells, same_mines, with_counts,
};

verus! {

/// Why a board cannot be made.
#[derive(Clone, Copy, Debug, PartialEq, Eq, Structural)]
pub enum BoardError {
    /// The shape has no axis.
    EmptyShape,
    /// An axis of the shape has extent zero.
    ZeroExtent,
    /// The number of cells does not fit in a `usize`.
    TooManyCells,
    /// More mines are asked for than the board has cells.
    TooManyMines,
    /// A mine is to be placed outside the board.
    MineOutOfRange,
    /// Two mines are to be placed on the same cell.
    DuplicateMine,
}

impl BoardError {
    /// A short description of the error.
    pub fn message(&self) -> (text: &'static str)
        ensures
            text@.len() > 0,
            text@ == self.description(),
    {
        proof {
            reveal_strlit("the shape has no axis");
            reveal_strlit("an axis of the shape has extent zero");
            reveal_strlit("the number of cells does not fit in a usize");
            reveal_strlit("more mines than cells");
            reveal_strlit("a mine lies outside the board");
            reveal_strlit("two mines lie on the same cell");
        }
        match self {
            BoardError::EmptyShape => "the shape has no axis",
            BoardError::ZeroExtent => "an axis of the shape has extent zero",
            BoardError::TooManyCells => "the number of cells does not fit in a usize",
            BoardError::TooManyMines => "more mines than cells",
            BoardError::MineOutOfRange => "a mine lies outside the board",
            BoardError::DuplicateMine => "two mines lie on the same cell",
        }
    }

    /// The text that describes the error.
    pub open spec fn description(&self) -> Seq<char> {
        match self {
            BoardError::EmptyShape => "the shape has no axis"@,
            BoardError::ZeroExtent => "an axis of the shape has extent zero"@,
            BoardError::TooManyCells => "the number of cells does not fit in a usize"@,
            BoardError::TooManyMines => "more mines than cells"@,
            BoardError::MineOutOfRange => "a mine lies outside the board"@,
            BoardError::DuplicateMine => "two mines lie on the same cell"@,
        }
    }
}

/// A shape that a board can have: at least one axis, every extent positive,
/// and a number of cells that a `usize` can hold.
pub open spec fn valid_shape(shape: Seq<usize>) -> bool {
    &&& shape.len() > 0
    &&& positive_extents(shape)
    &&& cell_count(shape) <= usize::MAX
}

/// What is wrong with a shape, if anything.
pub open spec fn shape_error(shape: Seq<usize>) -> Option<BoardError> {
    if shape.len() == 0 {
        Some(BoardError::EmptyShape)
    } else if !positive_extents(shape) {
        Some(BoardError::ZeroExtent)
    } else if cell_count(shape) > usize::MAX {
        Some(BoardError::TooManyCells)
    } else {
        None
    }
}

/// The number of cells of a board of the given shape, or what is wrong with
/// the shape.
pub fn count_cells(dimensions: &[usize]) -> (total: Result<usize, BoardError>)
    ensures
        match total {
            Ok(n) => valid_shape(dimensions@) && n == cell_count(dimensions@),
            Err(e) => shape_error(dimensions@) == Some(e),
        },
{
    let n = dimensions.len();
    if n == 0 {
        return Err(BoardError::EmptyShape);
    }
    let mut i: usize = 0;
    while i < n
        invariant
            n == dimensions@.len(),
            0 <= i <= n,
            forall|k: int| 0 <= k < i ==> dimensions@[k] > 0,
        decreases n - i,
    {
        if dimensions[i] == 0 {
            return Err(BoardError::ZeroExtent);
        }
        i += 1;
    }
    let mut total: usize = 1;
    let mut i: usize = 0;
    while i < n
        invariant
            n == dimensions@.len(),
            0 <= i <= n,
            positive_extents(dimensions@),
            total == stride(dimensions@, i as int),
        decreases n - i,
    {
        match total.checked_mul(dimensions[i]) {
            Some(product) => {
                total = product;
            },
            None => {
                proof {
                    lemma_stride_monotone(dimensions@, i + 1, n as int);
                }
                return Err(BoardError::TooManyCells);
            },
        }
        i += 1;
    }
    Ok(total)
}

/// The index `index` is among `indices`.
pub open spec fn listed(indices: Seq<usize>, index: int) -> bool {
    exists|k: int| 0 <= k < indices.len() && #[trigger] indices[k] == index
}

/// The choice of mines is sound for a board of `total` cells: every index is
/// a cell of the board and no index comes twice.
pub open spec fn distinct_cells(mines: Seq<usize>, total: nat) -> bool {
    &&& forall|i: int| 0 <= i < mines.len() ==> (#[trigger] mines[i]) < total
    &&& mines.no_duplicates()
}

/// What is wrong with a shape and a choice of mines for it, if anything.
pub open spec fn mines_error(shape: Seq<usize>, mines: Seq<usize>) -> Option<BoardError> {
    if shape_error(shape) is Some {
        shape_error(shape)
    } else if exists|i: int| 0 <= i < mines.len() && #[trigger] mines[i] >= cell_count(shape) {
        Some(BoardError::MineOutOfRange)
    } else if !mines.no_duplicates() {
        Some(BoardError::DuplicateMine)
    } else {
        None
    }
}

/// What is wrong with a shape and a number of mines for it, if anything.
pub open spec fn count_error(shape: Seq<usize>, num_mines: nat) -> Option<BoardError> {
    if shape_error(shape) is Some {
        shape_error(shape)
    } else if num_mines > cell_count(shape) {
        Some(BoardError::TooManyMines)
    } else {
        None
    }
}

/// A hidden cell that holds a mine.
pub open spec fn hidden_mine() -> Cell {
    Cell { state: CellState::Hidden, kind: CellKind::Mine }
}

/// A hidden empty cell with no count yet.
pub open spec fn hidden_empty() -> Cell {
    Cell { state: CellState::Hidden, kind: CellKind::Empty { adjacent_mines: 0 } }
}

/// `total` hidden cells with mines at the given places and no counts yet.
pub open spec fn mined_cells(total: nat, mines: Seq<usize>) -> Seq<Cell> {
    Seq::new(
        total,
        |i: int|
            if listed(mines, i) {
                hidden_mine()
            } else {
                hidden_empty()
            },
    )
}

/// The cells of a new board of the given shape with mines at the given
/// places: all hidden, every empty cell with the number of mines around it.
pub open spec fn fresh_cells(shape: Seq<usize>, mines: Seq<usize>) -> Seq<Cell> {
    with_counts(mined_cells(cell_count(shape), mines), shape)
}

/// Mines placed on distinct cells make as many mines as places.
pub proof fn lemma_mined_cells_total(total: nat, mines: Seq<usize>)
    requires
        distinct_cells(mines, total),
    ensures
        mine_total(mined_cells(total, mines)) == mines.len(),
    decreases mines.len(),
{
    let cells = mined_cells(total, mines);
    if mines.len() == 0 {
        lemma_no_mines(cells, total as int);
    } else {
        let fewer = mines.drop_last();
        let at = mines.last() as int;
        let less = mined_cells(total, fewer);
        assert(fewer.no_duplicates());
        lemma_mined_cells_total(total, fewer);
        assert(mines[mines.len() - 1] == at);
        if listed(fewer, at) {
            let k = choose|k: int| 0 <= k < fewer.len() && #[trigger] fewer[k] == at;
            assert(mines[k] == mines[mines.len() - 1]);
        }
        assert forall|i: int| 0 <= i < total implies #[trigger] cells[i] == less.update(
            at,
            hidden_mine(),
        )[i] by {
            if i != at {
                if listed(mines, i) {
                    let k = choose|k: int| 0 <= k < mines.len() && #[trigger] mines[k] == i;
                    assert(fewer[k] == i);
                }
                if listed(fewer, i) {
                    let k = choose|k: int| 0 <= k < fewer.len() && #[trigger] fewer[k] == i;
                    assert(mines[k] == i);
                }
            }
        }
        assert(cells =~= less.update(at, hidden_mine()));
        lemma_mines_below_add(less, at, hidden_mine(), total as int);
    }
}

/// Counting the mines around the cells changes neither where the mines are
/// nor what is visible, and leaves in every empty cell the number of mines
/// around it.
pub proof fn lemma_with_counts(cells: Seq<Cell>, shape: Seq<usize>)
    requires
        cells.len() == cell_count(shape),
        cell_count(shape) <= usize::MAX,
    ensures
        same_mines(with_counts(cells, shape), cells),
        mine_total(with_counts(cells, shape)) == mine_total(cells),
        counts_correct(with_counts(cells, shape), shape),
        all_hidden(cells) ==> all_hidden(with_counts(cells, shape)),
{
    let counted = with_counts(cells, shape);
    assert(same_mines(counted, cells));
    lemma_mines_below_same(counted, cells, cells.len() as int);
    assert forall|i: int| 0 <= i < counted.len() implies #[trigger] count_right(
        counted,
        shape,
        i,
    ) by {
        let around = neighbor_cells(shape, i);
        lemma_neighbor_cells_in_range(shape, i);
        lemma_mines_among_same(counted, cells, around, around.len() as int);
        lemma_mines_around_bound(cells, shape, i);
    }
}

/// A new board with mines on distinct cells has as many mines as places,
/// every cell hidden, and in every empty cell the number of mines around it.
pub proof fn lemma_fresh_cells(shape: Seq<usize>, mines: Seq<usize>)
    requires
        cell_count(shape) <= usize::MAX,
        distinct_cells(mines, cell_count(shape)),
    ensures
        fresh_cells(shape, mines).len() == cell_count(shape),
        mine_total(fresh_cells(shape, mines)) == mines.len(),
        all_hidden(fresh_cells(shape, mines)),
        counts_correct(fresh_cells(shape, mines), shape),
        forall|i: int|
            0 <= i < cell_count(shape) ==> (#[trigger] fresh_cells(shape, mines)[i]).is_mine()
                == listed(mines, i),
{
    let raw = mined_cells(cell_count(shape), mines);
    lemma_mined_cells_total(cell_count(shape), mines);
    lemma_with_counts(raw, shape);
    assert(all_hidden(raw));
    assert forall|i: int| 0 <= i < cell_count(shape) implies (#[trigger] fresh_cells(
        shape,
        mines,
    )[i]).is_mine() == listed(mines, i) by {
        assert(raw[i].is_mine() == listed(mines, i));
    }
}

} // verus!
