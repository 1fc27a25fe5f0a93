//! What a sequence of cells holds: how many mines, how many of them around
//! a given cell, and the adjacent-mine counts that follow from them.

use vstd::prelude::*;
use crate::cell::{Cell, CellKind, CellState};
use vstd::set_lib::{lemma_int_range, lemma_len_subset, set_int_range};
use crate::coordinates::{cell_count, coords_of, in_grid, linear_index, neighbors_of};
use crate::index_laws::{lemma_index_in_range, lemma_index_injective};
use crate::neighbor_laws::{lemma_neighbors_distinct, lemma_neighbors_in_grid};

verus! {

/// The flat indices of the neighbours of the cell with flat index `index`,
/// in the order in which the neighbours are enumerated.
pub open spec fn neighbor_cells(shape: Seq<usize>, index: int) -> Seq<int> {
    let around = neighbors_of(coords_of(index as nat, shape), shape);
    Seq::new(around.len(), |t: int| linear_index(around[t], shape) as int)
}

/// The number of mines among the first `upto` cells.
pub open spec fn mines_below(cells: Seq<Cell>, upto: int) -> nat
    decreases upto,
{
    if upto <= 0 {
        0
    } else {
        mines_below(cells, upto - 1) + if cells[upto - 1].is_mine() {
            1nat
        } else {
            0nat
        }
    }
}

/// The number of mines on the board.
pub open spec fn mine_total(cells: Seq<Cell>) -> nat {
    mines_below(cells, cells.len() as int)
}

/// The number of mines among the cells named by the first `upto` entries of
/// `around`.
pub open spec fn mines_among(cells: Seq<Cell>, around: Seq<int>, upto: int) -> nat
    decreases upto,
{
    if upto <= 0 {
        0
    } else {
        mines_among(cells, around, upto - 1) + if cells[around[upto - 1]].is_mine() {
            1nat
        } else {
            0nat
        }
    }
}

/// The number of neighbours of the cell `index` that hold a mine.
pub open spec fn mines_around(cells: Seq<Cell>, shape: Seq<usize>, index: int) -> nat {
    let around = neighbor_cells(shape, index);
    mines_among(cells, around, around.len() as int)
}

/// The cell as it is once its adjacent mines are counted: a mine stays as it
/// is, an empty cell carries the number of mines around it.
pub open spec fn counted_cell(cells: Seq<Cell>, shape: Seq<usize>, index: int) -> Cell {
    if cells[index].is_mine() {
        cells[index]
    } else {
        Cell {
            state: cells[index].state,
            kind: CellKind::Empty { adjacent_mines: mines_around(cells, shape, index) as usize },
        }
    }
}

/// The cells with every empty cell carrying the number of mines around it.
pub open spec fn with_counts(cells: Seq<Cell>, shape: Seq<usize>) -> Seq<Cell> {
    Seq::new(cells.len(), |i: int| counted_cell(cells, shape, i))
}

/// The cell `index` is a mine, or carries the number of mines around it.
pub open spec fn count_right(cells: Seq<Cell>, shape: Seq<usize>, index: int) -> bool {
    match cells[index].kind {
        CellKind::Mine => true,
        CellKind::Empty { adjacent_mines } => adjacent_mines == mines_around(cells, shape, index),
    }
}

/// Every empty cell carries the number of mines around it.
pub open spec fn counts_correct(cells: Seq<Cell>, shape: Seq<usize>) -> bool {
    forall|i: int| 0 <= i < cells.len() ==> #[trigger] count_right(cells, shape, i)
}

/// Every cell is hidden.
pub open spec fn all_hidden(cells: Seq<Cell>) -> bool {
    forall|i: int| 0 <= i < cells.len() ==> (#[trigger] cells[i]).state == CellState::Hidden
}

/// The two sequences have mines at the same places.
pub open spec fn same_mines(first: Seq<Cell>, second: Seq<Cell>) -> bool {
    &&& first.len() == second.len()
    &&& forall|i: int| 0 <= i < first.len() ==> (#[trigger] first[i]).is_mine() == second[i].is_mine()
}

/// The number of mines among given cells depends only on where the mines are.
pub proof fn lemma_mines_among_same(
    first: Seq<Cell>,
    second: Seq<Cell>,
    around: Seq<int>,
    upto: int,
)
    requires
        same_mines(first, second),
        upto <= around.len(),
        forall|t: int| 0 <= t < upto ==> 0 <= #[trigger] around[t] < first.len(),
    ensures
        mines_among(first, around, upto) == mines_among(second, around, upto),
    decreases upto,
{
    if upto > 0 {
        lemma_mines_among_same(first, second, around, upto - 1);
        assert(first[around[upto - 1]].is_mine() == second[around[upto - 1]].is_mine());
    }
}

/// The number of mines among the first cells depends only on where the
/// mines are.
pub proof fn lemma_mines_below_same(first: Seq<Cell>, second: Seq<Cell>, upto: int)
    requires
        same_mines(first, second),
        upto <= first.len(),
    ensures
        mines_below(first, upto) == mines_below(second, upto),
    decreases upto,
{
    if upto > 0 {
        lemma_mines_below_same(first, second, upto - 1);
        assert(first[upto - 1].is_mine() == second[upto - 1].is_mine());
    }
}

/// Turning one empty cell into a mine adds one to the number of mines below
/// any bound above it, and leaves the number below any other bound.
pub proof fn lemma_mines_below_add(cells: Seq<Cell>, index: int, mine: Cell, upto: int)
    requires
        0 <= index < cells.len(),
        !cells[index].is_mine(),
        mine.is_mine(),
        upto <= cells.len(),
    ensures
        mines_below(cells.update(index, mine), upto) == mines_below(cells, upto) + if index
            < upto {
            1nat
        } else {
            0nat
        },
    decreases upto,
{
    if upto > 0 {
        lemma_mines_below_add(cells, index, mine, upto - 1);
    }
}

/// Where no cell is a mine, there are no mines.
pub proof fn lemma_no_mines(cells: Seq<Cell>, upto: int)
    requires
        upto <= cells.len(),
        forall|i: int| 0 <= i < cells.len() ==> !(#[trigger] cells[i]).is_mine(),
    ensures
        mines_below(cells, upto) == 0,
    decreases upto,
{
    if upto > 0 {
        lemma_no_mines(cells, upto - 1);
    }
}

/// The neighbours of a cell are cells of the grid.
pub proof fn lemma_neighbor_cells_in_range(shape: Seq<usize>, index: int)
    ensures
        forall|t: int|
            0 <= t < neighbor_cells(shape, index).len() ==> 0 <= #[trigger] neighbor_cells(
                shape,
                index,
            )[t] < cell_count(shape),
{
    let coords = coords_of(index as nat, shape);
    let around = neighbors_of(coords, shape);
    lemma_neighbors_in_grid(coords, shape);
    assert forall|t: int| 0 <= t < neighbor_cells(shape, index).len() implies 0
        <= #[trigger] neighbor_cells(shape, index)[t] < cell_count(shape) by {
        assert(in_grid(around[t], shape));
        lemma_index_in_range(around[t], shape);
    }
}

/// No cell comes twice among the neighbours of a cell.
pub proof fn lemma_neighbor_cells_distinct(shape: Seq<usize>, index: int)
    ensures
        neighbor_cells(shape, index).no_duplicates(),
{
    let coords = coords_of(index as nat, shape);
    let around = neighbors_of(coords, shape);
    let cells = neighbor_cells(shape, index);
    lemma_neighbors_in_grid(coords, shape);
    lemma_neighbors_distinct(coords, shape);
    assert forall|i: int, j: int| 0 <= i < cells.len() && 0 <= j < cells.len() && i != j implies cells[i]
        != cells[j] by {
        assert(in_grid(around[i], shape));
        assert(in_grid(around[j], shape));
        if cells[i] == cells[j] {
            lemma_index_injective(around[i], around[j], shape);
        }
    }
}

/// A cell has no more neighbours than the grid has cells.
pub proof fn lemma_neighbor_cells_bound(shape: Seq<usize>, index: int)
    ensures
        neighbor_cells(shape, index).len() <= cell_count(shape),
{
    let cells = neighbor_cells(shape, index);
    let all = set_int_range(0, cell_count(shape) as int);
    lemma_neighbor_cells_in_range(shape, index);
    lemma_neighbor_cells_distinct(shape, index);
    cells.unique_seq_to_set();
    lemma_int_range(0, cell_count(shape) as int);
    assert forall|cell: int| cells.to_set().contains(cell) implies all.contains(cell) by {
        let t = choose|t: int| 0 <= t < cells.len() && cells[t] == cell;
        assert(0 <= cells[t] < cell_count(shape));
    }
    lemma_len_subset(cells.to_set(), all);
}

/// The number of mines found among given cells is at most the number of
/// cells looked at.
pub proof fn lemma_mines_among_bound(cells: Seq<Cell>, around: Seq<int>, upto: int)
    requires
        0 <= upto,
    ensures
        mines_among(cells, around, upto) <= upto,
    decreases upto,
{
    if upto > 0 {
        lemma_mines_among_bound(cells, around, upto - 1);
    }
}

/// The number of mines around a cell is at most the number of its
/// neighbours, and so at most the number of cells of the grid.
pub proof fn lemma_mines_around_bound(cells: Seq<Cell>, shape: Seq<usize>, index: int)
    ensures
        mines_around(cells, shape, index) <= neighbor_cells(shape, index).len(),
        mines_around(cells, shape, index) <= cell_count(shape),
{
    let around = neighbor_cells(shape, index);
    lemma_mines_among_bound(cells, around, around.len() as int);
    lemma_neighbor_cells_bound(shape, index);
}

} // verus!
