//! How a reveal spreads: from a hidden cell to its hidden neighbours, as long
//! as the cells it passes have no mine around them.

use vstd::prelude::*;
use crate::cell::{Cell, CellState};
use crate::layout::neighbor_cells;

verus! {

/// `path` is a way along which a reveal spreads: every cell on it is hidden,
/// and every cell but the last has no mine around it and has the next cell
/// of the path among its neighbours.
pub open spec fn spreads(cells: Seq<Cell>, shape: Seq<usize>, path: Seq<int>) -> bool {
    &&& path.len() > 0
    &&& forall|k: int|
        0 <= k < path.len() ==> 0 <= #[trigger] path[k] < cells.len() && cells[path[k]].state
            == CellState::Hidden
    &&& forall|k: int|
        0 <= k < path.len() - 1 ==> cells[#[trigger] path[k]].is_blank() && neighbor_cells(
            shape,
            path[k],
        ).contains(path[k + 1])
}

/// A reveal of the cell `start` reaches the cell `target`.
pub open spec fn reaches(cells: Seq<Cell>, shape: Seq<usize>, start: int, target: int) -> bool {
    exists|path: Seq<int>|
        #[trigger] spreads(cells, shape, path) && path[0] == start && path.last() == target
}

/// The cells after a reveal of the cell `start`: every cell that the reveal
/// reaches is revealed, every other cell is as it was.
pub open spec fn flooded(cells: Seq<Cell>, shape: Seq<usize>, start: int) -> Seq<Cell> {
    Seq::new(
        cells.len(),
        |i: int|
            if reaches(cells, shape, start, i) {
                cells[i].with_state(CellState::Revealed)
            } else {
                cells[i]
            },
    )
}

/// A reveal reaches only hidden cells, and starts only from a hidden cell.
pub proof fn lemma_reach_hidden(cells: Seq<Cell>, shape: Seq<usize>, start: int, target: int)
    requires
        reaches(cells, shape, start, target),
    ensures
        0 <= start < cells.len(),
        0 <= target < cells.len(),
        cells[start].state == CellState::Hidden,
        cells[target].state == CellState::Hidden,
{
    let path = choose|path: Seq<int>|
        #[trigger] spreads(cells, shape, path) && path[0] == start && path.last() == target;
    assert(0 <= path[0] < cells.len());
    assert(0 <= path[path.len() - 1] < cells.len());
}

/// A reveal of a hidden cell reaches that cell.
pub proof fn lemma_reach_start(cells: Seq<Cell>, shape: Seq<usize>, start: int)
    requires
        0 <= start < cells.len(),
        cells[start].state == CellState::Hidden,
    ensures
        reaches(cells, shape, start, start),
{
    let path = seq![start];
    assert(spreads(cells, shape, path));
}

/// A reveal that reaches a cell with no mine around it reaches each hidden
/// neighbour of that cell.
pub proof fn lemma_reach_step(
    cells: Seq<Cell>,
    shape: Seq<usize>,
    start: int,
    via: int,
    next: int,
)
    requires
        reaches(cells, shape, start, via),
        cells[via].is_blank(),
        neighbor_cells(shape, via).contains(next),
        0 <= next < cells.len(),
        cells[next].state == CellState::Hidden,
    ensures
        reaches(cells, shape, start, next),
{
    let path = choose|path: Seq<int>|
        #[trigger] spreads(cells, shape, path) && path[0] == start && path.last() == via;
    let longer = path.push(next);
    assert forall|k: int| 0 <= k < longer.len() implies 0 <= #[trigger] longer[k] < cells.len()
        && cells[longer[k]].state == CellState::Hidden by {
        if k < path.len() {
            assert(longer[k] == path[k]);
        }
    }
    assert forall|k: int| 0 <= k < longer.len() - 1 implies cells[#[trigger] longer[k]].is_blank()
        && neighbor_cells(shape, longer[k]).contains(longer[k + 1]) by {
        assert(longer[k] == path[k]);
        if k < path.len() - 1 {
            assert(longer[k + 1] == path[k + 1]);
        }
    }
    assert(spreads(cells, shape, longer));
    assert(longer[0] == path[0]);
}

/// A reveal of a cell that is a mine or has a mine around it reaches no
/// other cell.
pub proof fn lemma_reach_stops(cells: Seq<Cell>, shape: Seq<usize>, start: int, target: int)
    requires
        reaches(cells, shape, start, target),
        !cells[start].is_blank(),
    ensures
        target == start,
{
    let path = choose|path: Seq<int>|
        #[trigger] spreads(cells, shape, path) && path[0] == start && path.last() == target;
    if path.len() > 1 {
        assert(cells[path[0]].is_blank());
    }
}

} // verus!
