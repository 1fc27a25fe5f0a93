//! The state of a reveal while it spreads, and why each step keeps it.
//!
//! A spreading reveal works through a list of pending cells: revealed cells
//! with no mine around them whose neighbours are still to be revealed.

use vstd::prelude::*;
use crate::cell::{Cell, CellState};
use crate::coordinates::{cell_count, positive_extents};
use crate::flood::{flooded, lemma_reach_start, lemma_reach_step, reaches, spreads};
use crate::layout::{lemma_neighbor_cells_in_range, neighbor_cells};
use crate::setup::listed;

verus! {

/// The cell was hidden before the reveal and is revealed now.
pub open spec fn fresh(before: Seq<Cell>, now: Seq<Cell>, index: int) -> bool {
    before[index].state == CellState::Hidden && now[index].state == CellState::Revealed
}

/// Of the first `upto` neighbours of the cell `index`, each one that was
/// hidden before the reveal is revealed now.
pub open spec fn settled_below(
    before: Seq<Cell>,
    now: Seq<Cell>,
    shape: Seq<usize>,
    index: int,
    upto: int,
) -> bool {
    forall|t: int|
        0 <= t < upto && before[#[trigger] neighbor_cells(shape, index)[t]].state
            == CellState::Hidden ==> now[neighbor_cells(shape, index)[t]].state
            == CellState::Revealed
}

/// Each neighbour of the cell `index` that was hidden before the reveal is
/// revealed now.
pub open spec fn settled(before: Seq<Cell>, now: Seq<Cell>, shape: Seq<usize>, index: int) -> bool {
    settled_below(before, now, shape, index, neighbor_cells(shape, index).len() as int)
}

/// The state of a reveal of `start` that is under way. The cells that
/// changed are hidden cells that the reveal reaches, now revealed. The
/// pending cells are such cells with no mine around them. Every other such
/// cell, `busy` apart, has had its neighbours revealed.
pub open spec fn spreading(
    before: Seq<Cell>,
    now: Seq<Cell>,
    shape: Seq<usize>,
    start: int,
    pending: Seq<usize>,
    busy: int,
) -> bool {
    &&& now.len() == before.len()
    &&& 0 <= start < now.len()
    &&& fresh(before, now, start)
    &&& forall|i: int|
        0 <= i < now.len() ==> #[trigger] now[i] == before[i] || (reaches(before, shape, start, i)
            && now[i] == before[i].with_state(CellState::Revealed))
    &&& forall|k: int|
        0 <= k < pending.len() ==> (#[trigger] pending[k]) < now.len() && fresh(
            before,
            now,
            pending[k] as int,
        ) && before[pending[k] as int].is_blank()
    &&& forall|x: int|
        0 <= x < now.len() && #[trigger] fresh(before, now, x) && before[x].is_blank() && x != busy
            && !listed(pending, x) ==> settled(before, now, shape, x)
}

/// The number of hidden cells among the first `upto` cells.
pub open spec fn hidden_below(cells: Seq<Cell>, upto: int) -> nat
    decreases upto,
{
    if upto <= 0 {
        0
    } else {
        hidden_below(cells, upto - 1) + if cells[upto - 1].state == CellState::Hidden {
            1nat
        } else {
            0nat
        }
    }
}

/// Revealing one hidden cell takes one from the number of hidden cells below
/// any bound above it.
pub proof fn lemma_hidden_below_drop(cells: Seq<Cell>, index: int, shown: Cell, upto: int)
    requires
        0 <= index < cells.len(),
        cells[index].state == CellState::Hidden,
        shown.state != CellState::Hidden,
        upto <= cells.len(),
    ensures
        hidden_below(cells.update(index, shown), upto) + if index < upto {
            1nat
        } else {
            0nat
        } == hidden_below(cells, upto),
    decreases upto,
{
    if upto > 0 {
        lemma_hidden_below_drop(cells, index, shown, upto - 1);
    }
}

/// Right after the start cell is revealed, with that cell pending, the
/// reveal is in a spreading state.
pub proof fn lemma_spread_begin(before: Seq<Cell>, shape: Seq<usize>, start: int)
    requires
        0 <= start < before.len(),
        before.len() <= usize::MAX,
        before[start].state == CellState::Hidden,
        before[start].is_blank(),
    ensures
        spreading(
            before,
            before.update(start, before[start].with_state(CellState::Revealed)),
            shape,
            start,
            seq![start as usize],
            -1,
        ),
{
    let now = before.update(start, before[start].with_state(CellState::Revealed));
    let pending = seq![start as usize];
    lemma_reach_start(before, shape, start);
    assert(pending[0] == start);
    assert forall|x: int|
        0 <= x < now.len() && #[trigger] fresh(before, now, x) && before[x].is_blank() && x != -1
            && !listed(pending, x) implies settled(before, now, shape, x) by {
        assert(x == start);
        assert(pending[0] == x);
    }
}

/// Taking the last pending cell off the list to work on it keeps the
/// spreading state.
pub proof fn lemma_spread_take(
    before: Seq<Cell>,
    now: Seq<Cell>,
    shape: Seq<usize>,
    start: int,
    pending: Seq<usize>,
)
    requires
        spreading(before, now, shape, start, pending, -1),
        pending.len() > 0,
    ensures
        spreading(before, now, shape, start, pending.drop_last(), pending.last() as int),
        pending.last() < now.len(),
        fresh(before, now, pending.last() as int),
        before[pending.last() as int].is_blank(),
        settled_below(before, now, shape, pending.last() as int, 0),
{
    let rest = pending.drop_last();
    let busy = pending.last() as int;
    assert(pending[pending.len() - 1] == pending.last());
    assert forall|k: int| 0 <= k < rest.len() implies (#[trigger] rest[k]) < now.len() && fresh(
        before,
        now,
        rest[k] as int,
    ) && before[rest[k] as int].is_blank() by {
        assert(rest[k] == pending[k]);
    }
    assert forall|x: int|
        0 <= x < now.len() && #[trigger] fresh(before, now, x) && before[x].is_blank() && x != busy
            && !listed(rest, x) implies settled(before, now, shape, x) by {
        if listed(pending, x) {
            let k = choose|k: int| 0 <= k < pending.len() && #[trigger] pending[k] == x;
            assert(k < rest.len());
            assert(rest[k] == x);
        }
    }
}

/// Revealing a hidden neighbour of the cell being worked on, and adding it
/// to the pending cells if it has no mine around it, keeps the spreading
/// state and settles that neighbour.
pub proof fn lemma_spread_reveal(
    before: Seq<Cell>,
    now: Seq<Cell>,
    shape: Seq<usize>,
    start: int,
    pending: Seq<usize>,
    busy: int,
    position: int,
)
    requires
        positive_extents(shape),
        now.len() == cell_count(shape),
        now.len() <= usize::MAX,
        spreading(before, now, shape, start, pending, busy),
        0 <= busy < now.len(),
        fresh(before, now, busy),
        before[busy].is_blank(),
        0 <= position < neighbor_cells(shape, busy).len(),
        settled_below(before, now, shape, busy, position),
        now[neighbor_cells(shape, busy)[position]].state == CellState::Hidden,
    ensures
        ({
            let at = neighbor_cells(shape, busy)[position];
            let after = now.update(at, now[at].with_state(CellState::Revealed));
            let queued = if now[at].is_blank() {
                pending.push(at as usize)
            } else {
                pending
            };
            &&& 0 <= at < now.len()
            &&& spreading(before, after, shape, start, queued, busy)
            &&& settled_below(before, after, shape, busy, position + 1)
        }),
{
    let at = neighbor_cells(shape, busy)[position];
    let after = now.update(at, now[at].with_state(CellState::Revealed));
    let queued = if now[at].is_blank() {
        pending.push(at as usize)
    } else {
        pending
    };
    lemma_neighbor_cells_in_range(shape, busy);
    assert(0 <= at < now.len());
    assert(now[at] == before[at]);
    assert(now[busy] != before[busy]);
    assert(reaches(before, shape, start, busy));
    assert(neighbor_cells(shape, busy)[position] == at);
    lemma_reach_step(before, shape, start, busy, at);
    assert forall|i: int| 0 <= i < after.len() implies #[trigger] after[i] == before[i] || (reaches(
        before,
        shape,
        start,
        i,
    ) && after[i] == before[i].with_state(CellState::Revealed)) by {
        if i != at {
            assert(after[i] == now[i]);
        }
    }
    assert forall|k: int| 0 <= k < queued.len() implies (#[trigger] queued[k]) < after.len()
        && fresh(before, after, queued[k] as int) && before[queued[k] as int].is_blank() by {
        if k < pending.len() {
            assert(queued[k] == pending[k]);
            assert(fresh(before, now, pending[k] as int));
        }
    }
    assert forall|x: int|
        0 <= x < after.len() && #[trigger] fresh(before, after, x) && before[x].is_blank() && x
            != busy && !listed(queued, x) implies settled(before, after, shape, x) by {
        if x == at {
            assert(queued[queued.len() - 1] == at);
        } else {
            assert(after[x] == now[x]);
            assert(fresh(before, now, x));
            if listed(pending, x) {
                let k = choose|k: int| 0 <= k < pending.len() && #[trigger] pending[k] == x;
                assert(queued[k] == x);
            }
            assert(settled(before, now, shape, x));
            lemma_neighbor_cells_in_range(shape, x);
            lemma_settled_kept(before, now, shape, x, at, neighbor_cells(shape, x).len() as int);
        }
    }
    lemma_settled_kept(before, now, shape, busy, at, position);
    assert(settled_below(before, after, shape, busy, position + 1));
}

/// Revealing one more cell keeps what was settled.
pub proof fn lemma_settled_kept(
    before: Seq<Cell>,
    now: Seq<Cell>,
    shape: Seq<usize>,
    index: int,
    at: int,
    upto: int,
)
    requires
        0 <= at < now.len(),
        upto <= neighbor_cells(shape, index).len(),
        forall|t: int|
            0 <= t < neighbor_cells(shape, index).len() ==> 0 <= #[trigger] neighbor_cells(
                shape,
                index,
            )[t] < now.len(),
        settled_below(before, now, shape, index, upto),
    ensures
        settled_below(
            before,
            now.update(at, now[at].with_state(CellState::Revealed)),
            shape,
            index,
            upto,
        ),
{
    let after = now.update(at, now[at].with_state(CellState::Revealed));
    assert forall|t: int|
        0 <= t < upto && before[#[trigger] neighbor_cells(shape, index)[t]].state
            == CellState::Hidden implies after[neighbor_cells(shape, index)[t]].state
        == CellState::Revealed by {
        let cell = neighbor_cells(shape, index)[t];
        if cell != at {
            assert(after[cell] == now[cell]);
        }
    }
}

/// Passing over a neighbour that is not hidden settles it.
pub proof fn lemma_spread_skip(
    before: Seq<Cell>,
    now: Seq<Cell>,
    shape: Seq<usize>,
    start: int,
    pending: Seq<usize>,
    busy: int,
    position: int,
)
    requires
        positive_extents(shape),
        now.len() == cell_count(shape),
        spreading(before, now, shape, start, pending, busy),
        0 <= position < neighbor_cells(shape, busy).len(),
        settled_below(before, now, shape, busy, position),
        now[neighbor_cells(shape, busy)[position]].state != CellState::Hidden,
    ensures
        settled_below(before, now, shape, busy, position + 1),
{
    let at = neighbor_cells(shape, busy)[position];
    lemma_neighbor_cells_in_range(shape, busy);
    assert(0 <= at < now.len());
    assert(now[at] == before[at] || now[at] == before[at].with_state(CellState::Revealed));
}

/// Once every neighbour of the cell being worked on is settled, the cell is
/// done with.
pub proof fn lemma_spread_done(
    before: Seq<Cell>,
    now: Seq<Cell>,
    shape: Seq<usize>,
    start: int,
    pending: Seq<usize>,
    busy: int,
)
    requires
        spreading(before, now, shape, start, pending, busy),
        settled(before, now, shape, busy),
    ensures
        spreading(before, now, shape, start, pending, -1),
{
}

/// Along a way on which the reveal spreads, every cell is revealed once no
/// cell is pending.
proof fn lemma_path_revealed(
    before: Seq<Cell>,
    now: Seq<Cell>,
    shape: Seq<usize>,
    start: int,
    path: Seq<int>,
    k: int,
)
    requires
        spreading(before, now, shape, start, Seq::<usize>::empty(), -1),
        spreads(before, shape, path),
        path[0] == start,
        0 <= k < path.len(),
    ensures
        fresh(before, now, path[k]),
    decreases k,
{
    if k > 0 {
        lemma_path_revealed(before, now, shape, start, path, k - 1);
        let from = path[k - 1];
        assert(0 <= from < before.len());
        assert(before[from].is_blank());
        assert(neighbor_cells(shape, from).contains(path[k - 1 + 1]));
        assert(!listed(Seq::<usize>::empty(), from));
        assert(settled(before, now, shape, from));
        let t = choose|t: int|
            0 <= t < neighbor_cells(shape, from).len() && neighbor_cells(shape, from)[t] == path[k];
        assert(before[neighbor_cells(shape, from)[t]].state == CellState::Hidden);
    }
}

/// When no cell is pending, exactly the cells that the reveal reaches have
/// been revealed.
pub proof fn lemma_spread_end(before: Seq<Cell>, now: Seq<Cell>, shape: Seq<usize>, start: int)
    requires
        spreading(before, now, shape, start, Seq::<usize>::empty(), -1),
    ensures
        now == flooded(before, shape, start),
{
    let goal = flooded(before, shape, start);
    assert forall|i: int| 0 <= i < now.len() implies now[i] == goal[i] by {
        if reaches(before, shape, start, i) {
            let path = choose|path: Seq<int>|
                #[trigger] spreads(before, shape, path) && path[0] == start && path.last() == i;
            lemma_path_revealed(before, now, shape, start, path, path.len() - 1);
            assert(now[i] != before[i]);
        } else {
            assert(now[i] == before[i]);
        }
    }
    assert(now =~= goal);
}

} // verus!
