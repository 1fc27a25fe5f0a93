//! Which cells are neighbours, said without offset codes: two cells of the
//! grid are neighbours when they differ and no axis differs by more than one.
//! From this, every cell of a grid can be reached from every other by steps
//! between neighbours.

use vstd::prelude::*;
use crate::coordinates::{
    in_grid, is_center, linear_index, neighbors_of, offset_at, offset_count, offset_digit,
    shift_in_grid, shifted,
};
use crate::index_laws::lemma_coords_of_index;
use crate::layout::neighbor_cells;
use crate::neighbor_laws::{
    lemma_code_has_neighbor, lemma_neighbor_has_code, lemma_neighbors_in_grid,
};
use crate::offset_laws::lemma_digit_range;

verus! {

/// The two coordinates differ, and on no axis by more than one.
pub open spec fn adjacent(first: Seq<usize>, second: Seq<usize>) -> bool {
    &&& first.len() == second.len()
    &&& first != second
    &&& forall|j: int| 0 <= j < first.len() ==> -1 <= #[trigger] second[j] - first[j] <= 1
}

/// The offset code whose digits, from `from` on, are the differences between
/// `second` and `first` plus one.
pub open spec fn code_between(first: Seq<usize>, second: Seq<usize>, from: int) -> nat
    decreases first.len() - from,
{
    if from >= first.len() || from < 0 {
        0
    } else {
        ((second[from] - first[from] + 1) + 3 * code_between(first, second, from + 1)) as nat
    }
}

/// The code between two coordinates that differ by at most one on every axis
/// is an offset code, and its digits are the differences plus one.
pub proof fn lemma_code_between(first: Seq<usize>, second: Seq<usize>, from: int, axis: nat)
    requires
        first.len() == second.len(),
        0 <= from,
        from + axis < first.len(),
        forall|j: int| 0 <= j < first.len() ==> -1 <= #[trigger] second[j] - first[j] <= 1,
    ensures
        code_between(first, second, from) < offset_count((first.len() - from) as nat),
        offset_digit(code_between(first, second, from), axis) == second[from + axis] - first[from
            + axis] + 1,
    decreases first.len() - from,
{
    let digit = second[from] - first[from] + 1;
    assert(0 <= digit <= 2);
    let rest = code_between(first, second, from + 1);
    if from + 1 < first.len() {
        lemma_code_between(first, second, from + 1, 0);
    }
    assert(rest < offset_count((first.len() - from - 1) as nat));
    let code = code_between(first, second, from);
    assert(code == digit + 3 * rest);
    assert(code % 3 == digit);
    assert(code / 3 == rest);
    if axis > 0 {
        lemma_code_between(first, second, from + 1, (axis - 1) as nat);
    }
}

/// Two cells of the grid that differ, and on no axis by more than one, are
/// neighbours.
pub proof fn lemma_adjacent_is_neighbor(first: Seq<usize>, second: Seq<usize>, shape: Seq<usize>)
    requires
        in_grid(first, shape),
        in_grid(second, shape),
        adjacent(first, second),
    ensures
        neighbors_of(first, shape).contains(second),
{
    let code = code_between(first, second, 0);
    let axes = first.len();
    assert(axes > 0) by {
        if axes == 0 {
            assert(first =~= second);
        }
    }
    lemma_code_between(first, second, 0, 0);
    assert forall|j: int| 0 <= j < axes implies #[trigger] offset_at(code, j) == second[j]
        - first[j] by {
        lemma_code_between(first, second, 0, j as nat);
    }
    if is_center(code, axes) {
        assert forall|j: int| 0 <= j < axes implies first[j] == second[j] by {
            assert(offset_at(code, j) == 0);
        }
        assert(first =~= second);
    }
    assert(shift_in_grid(first, shape, code));
    assert(shifted(first, code) =~= second);
    let position = lemma_code_has_neighbor(first, shape, offset_count(axes), code);
}

/// Every neighbour of a cell differs from it, and on no axis by more than
/// one.
pub proof fn lemma_neighbor_is_adjacent(coords: Seq<usize>, shape: Seq<usize>, position: int)
    requires
        coords.len() == shape.len(),
        0 <= position < neighbors_of(coords, shape).len(),
    ensures
        adjacent(coords, neighbors_of(coords, shape)[position]),
{
    let other = neighbors_of(coords, shape)[position];
    let code = lemma_neighbor_has_code(coords, shape, offset_count(coords.len()), position);
    assert forall|j: int| 0 <= j < coords.len() implies -1 <= #[trigger] other[j] - coords[j]
        <= 1 by {
        lemma_digit_range(code, j as nat);
        assert(0 <= coords[j] + offset_at(code, j) < shape[j]);
    }
    let j = choose|j: int| 0 <= j < coords.len() && #[trigger] offset_at(code, j) != 0;
    assert(0 <= coords[j] + offset_at(code, j) < shape[j]);
    assert(other[j] != coords[j]);
}

/// The neighbours of a cell of the grid are exactly the cells of the grid
/// that differ from it, and on no axis by more than one.
pub proof fn lemma_neighbors_are_the_adjacent(
    coords: Seq<usize>,
    other: Seq<usize>,
    shape: Seq<usize>,
)
    requires
        in_grid(coords, shape),
    ensures
        neighbors_of(coords, shape).contains(other) <==> in_grid(other, shape) && adjacent(
            coords,
            other,
        ),
{
    if neighbors_of(coords, shape).contains(other) {
        let position = choose|position: int|
            0 <= position < neighbors_of(coords, shape).len() && neighbors_of(
                coords,
                shape,
            )[position] == other;
        lemma_neighbor_is_adjacent(coords, shape, position);
        lemma_neighbors_in_grid(coords, shape);
    }
    if in_grid(other, shape) && adjacent(coords, other) {
        lemma_adjacent_is_neighbor(coords, other, shape);
    }
}

/// Being neighbours goes both ways.
pub proof fn lemma_neighbors_mutual(first: Seq<usize>, second: Seq<usize>, shape: Seq<usize>)
    requires
        in_grid(first, shape),
        in_grid(second, shape),
    ensures
        neighbors_of(first, shape).contains(second) <==> neighbors_of(second, shape).contains(
            first,
        ),
{
    lemma_neighbors_are_the_adjacent(first, second, shape);
    lemma_neighbors_are_the_adjacent(second, first, shape);
    if adjacent(first, second) {
        assert forall|j: int| 0 <= j < second.len() implies -1 <= #[trigger] first[j] - second[j]
            <= 1 by {
            assert(-1 <= second[j] - first[j] <= 1);
        }
    }
    if adjacent(second, first) {
        assert forall|j: int| 0 <= j < first.len() implies -1 <= #[trigger] second[j] - first[j]
            <= 1 by {
            assert(-1 <= first[j] - second[j] <= 1);
        }
    }
}

/// The flat index of a neighbour, given by coordinates, is among the flat
/// indices of the neighbours.
pub proof fn lemma_neighbor_cell(first: Seq<usize>, second: Seq<usize>, shape: Seq<usize>)
    requires
        in_grid(first, shape),
        in_grid(second, shape),
        adjacent(first, second),
    ensures
        neighbor_cells(shape, linear_index(first, shape) as int).contains(
            linear_index(second, shape) as int,
        ),
{
    lemma_coords_of_index(first, shape);
    lemma_adjacent_is_neighbor(first, second, shape);
    let around = neighbors_of(first, shape);
    let position = choose|position: int| 0 <= position < around.len() && around[position] == second;
    let cells = neighbor_cells(shape, linear_index(first, shape) as int);
    assert(cells[position] == linear_index(second, shape) as int);
}

/// The distance between two coordinates along their first `axes` axes, each
/// axis counted by itself.
pub open spec fn gap(first: Seq<usize>, second: Seq<usize>, axes: int) -> nat
    decreases axes,
{
    if axes <= 0 {
        0
    } else {
        let apart = if first[axes - 1] <= second[axes - 1] {
            second[axes - 1] - first[axes - 1]
        } else {
            first[axes - 1] - second[axes - 1]
        };
        gap(first, second, axes - 1) + apart as nat
    }
}

/// `from` moved one step towards `to` on every axis on which they differ.
pub open spec fn toward(from: Seq<usize>, to: Seq<usize>) -> Seq<usize> {
    Seq::new(
        from.len(),
        |j: int|
            if from[j] < to[j] {
                (from[j] + 1) as usize
            } else if from[j] > to[j] {
                (from[j] - 1) as usize
            } else {
                from[j]
            },
    )
}

/// A step towards a cell does not lead away from it on any axis, and brings
/// closer on each axis on which the two differ.
pub proof fn lemma_toward_closer(from: Seq<usize>, to: Seq<usize>, axes: int)
    requires
        from.len() == to.len(),
        0 <= axes <= from.len(),
    ensures
        gap(toward(from, to), to, axes) <= gap(from, to, axes),
        (exists|j: int| 0 <= j < axes && from[j] != to[j]) ==> gap(toward(from, to), to, axes)
            < gap(from, to, axes),
    decreases axes,
{
    if axes > 0 {
        lemma_toward_closer(from, to, axes - 1);
        if exists|j: int| 0 <= j < axes && from[j] != to[j] {
            let j = choose|j: int| 0 <= j < axes && from[j] != to[j];
            if j < axes - 1 {
                assert(exists|j: int| 0 <= j < axes - 1 && from[j] != to[j]);
            }
        }
    }
}

/// A step from one cell of the grid towards another stays in the grid and
/// leads to a neighbour that is closer to the other cell.
pub proof fn lemma_toward_step(from: Seq<usize>, to: Seq<usize>, shape: Seq<usize>)
    requires
        in_grid(from, shape),
        in_grid(to, shape),
        from != to,
    ensures
        in_grid(toward(from, to), shape),
        adjacent(toward(from, to), from),
        gap(toward(from, to), to, from.len() as int) < gap(from, to, from.len() as int),
{
    let next = toward(from, to);
    assert(exists|j: int| 0 <= j < from.len() && from[j] != to[j]) by {
        if forall|j: int| 0 <= j < from.len() ==> from[j] == to[j] {
            assert(from =~= to);
        }
    }
    let j = choose|j: int| 0 <= j < from.len() && from[j] != to[j];
    assert(next[j] != from[j]);
    lemma_toward_closer(from, to, from.len() as int);
    assert forall|k: int| 0 <= k < next.len() implies -1 <= #[trigger] from[k] - next[k] <= 1 by {}
}

} // verus!
