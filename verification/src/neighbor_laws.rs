//! Facts about the neighbours of a cell: they lie in the grid, each comes
//! from one offset code, and a cell away from every border has all of them.

use vstd::prelude::*;
use crate::coordinates::{
    in_grid, is_center, is_neighbor_code, neighbors_below, neighbors_of, offset_at, offset_count,
    offset_digit, shift_in_grid, shifted,
};
use crate::offset_laws::{lemma_digit_range, lemma_digits_decide};

verus! {

/// A shift that stays inside the grid leads to a cell of the grid.
pub proof fn lemma_shifted_in_grid(coords: Seq<usize>, shape: Seq<usize>, code: nat)
    requires
        coords.len() == shape.len(),
        shift_in_grid(coords, shape, code),
    ensures
        in_grid(shifted(coords, code), shape),
{
    let moved = shifted(coords, code);
    assert forall|j: int| 0 <= j < moved.len() implies moved[j] < shape[j] by {
        assert(0 <= coords[j] + offset_at(code, j) < shape[j]);
    }
}

/// Every neighbour comes from an offset code that moves the cell and stays
/// inside the grid.
pub proof fn lemma_neighbor_has_code(
    coords: Seq<usize>,
    shape: Seq<usize>,
    limit: nat,
    position: int,
) -> (code: nat)
    requires
        0 <= position < neighbors_below(coords, shape, limit).len(),
    ensures
        code < limit,
        is_neighbor_code(coords, shape, code),
        neighbors_below(coords, shape, limit)[position] == shifted(coords, code),
    decreases limit,
{
    let last = (limit - 1) as nat;
    let before = neighbors_below(coords, shape, last);
    if position < before.len() {
        lemma_neighbor_has_code(coords, shape, last, position)
    } else {
        last
    }
}

/// Every offset code that moves the cell and stays inside the grid gives a
/// neighbour.
pub proof fn lemma_code_has_neighbor(
    coords: Seq<usize>,
    shape: Seq<usize>,
    limit: nat,
    code: nat,
) -> (position: int)
    requires
        code < limit,
        is_neighbor_code(coords, shape, code),
    ensures
        0 <= position < neighbors_below(coords, shape, limit).len(),
        neighbors_below(coords, shape, limit)[position] == shifted(coords, code),
    decreases limit,
{
    let last = (limit - 1) as nat;
    let before = neighbors_below(coords, shape, last);
    if code == last {
        before.len() as int
    } else {
        let position = lemma_code_has_neighbor(coords, shape, last, code);
        position
    }
}

/// The neighbours come in increasing order of their offset codes: of two
/// neighbours, the earlier has the smaller code.
pub proof fn lemma_neighbor_codes_ordered(
    coords: Seq<usize>,
    shape: Seq<usize>,
    limit: nat,
    earlier: int,
    later: int,
) -> (codes: (nat, nat))
    requires
        0 <= earlier < later < neighbors_below(coords, shape, limit).len(),
    ensures
        codes.0 < codes.1 < limit,
        is_neighbor_code(coords, shape, codes.0),
        is_neighbor_code(coords, shape, codes.1),
        neighbors_below(coords, shape, limit)[earlier] == shifted(coords, codes.0),
        neighbors_below(coords, shape, limit)[later] == shifted(coords, codes.1),
    decreases limit,
{
    let last = (limit - 1) as nat;
    let before = neighbors_below(coords, shape, last);
    if later < before.len() {
        lemma_neighbor_codes_ordered(coords, shape, last, earlier, later)
    } else {
        let code = lemma_neighbor_has_code(coords, shape, last, earlier);
        (code, last)
    }
}

/// Different offset codes that stay inside the grid lead to different cells.
pub proof fn lemma_shifts_differ(coords: Seq<usize>, shape: Seq<usize>, first: nat, second: nat)
    requires
        coords.len() == shape.len(),
        first < offset_count(coords.len()),
        second < offset_count(coords.len()),
        shift_in_grid(coords, shape, first),
        shift_in_grid(coords, shape, second),
        first != second,
    ensures
        shifted(coords, first) != shifted(coords, second),
{
    if shifted(coords, first) == shifted(coords, second) {
        assert forall|j: nat| j < coords.len() implies offset_digit(first, j) == offset_digit(
            second,
            j,
        ) by {
            let axis = j as int;
            assert(0 <= coords[axis] + offset_at(first, axis) < shape[axis]);
            assert(0 <= coords[axis] + offset_at(second, axis) < shape[axis]);
            assert(shifted(coords, first)[axis] == shifted(coords, second)[axis]);
        }
        lemma_digits_decide(first, second, coords.len());
    }
}

/// No cell comes twice among the neighbours of a cell.
pub proof fn lemma_neighbors_distinct(coords: Seq<usize>, shape: Seq<usize>)
    requires
        coords.len() == shape.len(),
    ensures
        neighbors_of(coords, shape).no_duplicates(),
{
    let around = neighbors_of(coords, shape);
    assert forall|i: int, j: int| 0 <= i < around.len() && 0 <= j < around.len() && i != j implies around[i]
        != around[j] by {
        let (low, high) = if i < j {
            (i, j)
        } else {
            (j, i)
        };
        let codes = lemma_neighbor_codes_ordered(
            coords,
            shape,
            offset_count(coords.len()),
            low,
            high,
        );
        lemma_shifts_differ(coords, shape, codes.0, codes.1);
    }
}

/// Every neighbour of a cell is a cell of the grid.
pub proof fn lemma_neighbors_in_grid(coords: Seq<usize>, shape: Seq<usize>)
    requires
        coords.len() == shape.len(),
    ensures
        forall|position: int|
            0 <= position < neighbors_of(coords, shape).len() ==> in_grid(
                #[trigger] neighbors_of(coords, shape)[position],
                shape,
            ),
{
    assert forall|position: int| 0 <= position < neighbors_of(coords, shape).len() implies in_grid(
        #[trigger] neighbors_of(coords, shape)[position],
        shape,
    ) by {
        let code = lemma_neighbor_has_code(
            coords,
            shape,
            offset_count(coords.len()),
            position,
        );
        lemma_shifted_in_grid(coords, shape, code);
    }
}

/// The cell lies away from every border: on no axis is it at position 0 or
/// at the last position.
pub open spec fn interior(coords: Seq<usize>, shape: Seq<usize>) -> bool {
    &&& coords.len() == shape.len()
    &&& forall|j: int| 0 <= j < coords.len() ==> 0 < coords[j] && coords[j] + 1 < shape[j]
}

/// The offset code that shifts none of the first `axes` axes.
pub open spec fn center_code(axes: nat) -> nat
    decreases axes,
{
    if axes == 0 {
        0
    } else {
        1 + 3 * center_code((axes - 1) as nat)
    }
}

/// The centre is one of the offset codes.
pub proof fn lemma_center_in_range(axes: nat)
    ensures
        center_code(axes) < offset_count(axes),
    decreases axes,
{
    if axes > 0 {
        lemma_center_in_range((axes - 1) as nat);
    }
}

/// Among the offset codes exactly one shifts no axis.
pub proof fn lemma_center_unique(code: nat, axes: nat)
    requires
        code < offset_count(axes),
    ensures
        is_center(code, axes) <==> code == center_code(axes),
    decreases axes,
{
    if axes > 0 {
        let up = code / 3;
        let fewer = (axes - 1) as nat;
        lemma_center_unique(up, fewer);
        if is_center(code, axes) {
            assert(offset_at(code, 0) == 0);
            assert forall|j: int| 0 <= j < fewer implies #[trigger] offset_at(up, j) == 0 by {
                assert(offset_at(code, j + 1) == 0);
                assert(offset_digit(code, (j + 1) as nat) == offset_digit(up, j as nat));
            }
            assert(code == center_code(axes));
        }
        if code == center_code(axes) {
            assert(up == center_code(fewer));
            assert forall|j: int| 0 <= j < axes implies #[trigger] offset_at(code, j) == 0 by {
                if j > 0 {
                    assert(offset_at(up, j - 1) == 0);
                    assert(offset_digit(code, j as nat) == offset_digit(up, (j - 1) as nat));
                }
            }
        }
    }
}

/// Around a cell away from every border each shift stays inside the grid.
pub proof fn lemma_interior_shift(coords: Seq<usize>, shape: Seq<usize>, code: nat)
    requires
        interior(coords, shape),
    ensures
        shift_in_grid(coords, shape, code),
{
    assert forall|j: int| 0 <= j < coords.len() implies 0 <= coords[j] + #[trigger] offset_at(
        code,
        j,
    ) < shape[j] by {
        lemma_digit_range(code, j as nat);
    }
}

/// Around a cell away from every border, each offset code below `limit` but
/// the centre gives a neighbour.
pub proof fn lemma_interior_count_below(coords: Seq<usize>, shape: Seq<usize>, limit: nat)
    requires
        interior(coords, shape),
        limit <= offset_count(coords.len()),
    ensures
        neighbors_below(coords, shape, limit).len() == if limit > center_code(coords.len()) {
            limit - 1
        } else {
            limit as int
        },
    decreases limit,
{
    if limit > 0 {
        let code = (limit - 1) as nat;
        lemma_interior_count_below(coords, shape, code);
        lemma_interior_shift(coords, shape, code);
        lemma_center_unique(code, coords.len());
    }
}

/// A cell of an N-dimensional grid that lies away from every border has
/// exactly three to the power N, less one, neighbours.
pub proof fn lemma_interior_neighbor_count(coords: Seq<usize>, shape: Seq<usize>)
    requires
        interior(coords, shape),
    ensures
        neighbors_of(coords, shape).len() == offset_count(coords.len()) - 1,
{
    lemma_center_in_range(coords.len());
    lemma_interior_count_below(coords, shape, offset_count(coords.len()));
}

} // verus!
