//! Conversion between N-dimensional coordinates and flat indices, and
//! enumeration of the neighbours of a cell.
//!
//! Cells are stored in one flat vector. Axis 0 varies fastest: the stride of
//! axis `i` is the product of the extents of all axes before it.

use vstd::prelude::*;
use vstd::arithmetic::div_mod::{
    lemma_breakdown, lemma_fundamental_div_mod_converse, lemma_mod_bound, lemma_mod_mod,
};
use crate::index_laws::{
    lemma_index_of_coords, lemma_index_of_decoded, lemma_prefix_bound, lemma_stride_monotone,
    lemma_stride_positive,
};
use crate::neighbor_laws::lemma_neighbors_in_grid;
use crate::offset_laws::{
    lemma_all_twos, lemma_count_positive, lemma_digit_range, lemma_digit_succ, lemma_not_last,
    lemma_zero_digits,
};

verus! {

/// N-dimensional coordinates, one entry per axis.
pub type Coordinates = Vec<usize>;

/// The stride of axis `axis`: the product of the extents of the axes before it.
pub open spec fn stride(shape: Seq<usize>, axis: int) -> nat
    decreases axis,
{
    if axis <= 0 {
        1
    } else {
        stride(shape, axis - 1) * (shape[axis - 1] as nat)
    }
}

/// The number of cells of a grid: the product of all its extents.
pub open spec fn cell_count(shape: Seq<usize>) -> nat {
    stride(shape, shape.len() as int)
}

/// Every axis of the shape has at least one position.
pub open spec fn positive_extents(shape: Seq<usize>) -> bool {
    forall|i: int| 0 <= i < shape.len() ==> shape[i] > 0
}

/// `coords` addresses a cell of a grid of the given shape.
pub open spec fn in_grid(coords: Seq<usize>, shape: Seq<usize>) -> bool {
    &&& coords.len() == shape.len()
    &&& forall|i: int| 0 <= i < coords.len() ==> coords[i] < shape[i]
}

/// The contribution of the first `axes` axes to the flat index:
/// the sum of `coords[i] * stride(shape, i)` over `i < axes`.
pub open spec fn index_prefix(coords: Seq<usize>, shape: Seq<usize>, axes: int) -> nat
    decreases axes,
{
    if axes <= 0 {
        0
    } else {
        index_prefix(coords, shape, axes - 1) + (coords[axes - 1] as nat) * stride(
            shape,
            axes - 1,
        )
    }
}

/// The flat index of a coordinate: the sum of `coords[i] * stride(shape, i)`
/// over all axes.
pub open spec fn linear_index(coords: Seq<usize>, shape: Seq<usize>) -> nat {
    index_prefix(coords, shape, coords.len() as int)
}

/// The position along `axis` that the flat index `index` decodes to: the
/// index divided by the stride of the axis, and on every axis but the last
/// reduced modulo the extent. On the last axis nothing is left to reduce
/// while the index is below the number of cells.
pub open spec fn axis_position(index: nat, shape: Seq<usize>, axis: int) -> nat {
    if axis == shape.len() - 1 {
        index / stride(shape, axis)
    } else {
        (index / stride(shape, axis)) % (shape[axis] as nat)
    }
}

/// The coordinates that the flat index `index` decodes to: those of the cell
/// with that index, where the index is below the number of cells.
pub open spec fn coords_of(index: nat, shape: Seq<usize>) -> Seq<usize> {
    Seq::new(shape.len(), |axis: int| axis_position(index, shape, axis) as usize)
}

/// The number of offset codes for a cell with `axes` axes: three to the
/// power `axes`, one code for each way to shift every axis by -1, 0 or +1.
pub open spec fn offset_count(axes: nat) -> nat
    decreases axes,
{
    if axes == 0 {
        1
    } else {
        3 * offset_count((axes - 1) as nat)
    }
}

/// The base-3 digit of `code` at position `axis`, least significant first.
pub open spec fn offset_digit(code: nat, axis: nat) -> nat
    decreases axis,
{
    if axis == 0 {
        code % 3
    } else {
        offset_digit(code / 3, (axis - 1) as nat)
    }
}

/// The shift that `code` applies along `axis`: its base-3 digit less one,
/// so -1, 0 or +1.
pub open spec fn offset_at(code: nat, axis: int) -> int {
    offset_digit(code, axis as nat) - 1
}

/// `code` shifts none of the first `axes` axes: it stands for the cell itself.
pub open spec fn is_center(code: nat, axes: nat) -> bool {
    forall|j: int| 0 <= j < axes ==> #[trigger] offset_at(code, j) == 0
}

/// Shifting `coords` by `code` stays inside the grid on every axis.
pub open spec fn shift_in_grid(coords: Seq<usize>, shape: Seq<usize>, code: nat) -> bool {
    forall|j: int|
        0 <= j < coords.len() ==> 0 <= coords[j] + #[trigger] offset_at(code, j) < shape[j]
}

/// `coords` shifted by `code`.
pub open spec fn shifted(coords: Seq<usize>, code: nat) -> Seq<usize> {
    Seq::new(coords.len(), |j: int| (coords[j] + offset_at(code, j)) as usize)
}

/// `code` leads from `coords` to a neighbour: it moves at least one axis and
/// stays inside the grid.
pub open spec fn is_neighbor_code(coords: Seq<usize>, shape: Seq<usize>, code: nat) -> bool {
    !is_center(code, coords.len()) && shift_in_grid(coords, shape, code)
}

/// The neighbours of `coords` reached by the offset codes below `limit`, in
/// increasing order of the code.
pub open spec fn neighbors_below(coords: Seq<usize>, shape: Seq<usize>, limit: nat) -> Seq<
    Seq<usize>,
>
    decreases limit,
{
    if limit == 0 {
        Seq::empty()
    } else {
        let code = (limit - 1) as nat;
        let before = neighbors_below(coords, shape, code);
        if is_neighbor_code(coords, shape, code) {
            before.push(shifted(coords, code))
        } else {
            before
        }
    }
}

/// The neighbours of `coords`: every cell of the grid reached by shifting
/// each axis by -1, 0 or +1, the cell itself left out, in increasing order of
/// the offset code.
pub open spec fn neighbors_of(coords: Seq<usize>, shape: Seq<usize>) -> Seq<Seq<usize>> {
    neighbors_below(coords, shape, offset_count(coords.len()))
}

/// Converts N-dimensional coordinates to a flat index.
///
/// The coordinates must address a cell of the grid, and the grid's cells
/// must be countable in a `usize`.
pub fn to_index(coords: &Coordinates, dimensions: &[usize]) -> (index: usize)
    requires
        in_grid(coords@, dimensions@),
        cell_count(dimensions@) <= usize::MAX,
    ensures
        index == linear_index(coords@, dimensions@),
        index < cell_count(dimensions@),
{
    let mut index: usize = 0;
    let mut step: usize = 1;
    let mut i: usize = 0;
    while i < coords.len()
        invariant
            0 <= i <= coords@.len(),
            in_grid(coords@, dimensions@),
            cell_count(dimensions@) <= usize::MAX,
            index == index_prefix(coords@, dimensions@, i as int),
            i == 0 ==> step == 1,
            i > 0 ==> step == stride(dimensions@, i - 1),
        decreases coords@.len() - i,
    {
        proof {
            lemma_stride_monotone(dimensions@, i as int, dimensions@.len() as int);
            lemma_prefix_bound(coords@, dimensions@, i + 1);
            lemma_stride_monotone(dimensions@, i + 1, dimensions@.len() as int);
        }
        if i > 0 {
            step = step * dimensions[i - 1];
        }
        assert(step == stride(dimensions@, i as int));
        assert(coords@[i as int] * step <= index_prefix(coords@, dimensions@, i + 1));
        index = index + coords[i] * step;
        i += 1;
    }
    proof {
        lemma_prefix_bound(coords@, dimensions@, dimensions@.len() as int);
    }
    index
}

/// Converts a flat index to N-dimensional coordinates.
///
/// Every extent must be positive, and the number of cells must be countable
/// in a `usize`. The positions are decoded from the last axis down to the
/// first. An index below the number of cells gives the coordinates of its
/// cell. A larger index gives a position beyond the grid on the last axis.
pub fn to_coords(index: usize, dimensions: &[usize]) -> (coords: Coordinates)
    requires
        positive_extents(dimensions@),
        cell_count(dimensions@) <= usize::MAX,
    ensures
        coords@ == coords_of(index as nat, dimensions@),
        index < cell_count(dimensions@) ==> in_grid(coords@, dimensions@),
        dimensions@.len() > 0 || index == 0 ==> linear_index(coords@, dimensions@) == index,
{
    let n = dimensions.len();
    let mut coords: Vec<usize> = Vec::new();
    let mut step: usize = 1;
    let mut i: usize = 0;
    while i < n
        invariant
            n == dimensions@.len(),
            0 <= i <= n,
            positive_extents(dimensions@),
            cell_count(dimensions@) <= usize::MAX,
            coords@.len() == i,
            i == 0 ==> step == 1,
            i > 0 ==> step == stride(dimensions@, i - 1),
        decreases n - i,
    {
        proof {
            lemma_stride_monotone(dimensions@, i as int, n as int);
        }
        if i > 0 {
            step = step * dimensions[i - 1];
        }
        coords.push(0);
        i += 1;
    }
    let mut rest: usize = index;
    while i > 0
        invariant
            n == dimensions@.len(),
            0 <= i <= n,
            positive_extents(dimensions@),
            coords@.len() == n,
            i == 0 ==> step == 1,
            i > 0 ==> step == stride(dimensions@, i - 1),
            i == n ==> rest == index,
            i < n ==> rest == (index as nat) % stride(dimensions@, i as int),
            forall|j: int| i <= j < n ==> coords@[j] == axis_position(index as nat, dimensions@, j),
        decreases i,
    {
        i -= 1;
        proof {
            lemma_stride_positive(dimensions@, i as int);
            if i + 1 < n {
                let s = stride(dimensions@, i as int) as int;
                let e = dimensions@[i as int] as int;
                lemma_breakdown(index as int, s, e);
                lemma_mod_mod(index as int, s, e);
                lemma_mod_bound(index as int, s);
                lemma_mod_bound(index as int / s, e);
                let digit = (index as int / s) % e;
                assert(stride(dimensions@, i + 1) == s * e);
                assert(digit * s == s * digit) by (nonlinear_arith);
                lemma_fundamental_div_mod_converse(rest as int, s, digit, index as int % s);
            }
        }
        coords.set(i, rest / step);
        rest = rest % step;
        if i > 0 {
            proof {
                lemma_stride_positive(dimensions@, i - 1);
                let below = stride(dimensions@, i - 1) as int;
                let extent = dimensions@[i - 1] as int;
                assert((below * extent) / extent == below) by (nonlinear_arith)
                    requires
                        extent > 0,
                        below >= 0,
                ;
            }
            step = step / dimensions[i - 1];
        }
    }
    proof {
        assert(coords@ =~= coords_of(index as nat, dimensions@));
        if n > 0 {
            lemma_stride_positive(dimensions@, n - 1);
            let s = stride(dimensions@, n - 1) as int;
            let whole = index as int;
            assert(whole / s <= whole) by (nonlinear_arith)
                requires
                    whole >= 0,
                    s > 0,
            ;
            lemma_index_of_decoded(index as nat, dimensions@);
        }
        if index < cell_count(dimensions@) {
            lemma_index_of_coords(index as nat, dimensions@);
        }
    }
    coords
}

/// `digits` holds the base-3 digits of `code`, least significant first.
pub open spec fn digits_of_code(digits: Seq<u8>, code: nat) -> bool {
    forall|j: int| 0 <= j < digits.len() ==> #[trigger] digits[j] == offset_digit(code, j as nat)
}

/// Applies to `coords` the shifts that `digits` stand for. Gives the shifted
/// coordinates where they differ from `coords` and lie inside the grid.
fn shift_by(
    coords: &Coordinates,
    dimensions: &[usize],
    digits: &Vec<u8>,
    Ghost(code): Ghost<nat>,
) -> (moved: Option<Coordinates>)
    requires
        coords@.len() == dimensions@.len(),
        coords@.len() == digits@.len(),
        digits_of_code(digits@, code),
    ensures
        moved.is_some() == is_neighbor_code(coords@, dimensions@, code),
        moved matches Some(m) ==> m@ == shifted(coords@, code),
{
    let n = coords.len();
    let mut moved: Vec<usize> = Vec::new();
    let mut centered = true;
    let mut j: usize = 0;
    while j < n
        invariant
            n == coords@.len(),
            n == dimensions@.len(),
            n == digits@.len(),
            digits_of_code(digits@, code),
            0 <= j <= n,
            moved@.len() == j,
            forall|k: int|
                0 <= k < j ==> 0 <= coords@[k] + #[trigger] offset_at(code, k) < dimensions@[k],
            forall|k: int| 0 <= k < j ==> moved@[k] == coords@[k] + offset_at(code, k),
            centered == is_center(code, j as nat),
        decreases n - j,
    {
        let digit = digits[j];
        let here = coords[j];
        let extent = dimensions[j];
        proof {
            lemma_digit_range(code, j as nat);
            assert(digit == offset_digit(code, j as nat));
            assert(offset_at(code, j as int) == digit - 1);
        }
        if digit == 0 {
            if here == 0 || here - 1 >= extent {
                return None;
            }
            moved.push(here - 1);
            centered = false;
        } else if digit == 1 {
            if here >= extent {
                return None;
            }
            moved.push(here);
        } else {
            if extent == 0 || here >= extent - 1 {
                return None;
            }
            moved.push(here + 1);
            centered = false;
        }
        j += 1;
    }
    if centered {
        None
    } else {
        proof {
            assert(moved@ =~= shifted(coords@, code));
        }
        Some(moved)
    }
}

/// Steps `digits` from the digits of `code` to those of the next code.
/// Says whether there is a next code below the number of offset codes.
fn next_offsets(digits: &mut Vec<u8>, Ghost(code): Ghost<nat>) -> (more: bool)
    requires
        digits_of_code(old(digits)@, code),
        code < offset_count(old(digits)@.len()),
    ensures
        final(digits)@.len() == old(digits)@.len(),
        more ==> code + 1 < offset_count(old(digits)@.len()) && digits_of_code(
            final(digits)@,
            code + 1,
        ),
        !more ==> code + 1 == offset_count(old(digits)@.len()),
{
    let n = digits.len();
    let ghost before = digits@;
    let mut j: usize = 0;
    while j < n && digits[j] == 2
        invariant
            n == before.len(),
            digits@.len() == n,
            0 <= j <= n,
            digits_of_code(before, code),
            forall|k: int| 0 <= k < j ==> before[k] == 2 && digits@[k] == 0,
            forall|k: int| j <= k < n ==> digits@[k] == before[k],
        decreases n - j,
    {
        assert(before[j as int] == 2);
        digits.set(j, 0);
        j += 1;
    }
    if j == n {
        proof {
            assert forall|k: nat| k < n implies offset_digit(code, k) == 2 by {
                assert(before[k as int] == 2);
            }
            lemma_all_twos(code, n as nat);
        }
        false
    } else {
        proof {
            lemma_digit_range(code, j as nat);
            assert(before[j as int] == offset_digit(code, j as nat));
            assert forall|k: nat| k < j implies offset_digit(code, k) == 2 by {
                assert(before[k as int] == 2);
            }
            lemma_not_last(code, n as nat, j as nat);
            lemma_digit_succ(code, code + 1, j as nat);
        }
        let digit = digits[j];
        digits.set(j, digit + 1);
        proof {
            assert forall|k: int| 0 <= k < n implies #[trigger] digits@[k] == offset_digit(
                code + 1,
                k as nat,
            ) by {
                assert(before[k] == offset_digit(code, k as nat));
            }
        }
        true
    }
}

/// Returns the neighbours of a cell: every cell of the grid reached by
/// changing each coordinate by -1, 0 or +1, the cell itself left out.
///
/// The neighbours come in increasing order of the offset code, whose base-3
/// digits, least significant first, give the shift of each axis. Shifts that
/// leave the grid are dropped. `coords` needs one entry per axis.
pub fn get_neighbors(coords: &Coordinates, dimensions: &[usize]) -> (neighbors: Vec<Coordinates>)
    requires
        coords@.len() == dimensions@.len(),
    ensures
        neighbors@.len() == neighbors_of(coords@, dimensions@).len(),
        forall|i: int|
            0 <= i < neighbors@.len() ==> (#[trigger] neighbors@[i])@ == neighbors_of(
                coords@,
                dimensions@,
            )[i],
        forall|i: int| 0 <= i < neighbors@.len() ==> in_grid((#[trigger] neighbors@[i])@, dimensions@),
{
    let n = coords.len();
    let mut neighbors: Vec<Coordinates> = Vec::new();
    let mut digits: Vec<u8> = Vec::new();
    let mut j: usize = 0;
    while j < n
        invariant
            0 <= j <= n,
            digits@.len() == j,
            forall|k: int| 0 <= k < j ==> digits@[k] == 0,
        decreases n - j,
    {
        digits.push(0);
        j += 1;
    }
    let ghost mut code: nat = 0;
    proof {
        lemma_count_positive(n as nat);
        assert forall|k: int| 0 <= k < digits@.len() implies #[trigger] digits@[k] == offset_digit(
            code,
            k as nat,
        ) by {
            lemma_zero_digits(k as nat);
        }
    }
    let mut more = true;
    while more
        invariant
            n == coords@.len(),
            n == dimensions@.len(),
            n == digits@.len(),
            more ==> code < offset_count(n as nat) && digits_of_code(digits@, code),
            !more ==> code == offset_count(n as nat),
            neighbors@.len() == neighbors_below(coords@, dimensions@, code).len(),
            forall|i: int|
                0 <= i < neighbors@.len() ==> (#[trigger] neighbors@[i])@ == neighbors_below(
                    coords@,
                    dimensions@,
                    code,
                )[i],
        decreases offset_count(n as nat) - code,
    {
        let moved = shift_by(coords, dimensions, &digits, Ghost(code));
        if let Some(m) = moved {
            neighbors.push(m);
        }
        more = next_offsets(&mut digits, Ghost(code));
        proof {
            code = code + 1;
        }
    }
    proof {
        lemma_neighbors_in_grid(coords@, dimensions@);
    }
    neighbors
}

/// Says whether the coordinates address a cell of the grid: one entry per
/// axis, each below the extent of its axis.
pub fn is_in_grid(coords: &Coordinates, dimensions: &[usize]) -> (inside: bool)
    ensures
        inside == in_grid(coords@, dimensions@),
{
    let n = coords.len();
    if n != dimensions.len() {
        return false;
    }
    let mut i: usize = 0;
    while i < n
        invariant
            n == coords@.len(),
            n == dimensions@.len(),
            0 <= i <= n,
            forall|k: int| 0 <= k < i ==> coords@[k] < dimensions@[k],
        decreases n - i,
    {
        if coords[i] >= dimensions[i] {
            return false;
        }
        i += 1;
    }
    true
}

} // verus!
