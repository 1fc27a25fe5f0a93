//! Facts about strides and flat indices: bounds, and that coordinates and
//! flat indices determine each other.

use vstd::prelude::*;
use vstd::arithmetic::div_mod::{lemma_breakdown, lemma_fundamental_div_mod, lemma_mod_bound};
use vstd::arithmetic::mul::lemma_mul_strictly_positive;
use crate::coordinates::{
    axis_position, cell_count, coords_of, in_grid, index_prefix, linear_index, positive_extents,
    stride,
};

verus! {

/// Every stride of a shape with positive extents is positive.
pub proof fn lemma_stride_positive(shape: Seq<usize>, axis: int)
    requires
        positive_extents(shape),
        0 <= axis <= shape.len(),
    ensures
        stride(shape, axis) > 0,
    decreases axis,
{
    if axis > 0 {
        lemma_stride_positive(shape, axis - 1);
        lemma_mul_strictly_positive(stride(shape, axis - 1) as int, shape[axis - 1] as int);
    }
}

/// Strides grow with the axis.
pub proof fn lemma_stride_monotone(shape: Seq<usize>, low: int, high: int)
    requires
        positive_extents(shape),
        0 <= low <= high <= shape.len(),
    ensures
        stride(shape, low) <= stride(shape, high),
    decreases high - low,
{
    if low < high {
        lemma_stride_monotone(shape, low, high - 1);
        lemma_stride_positive(shape, high - 1);
        let s = stride(shape, high - 1) as int;
        let e = shape[high - 1] as int;
        assert(s <= s * e) by (nonlinear_arith)
            requires
                s > 0,
                e >= 1,
        ;
    }
}

/// The first `axes` axes of a coordinate in the grid contribute less than
/// the stride of the next axis.
pub proof fn lemma_prefix_bound(coords: Seq<usize>, shape: Seq<usize>, axes: int)
    requires
        in_grid(coords, shape),
        0 <= axes <= shape.len(),
    ensures
        index_prefix(coords, shape, axes) < stride(shape, axes),
    decreases axes,
{
    if axes > 0 {
        lemma_prefix_bound(coords, shape, axes - 1);
        let p = index_prefix(coords, shape, axes - 1) as int;
        let s = stride(shape, axes - 1) as int;
        let c = coords[axes - 1] as int;
        let e = shape[axes - 1] as int;
        assert(p + c * s < s * e) by (nonlinear_arith)
            requires
                0 <= p < s,
                0 <= c < e,
        ;
    }
}

/// The flat index of a coordinate in the grid is below the number of cells.
pub proof fn lemma_index_in_range(coords: Seq<usize>, shape: Seq<usize>)
    requires
        in_grid(coords, shape),
    ensures
        linear_index(coords, shape) < cell_count(shape),
{
    lemma_prefix_bound(coords, shape, shape.len() as int);
}

/// Two coordinates of the grid that agree on the contribution of their first
/// `axes` axes agree on each of those axes.
pub proof fn lemma_prefix_injective(
    first: Seq<usize>,
    second: Seq<usize>,
    shape: Seq<usize>,
    axes: int,
)
    requires
        in_grid(first, shape),
        in_grid(second, shape),
        0 <= axes <= shape.len(),
        index_prefix(first, shape, axes) == index_prefix(second, shape, axes),
    ensures
        forall|i: int| 0 <= i < axes ==> first[i] == second[i],
    decreases axes,
{
    if axes > 0 {
        lemma_prefix_bound(first, shape, axes - 1);
        lemma_prefix_bound(second, shape, axes - 1);
        let p = index_prefix(first, shape, axes - 1) as int;
        let q = index_prefix(second, shape, axes - 1) as int;
        let s = stride(shape, axes - 1) as int;
        let c = first[axes - 1] as int;
        let d = second[axes - 1] as int;
        assert(c == d && p == q) by (nonlinear_arith)
            requires
                0 <= p < s,
                0 <= q < s,
                0 <= c,
                0 <= d,
                p + c * s == q + d * s,
        ;
        lemma_prefix_injective(first, second, shape, axes - 1);
    }
}

/// Distinct coordinates of the grid have distinct flat indices.
pub proof fn lemma_index_injective(first: Seq<usize>, second: Seq<usize>, shape: Seq<usize>)
    requires
        in_grid(first, shape),
        in_grid(second, shape),
        linear_index(first, shape) == linear_index(second, shape),
    ensures
        first == second,
{
    lemma_prefix_injective(first, second, shape, shape.len() as int);
    assert(first =~= second);
}

/// On the last axis a flat index below the number of cells gives a position
/// below the extent.
pub proof fn lemma_last_position(index: nat, shape: Seq<usize>)
    requires
        positive_extents(shape),
        shape.len() > 0,
        index < cell_count(shape),
    ensures
        index / stride(shape, shape.len() - 1) < shape[shape.len() - 1],
{
    let last = shape.len() - 1;
    lemma_stride_positive(shape, last);
    let s = stride(shape, last) as int;
    let e = shape[last] as int;
    let i = index as int;
    assert(i / s < e) by (nonlinear_arith)
        requires
            0 <= i < s * e,
            s > 0,
    ;
}

/// The coordinates decoded from a flat index below the number of cells
/// address a cell of the grid.
pub proof fn lemma_coords_of_in_grid(index: nat, shape: Seq<usize>)
    requires
        positive_extents(shape),
        index < cell_count(shape),
    ensures
        in_grid(coords_of(index, shape), shape),
{
    let coords = coords_of(index, shape);
    assert forall|i: int| 0 <= i < coords.len() implies coords[i] < shape[i] by {
        lemma_stride_positive(shape, i);
        if i == shape.len() - 1 {
            lemma_last_position(index, shape);
        } else {
            lemma_mod_bound((index / stride(shape, i)) as int, shape[i] as int);
        }
    }
}

/// The decoded positions of `index` on the first `axes` axes, the last axis
/// not among them, contribute `index` modulo the stride of the next axis.
pub proof fn lemma_decoded_prefix(index: nat, shape: Seq<usize>, axes: int)
    requires
        positive_extents(shape),
        0 <= axes,
        axes < shape.len() || axes == 0,
    ensures
        index_prefix(coords_of(index, shape), shape, axes) == index % stride(shape, axes),
    decreases axes,
{
    if axes > 0 {
        lemma_decoded_prefix(index, shape, axes - 1);
        lemma_stride_positive(shape, axes - 1);
        let s = stride(shape, axes - 1) as int;
        let e = shape[axes - 1] as int;
        lemma_mod_bound((index / stride(shape, axes - 1)) as int, e);
        lemma_breakdown(index as int, s, e);
        let digit = (index as int / s) % e;
        assert(coords_of(index, shape)[axes - 1] == axis_position(index, shape, axes - 1));
        assert(digit * s == s * digit) by (nonlinear_arith);
    }
}

/// Encoding the coordinates decoded from a flat index gives the index back,
/// whatever the index, as long as the position on the last axis fits in a
/// `usize`.
pub proof fn lemma_index_of_decoded(index: nat, shape: Seq<usize>)
    requires
        positive_extents(shape),
        shape.len() > 0,
        index / stride(shape, shape.len() - 1) <= usize::MAX,
    ensures
        linear_index(coords_of(index, shape), shape) == index,
{
    let last = shape.len() - 1;
    lemma_decoded_prefix(index, shape, last);
    lemma_stride_positive(shape, last);
    let s = stride(shape, last) as int;
    let quotient = index as int / s;
    assert(coords_of(index, shape)[last] == axis_position(index, shape, last));
    lemma_fundamental_div_mod(index as int, s);
    assert(quotient * s == s * quotient) by (nonlinear_arith);
}

/// Encoding the coordinates decoded from a flat index below the number of
/// cells gives the index back, and the coordinates address a cell of the grid.
pub proof fn lemma_index_of_coords(index: nat, shape: Seq<usize>)
    requires
        positive_extents(shape),
        index < cell_count(shape),
    ensures
        in_grid(coords_of(index, shape), shape),
        linear_index(coords_of(index, shape), shape) == index,
{
    lemma_coords_of_in_grid(index, shape);
    if shape.len() > 0 {
        lemma_last_position(index, shape);
        lemma_index_of_decoded(index, shape);
    }
}

/// Decoding the flat index of a coordinate of the grid gives the coordinate
/// back: coordinates and flat indices below the number of cells are in
/// one-to-one correspondence.
pub proof fn lemma_coords_of_index(coords: Seq<usize>, shape: Seq<usize>)
    requires
        in_grid(coords, shape),
    ensures
        linear_index(coords, shape) < cell_count(shape),
        coords_of(linear_index(coords, shape), shape) == coords,
{
    lemma_index_in_range(coords, shape);
    let index = linear_index(coords, shape);
    lemma_index_of_coords(index, shape);
    lemma_index_injective(coords_of(index, shape), coords, shape);
}

} // verus!
