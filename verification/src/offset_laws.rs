//! Facts about offset codes: their base-3 digits, and how the digits change
//! from one code to the next.

use vstd::prelude::*;
use crate::coordinates::{offset_count, offset_digit};

verus! {

/// There is at least one offset code.
pub proof fn lemma_count_positive(axes: nat)
    ensures
        offset_count(axes) > 0,
    decreases axes,
{
    if axes > 0 {
        lemma_count_positive((axes - 1) as nat);
    }
}

/// Every digit of an offset code is 0, 1 or 2.
pub proof fn lemma_digit_range(code: nat, axis: nat)
    ensures
        offset_digit(code, axis) < 3,
    decreases axis,
{
    if axis > 0 {
        lemma_digit_range(code / 3, (axis - 1) as nat);
    }
}

/// Every digit of the code 0 is 0.
pub proof fn lemma_zero_digits(axis: nat)
    ensures
        offset_digit(0, axis) == 0,
    decreases axis,
{
    if axis > 0 {
        assert(0nat / 3 == 0);
        lemma_zero_digits((axis - 1) as nat);
    }
}

/// Going from a code whose digits below `carry` are all 2 and whose digit
/// at `carry` is not to the next code: the digits below `carry` become 0, the
/// digit at `carry` grows by one, and the digits above stay.
pub proof fn lemma_digit_succ(code: nat, next: nat, carry: nat)
    requires
        next == code + 1,
        forall|j: nat| j < carry ==> offset_digit(code, j) == 2,
        offset_digit(code, carry) < 2,
    ensures
        forall|j: nat| j < carry ==> offset_digit(next, j) == 0,
        offset_digit(next, carry) == offset_digit(code, carry) + 1,
        forall|j: nat| j > carry ==> offset_digit(next, j) == offset_digit(code, j),
    decreases carry,
{
    if carry == 0 {
        assert(next / 3 == code / 3);
        assert forall|j: nat| j > carry implies offset_digit(next, j) == offset_digit(
            code,
            j,
        ) by {}
    } else {
        assert(offset_digit(code, 0) == 2);
        let up = code / 3;
        let up_next = next / 3;
        assert(up_next == up + 1);
        assert forall|j: nat| j < carry - 1 implies offset_digit(up, j) == 2 by {
            assert(offset_digit(code, j + 1) == offset_digit(up, j));
        }
        assert(offset_digit(code, carry) == offset_digit(up, (carry - 1) as nat));
        lemma_digit_succ(up, up_next, (carry - 1) as nat);
        assert forall|j: nat| j < carry implies offset_digit(next, j) == 0 by {
            if j > 0 {
                assert(offset_digit(next, j) == offset_digit(up_next, (j - 1) as nat));
            }
        }
        assert forall|j: nat| j > carry implies offset_digit(next, j) == offset_digit(
            code,
            j,
        ) by {
            assert(offset_digit(next, j) == offset_digit(up_next, (j - 1) as nat));
            assert(offset_digit(code, j) == offset_digit(up, (j - 1) as nat));
        }
    }
}

/// The code whose first `axes` digits are all 2 is the last one.
pub proof fn lemma_all_twos(code: nat, axes: nat)
    requires
        code < offset_count(axes),
        forall|j: nat| j < axes ==> offset_digit(code, j) == 2,
    ensures
        code + 1 == offset_count(axes),
    decreases axes,
{
    if axes > 0 {
        let up = code / 3;
        assert(offset_digit(code, 0) == 2);
        assert forall|j: nat| j < axes - 1 implies offset_digit(up, j) == 2 by {
            assert(offset_digit(code, j + 1) == offset_digit(up, j));
        }
        lemma_all_twos(up, (axes - 1) as nat);
    }
}

/// A code with a digit below 2 among its first `axes` digits is not the last one.
pub proof fn lemma_not_last(code: nat, axes: nat, axis: nat)
    requires
        code < offset_count(axes),
        axis < axes,
        offset_digit(code, axis) < 2,
    ensures
        code + 1 < offset_count(axes),
    decreases axes,
{
    if axis > 0 {
        lemma_not_last(code / 3, (axes - 1) as nat, (axis - 1) as nat);
    }
}

/// An offset code is determined by its digits.
pub proof fn lemma_digits_decide(first: nat, second: nat, axes: nat)
    requires
        first < offset_count(axes),
        second < offset_count(axes),
        forall|j: nat| j < axes ==> offset_digit(first, j) == offset_digit(second, j),
    ensures
        first == second,
    decreases axes,
{
    if axes > 0 {
        assert(offset_digit(first, 0) == offset_digit(second, 0));
        let up = first / 3;
        let other = second / 3;
        assert forall|j: nat| j < axes - 1 implies offset_digit(up, j) == offset_digit(
            other,
            j,
        ) by {
            assert(offset_digit(first, j + 1) == offset_digit(up, j));
            assert(offset_digit(second, j + 1) == offset_digit(other, j));
        }
        lemma_digits_decide(up, other, (axes - 1) as nat);
    }
}

} // verus!
