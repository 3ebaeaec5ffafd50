//! Arithmetic by bit manipulation.

use vstd::prelude::*;

verus! {

/// Exchanges two integers with three exclusive-or steps and no scratch
/// variable.
pub fn swap(a: &mut i32, b: &mut i32)
    ensures
        *final(a) == *old(b),
        *final(b) == *old(a),
{
    let a0 = *a;
    let b0 = *b;
    *a = *a ^ *b;
    *b = *a ^ *b;
    *a = *a ^ *b;
    proof {
        assert((a0 ^ b0) ^ b0 == a0 && (a0 ^ b0) ^ ((a0 ^ b0) ^ b0) == b0) by (bit_vector);
    }
}

/// Picks the larger of two integers without branching, by the sign bit of
/// their difference. When `a` is smaller the chosen factors select `-b`,
/// so the result is the larger value only when `a >= b`; the exact
/// outcome is stated for both orderings.
pub fn max(a: i64, b: i64) -> (r: i64)
    requires
        i64::MIN <= a - b <= i64::MAX,
    ensures
        a >= b ==> r == a,
        a < b ==> r == -b,
{
    let c = a - b;
    let rb = c >> 63;
    let ra = (rb & 1) ^ 1;
    proof {
        assert(c >= 0 ==> (c >> 63u64) == 0) by (bit_vector);
        assert(c < 0 ==> (c >> 63u64) == -1) by (bit_vector);
        assert((0i64 & 1) ^ 1 == 1 && ((-1i64) & 1) ^ 1 == 0) by (bit_vector);
        if a < b {
            assert(b != i64::MIN);
        }
    }
    ra * a + rb * b
}

/// Division is not provided: the result is always empty.
pub fn div(a: i64, b: i64) -> (r: Option<(i64, i64)>)
    ensures
        r is None,
{
    None
}

} // verus!
