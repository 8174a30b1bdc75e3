//! Small helpers shared by the rest of the crate.

use vstd::prelude::*;
use vstd::std_specs::cmp::PartialOrdIs;
use vstd::std_specs::cmp::PartialOrdSpec;

verus! {

/// The value that `clamp` yields for `x` and the bounds `mn` and `mx`:
/// `mn` where `x` lies below it, else `mx` where `x` lies above it, else `x`.
pub open spec fn clamped<C: PartialOrd + Copy>(mn: C, mx: C, x: C) -> C {
    if x.is_lt(&mn) {
        mn
    } else if x.is_gt(&mx) {
        mx
    } else {
        x
    }
}

/// Clamp a value to range.
pub fn clamp<C: PartialOrd + Copy>(mn: C, mx: C, x: C) -> (r: C)
    ensures
        C::obeys_partial_cmp_spec() ==> r == clamped(mn, mx, x),
        r == mn || r == mx || r == x,
{
    if x < mn {
        mn
    } else if x > mx {
        mx
    } else {
        x
    }
}

/// Rectangle anchoring points.
#[derive(Clone, Copy, PartialEq, Eq, Debug)]
pub enum Anchor {
    TopLeft,
    TopRight,
    BottomLeft,
    BottomRight,
    Top,
    Left,
    Right,
    Bottom,
    Center,
}

/// The thirty-one bits that the noise of `n` is made of: `n` is mixed
/// with itself shifted by thirteen bits, put through a cubic polynomial in
/// arithmetic that wraps at 32 bits, and the sign bit is dropped.
pub open spec fn noise_bits_of(n: i32) -> i32 {
    let x = n.wrapping_shl(13) ^ n;
    x.wrapping_mul(x.wrapping_mul(x).wrapping_mul(15731).wrapping_add(789221)).wrapping_add(
        1376312589,
    ) & 0x7fffffff
}

/// The bits of the deterministic noise of `n`. The noise itself is
/// `1 - bits / 2^30`, a number above -1 and at most 1.
pub fn noise_bits(n: i32) -> (bits: i32)
    ensures
        bits == noise_bits_of(n),
        0 <= bits <= 0x7fffffff,
{
    let x: i32 = n.wrapping_shl(13) ^ n;
    let y: i32 = x.wrapping_mul(x.wrapping_mul(x).wrapping_mul(15731).wrapping_add(789221))
        .wrapping_add(1376312589);
    assert(0 <= y & 0x7fffffff <= 0x7fffffff) by (bit_vector);
    y & 0x7fffffff
}

} // verus!
