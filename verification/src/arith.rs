//! Products of pixel counts: the few facts of multiplication that the
//! packer's bounds rest on.

use vstd::prelude::*;

verus! {

/// A product of natural numbers grows with both factors.
pub proof fn lemma_mul_le(a: int, b: int, c: int, d: int)
    requires
        0 <= a <= b,
        0 <= c <= d,
    ensures
        0 <= a * c <= b * d,
{
    assert(0 <= a * c <= b * d) by (nonlinear_arith)
        requires
            0 <= a <= b,
            0 <= c <= d,
    ;
}

/// The product of two `u32` values, which always fits in a `u64`.
pub fn mul_u32(a: u32, b: u32) -> (r: u64)
    ensures
        r == a * b,
{
    proof {
        lemma_mul_le(a as int, 0xffff_ffff, b as int, 0xffff_ffff);
    }
    a as u64 * b as u64
}

} // verus!
