use vstd::prelude::*;
use crate::bits::is_pow2;

verus! {

/// The largest face resolution supported: face coordinates must stay below
/// 2^16 for the bit interleaving, so the largest power of two is 2^15.
pub const MAX_FACE_RESOLUTION: u32 = 32768;

/// A face resolution that a grid can be built with: a power of two, at most
/// [`MAX_FACE_RESOLUTION`].
pub open spec fn valid_face_resolution(n: nat) -> bool {
    is_pow2(n) && n <= MAX_FACE_RESOLUTION
}

/// The number of pixels on one face of a grid of resolution `n`.
pub open spec fn face_pixel_count(n: nat) -> nat {
    n * n
}

/// The number of pixels of a grid of resolution `n`: twelve faces.
pub open spec fn grid_pixel_count(n: nat) -> nat {
    12 * (n * n)
}

/// Whether `n` is a power of two.
pub fn is_power_of_two(n: u32) -> (r: bool)
    ensures
        r == is_pow2(n as nat),
{
    if n == 0 {
        return false;
    }
    let mut m: u32 = n;
    while m > 1 && m % 2 == 0
        invariant
            m >= 1,
            is_pow2(m as nat) == is_pow2(n as nat),
        decreases m,
    {
        m = m / 2;
    }
    m == 1
}

/// Whether `n` is a supported face resolution.
pub fn is_valid_face_resolution(n: u32) -> (r: bool)
    ensures
        r == valid_face_resolution(n as nat),
{
    is_power_of_two(n) && n <= MAX_FACE_RESOLUTION
}

/// Facts on a supported resolution that the pixel arithmetic relies on.
pub proof fn lemma_resolution_bounds(n: nat)
    requires
        valid_face_resolution(n),
    ensures
        1 <= n <= 32768,
        n * n <= 1073741824,
        12 * (n * n) <= 12884901888,
{
    assert(n != 0);
    assert(n * n <= 32768 * 32768) by (nonlinear_arith)
        requires
            n <= 32768,
    ;
}

} // verus!
