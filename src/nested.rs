use vstd::prelude::*;
use crate::bits::{compact, deinterleave, interleave, is_pow2, lemma_compact_morton,
    lemma_morton_bound, lemma_morton_compact, morton, spread};
use crate::error::{Error, Result};
use crate::pixel::NumberingScheme;
use crate::resolution::{grid_pixel_count, lemma_resolution_bounds, valid_face_resolution};

verus! {

/// The hierarchical numbering: within a face, pixels follow the Morton
/// (Z-order) code of their coordinates, so that neighbours get close indices.
#[derive(Debug, Clone, Copy, PartialEq, Eq, Structural)]
pub struct Nested;

impl NumberingScheme for Nested {
}

/// The hierarchical index of the pixel at `(x, y)` on face `face`.
pub open spec fn nested_index(n: nat, face: nat, x: nat, y: nat) -> nat {
    face * (n * n) + morton(x, y)
}

/// The face of hierarchical index `p`.
pub open spec fn nested_face(n: nat, p: nat) -> nat {
    p / (n * n)
}

/// The first face coordinate of hierarchical index `p`.
pub open spec fn nested_x(n: nat, p: nat) -> nat {
    compact(p % (n * n))
}

/// The second face coordinate of hierarchical index `p`.
pub open spec fn nested_y(n: nat, p: nat) -> nat {
    compact(p % (n * n) / 2)
}

proof fn lemma_spread_positive(x: nat)
    requires
        x >= 1,
    ensures
        spread(x) >= 1,
    decreases x,
{
    if x % 2 == 0 {
        lemma_spread_positive(x / 2);
    }
}

proof fn lemma_spread_lower(x: nat, n: nat)
    requires
        is_pow2(n),
        x >= n,
    ensures
        spread(x) >= n * n,
    decreases n,
{
    if n == 1 {
        lemma_spread_positive(x);
    } else {
        let h = n / 2;
        lemma_spread_lower(x / 2, h);
        assert(n * n == 4 * (h * h)) by (nonlinear_arith)
            requires
                n == 2 * h,
        ;
    }
}

proof fn lemma_compact_below(v: nat, n: nat)
    requires
        is_pow2(n),
        v < n * n,
    ensures
        compact(v) < n,
        compact(v / 2) < n,
{
    lemma_morton_compact(v);
    if compact(v) >= n {
        lemma_spread_lower(compact(v), n);
    }
    if compact(v / 2) >= n {
        lemma_spread_lower(compact(v / 2), n);
    }
}

/// Every pixel index of a grid splits into a face and two face coordinates
/// in range, from which its index is rebuilt.
pub proof fn lemma_nested_split(n: nat, p: nat)
    requires
        valid_face_resolution(n),
        p < grid_pixel_count(n),
    ensures
        nested_face(n, p) < 12,
        nested_x(n, p) < n,
        nested_y(n, p) < n,
        nested_index(n, nested_face(n, p), nested_x(n, p), nested_y(n, p)) == p,
{
    lemma_resolution_bounds(n);
    let q = n * n;
    assert(p / q < 12) by (nonlinear_arith)
        requires
            p < 12 * q,
            q > 0,
    ;
    assert(p % q < q);
    lemma_compact_below(p % q, n);
    lemma_morton_compact(p % q);
    assert(p == (p / q) * q + p % q) by (nonlinear_arith)
        requires
            q > 0,
    ;
}

/// Face coordinates in range give an index of the grid, and splitting that
/// index gives them back.
pub proof fn lemma_nested_join(n: nat, face: nat, x: nat, y: nat)
    requires
        valid_face_resolution(n),
        face < 12,
        x < n,
        y < n,
    ensures
        nested_index(n, face, x, y) < grid_pixel_count(n),
        nested_face(n, nested_index(n, face, x, y)) == face,
        nested_x(n, nested_index(n, face, x, y)) == x,
        nested_y(n, nested_index(n, face, x, y)) == y,
{
    lemma_resolution_bounds(n);
    let q = n * n;
    let m = morton(x, y);
    lemma_morton_bound(x, y, n);
    lemma_compact_morton(x, y);
    assert(face * q + m < 12 * q) by (nonlinear_arith)
        requires
            face < 12,
            m < q,
    ;
    vstd::arithmetic::div_mod::lemma_fundamental_div_mod_converse(
        (face * q + m) as int,
        q as int,
        face as int,
        m as int,
    );
}

impl Nested {
    /// The hierarchical index of the pixel at `(ix, iy)` on face `face`.
    pub fn face_xy_to_pixel(face_resolution: u32, face: u32, ix: u32, iy: u32) -> (r: u64)
        requires
            valid_face_resolution(face_resolution as nat),
            face < 12,
            ix < face_resolution,
            iy < face_resolution,
        ensures
            r == nested_index(face_resolution as nat, face as nat, ix as nat, iy as nat),
            r < grid_pixel_count(face_resolution as nat),
    {
        let ghost n = face_resolution as nat;
        proof {
            lemma_resolution_bounds(n);
            lemma_nested_join(n, face as nat, ix as nat, iy as nat);
            assert(ix as nat % 65536 == ix && iy as nat % 65536 == iy);
        }
        let code = interleave(ix, iy);
        let per_face: u64 = face_resolution as u64 * face_resolution as u64;
        assert(face * per_face <= 11 * per_face) by (nonlinear_arith)
            requires
                face < 12,
        ;
        face as u64 * per_face + code
    }

    /// The face and face coordinates `(face, ix, iy)` of a hierarchical index;
    /// fails with [`Error::InvalidPixel`] when the index is not below the
    /// grid's pixel count.
    pub fn pixel_to_face_xy(face_resolution: u32, pixel: u64) -> (r: Result<(u32, u32, u32)>)
        requires
            valid_face_resolution(face_resolution as nat),
        ensures
            r is Err <==> pixel >= grid_pixel_count(face_resolution as nat),
            r is Err ==> r == Err::<(u32, u32, u32), Error>(Error::InvalidPixel),
            r matches Ok((f, x, y)) ==> {
                &&& f < 12
                &&& x < face_resolution
                &&& y < face_resolution
                &&& nested_index(face_resolution as nat, f as nat, x as nat, y as nat) == pixel
            },
    {
        let ghost n = face_resolution as nat;
        proof {
            lemma_resolution_bounds(n);
        }
        let per_face: u64 = face_resolution as u64 * face_resolution as u64;
        let total: u64 = 12 * per_face;
        if pixel >= total {
            return Err(Error::InvalidPixel);
        }
        let face = pixel / per_face;
        let within = pixel % per_face;
        proof {
            lemma_nested_split(n, pixel as nat);
        }
        let (ix, iy) = deinterleave(within as u32);
        Ok((face as u32, ix, iy))
    }
}

} // verus!
