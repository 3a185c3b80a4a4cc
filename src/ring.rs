use vstd::prelude::*;
use crate::error::{Error, Result};
use crate::hpd::Hpd;
use crate::pixel::NumberingScheme;
use crate::resolution::{grid_pixel_count, lemma_resolution_bounds, valid_face_resolution};
use crate::ring_proofs::{
    lemma_belt_coords_inverse, lemma_belt_phase, lemma_cap_face, lemma_cap_ring_bound,
    lemma_grid_bounds, lemma_north_phase, lemma_north_ring, lemma_ring_index_range,
    lemma_south_phase, lemma_south_ring,
};

verus! {

/// The ring numbering: pixels are numbered ring by ring from the north pole,
/// and by longitude within a ring.
#[derive(Debug, Clone, Copy, PartialEq, Eq, Structural)]
pub struct Ring;

impl NumberingScheme for Ring {
}

/// One more than the ring of a face's southern corner, in units of the
/// resolution: the standard layout's `jrll` table.
pub open spec fn face_ring(f: int) -> int {
    if f < 4 {
        2
    } else if f < 8 {
        3
    } else {
        4
    }
}

/// The longitude of a face's centre, in units of an eighth of a turn: the
/// standard layout's `jpll` table.
pub open spec fn face_phase(f: int) -> int {
    if f == 0 || f == 8 {
        1
    } else if f == 1 || f == 9 {
        3
    } else if f == 2 || f == 10 {
        5
    } else if f == 3 || f == 11 {
        7
    } else if f == 4 {
        0
    } else if f == 5 {
        2
    } else if f == 6 {
        4
    } else {
        6
    }
}

fn jrll(f: i32) -> (r: i64)
    requires
        0 <= f < 12,
    ensures
        r == face_ring(f as int),
{
    match f {
        0 | 1 | 2 | 3 => 2,
        4 | 5 | 6 | 7 => 3,
        _ => 4,
    }
}

fn jpll(f: i32) -> (r: i64)
    requires
        0 <= f < 12,
    ensures
        r == face_phase(f as int),
{
    match f {
        0 | 8 => 1,
        1 | 9 => 3,
        2 | 10 => 5,
        3 | 11 => 7,
        4 => 0,
        5 => 2,
        6 => 4,
        _ => 6,
    }
}

/// A position in a ring of `4n` pixels, brought back into `[1, 4n]`.
pub open spec fn wrap_phase(jp: int, n: int) -> int {
    if jp > 4 * n {
        jp - 4 * n
    } else if jp < 1 {
        jp + 4 * n
    } else {
        jp
    }
}

/// The ring, counted from the north pole, that holds pixel `h`.
pub open spec fn ring_number(n: int, h: Hpd) -> int {
    face_ring(h.f as int) * n - h.x - h.y - 1
}

/// The ring index of pixel `h` on a grid of resolution `n`: the pixels of
/// the rings before its ring, plus its position in its ring.
pub open spec fn ring_index(n: int, h: Hpd) -> int {
    let jr = ring_number(n, h);
    let d = h.x - h.y + 1;
    if jr < n {
        2 * jr * (jr - 1) + wrap_phase((face_phase(h.f as int) * jr + d) / 2, n) - 1
    } else if jr > 3 * n {
        let nr = 4 * n - jr;
        12 * n * n - 2 * (nr + 1) * nr + wrap_phase((face_phase(h.f as int) * nr + d) / 2, n)
            - 1
    } else {
        2 * n * (n - 1) + (jr - n) * (4 * n) + wrap_phase(
            (face_phase(h.f as int) * n + d + (jr - n) % 2) / 2,
            n,
        ) - 1
    }
}

impl Ring {
    /// The ring index of the pixel given by its face coordinates.
    pub fn hpd2ring(nside: i64, h: Hpd) -> (r: i64)
        requires
            nside >= 1,
            valid_face_resolution(nside as nat),
            h.wf(nside as int),
        ensures
            r == ring_index(nside as int, h),
            0 <= r < grid_pixel_count(nside as nat),
    {
        proof {
            lemma_resolution_bounds(nside as nat);
            lemma_ring_index_range(nside as int, h);
        }
        let nl4 = 4 * nside;
        let jr = jrll(h.f) * nside - h.x - h.y - 1;
        let k = jpll(h.f);
        if jr < nside {
            proof {
                lemma_north_phase(nside as int, h);
            }
            let mut jp = (k * jr + h.x - h.y + 1) / 2;
            if jp > nl4 {
                jp -= nl4;
            } else if jp < 1 {
                jp += nl4;
            }
            2 * jr * (jr - 1) + jp - 1
        } else if jr > 3 * nside {
            proof {
                lemma_south_phase(nside as int, h);
            }
            let nr = nl4 - jr;
            assert(12 * nside * nside <= 12884901888 && 2 * (nr + 1) * nr <= 2147483648)
                by (nonlinear_arith)
                requires
                    1 <= nside <= 32768,
                    1 <= nr < nside,
            ;
            let mut jp = (k * nr + h.x - h.y + 1) / 2;
            if jp > nl4 {
                jp -= nl4;
            } else if jp < 1 {
                jp += nl4;
            }
            12 * nside * nside - 2 * (nr + 1) * nr + jp - 1
        } else {
            proof {
                lemma_belt_phase(nside as int, h);
            }
            let mut jp = (k * nside + h.x - h.y + 1 + (jr - nside) % 2) / 2;
            if jp > nl4 {
                jp -= nl4;
            } else if jp < 1 {
                jp += nl4;
            }
            2 * nside * (nside - 1) + (jr - nside) * nl4 + jp - 1
        }
    }
}

/// The square root of `v`, rounded down.
fn isqrt(v: i64) -> (r: i64)
    requires
        0 <= v < 0x4000_0000_0000_0000,
    ensures
        r >= 0,
        r * r <= v,
        v < (r + 1) * (r + 1),
{
    let mut lo: i64 = 0;
    let mut hi: i64 = 0x8000_0000;
    assert(v < hi * hi) by (nonlinear_arith)
        requires
            v < 0x4000_0000_0000_0000,
            hi == 0x8000_0000,
    ;
    while hi - lo > 1
        invariant
            0 <= lo < hi <= 0x8000_0000,
            lo * lo <= v,
            v < hi * hi,
        decreases hi - lo,
    {
        let mid = lo + (hi - lo) / 2;
        assert(mid * mid <= 0x8000_0000 * 0x8000_0000) by (nonlinear_arith)
            requires
                0 <= mid <= 0x8000_0000,
        ;
        if mid * mid <= v {
            lo = mid;
        } else {
            hi = mid;
        }
    }
    lo
}

/// The face that the equatorial rule picks from the two candidate faces of
/// a belt pixel: equal candidates give the equatorial face, else the lower
/// candidate is a northern face, the higher a southern one.
pub open spec fn candidate_face(ifp: int, ifm: int) -> int {
    if ifp == ifm {
        ifp % 4 + 4
    } else if ifp < ifm {
        ifp
    } else {
        ifm + 8
    }
}

/// The face of the belt pixel at position `iphi` (counted from 1) of ring
/// `iring`.
pub(crate) open spec fn belt_face(n: int, iring: int, iphi: int) -> int {
    let ire = iring - n + 1;
    let irm = 2 * n + 2 - ire;
    candidate_face((iphi - irm / 2 + n - 1) / n, (iphi - ire / 2 + n - 1) / n)
}

/// The coordinates on face `face` of the belt pixel at position `iphi` of
/// ring `iring`.
pub(crate) open spec fn belt_coords(n: int, iring: int, iphi: int, face: int) -> Hpd {
    let irt = iring - face_ring(face) * n + 1;
    let ipt0 = 2 * iphi - face_phase(face) * n - (iring + n) % 2 - 1;
    let ipt = if ipt0 >= 2 * n {
        ipt0 - 8 * n
    } else {
        ipt0
    };
    Hpd { x: ((ipt - irt) / 2) as i64, y: ((-(ipt + irt)) / 2) as i64, f: face as i32 }
}

impl Ring {
    /// Picks a belt pixel's face from its two candidate faces (`ifp` from the
    /// rising diagonal, `ifm` from the falling one, each in `0..=4`).
    pub fn equatorial_face(ifp: u32, ifm: u32) -> (r: u32)
        requires
            ifp <= 4,
            ifm <= 4,
        ensures
            r == candidate_face(ifp as int, ifm as int),
            r < 12,
    {
        if ifp == ifm {
            assert(ifp | 4 == ifp % 4 + 4) by (bit_vector)
                requires
                    ifp <= 4,
            ;
            ifp | 4
        } else if ifp < ifm {
            ifp
        } else {
            ifm + 8
        }
    }

    /// The face coordinates of the pixel with ring index `pix`.
    pub fn ring2hpd(nside: i64, pix: i64) -> (r: Hpd)
        requires
            nside >= 1,
            valid_face_resolution(nside as nat),
            0 <= pix < grid_pixel_count(nside as nat),
        ensures
            r.wf(nside as int),
            ring_index(nside as int, r) == pix,
    {
        let ghost n = nside as int;
        proof {
            lemma_grid_bounds(nside as int);
        }
        let ncap = 2 * nside * (nside - 1);
        let npix = 12 * nside * nside;
        if pix < ncap {
            north_cap_hpd(nside, pix)
        } else if pix < npix - ncap {
            belt_pixel_hpd(nside, pix)
        } else {
            south_cap_hpd(nside, pix)
        }
    }
}

fn north_cap_hpd(nside: i64, pix: i64) -> (r: Hpd)
    requires
        nside >= 1,
        valid_face_resolution(nside as nat),
        0 <= pix < 2 * nside * (nside - 1),
    ensures
        r.wf(nside as int),
        ring_index(nside as int, r) == pix,
{
    let ghost n = nside as int;
    proof {
        lemma_grid_bounds(nside as int);
    }
    let s = isqrt(1 + 2 * pix);
    proof {
        lemma_north_ring(pix as int, s as int);
        assert(s <= 1 + 2 * pix) by (nonlinear_arith)
            requires
                s >= 0,
                s * s <= 1 + 2 * pix,
        ;
    }
    let iring = (1 + s) / 2;
    proof {
        lemma_cap_ring_bound(iring as int, n, pix as int);
        assert(2 * iring * (iring - 1) <= 2 * 32768 * 32768) by (nonlinear_arith)
            requires
                1 <= iring < 32768,
        ;
    }
    let iphi = pix + 1 - 2 * iring * (iring - 1);
    assert(2 * iring * (iring + 1) == 2 * iring * (iring - 1) + 4 * iring)
        by (nonlinear_arith);
    let face = (iphi - 1) / iring;
    proof {
        lemma_cap_face(iphi as int, iring as int);
    }
    let ghost p = face * iring;
    assert((2 * face + 1) * iring == 2 * p + iring) by (nonlinear_arith)
        requires
            p == face * iring,
    ;
    assert(face_ring(face as int) == 2 && face_phase(face as int) == 2 * face + 1);
    let irt = iring - jrll(face as i32) * nside + 1;
    let k = jpll(face as i32);
    assert(k * iring == 2 * p + iring && (face + 1) * iring == p + iring)
        by (nonlinear_arith)
        requires
            k == 2 * face + 1,
            p == face * iring,
    ;
    let mut ipt = 2 * iphi - k * iring - 1;
    assert(ipt == 2 * iphi - 2 * p - iring - 1 && ipt < 2 * nside);
    if ipt >= 2 * nside {
        ipt -= 8 * nside;
    }
    let h = Hpd { x: (ipt - irt) / 2, y: (-(ipt + irt)) / 2, f: face as i32 };
    proof {
        assert(h.x == iphi - p - iring + n - 1);
        assert(h.y == n + p - iphi);
        assert(ring_number(n, h) == iring);
        lemma_north_phase(n, h);
        assert(h.f * ring_number(n, h) + n - h.y == iphi);
        assert(wrap_phase(iphi as int, n) == iphi);
        assert(ring_index(n, h) == 2 * iring * (iring - 1) + iphi - 1);
    }
    h
}

fn belt_face_of(nside: i64, iring: i64, iphi: i64) -> (r: i64)
    requires
        1 <= nside <= 32768,
        nside <= iring <= 3 * nside,
        1 <= iphi <= 4 * nside,
    ensures
        r == belt_face(nside as int, iring as int, iphi as int),
        0 <= r < 12,
{
    let ire = iring - nside + 1;
    let irm = 2 * nside + 2 - ire;
    let ifm = (iphi - ire / 2 + nside - 1) / nside;
    let ifp = (iphi - irm / 2 + nside - 1) / nside;
    proof {
        let nn = nside as int;
        let a = iphi - irm / 2 + nside - 1;
        let b = iphi - ire / 2 + nside - 1;
        assert(0 <= a < 5 * nn && 0 <= b < 5 * nn);
        vstd::arithmetic::div_mod::lemma_fundamental_div_mod(a, nn);
        vstd::arithmetic::div_mod::lemma_fundamental_div_mod(b, nn);
        assert(0 <= a / nn <= 4) by (nonlinear_arith)
            requires
                a == nn * (a / nn) + a % nn,
                0 <= a % nn < nn,
                0 <= a < 5 * nn,
        ;
        assert(0 <= b / nn <= 4) by (nonlinear_arith)
            requires
                b == nn * (b / nn) + b % nn,
                0 <= b % nn < nn,
                0 <= b < 5 * nn,
        ;
    }
    Ring::equatorial_face(ifp as u32, ifm as u32) as i64
}

fn belt_coords_of(nside: i64, iring: i64, iphi: i64, face: i64) -> (r: Hpd)
    requires
        1 <= nside <= 32768,
        nside <= iring <= 3 * nside,
        1 <= iphi <= 4 * nside,
        0 <= face < 12,
        face == belt_face(nside as int, iring as int, iphi as int),
    ensures
        r == belt_coords(nside as int, iring as int, iphi as int, face as int),
{
    let kshift = (iring + nside) % 2;
    let jr = jrll(face as i32);
    let k = jpll(face as i32);
    assert(jr * nside <= 4 * 32768 && 0 <= k * nside <= 7 * 32768) by (nonlinear_arith)
        requires
            2 <= jr <= 4,
            0 <= k <= 7,
            1 <= nside <= 32768,
    ;
    let irt = iring - jr * nside + 1;
    let ipt0 = 2 * iphi - k * nside - kshift - 1;
    let ipt = if ipt0 >= 2 * nside {
        ipt0 - 8 * nside
    } else {
        ipt0
    };
    proof {
        let n = nside as int;
        assert(irt == iring - face_ring(face as int) * n + 1);
        assert(ipt0 == 2 * iphi - face_phase(face as int) * n - (iring + n) % 2 - 1);
        lemma_belt_coords_inverse(n, iring as int, iphi as int);
        assert(ipt - irt >= 0 && -(ipt + irt) >= 0);
    }
    Hpd { x: (ipt - irt) / 2, y: (-(ipt + irt)) / 2, f: face as i32 }
}

fn belt_pixel_hpd(nside: i64, pix: i64) -> (r: Hpd)
    requires
        nside >= 1,
        valid_face_resolution(nside as nat),
        2 * nside * (nside - 1) <= pix < 12 * nside * nside - 2 * nside * (nside - 1),
    ensures
        r.wf(nside as int),
        ring_index(nside as int, r) == pix,
{
    proof {
        lemma_grid_bounds(nside as int);
    }
    let ncap = 2 * nside * (nside - 1);
    let ip = pix - ncap;
    let nl4 = 4 * nside;
    proof {
        assert(ip < nl4 * (2 * nside + 1)) by (nonlinear_arith)
            requires
                ip == pix - 2 * nside * (nside - 1),
                pix < 12 * nside * nside - 2 * nside * (nside - 1),
                nl4 == 4 * nside,
        ;
        vstd::arithmetic::div_mod::lemma_fundamental_div_mod(ip as int, nl4 as int);
        assert(ip / nl4 <= 2 * nside) by (nonlinear_arith)
            requires
                ip == nl4 * (ip / nl4) + ip % nl4,
                0 <= ip % nl4,
                ip < nl4 * (2 * nside + 1),
                nl4 > 0,
        ;
    }
    let iring = (ip / nl4) + nside;
    let iphi = (ip % nl4) + 1;
    let face = belt_face_of(nside, iring, iphi);
    let h = belt_coords_of(nside, iring, iphi, face);
    proof {
        let n = nside as int;
        lemma_belt_coords_inverse(n, iring as int, iphi as int);
        assert(ip == nl4 * (ip / nl4) + ip % nl4);
        assert(2 * n * (n - 1) + (iring - n) * (4 * n) + iphi - 1 == pix) by (nonlinear_arith)
            requires
                ip == pix - 2 * n * (n - 1),
                ip == nl4 * (iring - n) + (iphi - 1),
                nl4 == 4 * n,
        ;
    }
    h
}

fn south_cap_hpd(nside: i64, pix: i64) -> (r: Hpd)
    requires
        nside >= 1,
        valid_face_resolution(nside as nat),
        12 * nside * nside - 2 * nside * (nside - 1) <= pix < 12 * nside * nside,
    ensures
        r.wf(nside as int),
        ring_index(nside as int, r) == pix,
{
    let ghost n = nside as int;
    proof {
        lemma_grid_bounds(nside as int);
    }
    let npix = 12 * nside * nside;
    let ip = npix - pix;
    let s = isqrt(2 * ip - 1);
    proof {
        lemma_south_ring(ip as int, s as int);
        assert(s <= 2 * ip - 1) by (nonlinear_arith)
            requires
                s >= 0,
                s * s <= 2 * ip - 1,
        ;
    }
    let iring = (1 + s) / 2;
    proof {
        lemma_cap_ring_bound(iring as int, n, ip - 1);
        assert(2 * iring * (iring - 1) <= 2 * 32768 * 32768) by (nonlinear_arith)
            requires
                1 <= iring < 32768,
        ;
    }
    assert(2 * iring * (iring + 1) == 2 * iring * (iring - 1) + 4 * iring)
        by (nonlinear_arith);
    let iphi = 4 * iring + 1 - (ip - 2 * iring * (iring - 1));
    let g = (iphi - 1) / iring;
    proof {
        lemma_cap_face(iphi as int, iring as int);
    }
    let face = 8 + g;
    let ghost p = g * iring;
    assert((2 * g + 1) * iring == 2 * p + iring) by (nonlinear_arith)
        requires
            p == g * iring,
    ;
    assert(face_ring(face as int) == 4 && face_phase(face as int) == 2 * g + 1);
    let irt = 4 * nside - iring - jrll(face as i32) * nside + 1;
    let k = jpll(face as i32);
    assert(k * iring == 2 * p + iring && (g + 1) * iring == p + iring)
        by (nonlinear_arith)
        requires
            k == 2 * g + 1,
            p == g * iring,
    ;
    let mut ipt = 2 * iphi - k * iring - 1;
    assert(ipt == 2 * iphi - 2 * p - iring - 1 && ipt < 2 * nside);
    if ipt >= 2 * nside {
        ipt -= 8 * nside;
    }
    let h = Hpd { x: (ipt - irt) / 2, y: (-(ipt + irt)) / 2, f: face as i32 };
    proof {
        assert(h.x == iphi - p - 1);
        assert(h.y == p + iring - iphi);
        assert(ring_number(n, h) == 4 * n - iring);
        lemma_south_phase(n, h);
        assert((h.f - 8) * (4 * n - ring_number(n, h)) + h.x + 1 == iphi);
        assert(wrap_phase(iphi as int, n) == iphi);
        assert(12 * n * n - 2 * (iring + 1) * iring + iphi - 1 == pix) by (nonlinear_arith)
            requires
                iphi == 4 * iring + 1 - (ip - 2 * iring * (iring - 1)),
                ip == 12 * n * n - pix,
        ;
    }
    h
}

impl Ring {
    /// The face coordinates of a ring index; fails with
    /// [`Error::InvalidPixel`] when the index is not below the grid's pixel
    /// count.
    pub fn pixel_to_hpd(face_resolution: u32, pixel: u64) -> (r: Result<Hpd>)
        requires
            valid_face_resolution(face_resolution as nat),
        ensures
            r is Err <==> pixel >= grid_pixel_count(face_resolution as nat),
            r is Err ==> r == Err::<Hpd, Error>(Error::InvalidPixel),
            r matches Ok(h) ==> h.wf(face_resolution as int) && ring_index(
                face_resolution as int,
                h,
            ) == pixel,
    {
        let ghost n = face_resolution as int;
        proof {
            lemma_resolution_bounds(face_resolution as nat);
        }
        let total: u64 = 12 * (face_resolution as u64 * face_resolution as u64);
        if pixel >= total {
            return Err(Error::InvalidPixel);
        }
        Ok(Ring::ring2hpd(face_resolution as i64, pixel as i64))
    }

    /// The ring index of the pixel at `(ix, iy)` on face `face`.
    pub fn face_xy_to_pixel(face_resolution: u32, face: u32, ix: u32, iy: u32) -> (r: u64)
        requires
            valid_face_resolution(face_resolution as nat),
            face < 12,
            ix < face_resolution,
            iy < face_resolution,
        ensures
            r == ring_index(
                face_resolution as int,
                Hpd { x: ix as i64, y: iy as i64, f: face as i32 },
            ),
            r < grid_pixel_count(face_resolution as nat),
    {
        let h = Hpd { x: ix as i64, y: iy as i64, f: face as i32 };
        Ring::hpd2ring(face_resolution as i64, h) as u64
    }
}

/// The position, counted from 1, of pixel `h` in its ring, for a pixel of
/// the equatorial belt.
pub open spec fn belt_position(n: int, h: Hpd) -> int {
    wrap_phase(
        (face_phase(h.f as int) * n + h.x - h.y + 1 + (ring_number(n, h) - n) % 2) / 2,
        n,
    )
}

} // verus!
