use vstd::prelude::*;
use crate::hpd::Hpd;
use crate::resolution::{grid_pixel_count, lemma_resolution_bounds, valid_face_resolution};
use crate::ring::{
    belt_coords, belt_face, belt_position, candidate_face, face_phase, face_ring, ring_index,
    ring_number, wrap_phase,
};

verus! {

/// The sizes that the ring arithmetic computes on a supported resolution,
/// and their bounds: all fit an `i64` with room to spare.
pub(crate) proof fn lemma_grid_bounds(n: int)
    requires
        n >= 1,
        valid_face_resolution(n as nat),
    ensures
        1 <= n <= 32768,
        0 <= 2 * n * (n - 1) <= 2 * 32768 * 32768,
        12 * n * n <= 12 * 32768 * 32768,
        12 * n * n == 12 * (n * n),
        12 * n * n == grid_pixel_count(n as nat),
        2 * n * (n - 1) < 12 * n * n - 2 * n * (n - 1),
{
    lemma_resolution_bounds(n as nat);
    assert(0 <= 2 * n * (n - 1) <= 2 * 32768 * 32768 && 12 * n * n <= 12 * 32768 * 32768)
        by (nonlinear_arith)
        requires
            1 <= n <= 32768,
    ;
    assert(12 * n * n == 12 * (n * n)) by (nonlinear_arith);
    assert(2 * n * (n - 1) < 12 * n * n - 2 * n * (n - 1)) by (nonlinear_arith)
        requires
            n >= 1,
    ;
}

pub(crate) proof fn lemma_north_phase(n: int, h: Hpd)
    requires
        n >= 1,
        h.wf(n),
        ring_number(n, h) < n,
    ensures
        h.f < 4,
        1 <= ring_number(n, h),
        (face_phase(h.f as int) * ring_number(n, h) + h.x - h.y + 1) / 2 == h.f * ring_number(
            n,
            h,
        ) + n - h.y,
        1 <= h.f * ring_number(n, h) + n - h.y <= 4 * ring_number(n, h),
{
    let jr = ring_number(n, h);
    let f = h.f as int;
    assert(f < 4);
    assert(face_phase(f) * jr + h.x - h.y + 1 == 2 * (f * jr + n - h.y)) by (nonlinear_arith)
        requires
            face_phase(f) == 2 * f + 1,
            jr == 2 * n - h.x - h.y - 1,
    ;
    assert(f * jr <= 3 * jr) by (nonlinear_arith)
        requires
            0 <= f <= 3,
            jr >= 1,
    ;
    assert(f * jr >= 0) by (nonlinear_arith)
        requires
            0 <= f,
            jr >= 1,
    ;
}

pub(crate) proof fn lemma_south_phase(n: int, h: Hpd)
    requires
        n >= 1,
        h.wf(n),
        ring_number(n, h) > 3 * n,
    ensures
        h.f >= 8,
        1 <= 4 * n - ring_number(n, h) < n,
        (face_phase(h.f as int) * (4 * n - ring_number(n, h)) + h.x - h.y + 1) / 2 == (h.f - 8)
            * (4 * n - ring_number(n, h)) + h.x + 1,
        1 <= (h.f - 8) * (4 * n - ring_number(n, h)) + h.x + 1 <= 4 * (4 * n - ring_number(
            n,
            h,
        )),
{
    let nr = 4 * n - ring_number(n, h);
    let g = h.f - 8;
    assert(g >= 0);
    assert(face_phase(h.f as int) * nr + h.x - h.y + 1 == 2 * (g * nr + h.x + 1))
        by (nonlinear_arith)
        requires
            face_phase(h.f as int) == 2 * g + 1,
            nr == h.x + h.y + 1,
    ;
    assert(g * nr <= 3 * nr) by (nonlinear_arith)
        requires
            0 <= g <= 3,
            nr >= 1,
    ;
    assert(g * nr >= 0) by (nonlinear_arith)
        requires
            0 <= g,
            nr >= 1,
    ;
}

pub(crate) proof fn lemma_belt_phase(n: int, h: Hpd)
    requires
        n >= 1,
        h.wf(n),
        n <= ring_number(n, h) <= 3 * n,
    ensures
        ({
            let num = face_phase(h.f as int) * n + h.x - h.y + 1 + (ring_number(n, h) - n) % 2;
            &&& num % 2 == 0
            &&& 2 - n <= num <= 8 * n
        }),
{
    let jr = ring_number(n, h);
    let k = face_phase(h.f as int);
    assert(0 <= k <= 7);
    assert(0 <= k * n <= 7 * n) by (nonlinear_arith)
        requires
            0 <= k <= 7,
            n >= 1,
    ;
    if h.f < 4 {
        assert(k * n + h.x - h.y + 1 <= 7 * n + 2 * n - 2 - h.x - h.y + 1 + 2 * h.x);
    }
    let m = (jr - n) % 2;
    let d = (jr - n) / 2;
    assert(jr - n == 2 * d + m);
    let e = (k + face_ring(h.f as int) - 1) / 2;
    assert(k + face_ring(h.f as int) - 1 == 2 * e);
    assert(k * n + face_ring(h.f as int) * n - n == 2 * (e * n)) by (nonlinear_arith)
        requires
            k + face_ring(h.f as int) - 1 == 2 * e,
    ;
    assert(k * n + h.x - h.y + 1 + m == 2 * (e * n - h.y - d));
}

/// The ring index of every pixel of a grid lies within the grid.
pub proof fn lemma_ring_index_range(n: int, h: Hpd)
    requires
        valid_face_resolution(n as nat),
        h.wf(n),
    ensures
        0 <= ring_index(n, h) < grid_pixel_count(n as nat),
{
    lemma_resolution_bounds(n as nat);
    let jr = ring_number(n, h);
    if jr < n {
        lemma_north_phase(n, h);
        let jp = h.f * jr + n - h.y;
        assert(0 <= 2 * jr * (jr - 1) + jp - 1 < 12 * (n * n)) by (nonlinear_arith)
            requires
                1 <= jr < n,
                1 <= jp <= 4 * jr,
        ;
    } else if jr > 3 * n {
        lemma_south_phase(n, h);
        let nr = 4 * n - jr;
        let jp = (h.f - 8) * nr + h.x + 1;
        assert(0 <= 12 * n * n - 2 * (nr + 1) * nr + jp - 1 < 12 * (n * n)) by (nonlinear_arith)
            requires
                1 <= nr < n,
                1 <= jp <= 4 * nr,
        ;
    } else {
        lemma_belt_phase(n, h);
        let jp = wrap_phase(
            (face_phase(h.f as int) * n + h.x - h.y + 1 + (jr - n) % 2) / 2,
            n,
        );
        assert(1 <= jp <= 4 * n);
        assert(0 <= 2 * n * (n - 1) + (jr - n) * (4 * n) + jp - 1 < 12 * (n * n))
            by (nonlinear_arith)
            requires
                n >= 1,
                n <= jr <= 3 * n,
                1 <= jp <= 4 * n,
        ;
    }
}

pub(crate) proof fn lemma_north_ring(pix: int, s: int)
    requires
        pix >= 0,
        s >= 0,
        s * s <= 1 + 2 * pix,
        1 + 2 * pix < (s + 1) * (s + 1),
    ensures
        (1 + s) / 2 >= 1,
        2 * ((1 + s) / 2) * ((1 + s) / 2 - 1) <= pix < 2 * ((1 + s) / 2) * ((1 + s) / 2 + 1),
{
    let i = (1 + s) / 2;
    if s % 2 == 1 {
        assert(s == 2 * i - 1);
        assert(2 * i * (i - 1) <= pix < 2 * i * (i + 1)) by (nonlinear_arith)
            requires
                s == 2 * i - 1,
                s * s <= 1 + 2 * pix,
                1 + 2 * pix < (s + 1) * (s + 1),
        ;
    } else {
        assert(s == 2 * i);
        assert(s >= 1) by (nonlinear_arith)
            requires
                s >= 0,
                1 + 2 * pix < (s + 1) * (s + 1),
                pix >= 0,
        ;
        assert(2 * i * (i - 1) <= pix < 2 * i * (i + 1)) by (nonlinear_arith)
            requires
                s == 2 * i,
                s * s <= 1 + 2 * pix,
                1 + 2 * pix < (s + 1) * (s + 1),
        ;
    }
}

pub(crate) proof fn lemma_south_ring(ip: int, s: int)
    requires
        ip >= 1,
        s >= 0,
        s * s <= 2 * ip - 1,
        2 * ip - 1 < (s + 1) * (s + 1),
    ensures
        (1 + s) / 2 >= 1,
        2 * ((1 + s) / 2) * ((1 + s) / 2 - 1) < ip <= 2 * ((1 + s) / 2) * ((1 + s) / 2 + 1),
{
    let i = (1 + s) / 2;
    assert(s >= 1) by (nonlinear_arith)
        requires
            s >= 0,
            s * s <= 2 * ip - 1,
            2 * ip - 1 < (s + 1) * (s + 1),
            ip >= 1,
    ;
    if s % 2 == 1 {
        assert(s == 2 * i - 1);
        assert(2 * i * (i - 1) < ip <= 2 * i * (i + 1)) by (nonlinear_arith)
            requires
                s == 2 * i - 1,
                s * s <= 2 * ip - 1,
                2 * ip - 1 < (s + 1) * (s + 1),
        ;
    } else {
        assert(s == 2 * i);
        assert(2 * i * (i - 1) < ip <= 2 * i * (i + 1)) by (nonlinear_arith)
            requires
                s == 2 * i,
                s * s <= 2 * ip - 1,
                2 * ip - 1 < (s + 1) * (s + 1),
        ;
    }
}

/// A ring of `i` rings from a pole that starts below `n` is one of the
/// `n - 1` rings of a polar cap.
pub(crate) proof fn lemma_cap_ring_bound(i: int, n: int, p: int)
    requires
        i >= 1,
        n >= 1,
        2 * i * (i - 1) <= p,
        p < 2 * n * (n - 1),
    ensures
        i < n,
{
    if i >= n {
        assert(2 * i * (i - 1) >= 2 * n * (n - 1)) by (nonlinear_arith)
            requires
                i >= n,
                n >= 1,
        ;
    }
}

/// The face `(iphi - 1) / iring` of a cap pixel and its bounds.
pub(crate) proof fn lemma_cap_face(iphi: int, iring: int)
    requires
        iring >= 1,
        1 <= iphi <= 4 * iring,
    ensures
        0 <= (iphi - 1) / iring < 4,
        ((iphi - 1) / iring) * iring + 1 <= iphi <= ((iphi - 1) / iring + 1) * iring,
{
    let f = (iphi - 1) / iring;
    vstd::arithmetic::div_mod::lemma_fundamental_div_mod(iphi - 1, iring);
    assert(0 <= (iphi - 1) % iring < iring);
    assert(iring * f == f * iring) by (nonlinear_arith);
    assert(0 <= f < 4) by (nonlinear_arith)
        requires
            iring * f + (iphi - 1) % iring == iphi - 1,
            0 <= (iphi - 1) % iring < iring,
            iphi - 1 < 4 * iring,
            iphi >= 1,
            iring >= 1,
    ;
    assert((f + 1) * iring == f * iring + iring) by (nonlinear_arith);
}

/// The face rule places every belt pixel on a face, with coordinates on
/// that face, from which the pixel's ring number and position in its ring
/// are read back.
pub(crate) proof fn lemma_belt_coords_inverse(n: int, iring: int, iphi: int)
    requires
        1 <= n <= 32768,
        n <= iring <= 3 * n,
        1 <= iphi <= 4 * n,
    ensures
        ({
            let h = belt_coords(n, iring, iphi, belt_face(n, iring, iphi));
            &&& h.wf(n)
            &&& ring_number(n, h) == iring
            &&& wrap_phase(
                (face_phase(h.f as int) * n + h.x - h.y + 1 + (ring_number(n, h) - n) % 2) / 2,
                n,
            ) == iphi
        }),
{
    let t = iring - n;
    let kshift = (iring + n) % 2;
    assert(kshift == t % 2);
    let ire = iring - n + 1;
    let irm = 2 * n + 2 - ire;
    let ae = ire / 2;
    let am = irm / 2;
    assert(2 * ae == t + kshift);
    assert(2 * am == 2 * n - t + kshift);
    let ap = iphi - am + n - 1;
    let amn = iphi - ae + n - 1;
    let ifp = ap / n;
    let ifm = amn / n;
    vstd::arithmetic::div_mod::lemma_fundamental_div_mod(ap, n);
    vstd::arithmetic::div_mod::lemma_fundamental_div_mod(amn, n);
    let pp = n * ifp;
    let pm = n * ifm;
    assert(pp <= ap < pp + n);
    assert(pm <= amn < pm + n);
    assert(0 <= ifp <= 4) by (nonlinear_arith)
        requires
            pp == n * ifp,
            pp <= ap < pp + n,
            0 <= ap < 5 * n,
    ;
    assert(0 <= ifm <= 4) by (nonlinear_arith)
        requires
            pm == n * ifm,
            pm <= amn < pm + n,
            0 <= amn < 5 * n,
    ;
    let face = candidate_face(ifp, ifm);
    assert(face == belt_face(n, iring, iphi));
    let h = belt_coords(n, iring, iphi, face);
    let k = face_phase(face);
    let fr = face_ring(face);
    let irt = iring - fr * n + 1;
    let ipt0 = 2 * iphi - k * n - kshift - 1;
    if ifp == ifm {
        let u = iphi - 1 - pp;
        if ifp < 4 {
            assert(face == ifp + 4 && k == 2 * ifp && fr == 3);
            assert(k * n == 2 * pp) by (nonlinear_arith)
                requires
                    k == 2 * ifp,
                    pp == n * ifp,
            ;
            assert(ipt0 == 2 * u + 1 - kshift);
            assert(ipt0 < 2 * n);
        } else {
            assert(face == 4 && k == 0 && fr == 3);
            assert(pp == 4 * n) by (nonlinear_arith)
                requires
                    pp == n * ifp,
                    ifp == 4,
            ;
            assert(ipt0 == 2 * u + 1 - kshift + 8 * n);
            assert(ipt0 >= 2 * n);
        }
        let ipt = 2 * u + 1 - kshift;
        assert(irt == t + 1 - 2 * n);
        assert(ipt - irt == 2 * (u - ae + n));
        assert(-(ipt + irt) == 2 * (am - 1 - u));
        assert(h.x == u - ae + n);
        assert(h.y == am - 1 - u);
    } else if ifp < ifm {
        let u = iphi - 1 - pp;
        assert(face == ifp && ifp <= 3 && k == 2 * ifp + 1 && fr == 2);
        assert(k * n == 2 * pp + n && pm >= pp + n) by (nonlinear_arith)
            requires
                k == 2 * ifp + 1,
                pp == n * ifp,
                pm == n * ifm,
                ifm >= ifp + 1,
                n >= 1,
        ;
        assert(ipt0 == 2 * u + 1 - n - kshift);
        assert(irt == t + 1 - n);
        assert(ipt0 - irt == 2 * (u - ae));
        assert(-(ipt0 + irt) == 2 * (am - 1 - u));
        assert(h.x == u - ae);
        assert(h.y == am - 1 - u);
    } else {
        let u = iphi - 1 - pm;
        assert(face == ifm + 8 && ifm <= 3 && k == 2 * ifm + 1 && fr == 4);
        assert(k * n == 2 * pm + n && pp >= pm + n) by (nonlinear_arith)
            requires
                k == 2 * ifm + 1,
                pp == n * ifp,
                pm == n * ifm,
                ifp >= ifm + 1,
                n >= 1,
        ;
        assert(ipt0 == 2 * u + 1 - n - kshift);
        assert(irt == t + 1 - 3 * n);
        assert(h.x == u - ae + n);
        assert(h.y == am + n - 1 - u);
    }
}

pub(crate) proof fn lemma_div_exact(a: int, n: int, q: int)
    requires
        n >= 1,
        q * n <= a < q * n + n,
    ensures
        a / n == q,
{
    vstd::arithmetic::div_mod::lemma_fundamental_div_mod_converse(a, n, q, a - q * n);
}

/// The face rule, applied to the ring and position of a belt pixel, gives
/// back the pixel's face.
pub(crate) proof fn lemma_belt_face_forward(n: int, h: Hpd)
    requires
        1 <= n <= 32768,
        h.wf(n),
        n <= ring_number(n, h) <= 3 * n,
    ensures
        belt_face(n, ring_number(n, h), belt_position(n, h)) == h.f,
{
    let jr = ring_number(n, h);
    let x = h.x as int;
    let y = h.y as int;
    let f = h.f as int;
    let t = jr - n;
    let kshift = t % 2;
    let ire = jr - n + 1;
    let irm = 2 * n + 2 - ire;
    let ae = ire / 2;
    let am = irm / 2;
    assert(2 * ae == t + kshift);
    assert(2 * am == 2 * n - t + kshift);
    let k = face_phase(f);
    let num = k * n + x - y + 1 + kshift;
    let jp = belt_position(n, h);
    lemma_belt_phase(n, h);
    assert(num % 2 == 0);
    if 4 <= f < 8 {
        let j = f - 4;
        assert(k == 2 * j && face_ring(f) == 3);
        assert(k * n == 2 * (j * n)) by (nonlinear_arith)
            requires
                k == 2 * j,
        ;
        let u = (x - y - 1 + kshift) / 2;
        assert(x - y - 1 + kshift == 2 * u);
        assert(num / 2 == j * n + u + 1);
        assert(ae - n <= u < ae && am - n <= u < am);
        if j * n + u + 1 >= 1 {
            assert(j * n + u + 1 <= 4 * n) by (nonlinear_arith)
                requires
                    0 <= j <= 3,
                    u < n,
                    n >= 1,
            ;
            assert(jp == j * n + u + 1);
            lemma_div_exact(jp - am + n - 1, n, j);
            lemma_div_exact(jp - ae + n - 1, n, j);
            assert(candidate_face(j, j) == f);
        } else {
            assert(j == 0) by (nonlinear_arith)
                requires
                    0 <= j <= 3,
                    j * n + u + 1 < 1,
                    u >= -n,
                    n >= 1,
            ;
            assert(jp == u + 1 + 4 * n);
            lemma_div_exact(jp - am + n - 1, n, 4);
            lemma_div_exact(jp - ae + n - 1, n, 4);
            assert(candidate_face(4, 4) == f);
        }
    } else {
        let j = if f < 4 {
            f
        } else {
            f - 8
        };
        assert(0 <= j <= 3);
        assert(k == 2 * j + 1);
        assert(k * n == 2 * (j * n) + n) by (nonlinear_arith)
            requires
                k == 2 * j + 1,
        ;
        let u = (n + x - y - 1 + kshift) / 2;
        assert(n + x - y - 1 + kshift == 2 * u);
        assert(num / 2 == j * n + u + 1);
        if f < 4 {
            assert(u - am + n == n - y - 1);
            assert(u - ae + n == n + x);
        } else {
            assert(u - ae + n == x);
            assert(u - am + n == 2 * n - y - 1);
        }
        assert(0 <= u < n);
        assert(j * n + u + 1 <= 4 * n) by (nonlinear_arith)
            requires
                0 <= j <= 3,
                u < n,
                n >= 1,
        ;
        assert(j * n >= 0) by (nonlinear_arith)
            requires
                0 <= j,
                n >= 1,
        ;
        assert(jp == j * n + u + 1);
        if f < 4 {
            lemma_div_exact(jp - am + n - 1, n, j);
            lemma_div_exact(jp - ae + n - 1, n, j + 1);
            assert(candidate_face(j, j + 1) == f);
        } else {
            lemma_div_exact(jp - ae + n - 1, n, j);
            lemma_div_exact(jp - am + n - 1, n, j + 1);
            assert(candidate_face(j + 1, j) == f);
        }
    }
}

/// The ring index of a pixel is the number of pixels in the rings before
/// its ring plus its position, from 1, in its ring: indices are ordered by
/// ring, then by position within the ring. The north cap's ring `jr` holds
/// `4·jr` pixels, each belt ring `4n`, the south cap's ring `4n - jr` holds
/// `4·(4n - jr)`.
pub proof fn lemma_ring_index_parts(n: int, h: Hpd)
    requires
        valid_face_resolution(n as nat),
        h.wf(n),
    ensures
        ({
            let jr = ring_number(n, h);
            let idx = ring_index(n, h);
            let ncap = 2 * n * (n - 1);
            &&& jr < n ==> {
                &&& idx == 2 * jr * (jr - 1) + (h.f * jr + n - h.y) - 1
                &&& 1 <= h.f * jr + n - h.y <= 4 * jr
                &&& 1 <= jr
                &&& idx < ncap
            }
            &&& jr > 3 * n ==> {
                let nr = 4 * n - jr;
                &&& idx == 12 * n * n - 2 * (nr + 1) * nr + ((h.f - 8) * nr + h.x + 1) - 1
                &&& 1 <= (h.f - 8) * nr + h.x + 1 <= 4 * nr
                &&& 1 <= nr < n
                &&& idx >= 12 * n * n - ncap
            }
            &&& n <= jr <= 3 * n ==> {
                &&& idx == ncap + (jr - n) * (4 * n) + belt_position(n, h) - 1
                &&& 1 <= belt_position(n, h) <= 4 * n
                &&& ncap <= idx < 12 * n * n - ncap
            }
        }),
{
    lemma_resolution_bounds(n as nat);
    let jr = ring_number(n, h);
    if jr < n {
        lemma_north_phase(n, h);
        let p = h.f * jr + n - h.y;
        assert(2 * jr * (jr - 1) + p - 1 < 2 * n * (n - 1)) by (nonlinear_arith)
            requires
                1 <= jr < n,
                p <= 4 * jr,
        ;
    } else if jr > 3 * n {
        lemma_south_phase(n, h);
        let nr = 4 * n - jr;
        assert(12 * n * n - 2 * (nr + 1) * nr >= 12 * n * n - 2 * n * (n - 1)) by (nonlinear_arith)
            requires
                1 <= nr < n,
        ;
    } else {
        lemma_belt_phase(n, h);
        let pos = belt_position(n, h);
        assert(1 <= pos <= 4 * n);
        assert(2 * n * (n - 1) + (jr - n) * (4 * n) + pos - 1 < 12 * n * n - 2 * n * (n - 1))
            by (nonlinear_arith)
            requires
                n >= 1,
                n <= jr <= 3 * n,
                1 <= pos <= 4 * n,
        ;
        assert(0 <= (jr - n) * (4 * n)) by (nonlinear_arith)
            requires
                n >= 1,
                n <= jr,
        ;
    }
}

/// Distinct pixels of a grid have distinct ring indices: with the ring
/// index range and the inverse `Ring::ring2hpd`, the ring numbering is a
/// bijection between face coordinates and `[0, 12·nside²)`.
pub proof fn lemma_ring_index_injective(n: int, a: Hpd, b: Hpd)
    requires
        valid_face_resolution(n as nat),
        a.wf(n),
        b.wf(n),
        ring_index(n, a) == ring_index(n, b),
    ensures
        a == b,
{
    lemma_resolution_bounds(n as nat);
    lemma_ring_index_parts(n, a);
    lemma_ring_index_parts(n, b);
    let ja = ring_number(n, a);
    let jb = ring_number(n, b);
    let idx = ring_index(n, a);
    assert(2 * n * (n - 1) < 12 * n * n - 2 * n * (n - 1)) by (nonlinear_arith)
        requires
            n >= 1,
    ;
    if ja < n && jb < n {
        if ja < jb {
            assert(2 * jb * (jb - 1) >= 2 * ja * (ja - 1) + 4 * ja) by (nonlinear_arith)
                requires
                    1 <= ja < jb,
            ;
        } else if jb < ja {
            assert(2 * ja * (ja - 1) >= 2 * jb * (jb - 1) + 4 * jb) by (nonlinear_arith)
                requires
                    1 <= jb < ja,
            ;
        }
        assert(ja == jb);
        let p = a.f * ja + n - a.y;
        lemma_div_exact(p - 1, ja, a.f as int);
        lemma_div_exact(p - 1, ja, b.f as int);
        assert(a.f == b.f && a.y == b.y);
        assert(face_ring(a.f as int) == face_ring(b.f as int));
        assert(a.x == b.x);
    } else if ja > 3 * n && jb > 3 * n {
        let na = 4 * n - ja;
        let nb = 4 * n - jb;
        if na < nb {
            assert(2 * (na + 1) * na < 2 * (nb + 1) * nb - 4 * nb + 1) by (nonlinear_arith)
                requires
                    1 <= na < nb,
            ;
        } else if nb < na {
            assert(2 * (nb + 1) * nb < 2 * (na + 1) * na - 4 * na + 1) by (nonlinear_arith)
                requires
                    1 <= nb < na,
            ;
        }
        assert(na == nb);
        let p = (a.f - 8) * na + a.x + 1;
        lemma_div_exact(p - 1, na, a.f - 8);
        lemma_div_exact(p - 1, na, b.f - 8);
        assert(a.f == b.f && a.x == b.x);
        assert(face_ring(a.f as int) == face_ring(b.f as int));
        assert(a.y == b.y);
    } else if n <= ja <= 3 * n && n <= jb <= 3 * n {
        let ncap = 2 * n * (n - 1);
        lemma_div_exact(idx - ncap, 4 * n, ja - n);
        lemma_div_exact(idx - ncap, 4 * n, jb - n);
        assert(ja == jb);
        lemma_belt_face_forward(n, a);
        lemma_belt_face_forward(n, b);
        assert(a.f == b.f);
        lemma_belt_phase(n, a);
        lemma_belt_phase(n, b);
        assert(face_ring(a.f as int) == face_ring(b.f as int));
        assert(a.x + a.y == b.x + b.y);
        let k = face_phase(a.f as int);
        let par = (ja - n) % 2;
        let va = (k * n + a.x - a.y + 1 + par) / 2;
        let vb = (k * n + b.x - b.y + 1 + par) / 2;
        assert(k * n + a.x - a.y + 1 + par == 2 * va);
        assert(k * n + b.x - b.y + 1 + par == 2 * vb);
        assert(wrap_phase(va, n) == wrap_phase(vb, n));
        assert(va == vb);
        assert(a.x == b.x && a.y == b.y);
    } else {
        assert(false);
    }
}

} // verus!
