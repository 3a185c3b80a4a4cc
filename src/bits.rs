use vstd::prelude::*;

verus! {

/// One more than the largest face coordinate that the bit interleaving keeps.
pub const COORD_LIMIT: u32 = 65536;

/// The number whose base-4 digits are the base-2 digits of `x`: bit `i` of `x`
/// moves to bit `2i`, and the odd bits are zero.
pub open spec fn spread(x: nat) -> nat
    decreases x,
{
    if x == 0 {
        0
    } else {
        x % 2 + 4 * spread(x / 2)
    }
}

/// The number made of the even bits of `v`: bit `2i` of `v` moves to bit `i`.
pub open spec fn compact(v: nat) -> nat
    decreases v,
{
    if v == 0 {
        0
    } else {
        v % 2 + 2 * compact(v / 4)
    }
}

/// The Morton (Z-order) code of `(x, y)`: the bits of `x` on the even
/// positions, those of `y` on the odd positions.
pub open spec fn morton(x: nat, y: nat) -> nat {
    spread(x) + 2 * spread(y)
}

proof fn lemma_spread_step(q: nat, b: nat)
    requires
        b < 2,
    ensures
        spread(2 * q + b) == b + 4 * spread(q),
{
    let v = 2 * q + b;
    if v != 0 {
        assert(v % 2 == b && v / 2 == q);
    }
}

proof fn lemma_spread_bound(q: nat)
    ensures
        spread(q) <= q * q,
    decreases q,
{
    if q != 0 {
        let h = q / 2;
        let b = q % 2;
        lemma_spread_bound(h);
        assert(q == 2 * h + b);
        assert(b + 4 * (h * h) <= (2 * h + b) * (2 * h + b)) by (nonlinear_arith)
            requires
                b < 2,
        ;
    }
}

proof fn lemma_compact_step(q: nat, d: nat)
    requires
        d < 4,
    ensures
        compact(4 * q + d) == d % 2 + 2 * compact(q),
{
    let v = 4 * q + d;
    if v != 0 {
        assert(v % 2 == d % 2 && v / 4 == q);
    }
}

proof fn lemma_compact_bound(v: nat)
    ensures
        compact(v) <= v,
    decreases v,
{
    if v != 0 {
        lemma_compact_bound(v / 4);
    }
}

proof fn lemma_compact_even(x: nat, y: nat)
    ensures
        compact(morton(x, y)) == x,
    decreases x + y,
{
    if x + y != 0 {
        let a = x / 2;
        let c = y / 2;
        let b = x % 2;
        let d = y % 2;
        lemma_compact_even(a, c);
        lemma_spread_step(a, b);
        lemma_spread_step(c, d);
        assert(morton(x, y) == (b + 2 * d) + 4 * morton(a, c));
        lemma_compact_step(morton(a, c), b + 2 * d);
    }
}

/// Spreading then compacting the even bits gives back the first coordinate,
/// and compacting the odd bits gives back the second: `deinterleave` undoes
/// `interleave`.
pub proof fn lemma_compact_morton(x: nat, y: nat)
    ensures
        compact(morton(x, y)) == x,
        compact(morton(x, y) / 2) == y,
{
    lemma_compact_even(x, y);
    lemma_spread_step(x / 2, x % 2);
    assert(morton(x, y) == 2 * morton(y, x / 2) + x % 2);
    lemma_compact_even(y, x / 2);
}

/// Splitting a code into its even and odd bits and interleaving them again
/// gives back the code: `interleave` undoes `deinterleave`.
pub proof fn lemma_morton_compact(v: nat)
    ensures
        morton(compact(v), compact(v / 2)) == v,
    decreases v,
{
    if v != 0 {
        let q = v / 4;
        let h = v / 2;
        lemma_morton_compact(q);
        assert(h / 4 == q / 2);
        assert(v % 2 + 2 * (h % 2) == v % 4);
        lemma_spread_step(compact(q), v % 2);
        if h != 0 {
            lemma_spread_step(compact(q / 2), h % 2);
        }
    }
}

/// Whether `n` is a power of two.
pub open spec fn is_pow2(n: nat) -> bool
    decreases n,
{
    if n == 1 {
        true
    } else if n < 2 || n % 2 == 1 {
        false
    } else {
        is_pow2(n / 2)
    }
}

/// Coordinates below a power of two `side` have Morton codes below `side²`:
/// the codes of one face fill exactly `[0, side²)`.
pub proof fn lemma_morton_bound(x: nat, y: nat, side: nat)
    requires
        is_pow2(side),
        x < side,
        y < side,
    ensures
        morton(x, y) < side * side,
    decreases side,
{
    if side > 1 {
        let h = side / 2;
        let a = x / 2;
        let c = y / 2;
        lemma_morton_bound(a, c, h);
        lemma_spread_step(a, x % 2);
        lemma_spread_step(c, y % 2);
        assert(morton(x, y) == (x % 2 + 2 * (y % 2)) + 4 * morton(a, c));
        assert(side * side == 4 * (h * h)) by (nonlinear_arith)
            requires
                side == 2 * h,
        ;
        assert(x % 2 + 2 * (y % 2) <= 3);
        assert(morton(a, c) + 1 <= h * h);
        assert(morton(x, y) < side * side);
    } else {
        assert(side == 1);
        assert(x == 0 && y == 0);
        assert(morton(x, y) == 0);
    }
}

/// Spreads the low 16 bits of `x` onto the even bit positions.
pub fn spread_bits(x: u32) -> (r: u64)
    ensures
        r == spread(x as nat % COORD_LIMIT as nat),
        r < 0x1_0000_0000,
{
    let xl: u32 = x & 0xffff;
    assert(xl == x % 65536 && xl < 65536) by (bit_vector)
        requires
            xl == x & 0xffff,
    ;
    let mut r: u64 = 0;
    let mut i: u32 = 16;
    assert(xl >> 16u32 == 0) by (bit_vector)
        requires
            xl < 65536,
    ;
    while i > 0
        invariant
            i <= 16,
            xl < 65536,
            r == spread((xl >> i) as nat),
        decreases i,
    {
        let ghost j = i;
        i = i - 1;
        let b: u32 = (xl >> i) & 1;
        proof {
            assert((xl >> i) == 2 * (xl >> j) + b && b < 2 && (xl >> i) <= xl) by (bit_vector)
                requires
                    j == i + 1,
                    j <= 16,
                    b == (xl >> i) & 1,
            ;
            let q = (xl >> j) as nat;
            lemma_spread_step(q, b as nat);
            lemma_spread_bound(q);
            assert(q * q <= 65535 * 65535) by (nonlinear_arith)
                requires
                    q <= 65535,
            ;
        }
        r = 4 * r + b as u64;
    }
    assert(xl >> 0u32 == xl) by (bit_vector);
    proof {
        lemma_spread_bound(xl as nat);
        assert(xl as nat * xl as nat <= 65535 * 65535) by (nonlinear_arith)
            requires
                xl < 65536,
        ;
    }
    r
}

/// Gathers the even bits of `x` into the low 16 bits of the result.
pub fn compact_bits(x: u32) -> (r: u32)
    ensures
        r == compact(x as nat),
{
    let xw: u64 = x as u64;
    let mut r: u32 = 0;
    let mut i: u64 = 16;
    assert(xw >> 32u64 == 0) by (bit_vector)
        requires
            xw < 0x1_0000_0000,
    ;
    while i > 0
        invariant
            i <= 16,
            xw == x as u64,
            r == compact((xw >> (2 * i)) as nat),
        decreases i,
    {
        let ghost j = i;
        i = i - 1;
        let s: u64 = 2 * i;
        let b: u64 = (xw >> s) & 1;
        proof {
            let t = (2 * j) as u64;
            let d = (xw >> s) & 3;
            assert((xw >> s) == 4 * (xw >> t) + d && d < 4 && d % 2 == b && (xw >> s) <= xw)
                by (bit_vector)
                requires
                    t == s + 2,
                    t <= 32,
                    b == (xw >> s) & 1,
                    d == (xw >> s) & 3,
            ;
            lemma_compact_step((xw >> t) as nat, d as nat);
            lemma_compact_bound((xw >> s) as nat);
        }
        r = 2 * r + b as u32;
    }
    assert(xw >> 0u64 == xw) by (bit_vector);
    r
}

/// The Morton code of the low 16 bits of `x` and of `y`.
pub fn interleave(x: u32, y: u32) -> (r: u64)
    ensures
        r == morton(x as nat % COORD_LIMIT as nat, y as nat % COORD_LIMIT as nat),
{
    let sx = spread_bits(x);
    let sy = spread_bits(y);
    proof {
        let xl = x as nat % 65536;
        let yl = y as nat % 65536;
        lemma_spread_bound(xl);
        lemma_spread_bound(yl);
        assert(xl * xl <= 65535 * 65535 && yl * yl <= 65535 * 65535) by (nonlinear_arith)
            requires
                xl < 65536,
                yl < 65536,
        ;
    }
    sx + 2 * sy
}

/// Splits a Morton code into its even bits and its odd bits.
pub fn deinterleave(v: u32) -> (r: (u32, u32))
    ensures
        r.0 == compact(v as nat),
        r.1 == compact(v as nat / 2),
{
    assert(v >> 1 == v / 2) by (bit_vector);
    (compact_bits(v), compact_bits(v >> 1))
}

} // verus!
