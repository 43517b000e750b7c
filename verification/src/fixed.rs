//! Fixed-point conventions and exact integer helpers.
//!
//! Lengths (positions, directions, radii) live on an integer lattice.
//! Fractions (ray parameters, unit normals, surface coordinates, colour
//! channels) are counted in units of `1 / ONE`.
use vstd::prelude::*;
use vstd::arithmetic::div_mod::lemma_fundamental_div_mod_converse;

verus! {

/// The number of raw units that make up the fraction 1.
pub const ONE: i32 = 1024;

/// Lattice coordinates of geometry handed to intersection tests stay within
/// `-COORD_LIMIT ..= COORD_LIMIT`, so that all intermediate products fit in
/// 128 bits.
pub const COORD_LIMIT: i32 = 0x100_0000;

/// The smallest positive ray parameter; used to step off a surface.
pub const EPSILON: i64 = 1;

/// The ray parameter that stands for an unbounded far end.
pub const FAR: i64 = 0x7fff_ffff_ffff_ffff;

/// `x` clamped into `lo ..= hi`.
pub open spec fn clamp(x: int, lo: int, hi: int) -> int {
    if x < lo {
        lo
    } else if x > hi {
        hi
    } else {
        x
    }
}

/// The least integer `q` with `q * d >= x`, for positive `d`.
pub open spec fn ceil_div(x: int, d: int) -> int {
    -((-x) / d)
}

/// `s` is the integer square root of `n`: the largest integer whose square
/// does not exceed `n`.
pub open spec fn is_sqrt_of(s: int, n: int) -> bool {
    0 <= s && s * s <= n && n < (s + 1) * (s + 1)
}

/// The largest `s` with `s * s <= n`, for `n >= 0`.
pub open spec fn isqrt(n: int) -> int {
    choose|s: int| is_sqrt_of(s, n)
}

/// An integer square root is unique.
pub proof fn lemma_sqrt_unique(s1: int, s2: int, n: int)
    requires
        is_sqrt_of(s1, n),
        is_sqrt_of(s2, n),
    ensures
        s1 == s2,
{
    if s1 < s2 {
        assert((s1 + 1) * (s1 + 1) <= s2 * s2) by (nonlinear_arith)
            requires
                0 <= s1,
                s1 + 1 <= s2,
        ;
    }
    if s2 < s1 {
        assert((s2 + 1) * (s2 + 1) <= s1 * s1) by (nonlinear_arith)
            requires
                0 <= s2,
                s2 + 1 <= s1,
        ;
    }
}

/// Every non-negative integer has an integer square root.
pub proof fn lemma_sqrt_exists(n: int)
    requires
        n >= 0,
    ensures
        is_sqrt_of(isqrt(n), n),
    decreases n,
{
    if n == 0 {
        assert(is_sqrt_of(0, 0));
    } else {
        lemma_sqrt_exists(n - 1);
        let s = isqrt(n - 1);
        if (s + 1) * (s + 1) <= n {
            assert(n < (s + 2) * (s + 2)) by (nonlinear_arith)
                requires
                    n - 1 < (s + 1) * (s + 1),
                    0 <= s,
            ;
            assert(is_sqrt_of(s + 1, n));
        } else {
            assert(is_sqrt_of(s, n));
        }
    }
}

/// Squares grow with their non-negative base.
pub proof fn lemma_square_le(x: int, y: int)
    requires
        0 <= x <= y,
    ensures
        x * x <= y * y,
{
    assert(x * x <= y * y) by (nonlinear_arith)
        requires
            0 <= x <= y,
    ;
}

/// Floor of `x / d` for positive `d`.
pub fn div_floor(x: i128, d: i128) -> (q: i128)
    requires
        d > 0,
    ensures
        q == x as int / d as int,
        q * d <= x < q * d + d,
{
    if x >= 0 {
        let q: i128 = x / d;
        proof {
            vstd::arithmetic::div_mod::lemma_fundamental_div_mod(x as int, d as int);
            vstd::arithmetic::div_mod::lemma_mod_bound(x as int, d as int);
            assert(q * d == d * q) by (nonlinear_arith);
        }
        q
    } else {
        let y: i128 = -1 - x;
        let p: i128 = y / d;
        let r: i128 = y % d;
        proof {
            vstd::arithmetic::div_mod::lemma_fundamental_div_mod(y as int, d as int);
            vstd::arithmetic::div_mod::lemma_mod_bound(y as int, d as int);
            assert(x as int == (-1 - p) * d + (d - 1 - r)) by (nonlinear_arith)
                requires
                    y == d * p + r,
                    y == -1 - x,
            ;
            lemma_fundamental_div_mod_converse(x as int, d as int, -1 - p, d - 1 - r);
            assert((-1 - p) * d <= x < (-1 - p) * d + d) by (nonlinear_arith)
                requires
                    x as int == (-1 - p) * d + (d - 1 - r),
                    0 <= r < d,
            ;
        }
        -1 - p
    }
}

/// Ceiling of `x / d` for positive `d`.
pub fn div_ceil(x: i128, d: i128) -> (q: i128)
    requires
        d > 0,
        x > i128::MIN,
    ensures
        q == ceil_div(x as int, d as int),
        q * d - d < x <= q * d,
{
    let f: i128 = div_floor(-x, d);
    assert(f > i128::MIN) by (nonlinear_arith)
        requires
            f * d <= -x < f * d + d,
            d > 0,
            -x < 0x8000_0000_0000_0000_0000_0000_0000_0000,
            f >= -0x8000_0000_0000_0000_0000_0000_0000_0000,
            d <= 0x7fff_ffff_ffff_ffff_ffff_ffff_ffff_ffff,
    ;
    assert((-f) * d - d < x <= (-f) * d) by (nonlinear_arith)
        requires
            f * d <= -x < f * d + d,
    ;
    -f
}

/// The integer square root of `n`.
pub fn sqrt_floor(n: u128) -> (s: u128)
    ensures
        is_sqrt_of(s as int, n as int),
        s as int == isqrt(n as int),
        s < 0x1_0000_0000_0000_0000,
{
    let mut lo: u128 = 0;
    let mut hi: u128 = 0x1_0000_0000_0000_0000;
    assert(n < hi * hi) by (nonlinear_arith)
        requires
            hi == 0x1_0000_0000_0000_0000,
            n <= 0xffff_ffff_ffff_ffff_ffff_ffff_ffff_ffff,
    ;
    while hi - lo > 1
        invariant
            lo < hi <= 0x1_0000_0000_0000_0000,
            lo * lo <= n < hi * hi,
        decreases hi - lo,
    {
        let mid: u128 = lo + (hi - lo) / 2;
        assert(mid * mid <= 0xffff_ffff_ffff_ffff * 0xffff_ffff_ffff_ffff) by (nonlinear_arith)
            requires
                mid <= 0xffff_ffff_ffff_ffff,
        ;
        if mid * mid <= n {
            lo = mid;
        } else {
            hi = mid;
        }
    }
    proof {
        assert(hi == lo + 1);
        assert(is_sqrt_of(lo as int, n as int));
        lemma_sqrt_unique(lo as int, isqrt(n as int), n as int);
    }
    lo
}

} // verus!
