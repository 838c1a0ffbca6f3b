//! Fixed-point distances and the integer square root they rest on.

use vstd::prelude::*;

verus! {

/// Number of fixed-point distance units in one pixel.
pub const UNITS_PER_PIXEL: u32 = 256;

/// `r` is the integer square root of `n`: the largest `r` with `r * r <= n`.
pub open spec fn is_isqrt(n: int, r: int) -> bool {
    0 <= r && r * r <= n && n < (r + 1) * (r + 1)
}

/// The integer square root of a natural number.
pub open spec fn isqrt(n: int) -> int {
    choose|r: int| is_isqrt(n, r)
}

/// The integer square root is unique.
pub proof fn lemma_isqrt_unique(n: int, r1: int, r2: int)
    requires
        is_isqrt(n, r1),
        is_isqrt(n, r2),
    ensures
        r1 == r2,
{
    if r1 < r2 {
        assert((r1 + 1) * (r1 + 1) <= r2 * r2) by (nonlinear_arith)
            requires 0 <= r1 < r2;
    } else if r2 < r1 {
        assert((r2 + 1) * (r2 + 1) <= r1 * r1) by (nonlinear_arith)
            requires 0 <= r2 < r1;
    }
}

/// Computes the integer square root of `n` by bisection.
pub fn integer_sqrt(n: u64) -> (r: u64)
    ensures
        is_isqrt(n as int, r as int),
        r as int == isqrt(n as int),
{
    let mut lo: u64 = 0;
    let mut hi: u64 = 0x1_0000_0000;
    while hi - lo > 1
        invariant
            lo < hi <= 0x1_0000_0000,
            (lo as int) * (lo as int) <= n as int,
            (n as int) < (hi as int) * (hi as int),
        decreases hi - lo,
    {
        let mid: u64 = lo + (hi - lo) / 2;
        assert((mid as int) * (mid as int) <= 0x1_0000_0000 * 0x1_0000_0000) by (nonlinear_arith)
            requires mid < 0x1_0000_0000;
        if (mid as u128) * (mid as u128) <= n as u128 {
            lo = mid;
        } else {
            hi = mid;
        }
    }
    assert(is_isqrt(n as int, lo as int));
    proof {
        assert(exists|r: int| is_isqrt(n as int, r));
        lemma_isqrt_unique(n as int, lo as int, isqrt(n as int));
    }
    lo
}

} // verus!

verus! {

/// The integer square root reaches `m` exactly when `n` reaches `m * m`.
pub proof fn lemma_isqrt_ge(n: int, r: int, m: int)
    requires
        is_isqrt(n, r),
        0 <= m,
    ensures
        r >= m <==> n >= m * m,
{
    if r >= m {
        assert(r * r >= m * m) by (nonlinear_arith)
            requires r >= m, m >= 0;
    }
    if n >= m * m && r < m {
        assert((r + 1) * (r + 1) <= m * m) by (nonlinear_arith)
            requires 0 <= r < m;
    }
}

/// A squared pixel distance expressed in distance units, rounded down:
/// `floor(UNITS_PER_PIXEL * sqrt(d))`.
pub open spec fn units_of_sq(d: int) -> int {
    isqrt(d * (UNITS_PER_PIXEL as int) * (UNITS_PER_PIXEL as int))
}

/// `u` limited to at most `m`.
pub open spec fn clamp_to(u: int, m: int) -> int {
    if u < m { u } else { m }
}

/// A magnitude given the sign of its class: negative inside.
pub open spec fn signed(inside: bool, mag: int) -> int {
    if inside { -mag } else { mag }
}

/// The clamped length, in units, of a vector whose squared pixel length is `d`.
pub fn clamped_units(d: u128, max_distance: u32) -> (r: u32)
    requires
        d <= 0x4_0000_0000_0000_0000,
    ensures
        r as int == clamp_to(units_of_sq(d as int), max_distance as int),
{
    assert((max_distance as int) * (max_distance as int) <= u64::MAX) by (nonlinear_arith)
        requires max_distance <= u32::MAX;
    let n: u128 = d * 65536;
    let m2: u128 = (max_distance as u128) * (max_distance as u128);
    let ghost nn = d as int * (UNITS_PER_PIXEL as int) * (UNITS_PER_PIXEL as int);
    assert(nn == n as int);
    if n >= m2 {
        proof {
            assert(exists|r: int| is_isqrt(nn, r)) by {
                let lo = integer_sqrt_spec_witness(nn);
            }
            lemma_isqrt_ge(nn, isqrt(nn), max_distance as int);
        }
        max_distance
    } else {
        let s = integer_sqrt(n as u64);
        proof {
            lemma_isqrt_ge(nn, s as int, max_distance as int);
        }
        s as u32
    }
}

/// Every natural number has an integer square root.
pub proof fn integer_sqrt_spec_witness(n: int) -> (r: int)
    requires
        0 <= n,
    ensures
        is_isqrt(n, r),
    decreases n,
{
    if n == 0 {
        assert(is_isqrt(0, 0));
        0
    } else {
        let p = integer_sqrt_spec_witness(n - 1);
        if (p + 1) * (p + 1) <= n {
            let q = p + 1;
            assert((q + 1) * (q + 1) == q * q + 2 * q + 1) by (nonlinear_arith);
            assert(is_isqrt(n, q));
            q
        } else {
            p
        }
    }
}

} // verus!
