//! Fixed-point scalars: the scale, the engine-wide magnitude limits, the
//! truncating division every interpolation uses, and an integer square root.

use vstd::arithmetic::div_mod::{
    lemma_div_is_ordered, lemma_div_multiples_vanish, lemma_div_nonincreasing,
};
use vstd::prelude::*;

verus! {

/// Number of integer ticks in one spatial unit (the fixed-point scale).
pub const SCALE: i64 = 1_000_000;

/// Offset from a pixel's corner to its center, in ticks.
pub const HALF_SCALE: i64 = 500_000;

/// The ambient lighting floor: one tenth of full intensity.
pub const AMBIENT_FLOOR: i64 = 100_000;

/// Depth every cleared depth-buffer cell starts at; farther than any
/// representable surface.
pub const DEPTH_FAR: i64 = 0x7fff_ffff_ffff_ffff;

/// Largest magnitude accepted for world-space coordinates, light positions
/// and (accumulated) normals, in ticks.
pub const WORLD_MAX: i64 = 0x2000_0000;

/// Largest magnitude accepted for screen-space coordinates, in ticks.
pub const SCREEN_MAX: i64 = 0x100_0000_0000;

/// Largest magnitude accepted for an entry of a transform matrix.
pub const MAT_MAX: i64 = 4_000_000;

/// Largest viewport width or height, in pixels.
pub const MAX_DIM: usize = 0x10_0000;

/// Smallest viewport width and height the renderer accepts.
pub const MIN_DIM: usize = 10;

/// Division rounding toward zero, the rounding used throughout the engine.
/// Agrees with Euclidean (and floor) division on non-negative numerators.
pub open spec fn trunc_div(a: int, b: int) -> int {
    if a >= 0 {
        a / b
    } else {
        -((-a) / b)
    }
}

/// Truncating division of an `i128` by a positive divisor.
pub fn trunc_div_i128(a: i128, b: i128) -> (r: i128)
    requires
        b > 0,
        a > i128::MIN,
    ensures
        r == trunc_div(a as int, b as int),
{
    if a >= 0 {
        let q = (a as u128) / (b as u128);
        proof {
            lemma_div_nonincreasing(a as int, b as int);
        }
        q as i128
    } else {
        let m = ((-a) as u128) / (b as u128);
        proof {
            lemma_div_nonincreasing((-a) as int, b as int);
        }
        -(m as i128)
    }
}

/// A quotient lies between `lo` and `hi` whenever the numerator lies
/// between `b * lo` and `b * hi`; truncation cannot escape the range.
pub proof fn lemma_trunc_div_in_range(a: int, b: int, lo: int, hi: int)
    requires
        b > 0,
        b * lo <= a,
        a <= b * hi,
    ensures
        lo <= trunc_div(a, b),
        trunc_div(a, b) <= hi,
{
    if a >= 0 {
        lemma_div_is_ordered(b * lo, a, b);
        lemma_div_is_ordered(a, b * hi, b);
        lemma_div_multiples_vanish(lo, b);
        lemma_div_multiples_vanish(hi, b);
    } else {
        assert(b * (-hi) <= -a && -a <= b * (-lo)) by (nonlinear_arith)
            requires
                b * lo <= a && a <= b * hi,
        ;
        lemma_div_is_ordered(b * (-hi), -a, b);
        lemma_div_is_ordered(-a, b * (-lo), b);
        lemma_div_multiples_vanish(-lo, b);
        lemma_div_multiples_vanish(-hi, b);
    }
}

/// A multiple of the divisor divides back exactly, for either sign of the
/// multiplier.
pub proof fn lemma_trunc_div_exact(m: int, b: int)
    requires
        b > 0,
    ensures
        trunc_div(m * b, b) == m,
{
    if m >= 0 {
        assert(m * b >= 0 && m * b == b * m) by (nonlinear_arith)
            requires
                m >= 0 && b > 0,
        ;
        lemma_div_multiples_vanish(m, b);
    } else {
        assert(m * b < 0 && -(m * b) == b * (-m)) by (nonlinear_arith)
            requires
                m < 0 && b > 0,
        ;
        lemma_div_multiples_vanish(-m, b);
    }
}


/// The product of two bounded factors is bounded by the product of the
/// bounds.
pub proof fn lemma_mul_abs_bound(a: int, b: int, ma: int, mb: int)
    by (nonlinear_arith)
    requires
        -ma <= a <= ma,
        -mb <= b <= mb,
    ensures
        -(ma * mb) <= a * b,
        a * b <= ma * mb,
{
}

/// The greatest integer whose square does not exceed `n`.
pub open spec fn isqrt_spec(n: int) -> int {
    choose|r: int| r >= 0 && #[trigger] (r * r) <= n && n < (r + 1) * (r + 1)
}

/// There is only one integer square root.
pub proof fn lemma_isqrt_unique(r1: int, r2: int, n: int)
    by (nonlinear_arith)
    requires
        r1 >= 0,
        r1 * r1 <= n,
        n < (r1 + 1) * (r1 + 1),
        r2 >= 0,
        r2 * r2 <= n,
        n < (r2 + 1) * (r2 + 1),
    ensures
        r1 == r2,
{
}

/// Integer square root by binary search.
pub fn isqrt(n: u128) -> (r: u64)
    requires
        n < 0x4000_0000_0000_0000_0000_0000_0000_0000,
    ensures
        r * r <= n,
        n < (r + 1) * (r + 1),
        r == isqrt_spec(n as int),
{
    let mut lo: u128 = 0;
    let mut hi: u128 = 0x7fff_ffff_ffff_ffff;
    assert(n < (hi + 1) * (hi + 1)) by (nonlinear_arith)
        requires
            n < 0x4000_0000_0000_0000_0000_0000_0000_0000 && hi == 0x7fff_ffff_ffff_ffff,
    ;
    while lo < hi
        invariant
            lo <= hi,
            hi <= 0x7fff_ffff_ffff_ffff,
            lo * lo <= n,
            n < (hi + 1) * (hi + 1),
        decreases hi - lo,
    {
        let mid = lo + (hi - lo + 1) / 2;
        assert(lo < mid && mid <= hi);
        assert(mid * mid <= 0x3fff_ffff_ffff_ffff_0000_0000_0000_0001u128) by (nonlinear_arith)
            requires
                mid <= 0x7fff_ffff_ffff_ffffu128,
        ;
        if mid * mid <= n {
            lo = mid;
        } else {
            hi = mid - 1;
        }
    }
    proof {
        let w = lo as int;
        assert(w >= 0 && w * w <= n && n < (w + 1) * (w + 1));
        assert(exists|q: int| q >= 0 && #[trigger] (q * q) <= n && n < (q + 1) * (q + 1));
        lemma_isqrt_unique(w, isqrt_spec(n as int), n as int);
    }
    lo as u64
}

} // verus!
