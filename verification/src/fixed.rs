//! Q16.16 fixed-point amplitude arithmetic.
//!
//! An amplitude is an `i64` holding the real value scaled by `ONE` (65536),
//! so `ONE` is full scale (1.0). `fx_mul` is the fixed-point product with the
//! quotient truncated toward zero, `clip_unit` pins a value to `[-ONE, ONE]`,
//! `round_half_away` is the halving step of the gating smoother, rounding to the
//! nearest step (ties away from zero), and `isqrt` is the integer square
//! root used by the RMS analyzer.

use vstd::prelude::*;

verus! {

/// Fixed-point representation of the amplitude 1.0 (full scale).
pub const ONE: i64 = 65536;

/// Largest amplitude magnitude the RMS analyzer accepts: 32768.0 in real
/// terms, far above any meaningful audio level, but small enough that a sum
/// of squared samples over any block length fits in a `u128` accumulator.
pub const AMP_MAX: i64 = 2147483648;

/// An amplitude within the analyzer's working range.
pub open spec fn valid_amp(x: i64) -> bool {
    -AMP_MAX <= x <= AMP_MAX
}

/// Quotient of `n / d` truncated toward zero (the rounding Rust's `/` uses),
/// for a positive divisor.
pub open spec fn div_trunc(n: int, d: int) -> int
    recommends
        0 < d,
{
    if n >= 0 {
        n / d
    } else {
        -((-n) / d)
    }
}

/// Fixed-point product: the real product of two amplitudes, truncated toward
/// zero to the Q16.16 grid.
pub open spec fn fx_mul(a: int, b: int) -> int {
    div_trunc(a * b, ONE as int)
}

/// Hard clip: pin a value to `[-ONE, ONE]`, leaving in-range values alone.
pub open spec fn clip_unit(x: int) -> int {
    if x > ONE {
        ONE as int
    } else if x < -(ONE as int) {
        -(ONE as int)
    } else {
        x
    }
}

/// `d / 2` rounded to the nearest integer, ties away from zero: the closest
/// representable step to the exact half of `d`.
pub open spec fn round_half_away(d: int) -> int {
    if d >= 0 {
        (d + d % 2) / 2
    } else {
        -(((-d) + (-d) % 2) / 2)
    }
}

/// `r` is the integer square root (floor) of `n`.
pub open spec fn is_sqrt(n: int, r: int) -> bool {
    0 <= r && r * r <= n && n < (r + 1) * (r + 1)
}

/// The integer square root of `n`, as a value: meaningful for `n >= 0`
/// (see `lemma_sqrt_exists`).
pub open spec fn sqrt_floor(n: int) -> int {
    choose|r: int| is_sqrt(n, r)
}

/// Every nonnegative integer has an integer square root.
pub proof fn lemma_sqrt_exists(n: int)
    requires
        0 <= n,
    ensures
        exists|r: int| is_sqrt(n, r),
    decreases n,
{
    if n == 0 {
        assert(is_sqrt(0, 0));
    } else {
        lemma_sqrt_exists(n - 1);
        let m = n - 1;
        let r = choose|r: int| is_sqrt(m, r);
        if n < (r + 1) * (r + 1) {
            assert(is_sqrt(n, r));
        } else {
            assert(n == (r + 1) * (r + 1));
            assert((r + 1) * (r + 1) < (r + 2) * (r + 2)) by (nonlinear_arith)
                requires 0 <= r;
            assert(is_sqrt(n, r + 1));
        }
    }
}

/// The integer square root is unique.
pub proof fn lemma_sqrt_unique(n: int, r1: int, r2: int)
    requires
        is_sqrt(n, r1),
        is_sqrt(n, r2),
    ensures
        r1 == r2,
{
    assert(r1 == r2) by (nonlinear_arith)
        requires
            0 <= r1 && r1 * r1 <= n && n < (r1 + 1) * (r1 + 1),
            0 <= r2 && r2 * r2 <= n && n < (r2 + 1) * (r2 + 1);
}

/// Any witness of `is_sqrt` is the value of `sqrt_floor`.
pub proof fn lemma_sqrt_floor_is(n: int, r: int)
    requires
        0 <= n,
        is_sqrt(n, r),
    ensures
        sqrt_floor(n) == r,
{
    lemma_sqrt_exists(n);
    let w = choose|w: int| is_sqrt(n, w);
    lemma_sqrt_unique(n, w, r);
}

/// A scaled sample, once clipped, always lies within one full-scale unit,
/// whatever the sample and whatever the multiplier.
pub proof fn lemma_scaled_clip_in_unit(s: int, m: int)
    ensures
        -(ONE as int) <= clip_unit(fx_mul(s, m)) <= ONE as int,
{
}

/// Scale a sample by a multiplier and hard-clip the product to `[-ONE, ONE]`.
/// Total: the product is widened to `i128`, so no multiplier is out of range.
pub fn scale_clip(input: i64, mult: i64) -> (r: i64)
    ensures
        r == clip_unit(fx_mul(input as int, mult as int)),
        -ONE <= r <= ONE,
{
    proof {
        assert((input as int) * (mult as int) <= 0x4000_0000_0000_0000_0000_0000_0000_0000int
            && -0x4000_0000_0000_0000_0000_0000_0000_0000int <= (input as int) * (mult as int))
            by (nonlinear_arith)
            requires
                -0x8000_0000_0000_0000int <= input as int <= 0x7FFF_FFFF_FFFF_FFFFint,
                -0x8000_0000_0000_0000int <= mult as int <= 0x7FFF_FFFF_FFFF_FFFFint;
    }
    let p: i128 = (input as i128) * (mult as i128);
    let q: i128 = if p >= 0 {
        ((p as u128) / 65536u128) as i128
    } else {
        -((((-p) as u128) / 65536u128) as i128)
    };
    assert(q == div_trunc(p as int, ONE as int));
    if q > 65536i128 {
        65536i64
    } else if q < -65536i128 {
        -65536i64
    } else {
        q as i64
    }
}

/// Multiply a clipped sample (within `[-ONE, ONE]`) by a bounded linear
/// gain, truncating toward zero to the Q16.16 grid.
pub fn fx_mul_unit(a: i64, b: i64) -> (r: i64)
    requires
        -ONE <= a <= ONE,
        valid_amp(b),
    ensures
        r == fx_mul(a as int, b as int),
{
    proof {
        assert(-0x8000_0000_0000int <= (a as int) * (b as int) <= 0x8000_0000_0000int)
            by (nonlinear_arith)
            requires
                -65536 <= a as int <= 65536,
                -0x8000_0000int <= b as int <= 0x8000_0000int;
    }
    let p: i64 = a * b;
    if p >= 0 {
        ((p as u64) / 65536u64) as i64
    } else {
        -((((-p) as u64) / 65536u64) as i64)
    }
}

/// `d / 2` rounded to the nearest integer, ties away from zero.
pub fn half_away(d: i64) -> (r: i64)
    requires
        i64::MIN < d,
    ensures
        r == round_half_away(d as int),
{
    if d >= 0 {
        let m: u64 = d as u64;
        ((m + m % 2) / 2) as i64
    } else {
        let m: u64 = (-d) as u64;
        -(((m + m % 2) / 2) as i64)
    }
}

/// Integer square root: the largest `r` with `r * r <= a`.
pub fn isqrt(a: u64) -> (r: u64)
    ensures
        is_sqrt(a as int, r as int),
{
    let mut lo: u64 = 0;
    let mut hi: u64 = 4294967295;
    assert(a < (hi + 1) * (hi + 1)) by (nonlinear_arith)
        requires a <= u64::MAX && hi == 4294967295u64;
    while lo < hi
        invariant
            lo <= hi <= 4294967295,
            lo * lo <= a,
            a < (hi + 1) * (hi + 1),
        decreases hi - lo,
    {
        let mid: u64 = lo + (hi - lo + 1) / 2;
        proof {
            assert((mid as int) * (mid as int) <= 0x1_0000_0000_0000_0000int) by (nonlinear_arith)
                requires 0 <= mid as int <= 0x1_0000_0000int;
        }
        let sq: u128 = (mid as u128) * (mid as u128);
        if sq <= a as u128 {
            lo = mid;
        } else {
            hi = mid - 1;
        }
    }
    lo
}

} // verus!
