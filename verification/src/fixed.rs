//! Saturating Q16.16 signed fixed-point arithmetic.
//!
//! Every quantity the render engine works with (coordinates, radii, colors,
//! radiance) is an `i64` holding a real value scaled by 2^16, kept inside
//! `[-Q_SAT, Q_SAT]`. All operations are total: instead of overflowing they
//! saturate at that bound, so every stage of the pipeline is an exact,
//! machine-independent function of its inputs.

use vstd::prelude::*;

verus! {

/// The fixed-point scale: 2^16.
pub const Q_ONE: i64 = 65536;

/// Saturation bound for engine values: 2^46 (about 10^9 in real units).
pub const Q_SAT: i64 = 0x4000_0000_0000;

/// An engine value: a fixed-point number inside the saturation bound.
pub open spec fn q_in_range(v: int) -> bool {
    -(Q_SAT as int) <= v <= (Q_SAT as int)
}

pub open spec fn q_abs(a: int) -> int {
    if a < 0 {
        -a
    } else {
        a
    }
}

/// Clamp an unbounded result into the engine range.
pub open spec fn spec_clamp(x: int) -> int {
    if x > Q_SAT as int {
        Q_SAT as int
    } else if x < -(Q_SAT as int) {
        -(Q_SAT as int)
    } else {
        x
    }
}

/// Fixed-point product: (a * b) / 2^16, rounded toward zero, then clamped.
pub open spec fn spec_q_mul(a: int, b: int) -> int {
    let p = (q_abs(a) * q_abs(b)) / 65536;
    if (a < 0) != (b < 0) {
        spec_clamp(-p)
    } else {
        spec_clamp(p)
    }
}

/// Fixed-point quotient: (a * 2^16) / b, rounded toward zero, then clamped.
/// A zero divisor gives zero, so the operation is total.
pub open spec fn spec_q_div(a: int, b: int) -> int {
    if b == 0 {
        0
    } else {
        let p = (q_abs(a) * 65536) / q_abs(b);
        if (a < 0) != (b < 0) {
            spec_clamp(-p)
        } else {
            spec_clamp(p)
        }
    }
}

/// The integer square root: the largest r with r * r <= x (zero when x < 0).
pub open spec fn spec_isqrt(x: int) -> int
    decreases x,
{
    if x < 1 {
        0
    } else {
        let r = 2 * spec_isqrt(x / 4);
        if (r + 1) * (r + 1) <= x {
            r + 1
        } else {
            r
        }
    }
}

/// `spec_isqrt` is exactly the floor of the square root.
pub proof fn lemma_isqrt_bounds(x: int)
    requires
        x >= 0,
    ensures
        spec_isqrt(x) >= 0,
        spec_isqrt(x) * spec_isqrt(x) <= x,
        (spec_isqrt(x) + 1) * (spec_isqrt(x) + 1) > x,
    decreases x,
{
    if x < 1 {
        assert(spec_isqrt(x) == 0);
    } else {
        lemma_isqrt_bounds(x / 4);
        let s = spec_isqrt(x / 4);
        let r = 2 * s;
        assert(s * s <= x / 4);
        assert((s + 1) * (s + 1) > x / 4);
        assert(r * r <= x) by (nonlinear_arith)
            requires
                s * s <= x / 4,
                r == 2 * s,
                x >= 1,
        ;
        assert((r + 2) * (r + 2) > x) by (nonlinear_arith)
            requires
                (s + 1) * (s + 1) > x / 4,
                r == 2 * s,
                s >= 0,
                x >= 1,
        ;
        if (r + 1) * (r + 1) <= x {
            assert(spec_isqrt(x) == r + 1);
        } else {
            assert(spec_isqrt(x) == r);
        }
    }
}

/// Any integer sitting between the two square bounds is the integer square root.
pub proof fn lemma_isqrt_unique(x: int, r: int)
    requires
        x >= 0,
        r >= 0,
        r * r <= x,
        (r + 1) * (r + 1) > x,
    ensures
        r == spec_isqrt(x),
{
    lemma_isqrt_bounds(x);
    let s = spec_isqrt(x);
    if r < s {
        assert((r + 1) * (r + 1) <= s * s) by (nonlinear_arith)
            requires
                0 <= r,
                r < s,
        ;
    }
    if s < r {
        assert((s + 1) * (s + 1) <= r * r) by (nonlinear_arith)
            requires
                0 <= s,
                s < r,
        ;
    }
}

/// Fixed-point square root: floor(sqrt(a * 2^16)), zero for non-positive input.
pub open spec fn spec_q_sqrt(a: int) -> int {
    if a <= 0 {
        0
    } else {
        spec_isqrt(a * 65536)
    }
}

/// Clamp into the unit interval [0, Q_ONE].
pub open spec fn spec_clamp01(v: int) -> int {
    if v < 0 {
        0
    } else if v > 65536 {
        65536
    } else {
        v
    }
}

pub fn q_clamp01(v: i64) -> (r: i64)
    ensures
        r == spec_clamp01(v as int),
{
    if v < 0 {
        0
    } else if v > 65536 {
        65536
    } else {
        v
    }
}

/// Saturating add of two engine values.
pub fn q_add(a: i64, b: i64) -> (r: i64)
    requires
        q_in_range(a as int),
        q_in_range(b as int),
    ensures
        r == spec_clamp(a + b),
        q_in_range(r as int),
{
    let s = a + b;
    if s > Q_SAT {
        Q_SAT
    } else if s < -Q_SAT {
        -Q_SAT
    } else {
        s
    }
}

/// Saturating subtract of two engine values.
pub fn q_sub(a: i64, b: i64) -> (r: i64)
    requires
        q_in_range(a as int),
        q_in_range(b as int),
    ensures
        r == spec_clamp(a - b),
        q_in_range(r as int),
{
    let s = a - b;
    if s > Q_SAT {
        Q_SAT
    } else if s < -Q_SAT {
        -Q_SAT
    } else {
        s
    }
}

/// Magnitude of an engine value as an unsigned 128-bit integer.
fn abs_u128(a: i64) -> (r: u128)
    ensures
        r == q_abs(a as int),
{
    if a < 0 {
        (-(a as i128)) as u128
    } else {
        a as u128
    }
}

/// Apply a sign and the saturation clamp to a non-negative magnitude.
fn clamp_signed(p: u128, neg: bool) -> (r: i64)
    ensures
        r == if neg {
            spec_clamp(-(p as int))
        } else {
            spec_clamp(p as int)
        },
        q_in_range(r as int),
{
    if p > Q_SAT as u128 {
        if neg {
            -Q_SAT
        } else {
            Q_SAT
        }
    } else {
        if neg {
            -(p as i64)
        } else {
            p as i64
        }
    }
}

/// Saturating fixed-point multiply.
pub fn q_mul(a: i64, b: i64) -> (r: i64)
    ensures
        r == spec_q_mul(a as int, b as int),
        q_in_range(r as int),
{
    let neg = (a < 0) != (b < 0);
    let aa = abs_u128(a);
    let bb = abs_u128(b);
    assert(aa * bb < 0x1_0000_0000_0000_0000_0000_0000_0000_0000) by (nonlinear_arith)
        requires
            aa <= 0x8000_0000_0000_0000,
            bb <= 0x8000_0000_0000_0000,
    ;
    let p = (aa * bb) / 65536;
    clamp_signed(p, neg)
}

/// Saturating fixed-point divide; a zero divisor gives zero.
pub fn q_div(a: i64, b: i64) -> (r: i64)
    ensures
        r == spec_q_div(a as int, b as int),
        q_in_range(r as int),
{
    if b == 0 {
        return 0;
    }
    let neg = (a < 0) != (b < 0);
    let aa = abs_u128(a);
    let bb = abs_u128(b);
    let p = (aa * 65536) / bb;
    clamp_signed(p, neg)
}

/// Integer square root of a 64-bit value by bisection.
fn isqrt_u64(x: u64) -> (r: u64)
    ensures
        r == spec_isqrt(x as int),
{
    let mut lo: u64 = 0;
    let mut hi: u64 = 4294967296;
    assert((hi as int) * (hi as int) > x as int) by (nonlinear_arith)
        requires
            hi == 4294967296,
            x <= 0xffff_ffff_ffff_ffff,
    ;
    while lo + 1 < hi
        invariant
            lo < hi <= 4294967296,
            (lo as int) * (lo as int) <= x as int,
            (hi as int) * (hi as int) > x as int,
        decreases hi - lo,
    {
        let mid = lo + (hi - lo) / 2;
        assert((mid as int) * (mid as int) < 0x10000000000000000) by (nonlinear_arith)
            requires
                mid < 4294967296,
        ;
        let sq = mid * mid;
        if sq <= x {
            lo = mid;
        } else {
            hi = mid;
        }
    }
    proof {
        lemma_isqrt_unique(x as int, lo as int);
    }
    lo
}

/// For non-negative operands the fixed-point product is monotone in each
/// factor (and never negative).
pub proof fn lemma_q_mul_monotone(a1: int, a2: int, b1: int, b2: int)
    requires
        0 <= a1 <= a2,
        0 <= b1 <= b2,
    ensures
        0 <= spec_q_mul(a1, b1) <= spec_q_mul(a2, b2),
{
    assert(0 <= (a1 * b1) / 65536 <= (a2 * b2) / 65536) by (nonlinear_arith)
        requires
            0 <= a1 <= a2,
            0 <= b1 <= b2,
    ;
}

/// For a non-negative numerator the fixed-point quotient is monotone in the
/// numerator and antitone in a positive divisor.
pub proof fn lemma_q_div_monotone(a1: int, a2: int, b: int)
    requires
        0 <= a1 <= a2,
        b > 0,
    ensures
        0 <= spec_q_div(a1, b) <= spec_q_div(a2, b),
{
    assert(0 <= (a1 * 65536) / b <= (a2 * 65536) / b) by (nonlinear_arith)
        requires
            0 <= a1 <= a2,
            b > 0,
    ;
}

pub proof fn lemma_q_div_antitone(a: int, b1: int, b2: int)
    requires
        a >= 0,
        0 < b1 <= b2,
    ensures
        0 <= spec_q_div(a, b2) <= spec_q_div(a, b1),
{
    assert(0 <= (a * 65536) / b2 <= (a * 65536) / b1) by (nonlinear_arith)
        requires
            a >= 0,
            0 < b1 <= b2,
    ;
}

/// Saturating fixed-point square root.
pub fn q_sqrt(a: i64) -> (r: i64)
    requires
        q_in_range(a as int),
    ensures
        r == spec_q_sqrt(a as int),
        0 <= r <= 0x1_0000_0000,
        q_in_range(r as int),
{
    if a <= 0 {
        return 0;
    }
    let x = (a as u64) * 65536;
    let r = isqrt_u64(x);
    proof {
        lemma_isqrt_bounds(x as int);
        assert(spec_isqrt(x as int) <= 0x1_0000_0000) by (nonlinear_arith)
            requires
                spec_isqrt(x as int) >= 0,
                spec_isqrt(x as int) * spec_isqrt(x as int) <= x as int,
                x <= 0x4000_0000_0000_0000,
        ;
    }
    r as i64
}

} // verus!
