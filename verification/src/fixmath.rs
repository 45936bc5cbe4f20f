//! Fixed-point scalar math: angle normalization, sine/cosine by a
//! quadrant-reduced Taylor series, integer square and cube roots.
//!
//! Angles are i64 micro-radians; dimensionless values are scaled by
//! `SCALE` (so `SCALE` itself stands for 1.0).

use vstd::prelude::*;

verus! {

/// Fixed-point unit: this many integer steps stand for 1.0.
pub const SCALE: i64 = 1_000_000;

/// 2*pi in micro-radians: one full revolution.
pub const TWO_PI: i64 = 6_283_185;

/// pi in micro-radians.
pub const PI: i64 = 3_141_592;

/// pi/2 in micro-radians.
pub const HALF_PI: i64 = 1_570_796;

/// An angle reduced to the canonical range `[0, TWO_PI)`; in ghost code
/// `%` is the Euclidean remainder, so this is total over all of `int`.
pub open spec fn norm_angle(x: int) -> int {
    x % (TWO_PI as int)
}

/// Reduce any angle to the canonical range `[0, TWO_PI)`.
pub fn normalize_angle(x: i64) -> (r: i64)
    ensures
        0 <= r < TWO_PI,
        r == norm_angle(x as int),
{
    if x >= 0 {
        x % TWO_PI
    } else {
        let neg: i128 = -(x as i128);
        let m: i64 = (neg % (TWO_PI as i128)) as i64;
        proof {
            let t = TWO_PI as int;
            let q = (neg as int) / t;
            vstd::arithmetic::div_mod::lemma_fundamental_div_mod(neg as int, t);
            if m == 0 {
                assert(x as int == (-q) * t) by (nonlinear_arith)
                    requires neg == q * t && x as int == -(neg as int);
                vstd::arithmetic::div_mod::lemma_mod_multiples_basic(-q, t);
            } else {
                assert(x as int == (-q - 1) * t + (t - m)) by (nonlinear_arith)
                    requires
                        neg as int == q * t + m as int
                            && x as int == -(neg as int)
                            && t == TWO_PI as int;
                vstd::arithmetic::div_mod::lemma_fundamental_div_mod_converse(
                    x as int, t, -q - 1, t - m);
            }
        }
        if m == 0 {
            0
        } else {
            TWO_PI - m
        }
    }
}

/// Reduce a wide intermediate angle to the canonical range
/// `[0, TWO_PI)`; the counterpart of `normalize_angle` for i128.
pub fn normalize_angle_i128(x: i128) -> (r: i64)
    requires
        x > i128::MIN,
    ensures
        0 <= r < TWO_PI,
        r == norm_angle(x as int),
{
    if x >= 0 {
        (x % (TWO_PI as i128)) as i64
    } else {
        let m: i64 = ((-x) % (TWO_PI as i128)) as i64;
        proof {
            let t = TWO_PI as int;
            let q = (-(x as int)) / t;
            vstd::arithmetic::div_mod::lemma_fundamental_div_mod(-(x as int), t);
            if m == 0 {
                assert(x as int == (-q) * t) by (nonlinear_arith)
                    requires
                        -(x as int) == q * t,
                ;
                vstd::arithmetic::div_mod::lemma_mod_multiples_basic(-q, t);
            } else {
                assert(x as int == (-q - 1) * t + (t - m)) by (nonlinear_arith)
                    requires
                        -(x as int) == q * t + m as int && t == TWO_PI as int,
                ;
                vstd::arithmetic::div_mod::lemma_fundamental_div_mod_converse(x as int, t, -q - 1,
                    t - m);
            }
        }
        if m == 0 {
            0
        } else {
            TWO_PI - m
        }
    }
}

/// Taylor approximation of sine on the first quadrant, clamped to
/// `[0, SCALE]`; the input is an angle in `[0, HALF_PI]`.
pub open spec fn sinq_spec(x: int) -> int {
    let x2 = (x * x) / (SCALE as int);
    let t1 = x;
    let t3 = (t1 * x2) / (6 * SCALE as int);
    let t5 = (t3 * x2) / (20 * SCALE as int);
    let t7 = (t5 * x2) / (42 * SCALE as int);
    let t9 = (t7 * x2) / (72 * SCALE as int);
    let s = t1 - t3 + t5 - t7 + t9;
    if s < 0 {
        0
    } else if s > SCALE as int {
        SCALE as int
    } else {
        s
    }
}

/// Fixed-point sine of any angle, by reduction to the first quadrant.
pub open spec fn sin_spec(x: int) -> int {
    let n = norm_angle(x);
    if n <= HALF_PI as int {
        sinq_spec(n)
    } else if n <= PI as int {
        sinq_spec(PI as int - n)
    } else if n <= (PI + HALF_PI) as int {
        -sinq_spec(n - PI as int)
    } else {
        -sinq_spec(TWO_PI as int - n)
    }
}

/// Fixed-point cosine, defined as the sine shifted by a quarter turn.
pub open spec fn cos_spec(x: int) -> int {
    sin_spec(norm_angle(x) + HALF_PI as int)
}


/// The fixed-point sine always lies in `[-SCALE, SCALE]`.
pub proof fn lemma_sin_bounds(x: int)
    ensures
        -(SCALE as int) <= sin_spec(x) <= SCALE as int,
{
    let n = norm_angle(x);
    assert(0 <= n < TWO_PI as int);
}

/// The fixed-point cosine always lies in `[-SCALE, SCALE]`.
pub proof fn lemma_cos_bounds(x: int)
    ensures
        -(SCALE as int) <= cos_spec(x) <= SCALE as int,
{
    lemma_sin_bounds(norm_angle(x) + HALF_PI as int);
}

fn sinq(x: i64) -> (r: i64)
    requires
        0 <= x <= HALF_PI,
    ensures
        r == sinq_spec(x as int),
        0 <= r <= SCALE,
{
    proof {
        vstd::arithmetic::mul::lemma_mul_upper_bound(x as int, HALF_PI as int, x as int,
            HALF_PI as int);
    }
    let x2: i64 = (x * x) / SCALE;
    assert(0 <= x2 <= 2_467_401) by {
        vstd::arithmetic::div_mod::lemma_div_is_ordered(x as int * x as int,
            HALF_PI as int * HALF_PI as int, SCALE as int);
    }
    let t1: i64 = x;
    proof {
        vstd::arithmetic::mul::lemma_mul_upper_bound(t1 as int, HALF_PI as int, x2 as int,
            2_467_401);
    }
    let t3: i64 = (t1 * x2) / (6 * SCALE);
    assert(0 <= t3 <= 645_963) by {
        vstd::arithmetic::div_mod::lemma_div_is_ordered(t1 as int * x2 as int,
            1_570_796int * 2_467_401, 6 * SCALE as int);
    }
    proof {
        vstd::arithmetic::mul::lemma_mul_upper_bound(t3 as int, 645_963, x2 as int, 2_467_401);
    }
    let t5: i64 = (t3 * x2) / (20 * SCALE);
    assert(0 <= t5 <= 79_692) by {
        vstd::arithmetic::div_mod::lemma_div_is_ordered(t3 as int * x2 as int,
            645_963int * 2_467_401, 20 * SCALE as int);
    }
    proof {
        vstd::arithmetic::mul::lemma_mul_upper_bound(t5 as int, 79_692, x2 as int, 2_467_401);
    }
    let t7: i64 = (t5 * x2) / (42 * SCALE);
    assert(0 <= t7 <= 4_681) by {
        vstd::arithmetic::div_mod::lemma_div_is_ordered(t5 as int * x2 as int,
            79_692int * 2_467_401, 42 * SCALE as int);
    }
    proof {
        vstd::arithmetic::mul::lemma_mul_upper_bound(t7 as int, 4_681, x2 as int, 2_467_401);
    }
    let t9: i64 = (t7 * x2) / (72 * SCALE);
    assert(0 <= t9 <= 160) by {
        vstd::arithmetic::div_mod::lemma_div_is_ordered(t7 as int * x2 as int, 4_681int * 2_467_401,
            72 * SCALE as int);
    }
    let s: i64 = t1 - t3 + t5 - t7 + t9;
    if s < 0 {
        0
    } else if s > SCALE {
        SCALE
    } else {
        s
    }
}

/// Fixed-point sine of an arbitrary micro-radian angle.
pub fn sin_fixed(x: i64) -> (r: i64)
    ensures
        r == sin_spec(x as int),
        -SCALE <= r <= SCALE,
{
    let n = normalize_angle(x);
    if n <= HALF_PI {
        sinq(n)
    } else if n <= PI {
        sinq(PI - n)
    } else if n <= PI + HALF_PI {
        -sinq(n - PI)
    } else {
        -sinq(TWO_PI - n)
    }
}

/// Fixed-point cosine of an arbitrary micro-radian angle.
pub fn cos_fixed(x: i64) -> (r: i64)
    ensures
        r == cos_spec(x as int),
        -SCALE <= r <= SCALE,
{
    let n = normalize_angle(x);
    sin_fixed(n + HALF_PI)
}

/// Quotient of `num / den` rounded toward zero, written over the
/// Euclidean `/` of ghost code so that it is total and explicit.
pub open spec fn ratio_trunc(num: int, den: int) -> int {
    if num >= 0 {
        num / den
    } else {
        -((-num) / den)
    }
}

/// Division rounded toward zero; the denominator must be positive.
pub fn div_trunc(num: i64, den: i64) -> (r: i64)
    requires
        num > i64::MIN,
        den >= 1,
    ensures
        r == ratio_trunc(num as int, den as int),
        num >= 0 ==> 0 <= r <= num,
        num < 0 ==> num <= r <= 0,
{
    if num >= 0 {
        proof {
            vstd::arithmetic::div_mod::lemma_div_is_ordered(0, num as int, den as int);
            vstd::arithmetic::div_mod::lemma_div_is_ordered_by_denominator(num as int, 1,
                den as int);
        }
        num / den
    } else {
        let neg = -num;
        proof {
            vstd::arithmetic::div_mod::lemma_div_is_ordered(0, neg as int, den as int);
            vstd::arithmetic::div_mod::lemma_div_is_ordered_by_denominator(neg as int, 1,
                den as int);
        }
        -(neg / den)
    }
}

/// A truncating quotient is bounded by any bound on the numerator
/// taken in units of the denominator.
pub proof fn lemma_ratio_trunc_bound(num: int, den: int, k: int)
    requires
        den >= 1,
        0 <= k,
        -(k * den) <= num <= k * den,
    ensures
        -k <= ratio_trunc(num, den) <= k,
{
    vstd::arithmetic::div_mod::lemma_div_basics(den);
    vstd::arithmetic::div_mod::lemma_div_multiples_vanish(k, den);
    assert(den * k == k * den) by (nonlinear_arith);
    if num >= 0 {
        vstd::arithmetic::div_mod::lemma_div_is_ordered(num, k * den, den);
        vstd::arithmetic::div_mod::lemma_div_is_ordered(0, num, den);
    } else {
        vstd::arithmetic::div_mod::lemma_div_is_ordered(-num, k * den, den);
        vstd::arithmetic::div_mod::lemma_div_is_ordered(0, -num, den);
    }
}

/// The clamp of a fixed-point ratio to the unit range `[-SCALE, SCALE]`.
pub open spec fn clamp_unit_spec(x: int) -> int {
    if x < -(SCALE as int) {
        -(SCALE as int)
    } else if x > SCALE as int {
        SCALE as int
    } else {
        x
    }
}

/// Clamp a fixed-point ratio to the unit range `[-SCALE, SCALE]`.
pub fn clamp_unit(x: i64) -> (r: i64)
    ensures
        r == clamp_unit_spec(x as int),
        -SCALE <= r <= SCALE,
{
    if x < -SCALE {
        -SCALE
    } else if x > SCALE {
        SCALE
    } else {
        x
    }
}

/// The non-negative integer square root, as a mathematical function.
pub open spec fn sqrt_floor(x: int) -> int {
    choose|r: int| 0 <= r && #[trigger] (r * r) <= x && x < (r + 1) * (r + 1)
}

/// Any two values that satisfy the square-root property are equal.
pub proof fn lemma_sqrt_unique(x: int, r1: int, r2: int)
    requires
        0 <= r1 && r1 * r1 <= x && x < (r1 + 1) * (r1 + 1),
        0 <= r2 && r2 * r2 <= x && x < (r2 + 1) * (r2 + 1),
    ensures
        r1 == r2,
{
    if r1 < r2 {
        assert((r1 + 1) * (r1 + 1) <= r2 * r2) by (nonlinear_arith)
            requires 0 <= r1 && r1 < r2;
    }
    if r2 < r1 {
        assert((r2 + 1) * (r2 + 1) <= r1 * r1) by (nonlinear_arith)
            requires 0 <= r2 && r2 < r1;
    }
}

/// The non-negative integer cube root, as a mathematical function.
pub open spec fn cbrt_floor(x: int) -> int {
    choose|r: int| 0 <= r && #[trigger] (r * r * r) <= x && x < (r + 1) * (r + 1) * (r + 1)
}

/// Any two values that satisfy the cube-root property are equal.
pub proof fn lemma_cbrt_unique(x: int, r1: int, r2: int)
    requires
        0 <= r1 && r1 * r1 * r1 <= x && x < (r1 + 1) * (r1 + 1) * (r1 + 1),
        0 <= r2 && r2 * r2 * r2 <= x && x < (r2 + 1) * (r2 + 1) * (r2 + 1),
    ensures
        r1 == r2,
{
    if r1 < r2 {
        assert((r1 + 1) * (r1 + 1) * (r1 + 1) <= r2 * r2 * r2) by (nonlinear_arith)
            requires 0 <= r1 && r1 < r2;
    }
    if r2 < r1 {
        assert((r2 + 1) * (r2 + 1) * (r2 + 1) <= r1 * r1 * r1) by (nonlinear_arith)
            requires 0 <= r2 && r2 < r1;
    }
}

/// Largest `r` with `r * r <= x`: the integer square root.
pub fn isqrt(x: i64) -> (r: i64)
    requires
        x >= 0,
    ensures
        0 <= r,
        r * r <= x < (r + 1) * (r + 1),
        r == sqrt_floor(x as int),
{
    let mut lo: i64 = 0;
    let mut hi: i64 = 3_037_000_500;
    proof {
        assert((3_037_000_500i64 as int) * (3_037_000_500i64 as int) > i64::MAX as int)
            by (nonlinear_arith);
    }
    while lo + 1 < hi
        invariant
            0 <= lo < hi <= 3_037_000_500,
            lo * lo <= x as int,
            hi * hi > x as int,
        decreases hi - lo,
    {
        let mid: i64 = lo + (hi - lo) / 2;
        proof {
            vstd::arithmetic::mul::lemma_mul_nonnegative(mid as int, mid as int);
            vstd::arithmetic::mul::lemma_mul_upper_bound(mid as int, 3_037_000_500int,
                mid as int, 3_037_000_500int);
        }
        let sq: i128 = (mid as i128) * (mid as i128);
        if sq <= x as i128 {
            lo = mid;
        } else {
            hi = mid;
        }
    }
    proof {
        let l = lo as int;
        assert(exists|r0: int| 0 <= r0 && #[trigger] (r0 * r0) <= x as int && (x as int) < (r0 + 1) * (r0 + 1))
            by {
            assert(0 <= l && l * l <= x as int && (x as int) < (l + 1) * (l + 1));
        }
        lemma_sqrt_unique(x as int, l, sqrt_floor(x as int));
    }
    lo
}

/// Largest `r` with `r * r * r <= x`: the integer cube root.
/// The input must stay below 2^126 so that the search's cubes fit in
/// u128; callers pass squares of i64 values, which always do.
pub fn icbrt_u128(x: u128) -> (r: u64)
    requires
        x < 85070591730234615865843651857942052864u128,
    ensures
        (r as int) * (r as int) * (r as int) <= x as int,
        x < ((r + 1) as int) * ((r + 1) as int) * ((r + 1) as int),
        r <= 4_398_046_511_105,
        r == cbrt_floor(x as int),
{
    let mut lo: u64 = 0;
    let mut hi: u64 = 4_398_046_511_105;
    proof {
        assert(4_398_046_511_105int * 4_398_046_511_105 * 4_398_046_511_105
            > 85070591730234615865843651857942052864int) by (nonlinear_arith);
    }
    while lo + 1 < hi
        invariant
            0 <= lo < hi <= 4_398_046_511_105,
            x < 85070591730234615865843651857942052864u128,
            (lo as int) * (lo as int) * (lo as int) <= x as int,
            (hi as int) * (hi as int) * (hi as int) > x as int,
        decreases hi - lo,
    {
        let mid: u64 = lo + (hi - lo) / 2;
        proof {
            vstd::arithmetic::mul::lemma_mul_upper_bound(mid as int, 4_398_046_511_105int,
                mid as int, 4_398_046_511_105int);
            vstd::arithmetic::mul::lemma_mul_nonnegative(mid as int, mid as int);
            vstd::arithmetic::mul::lemma_mul_upper_bound(mid as int * mid as int,
                4_398_046_511_105int * 4_398_046_511_105, mid as int, 4_398_046_511_105int);
        }
        let cube: u128 = (mid as u128) * (mid as u128) * (mid as u128);
        if cube <= x {
            lo = mid;
        } else {
            hi = mid;
        }
    }
    proof {
        let l = lo as int;
        assert(exists|r0: int|
            0 <= r0 && #[trigger] (r0 * r0 * r0) <= x as int && (x as int) < (r0 + 1) * (r0 + 1) * (r0 + 1)) by {
            assert(0 <= l && l * l * l <= x as int && (x as int) < (l + 1) * (l + 1) * (l + 1));
        }
        lemma_cbrt_unique(x as int, l, cbrt_floor(x as int));
    }
    lo
}

} // verus!
