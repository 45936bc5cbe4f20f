//! Kepler's equation: Newton-Raphson conversion of mean anomaly to
//! eccentric anomaly, and the closed-form step from eccentric anomaly
//! to the direction of the true anomaly.
//!
//! The solver is a pure function; its whole iteration is mirrored by a
//! spec function, so the returned value is pinned exactly and the
//! convergence bound is part of the contract.

use vstd::prelude::*;

use crate::fixmath::clamp_unit;
use crate::fixmath::clamp_unit_spec;
use crate::fixmath::cos_fixed;
use crate::fixmath::cos_spec;
use crate::fixmath::div_trunc;
use crate::fixmath::isqrt;
use crate::fixmath::lemma_cos_bounds;
use crate::fixmath::lemma_sin_bounds;
use crate::fixmath::norm_angle;
use crate::fixmath::normalize_angle;
use crate::fixmath::ratio_trunc;
use crate::fixmath::sin_fixed;
use crate::fixmath::sin_spec;
use crate::fixmath::sqrt_floor;
use crate::fixmath::PI;
use crate::fixmath::SCALE;
use crate::fixmath::TWO_PI;

verus! {

/// Convergence tolerance on the residual: 100 steps of the fixed-point
/// resolution, the counterpart of 100 machine epsilons.
pub const KEPLER_EPS: i64 = 100;

/// Cap on the number of Newton updates before the solver gives up.
pub const KEPLER_MAX_ITER: u32 = 10;

/// Bail-out bound on the iterate: an eccentric anomaly this far from
/// the principal range marks the input as pathological.
pub const ECC_ANOMALY_LIMIT: i64 = 1_000_000_000_000;

/// The solver failed to converge; the offending input is surfaced, not
/// clamped, so the caller can log and skip the satellite.
#[derive(Debug, Clone, Copy, PartialEq, Eq, Structural)]
pub struct KeplerNonConvergence {
    /// The normalized mean anomaly the solver ran on.
    pub mean_anomaly: i64,
    /// The eccentricity the solver ran on.
    pub eccentricity: i64,
    /// How many Newton updates had been applied when it gave up.
    pub iterations: u32,
}

/// The term `e * sin(ea) / SCALE`, rounded toward zero.
pub open spec fn ecc_sin_term(e: int, ea: int) -> int {
    ratio_trunc(e * sin_spec(ea), SCALE as int)
}

/// The term `e * cos(ea) / SCALE`, rounded toward zero.
pub open spec fn ecc_cos_term(e: int, ea: int) -> int {
    ratio_trunc(e * cos_spec(ea), SCALE as int)
}

/// The residual of Kepler's equation: `ea - e*sin(ea) - m`, which a
/// solution drives to (nearly) zero.
pub open spec fn kepler_residual(ea: int, e: int, m: int) -> int {
    ea - ecc_sin_term(e, ea) - m
}

/// One Newton update: `ea - f(ea) / (1 - e*cos(ea))` in fixed point.
pub open spec fn newton_next(ea: int, e: int, m: int) -> int {
    let f = kepler_residual(ea, e, m);
    let denom = SCALE as int - ecc_cos_term(e, ea);
    ea - ratio_trunc(f * SCALE as int, denom)
}

/// The whole Newton iteration from iterate `ea` at update count `i`:
/// `Some` eccentric anomaly on convergence, `None` on giving up.
pub open spec fn kepler_iterate(ea: int, e: int, m: int, i: int) -> Option<int>
    decreases KEPLER_MAX_ITER as int - i,
{
    if i < 0 || i > KEPLER_MAX_ITER as int {
        None
    } else {
        let f = kepler_residual(ea, e, m);
        if -(KEPLER_EPS as int) <= f && f <= KEPLER_EPS as int {
            Some(ea)
        } else if i == KEPLER_MAX_ITER as int {
            None
        } else {
            let next = newton_next(ea, e, m);
            if next > ECC_ANOMALY_LIMIT as int || next < -(ECC_ANOMALY_LIMIT as int) {
                None
            } else {
                kepler_iterate(next, e, m, i + 1)
            }
        }
    }
}

/// The update count at which the Newton iteration from iterate `ea` at
/// count `i` stops, whether it converges or gives up.
pub open spec fn kepler_steps(ea: int, e: int, m: int, i: int) -> int
    decreases KEPLER_MAX_ITER as int - i,
{
    if i < 0 || i > KEPLER_MAX_ITER as int {
        i
    } else {
        let f = kepler_residual(ea, e, m);
        if -(KEPLER_EPS as int) <= f && f <= KEPLER_EPS as int {
            i
        } else if i == KEPLER_MAX_ITER as int {
            i
        } else {
            let next = newton_next(ea, e, m);
            if next > ECC_ANOMALY_LIMIT as int || next < -(ECC_ANOMALY_LIMIT as int) {
                i
            } else {
                kepler_steps(next, e, m, i + 1)
            }
        }
    }
}

/// The update count of the whole solve, from the bootstrap iterate.
pub open spec fn kepler_solve_steps(mean_anomaly: int, e: int) -> int {
    let m = norm_angle(mean_anomaly);
    let ea0 = if e < 800_000 {
        m
    } else {
        PI as int
    };
    kepler_steps(ea0, e, m, 0)
}

/// The solver as a mathematical function: normalize the mean anomaly,
/// pick the bootstrap iterate, run the Newton iteration.
pub open spec fn kepler_solve_spec(mean_anomaly: int, e: int) -> Option<int> {
    let m = norm_angle(mean_anomaly);
    let ea0 = if e < 800_000 { m } else { PI as int };
    kepler_iterate(ea0, e, m, 0)
}

/// Solve Kepler's equation for the eccentric anomaly.
///
/// On success the returned anomaly satisfies the equation up to
/// `KEPLER_EPS`: that bound holds for every input the solver accepts,
/// and non-convergence is surfaced as an error, never clamped.
pub fn anomaly_mean_to_eccentric(mean_anomaly: i64, eccentricity: i64) -> (r: Result<
    i64,
    KeplerNonConvergence,
>)
    requires
        0 <= eccentricity < SCALE,
    ensures
        r matches Ok(ea) ==> {
            &&& kepler_solve_spec(mean_anomaly as int, eccentricity as int) == Some(ea as int)
            &&& -(KEPLER_EPS as int) <= kepler_residual(ea as int, eccentricity as int,
                norm_angle(mean_anomaly as int)) <= KEPLER_EPS as int
            &&& -ECC_ANOMALY_LIMIT <= ea <= ECC_ANOMALY_LIMIT
        },
        r matches Err(err) ==> {
            &&& kepler_solve_spec(mean_anomaly as int, eccentricity as int) is None
            &&& err.mean_anomaly == norm_angle(mean_anomaly as int)
            &&& err.eccentricity == eccentricity
            &&& err.iterations == kepler_solve_steps(mean_anomaly as int, eccentricity as int)
            &&& err.iterations <= KEPLER_MAX_ITER
        },
        eccentricity == 0 ==> r == Ok::<i64, KeplerNonConvergence>(
            norm_angle(mean_anomaly as int) as i64,
        ),
{
    let m = normalize_angle(mean_anomaly);
    let mut ea: i64 = if eccentricity < 800_000 {
        m
    } else {
        PI
    };
    let mut i: u32 = 0;
    loop
        invariant
            0 <= eccentricity < SCALE,
            0 <= m < TWO_PI,
            m == norm_angle(mean_anomaly as int),
            -ECC_ANOMALY_LIMIT <= ea <= ECC_ANOMALY_LIMIT,
            0 <= i <= KEPLER_MAX_ITER,
            eccentricity == 0 ==> ea == m,
            kepler_iterate(ea as int, eccentricity as int, m as int, i as int)
                == kepler_solve_spec(mean_anomaly as int, eccentricity as int),
            kepler_steps(ea as int, eccentricity as int, m as int, i as int)
                == kepler_solve_steps(mean_anomaly as int, eccentricity as int),
        decreases KEPLER_MAX_ITER as int - i as int,
    {
        let s = sin_fixed(ea);
        proof {
            assert(-(SCALE as int) * SCALE <= (eccentricity as int * s as int)
                && (eccentricity as int * s as int) <= (SCALE as int) * SCALE) by (nonlinear_arith)
                requires
                    0 <= eccentricity < SCALE && -SCALE <= s <= SCALE,
            ;
        }
        let es = div_trunc(eccentricity * s, SCALE);
        let f = ea - es - m;
        assert(f == kepler_residual(ea as int, eccentricity as int, m as int));
        proof {
            if eccentricity == 0 {
                assert(eccentricity as int * s as int == 0) by (nonlinear_arith)
                    requires eccentricity == 0;
                assert(es == 0);
                assert(f == 0);
            }
        }
        if -KEPLER_EPS <= f && f <= KEPLER_EPS {
            return Ok(ea);
        }
        if i == KEPLER_MAX_ITER {
            return Err(KeplerNonConvergence { mean_anomaly: m, eccentricity, iterations: i });
        }
        let c = cos_fixed(ea);
        proof {
            assert(-(SCALE as int) * SCALE <= (eccentricity as int * c as int)
                && (eccentricity as int * c as int) <= (SCALE as int) * SCALE) by (nonlinear_arith)
                requires
                    0 <= eccentricity < SCALE && -SCALE <= c <= SCALE,
            ;
        }
        let ec = div_trunc(eccentricity * c, SCALE);
        assert(-SCALE < ec < SCALE) by {
            assert(-(SCALE as int) * SCALE < (eccentricity as int * c as int)
                && (eccentricity as int * c as int) < (SCALE as int) * SCALE) by (nonlinear_arith)
                requires
                    0 <= eccentricity < SCALE && -SCALE <= c <= SCALE,
            ;
            vstd::arithmetic::div_mod::lemma_div_is_ordered(eccentricity as int * c as int,
                (SCALE as int) * SCALE - 1, SCALE as int);
            vstd::arithmetic::div_mod::lemma_div_is_ordered((SCALE as int) * (-SCALE) + 1,
                eccentricity as int * c as int, SCALE as int);
            assert(((SCALE as int) * SCALE - 1) / (SCALE as int) == SCALE as int - 1);
            assert(((SCALE as int) * (-SCALE) + 1) / (SCALE as int) == -(SCALE as int));
        }
        let denom = SCALE - ec;
        proof {
            assert(-9_000_000_000_000_000_000 < (f as int * SCALE as int)
                && (f as int * SCALE as int) < 9_000_000_000_000_000_000)
                by (nonlinear_arith)
                requires
                    -1_100_000_000_000 <= f <= 1_100_000_000_000 && SCALE == 1_000_000,
            ;
        }
        let step = div_trunc(f * SCALE, denom);
        let next = ea - step;
        assert(next == newton_next(ea as int, eccentricity as int, m as int));
        if next > ECC_ANOMALY_LIMIT || next < -ECC_ANOMALY_LIMIT {
            return Err(KeplerNonConvergence { mean_anomaly: m, eccentricity, iterations: i });
        }
        ea = next;
        i = i + 1;
    }
}

/// The direction of the true anomaly derived from an eccentric anomaly:
/// `(sin, cos)` of the true anomaly, each scaled by `SCALE` and clamped
/// to the unit range.
pub open spec fn true_dir_spec(ea: int, e: int) -> (int, int) {
    let beta = SCALE as int - ecc_cos_term(e, ea);
    let root = sqrt_floor((SCALE as int - e) * (SCALE as int + e));
    let sin_true = clamp_unit_spec(ratio_trunc(sin_spec(ea) * root, beta));
    let cos_true = clamp_unit_spec(ratio_trunc((cos_spec(ea) - e) * SCALE as int, beta));
    (sin_true, cos_true)
}

/// The `(sin, cos)` direction of a true anomaly, scaled by `SCALE`.
#[derive(Debug, Clone, Copy, PartialEq, Eq, Structural)]
pub struct TrueAnomaly {
    /// Sine of the true anomaly, scaled by `SCALE`.
    pub sin: i64,
    /// Cosine of the true anomaly, scaled by `SCALE`.
    pub cos: i64,
}

/// Convert an eccentric anomaly to the direction of the true anomaly:
/// `sin v = sqrt(1 - e^2) * sin(ea) / (1 - e*cos(ea))` and
/// `cos v = (cos(ea) - e) / (1 - e*cos(ea))`, all in fixed point.
///
/// For a circular orbit (`e == 0`) the conversion is exact: the true
/// anomaly is the eccentric anomaly itself.
pub fn anomaly_eccentric_to_true(ecc_anomaly: i64, eccentricity: i64) -> (r: TrueAnomaly)
    requires
        0 <= eccentricity < SCALE,
    ensures
        (r.sin as int, r.cos as int) == true_dir_spec(ecc_anomaly as int, eccentricity as int),
        -SCALE <= r.sin <= SCALE,
        -SCALE <= r.cos <= SCALE,
        eccentricity == 0 ==> r.sin == sin_spec(ecc_anomaly as int) && r.cos == cos_spec(
            ecc_anomaly as int,
        ),
{
    let s = sin_fixed(ecc_anomaly);
    let c = cos_fixed(ecc_anomaly);
    proof {
        assert(-(SCALE as int) * SCALE <= (eccentricity as int * c as int)
            && (eccentricity as int * c as int) <= (SCALE as int) * SCALE) by (nonlinear_arith)
            requires
                0 <= eccentricity < SCALE && -SCALE <= c <= SCALE,
        ;
    }
    let ec = div_trunc(eccentricity * c, SCALE);
    assert(-SCALE < ec < SCALE) by {
        assert(-(SCALE as int) * SCALE < (eccentricity as int * c as int)
            && (eccentricity as int * c as int) < (SCALE as int) * SCALE) by (nonlinear_arith)
            requires
                0 <= eccentricity < SCALE && -SCALE <= c <= SCALE,
        ;
        vstd::arithmetic::div_mod::lemma_div_is_ordered(eccentricity as int * c as int,
            (SCALE as int) * SCALE - 1, SCALE as int);
        vstd::arithmetic::div_mod::lemma_div_is_ordered((SCALE as int) * (-SCALE) + 1,
            eccentricity as int * c as int, SCALE as int);
        assert(((SCALE as int) * SCALE - 1) / (SCALE as int) == SCALE as int - 1);
        assert(((SCALE as int) * (-SCALE) + 1) / (SCALE as int) == -(SCALE as int));
    }
    let beta = SCALE - ec;
    proof {
        assert((SCALE as int - eccentricity) * (SCALE as int + eccentricity) <= SCALE as int
            * SCALE) by (nonlinear_arith)
            requires
                0 <= eccentricity < SCALE,
        ;
    }
    let root = isqrt((SCALE - eccentricity) * (SCALE + eccentricity));
    assert(root <= SCALE) by {
        if root > SCALE as int {
            assert((root as int) * (root as int) > (SCALE as int) * SCALE) by (nonlinear_arith)
                requires
                    root > SCALE && SCALE == 1_000_000,
            ;
        }
    }
    proof {
        assert(-(SCALE as int) * SCALE <= (s as int * root as int)
            && (s as int * root as int) <= (SCALE as int) * SCALE) by (nonlinear_arith)
            requires
                -SCALE <= s <= SCALE && 0 <= root <= SCALE,
        ;
    }
    let sin_true = clamp_unit(div_trunc(s * root, beta));
    proof {
        assert(-3_000_000_000_000 <= ((c as int - eccentricity as int) * SCALE as int)
            && ((c as int - eccentricity as int) * SCALE as int) <= 3_000_000_000_000) by (nonlinear_arith)
            requires
                -SCALE <= c <= SCALE && 0 <= eccentricity < SCALE && SCALE == 1_000_000,
        ;
    }
    let cos_true = clamp_unit(div_trunc((c - eccentricity) * SCALE, beta));
    proof {
        if eccentricity == 0 {
            assert(ec == 0);
            assert(root as int * root as int <= SCALE as int * SCALE);
            assert((SCALE as int) * SCALE < (SCALE as int + 1) * (SCALE as int + 1))
                by (nonlinear_arith);
            crate::fixmath::lemma_sqrt_unique((SCALE as int) * SCALE, root as int, SCALE as int);
            assert(s as int * SCALE as int / (SCALE as int) == s as int) by (nonlinear_arith);
            assert((-(s as int)) * SCALE as int / (SCALE as int) == -(s as int))
                by (nonlinear_arith);
            assert(c as int * SCALE as int / (SCALE as int) == c as int) by (nonlinear_arith);
            assert((-(c as int)) * SCALE as int / (SCALE as int) == -(c as int))
                by (nonlinear_arith);
        }
    }
    TrueAnomaly { sin: sin_true, cos: cos_true }
}

/// The solver only sees the mean anomaly through its reduction to
/// `[0, TWO_PI)`: advancing by a full revolution changes nothing, in
/// the result or in the update count.
pub proof fn lemma_solver_periodic(mean_anomaly: int, e: int)
    ensures
        kepler_solve_spec(mean_anomaly + TWO_PI as int, e) == kepler_solve_spec(mean_anomaly, e),
        kepler_solve_steps(mean_anomaly + TWO_PI as int, e) == kepler_solve_steps(mean_anomaly, e),
{
    vstd::arithmetic::div_mod::lemma_mod_add_multiples_vanish(mean_anomaly, TWO_PI as int);
    assert(norm_angle(mean_anomaly + TWO_PI as int) == norm_angle(mean_anomaly));
}

/// The circular-orbit identity: with zero eccentricity the solver
/// returns the normalized mean anomaly itself, and the true anomaly
/// points exactly where the mean anomaly does.
pub proof fn lemma_circular_orbit_identity(mean_anomaly: int)
    ensures
        kepler_solve_spec(mean_anomaly, 0) == Some(norm_angle(mean_anomaly)),
        true_dir_spec(norm_angle(mean_anomaly), 0) == (
            sin_spec(norm_angle(mean_anomaly)),
            cos_spec(norm_angle(mean_anomaly)),
        ),
{
    let m = norm_angle(mean_anomaly);
    vstd::arithmetic::div_mod::lemma_div_basics(SCALE as int);
    assert(0 * sin_spec(m) == 0) by (nonlinear_arith);
    assert(ecc_sin_term(0, m) == 0);
    assert(kepler_residual(m, 0, m) == 0);
    assert(kepler_iterate(m, 0, m, 0) == Some(m));
    assert(0 * cos_spec(m) == 0) by (nonlinear_arith);
    assert(ecc_cos_term(0, m) == 0);
    let s2 = (SCALE as int) * (SCALE as int);
    assert((SCALE as int - 0) * (SCALE as int + 0) == s2) by (nonlinear_arith)
        requires
            s2 == (SCALE as int) * (SCALE as int),
    ;
    assert(sqrt_floor(s2) == SCALE as int) by {
        assert(s2 < (SCALE as int + 1) * (SCALE as int + 1)) by (nonlinear_arith)
            requires
                s2 == (SCALE as int) * (SCALE as int),
        ;
        assert(exists|r0: int| 0 <= r0 && #[trigger] (r0 * r0) <= s2 && s2 < (r0 + 1) * (r0 + 1))
            by {
            assert(0 <= SCALE as int && (SCALE as int) * (SCALE as int) <= s2 && s2 < (
            SCALE as int + 1) * (SCALE as int + 1));
        }
        crate::fixmath::lemma_sqrt_unique(s2, sqrt_floor(s2), SCALE as int);
    }
    lemma_sin_bounds(m);
    lemma_cos_bounds(m);
    assert(ratio_trunc(sin_spec(m) * SCALE as int, SCALE as int) == sin_spec(m)) by {
        lemma_ratio_scale_cancel(sin_spec(m));
    }
    assert(ratio_trunc((cos_spec(m) - 0) * SCALE as int, SCALE as int) == cos_spec(m)) by {
        lemma_ratio_scale_cancel(cos_spec(m));
    }
    assert(clamp_unit_spec(sin_spec(m)) == sin_spec(m));
    assert(clamp_unit_spec(cos_spec(m)) == cos_spec(m));
}

/// Scaling by `SCALE` and truncating back down is the identity.
proof fn lemma_ratio_scale_cancel(x: int)
    ensures
        ratio_trunc(x * SCALE as int, SCALE as int) == x,
{
    vstd::arithmetic::div_mod::lemma_div_multiples_vanish(x, SCALE as int);
    assert((SCALE as int) * x == x * SCALE as int) by (nonlinear_arith);
    if x < 0 {
        vstd::arithmetic::div_mod::lemma_div_multiples_vanish(-x, SCALE as int);
        assert((SCALE as int) * (-x) == -(x * SCALE as int)) by (nonlinear_arith);
    }
}

/// Convert a mean anomaly straight to the direction of the true
/// anomaly: the composition of the Newton solver and the closed-form
/// eccentric-to-true step.
pub fn anomaly_mean_to_true(mean_anomaly: i64, eccentricity: i64) -> (r: Result<
    TrueAnomaly,
    KeplerNonConvergence,
>)
    requires
        0 <= eccentricity < SCALE,
    ensures
        r matches Ok(t) ==> {
            &&& kepler_solve_spec(mean_anomaly as int, eccentricity as int) matches Some(ea)
                && (t.sin as int, t.cos as int) == true_dir_spec(ea, eccentricity as int)
            &&& -SCALE <= t.sin <= SCALE
            &&& -SCALE <= t.cos <= SCALE
        },
        r matches Err(err) ==> {
            &&& kepler_solve_spec(mean_anomaly as int, eccentricity as int) is None
            &&& err.mean_anomaly == norm_angle(mean_anomaly as int)
            &&& err.eccentricity == eccentricity
            &&& err.iterations == kepler_solve_steps(mean_anomaly as int, eccentricity as int)
            &&& err.iterations <= KEPLER_MAX_ITER
        },
        r.is_ok() <==> kepler_solve_spec(mean_anomaly as int, eccentricity as int) is Some,
        eccentricity == 0 ==> (r matches Ok(t) && t.sin == sin_spec(
            norm_angle(mean_anomaly as int),
        ) && t.cos == cos_spec(norm_angle(mean_anomaly as int))),
{
    match anomaly_mean_to_eccentric(mean_anomaly, eccentricity) {
        Ok(ea) => Ok(anomaly_eccentric_to_true(ea, eccentricity)),
        Err(err) => Err(err),
    }
}

} // verus!
