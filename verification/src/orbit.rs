//! Orbits and the position propagator: the five orientation elements of
//! an orbit, the closed-form step from mean anomaly to an inertial
//! Cartesian position, and the static ellipse geometry used for
//! display.
//!
//! Positions are integer metres. The propagator is a pure function of
//! the orbit and the mean anomaly, mirrored exactly by `pos_spec`.

use vstd::math::abs;
use vstd::prelude::*;

use crate::fixmath::cos_spec;
use crate::fixmath::div_trunc;
use crate::fixmath::icbrt_u128;
use crate::fixmath::isqrt;
use crate::fixmath::lemma_ratio_trunc_bound;
use crate::fixmath::norm_angle;
use crate::fixmath::ratio_trunc;
use crate::fixmath::sin_spec;
use crate::fixmath::sqrt_floor;
use crate::fixmath::cbrt_floor;
use crate::fixmath::SCALE;
use crate::fixmath::TWO_PI;
use crate::kepler::anomaly_mean_to_true;
use crate::kepler::kepler_solve_spec;
use crate::kepler::true_dir_spec;
use crate::kepler::KeplerNonConvergence;

verus! {

/// The cube root of Earth's standard gravitational parameter, scaled so
/// that dividing it by the cube root of the square of a mean motion in
/// nano-rad/s yields a semi-major axis in metres.
pub const SEMI_MAJOR_FACTOR: i64 = 73_594_600_000;

/// No propagated coordinate leaves this range (metres).
pub const POS_LIMIT: i64 = 2_000_000_000_000;

/// The five orientation elements of an orbit: everything of the
/// canonical element set except the mean anomaly, which varies per
/// satellite and per tick.
#[derive(Debug, Clone, Copy, PartialEq, Eq, Structural)]
pub struct Orbit {
    /// Mean motion in nano-rad/s; always positive.
    pub mean_motion: i64,
    /// Eccentricity scaled by `SCALE`; in `[0, SCALE)`.
    pub eccentricity: i64,
    /// Inclination in micro-radians.
    pub inclination: i64,
    /// Right ascension of the ascending node, micro-radians.
    pub longitude_of_ascending_node: i64,
    /// Argument of periapsis, micro-radians.
    pub argument_of_periapsis: i64,
}

/// What every orbit holds after ingestion: a positive mean motion and
/// an eccentricity strictly below one.
pub open spec fn orbit_valid(o: Orbit) -> bool {
    &&& 0 < o.mean_motion
    &&& 0 <= o.eccentricity < SCALE
    &&& 0 <= o.inclination < TWO_PI
    &&& 0 <= o.longitude_of_ascending_node < TWO_PI
    &&& 0 <= o.argument_of_periapsis < TWO_PI
}

/// Raised when the set of orbits changed and displays must refresh.
#[derive(Debug, Clone, Copy, PartialEq, Eq, Structural)]
pub struct OrbitChanged;

/// Raised when the orbit display is switched on or off.
#[derive(Debug, Clone, Copy, PartialEq, Eq, Structural)]
pub struct ToggleOrbitGizmos;

/// An inertial-frame Cartesian position, in integer metres.
#[derive(Debug, Clone, Copy, PartialEq, Eq, Structural)]
pub struct Position {
    pub x: i64,
    pub y: i64,
    pub z: i64,
}

/// Semi-major axis in metres: `u^(1/3) * n^(-2/3)`, computed as the
/// factor over the cube root of the squared mean motion.
pub open spec fn semi_major_axis_spec(mean_motion: int) -> int {
    (SEMI_MAJOR_FACTOR as int) / cbrt_floor(mean_motion * mean_motion)
}

/// Orbit radius at a true anomaly: `a(1 - e^2) / (1 + e cos v)`.
pub open spec fn radius_spec(a: int, e: int, cos_true: int) -> int {
    let den_fx = SCALE as int + ratio_trunc(e * cos_true, SCALE as int);
    (a * ((SCALE as int) * (SCALE as int) - e * e)) / ((SCALE as int) * den_fx)
}

/// Rotation of a vector about the z-axis by a micro-radian angle.
pub open spec fn rot_z_spec(p: (int, int, int), angle: int) -> (int, int, int) {
    let c = cos_spec(angle);
    let s = sin_spec(angle);
    (
        ratio_trunc(p.0 * c - p.1 * s, SCALE as int),
        ratio_trunc(p.0 * s + p.1 * c, SCALE as int),
        p.2,
    )
}

/// Rotation of a vector about the x-axis by a micro-radian angle.
pub open spec fn rot_x_spec(p: (int, int, int), angle: int) -> (int, int, int) {
    let c = cos_spec(angle);
    let s = sin_spec(angle);
    (
        p.0,
        ratio_trunc(p.1 * c - p.2 * s, SCALE as int),
        ratio_trunc(p.1 * s + p.2 * c, SCALE as int),
    )
}

/// The whole propagation as a mathematical function: `None` exactly
/// when the Kepler solver does not converge for this mean anomaly.
///
/// The orientation is the composition of three rotations: about the
/// local z-axis by minus the argument of periapsis, about the x-axis by
/// minus the inclination, then about the z-axis by the ascending node.
pub open spec fn pos_spec(o: Orbit, mean_anomaly: int) -> Option<(int, int, int)> {
    match kepler_solve_spec(mean_anomaly, o.eccentricity as int) {
        Some(ea) => {
            let dir = true_dir_spec(ea, o.eccentricity as int);
            let a = semi_major_axis_spec(o.mean_motion as int);
            let r = radius_spec(a, o.eccentricity as int, dir.1);
            let local = (
                ratio_trunc(r * dir.1, SCALE as int),
                ratio_trunc(r * dir.0, SCALE as int),
                0int,
            );
            let p1 = rot_z_spec(local, -(o.argument_of_periapsis as int));
            let p2 = rot_x_spec(p1, -(o.inclination as int));
            Some(rot_z_spec(p2, o.longitude_of_ascending_node as int))
        },
        None => None,
    }
}

/// Rotate the plane coordinates `(x, y)` by a micro-radian angle.
fn rot2(x: i64, y: i64, angle: i64) -> (r: (i64, i64))
    requires
        -1_000_000_000_000 <= x <= 1_000_000_000_000,
        -1_000_000_000_000 <= y <= 1_000_000_000_000,
    ensures
        r.0 == ratio_trunc(x as int * cos_spec(angle as int) - y as int * sin_spec(angle as int),
            SCALE as int),
        r.1 == ratio_trunc(x as int * sin_spec(angle as int) + y as int * cos_spec(angle as int),
            SCALE as int),
        abs(r.0 as int) <= abs(x as int) + abs(y as int),
        abs(r.1 as int) <= abs(x as int) + abs(y as int),
{
    let c = crate::fixmath::cos_fixed(angle);
    let s = crate::fixmath::sin_fixed(angle);
    let ghost k: int = (abs(x as int) + abs(y as int)) as int;
    proof {
        assert(-(k * SCALE as int) <= (x as int * c as int - y as int * s as int) && (x as int * c
            as int - y as int * s as int) <= k * SCALE as int) by (nonlinear_arith)
            requires
                -SCALE <= c <= SCALE && -SCALE <= s <= SCALE && k == abs(x as int) + abs(y as int)
                    && abs(x as int) == (if x >= 0 { x as int } else { -(x as int) }) && abs(
                    y as int,
                ) == (if y >= 0 { y as int } else { -(y as int) }),
        ;
        assert(-(k * SCALE as int) <= (x as int * s as int + y as int * c as int) && (x as int * s
            as int + y as int * c as int) <= k * SCALE as int) by (nonlinear_arith)
            requires
                -SCALE <= c <= SCALE && -SCALE <= s <= SCALE && k == abs(x as int) + abs(y as int)
                    && abs(x as int) == (if x >= 0 { x as int } else { -(x as int) }) && abs(
                    y as int,
                ) == (if y >= 0 { y as int } else { -(y as int) }),
        ;
        assert(k * SCALE as int <= 2_000_000_000_000_000_000) by (nonlinear_arith)
            requires
                0 <= k <= 2_000_000_000_000 && SCALE == 1_000_000,
        ;
        lemma_ratio_trunc_bound(x as int * c as int - y as int * s as int, SCALE as int, k);
        lemma_ratio_trunc_bound(x as int * s as int + y as int * c as int, SCALE as int, k);
        assert(-1_000_000_000_000_000_000 <= (x as int * c as int) && (x as int * c as int)
            <= 1_000_000_000_000_000_000 && -1_000_000_000_000_000_000 <= (y as int * s as int) && (
        y as int * s as int) <= 1_000_000_000_000_000_000 && -1_000_000_000_000_000_000 <= (x as int
            * s as int) && (x as int * s as int) <= 1_000_000_000_000_000_000
            && -1_000_000_000_000_000_000 <= (y as int * c as int) && (y as int * c as int)
            <= 1_000_000_000_000_000_000) by (nonlinear_arith)
            requires
                -1_000_000_000_000 <= x <= 1_000_000_000_000 && -1_000_000_000_000 <= y
                    <= 1_000_000_000_000 && -SCALE <= c <= SCALE && -SCALE <= s <= SCALE && SCALE
                    == 1_000_000,
        ;
    }
    let rx = div_trunc(x * c - y * s, SCALE);
    let ry = div_trunc(x * s + y * c, SCALE);
    (rx, ry)
}

/// Semi-major axis in metres from a mean motion in nano-rad/s.
fn semi_major_axis(mean_motion: i64) -> (a: i64)
    requires
        mean_motion >= 1,
    ensures
        a == semi_major_axis_spec(mean_motion as int),
        0 <= a <= SEMI_MAJOR_FACTOR,
{
    proof {
        assert(1 <= (mean_motion as int) * (mean_motion as int) && (mean_motion as int) * (
        mean_motion as int) < 85070591730234615865843651857942052864int) by (nonlinear_arith)
            requires
                1 <= mean_motion as int <= 0x7fff_ffff_ffff_ffffint,
        ;
    }
    let nsq: u128 = (mean_motion as u128) * (mean_motion as u128);
    let cb: u64 = icbrt_u128(nsq);
    assert(cb >= 1) by {
        if cb == 0 {
            assert((0int + 1) * (0int + 1) * (0int + 1) == 1);
        }
    }
    proof {
        vstd::arithmetic::div_mod::lemma_div_is_ordered_by_denominator(SEMI_MAJOR_FACTOR as int, 1,
            cb as int);
        vstd::arithmetic::div_mod::lemma_div_is_ordered(0, SEMI_MAJOR_FACTOR as int, cb as int);
    }
    SEMI_MAJOR_FACTOR / (cb as i64)
}

/// Orbit radius in metres at a true anomaly given by its cosine.
fn orbit_radius(a: i64, eccentricity: i64, cos_true: i64) -> (r: i64)
    requires
        0 <= a <= SEMI_MAJOR_FACTOR,
        0 <= eccentricity < SCALE,
        -SCALE <= cos_true <= SCALE,
    ensures
        r == radius_spec(a as int, eccentricity as int, cos_true as int),
        0 <= r <= 2 * SEMI_MAJOR_FACTOR,
{
    let e = eccentricity;
    proof {
        assert(-((e as int) * SCALE as int) <= (e as int * cos_true as int) && (e as int * cos_true
            as int) <= (e as int) * SCALE as int) by (nonlinear_arith)
            requires
                0 <= e && -SCALE <= cos_true <= SCALE,
        ;
        assert((e as int) * SCALE as int <= 1_000_000_000_000) by (nonlinear_arith)
            requires
                0 <= e < SCALE && SCALE == 1_000_000,
        ;
        lemma_ratio_trunc_bound(e as int * cos_true as int, SCALE as int, e as int);
    }
    let ect = div_trunc(e * cos_true, SCALE);
    let den_fx: i64 = SCALE + ect;
    proof {
        assert(0 <= (e as int) * (e as int) && (e as int) * (e as int) < (SCALE as int) * (
        SCALE as int)) by (nonlinear_arith)
            requires
                0 <= e < SCALE,
        ;
    }
    proof {
        assert(0 <= (a as int) * ((SCALE as int) * (SCALE as int) - (e as int) * (e as int))
            && (a as int) * ((SCALE as int) * (SCALE as int) - (e as int) * (e as int))
            <= 2 * (SEMI_MAJOR_FACTOR as int) * ((SCALE as int) * ((SCALE as int) - (e as int)))
            && (a as int) * ((SCALE as int) * (SCALE as int) - (e as int) * (e as int))
            <= 100_000_000_000_000_000_000_000int) by (nonlinear_arith)
            requires
                0 <= a <= SEMI_MAJOR_FACTOR && 0 <= e < SCALE && SCALE == 1_000_000
                    && SEMI_MAJOR_FACTOR == 73_594_600_000,
        ;
        assert((SCALE as int) * ((SCALE as int) - (e as int)) <= (SCALE as int) * (den_fx as int)
            && 0 < (SCALE as int) * (den_fx as int) <= 4_000_000_000_000int) by (nonlinear_arith)
            requires
                SCALE == 1_000_000 && 0 <= e < SCALE && -(e as int) <= ect && SCALE - e <= den_fx
                    <= SCALE + e && den_fx >= 1,
        ;
        assert(2 * (SEMI_MAJOR_FACTOR as int) * ((SCALE as int) * ((SCALE as int) - (e as int)))
            <= 2 * (SEMI_MAJOR_FACTOR as int) * ((SCALE as int) * (den_fx as int)))
            by (nonlinear_arith)
            requires
                (SCALE as int) * ((SCALE as int) - (e as int)) <= (SCALE as int) * (den_fx as int)
                    && SEMI_MAJOR_FACTOR == 73_594_600_000,
        ;
        assert(2 * (SEMI_MAJOR_FACTOR as int) * ((SCALE as int) * (den_fx as int))
            == (2 * (SEMI_MAJOR_FACTOR as int)) * ((SCALE as int) * (den_fx as int)))
            by (nonlinear_arith);
    }
    let num: i128 = (a as i128) * ((SCALE as i128) * (SCALE as i128) - (e as i128) * (e as i128));
    let den: i128 = (SCALE as i128) * (den_fx as i128);
    proof {
        vstd::arithmetic::div_mod::lemma_div_is_ordered(num as int,
            (2 * (SEMI_MAJOR_FACTOR as int)) * (den as int), den as int);
        vstd::arithmetic::div_mod::lemma_div_multiples_vanish(2 * (SEMI_MAJOR_FACTOR as int),
            den as int);
        vstd::arithmetic::div_mod::lemma_div_is_ordered(0, num as int, den as int);
    }
    let r128: i128 = num / den;
    r128 as i64
}

/// Propagate an orbit to a Cartesian position at a mean anomaly.
///
/// Solver non-convergence is surfaced so the caller can skip this
/// satellite for the tick; every converging input yields the position
/// pinned by `pos_spec`, with all coordinates within `POS_LIMIT`.
#[verifier::rlimit(60)]
pub fn get_pos_from_elements(orbit: &Orbit, mean_anomaly: i64) -> (r: Result<
    Position,
    KeplerNonConvergence,
>)
    requires
        orbit_valid(*orbit),
    ensures
        r matches Ok(p) ==> {
            &&& pos_spec(*orbit, mean_anomaly as int) == Some(
                (p.x as int, p.y as int, p.z as int),
            )
            &&& -POS_LIMIT <= p.x <= POS_LIMIT
            &&& -POS_LIMIT <= p.y <= POS_LIMIT
            &&& -POS_LIMIT <= p.z <= POS_LIMIT
        },
        r matches Err(err) ==> {
            &&& pos_spec(*orbit, mean_anomaly as int) is None
            &&& err.mean_anomaly == norm_angle(mean_anomaly as int)
            &&& err.eccentricity == orbit.eccentricity
            &&& err.iterations == crate::kepler::kepler_solve_steps(
                mean_anomaly as int,
                orbit.eccentricity as int,
            )
            &&& err.iterations <= crate::kepler::KEPLER_MAX_ITER
        },
        r.is_ok() <==> pos_spec(*orbit, mean_anomaly as int) is Some,
{
    let dir = match anomaly_mean_to_true(mean_anomaly, orbit.eccentricity) {
        Ok(dir) => dir,
        Err(err) => {
            return Err(err);
        },
    };
    let a = semi_major_axis(orbit.mean_motion);
    let r = orbit_radius(a, orbit.eccentricity, dir.cos);
    proof {
        assert(-((r as int) * (SCALE as int)) <= (r as int * dir.cos as int) && (r as int * dir.cos
            as int) <= (r as int) * (SCALE as int) && -((r as int) * (SCALE as int)) <= (r as int
            * dir.sin as int) && (r as int * dir.sin as int) <= (r as int) * (SCALE as int) && (
        r as int) * (SCALE as int) <= 150_000_000_000_000_000int) by (nonlinear_arith)
            requires
                0 <= r <= 2 * SEMI_MAJOR_FACTOR && -SCALE <= dir.cos <= SCALE && -SCALE <= dir.sin
                    <= SCALE && SCALE == 1_000_000 && SEMI_MAJOR_FACTOR == 73_594_600_000,
        ;
        lemma_ratio_trunc_bound(r as int * dir.cos as int, SCALE as int, r as int);
        lemma_ratio_trunc_bound(r as int * dir.sin as int, SCALE as int, r as int);
    }
    let x0 = div_trunc(r * dir.cos, SCALE);
    let y0 = div_trunc(r * dir.sin, SCALE);
    let (x1, y1) = rot2(x0, y0, -orbit.argument_of_periapsis);
    let (y2, z2) = rot2(y1, 0, -orbit.inclination);
    let (x3, y3) = rot2(x1, y2, orbit.longitude_of_ascending_node);
    Ok(Position { x: x3, y: y3, z: z2 })
}

/// The static geometry of an orbit's ellipse, for display: the rotated
/// focal-offset centre, the three orientation angles, and the two
/// half sizes (semi-major, semi-minor), all in metres or micro-radians.
#[derive(Debug, Clone, Copy)]
pub struct EllipseOrbitData {
    /// Centre of the ellipse: the focal offset, rotated into place.
    pub location: Position,
    /// Orientation: inclination, ascending node, argument of periapsis.
    pub rotation: (i64, i64, i64),
    /// Semi-major and semi-minor half sizes, metres.
    pub half_size: (i64, i64),
}

/// The ellipse geometry of an orbit: `a`, `b = a*sqrt(1 - e^2)`, and
/// the centre at focal distance `a*e` from the focus, rotated by the
/// same three rotations as the propagated positions.
pub fn ellipse_orbit_data(orbit: &Orbit) -> (r: EllipseOrbitData)
    requires
        orbit_valid(*orbit),
    ensures
        r.half_size.0 == semi_major_axis_spec(orbit.mean_motion as int),
        r.half_size.1 == ratio_trunc(
            r.half_size.0 * sqrt_floor(
                ((SCALE - orbit.eccentricity) as int) * ((SCALE + orbit.eccentricity) as int),
            ),
            SCALE as int,
        ),
        r.rotation == (
            orbit.inclination,
            orbit.longitude_of_ascending_node,
            orbit.argument_of_periapsis,
        ),
        0 <= r.half_size.1 <= r.half_size.0,
        (r.location.x as int, r.location.y as int, r.location.z as int) == rot_z_spec(
            rot_x_spec(
                rot_z_spec(
                    (
                        -ratio_trunc(
                            r.half_size.0 * orbit.eccentricity,
                            SCALE as int,
                        ),
                        0int,
                        0int,
                    ),
                    -(orbit.argument_of_periapsis as int),
                ),
                -(orbit.inclination as int),
            ),
            orbit.longitude_of_ascending_node as int,
        ),
{
    let a = semi_major_axis(orbit.mean_motion);
    let e = orbit.eccentricity;
    proof {
        assert(((SCALE - e) as int) * ((SCALE + e) as int) <= (SCALE as int) * (SCALE as int))
            by (nonlinear_arith)
            requires
                0 <= e < SCALE,
        ;
    }
    let root = isqrt((SCALE - e) * (SCALE + e));
    assert(root <= SCALE) by {
        if root > SCALE as int {
            assert((root as int) * (root as int) > (SCALE as int) * (SCALE as int))
                by (nonlinear_arith)
                requires
                    root > SCALE && SCALE == 1_000_000,
        ;
        }
    }
    proof {
        assert(0 <= (a as int) * (root as int) && (a as int) * (root as int) <= (a as int) * (
        SCALE as int) && (a as int) * (SCALE as int) <= 100_000_000_000_000_000int)
            by (nonlinear_arith)
            requires
                0 <= a <= SEMI_MAJOR_FACTOR && 0 <= root <= SCALE && SCALE == 1_000_000
                    && SEMI_MAJOR_FACTOR == 73_594_600_000,
        ;
        lemma_ratio_trunc_bound(a as int * root as int, SCALE as int, a as int);
    }
    let b = div_trunc(a * root, SCALE);
    proof {
        assert(0 <= (a as int) * (e as int) && (a as int) * (e as int) <= (a as int) * (
        SCALE as int)) by (nonlinear_arith)
            requires
                0 <= a && 0 <= e < SCALE,
        ;
        lemma_ratio_trunc_bound(a as int * e as int, SCALE as int, a as int);
    }
    let focal = div_trunc(a * e, SCALE);
    let (x1, y1) = rot2(-focal, 0, -orbit.argument_of_periapsis);
    let (y2, z2) = rot2(y1, 0, -orbit.inclination);
    let (x3, y3) = rot2(x1, y2, orbit.longitude_of_ascending_node);
    EllipseOrbitData {
        location: Position { x: x3, y: y3, z: z2 },
        rotation: (
            orbit.inclination,
            orbit.longitude_of_ascending_node,
            orbit.argument_of_periapsis,
        ),
        half_size: (a, b),
    }
}

/// Propagating a mean anomaly forward by exactly one full revolution
/// returns to the same Cartesian position: the propagated position is
/// periodic in the mean anomaly with period `TWO_PI`.
pub proof fn lemma_position_periodic(o: Orbit, mean_anomaly: int)
    ensures
        pos_spec(o, mean_anomaly + TWO_PI as int) == pos_spec(o, mean_anomaly),
{
    vstd::arithmetic::div_mod::lemma_mod_add_multiples_vanish(mean_anomaly, TWO_PI as int);
    assert(norm_angle(mean_anomaly + TWO_PI as int) == norm_angle(mean_anomaly));
}

} // verus!
