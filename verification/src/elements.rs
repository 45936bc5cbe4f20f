//! Ingestion of catalog records into the canonical element set: unit
//! conversion to fixed point (nano-rad/s and micro-radians), validation
//! of the eccentricity and mean-motion invariants, and the advance of
//! the mean anomaly from the record's epoch to the current time.

use vstd::prelude::*;

use crate::epoch::parse_epoch_spec;
use crate::epoch::parse_time_from_str;
use crate::epoch::timestamp_valid;
use crate::fixmath::norm_angle;
use crate::fixmath::normalize_angle;
use crate::fixmath::normalize_angle_i128;
use crate::fixmath::ratio_trunc;
use crate::fixmath::SCALE;
use crate::fixmath::TWO_PI;
use crate::orbit::orbit_valid;
use crate::orbit::Orbit;

verus! {

/// Numerator of the conversion from micro-rev/day to nano-rad/s:
/// `2*pi / 86400`, scaled by 10^15.
pub const REV_DAY_TO_NANO_RAD_NUM: i64 = 72_722_052_166_430;

/// Numerator of the conversion from micro-degrees to micro-radians:
/// `pi / 180`, scaled by 10^15.
pub const DEG_TO_RAD_NUM: i64 = 17_453_292_519_943;

/// Denominator of both unit conversions: 10^15.
pub const UNIT_DEN: i64 = 1_000_000_000_000_000;

/// Largest representable mean motion, nano-rad/s: 1000 rad/s, far above
/// any orbit; keeps per-tick advance arithmetic within range.
pub const MAX_MEAN_MOTION: i64 = 1_000_000_000_000;

/// Why a record was rejected at ingestion; each record fails on its
/// own, without aborting the batch it came in.
#[derive(Debug, Clone, Copy, PartialEq, Eq, Structural)]
pub enum ElementsError {
    /// The eccentricity lies outside `[0, 1)`.
    InvalidEccentricity,
    /// The epoch timestamp does not match the expected pattern.
    MalformedTimestamp,
    /// The mean motion rounds to a non-positive or unrepresentable
    /// rate.
    InvalidMeanMotion,
}

/// A catalog record as ingested: identity, epoch text, and the orbital
/// fields in the catalog's units, each scaled by 10^6 (micro-rev/day
/// for the mean motion, `SCALE` for the eccentricity, micro-degrees for
/// the four angles).
#[derive(Debug, Clone)]
pub struct RawSatelliteData {
    pub object_id: String,
    pub epoch: String,
    pub mean_motion: i64,
    pub eccentricity: i64,
    pub inclination: i64,
    pub ra_of_asc_node: i64,
    pub arg_of_pericenter: i64,
    pub mean_anomaly: i64,
}

/// The canonical element set of one satellite: the five orientation
/// elements plus the mean anomaly, all in fixed point.
#[derive(Debug, Clone, Copy, PartialEq, Eq, Structural)]
pub struct OrbitalElements {
    /// Mean motion in nano-rad/s; positive.
    pub mean_motion: i64,
    /// Eccentricity scaled by `SCALE`; in `[0, SCALE)`.
    pub eccentricity: i64,
    /// Inclination, micro-radians in `[0, TWO_PI)`.
    pub inclination: i64,
    /// Right ascension of the ascending node, micro-radians.
    pub longitude_of_ascending_node: i64,
    /// Argument of periapsis, micro-radians.
    pub argument_of_periapsis: i64,
    /// Mean anomaly, micro-radians in `[0, TWO_PI)`.
    pub mean_anomaly: i64,
}

/// Micro-rev/day converted to nano-rad/s.
pub open spec fn rev_day_to_nano_rad(r: int) -> int {
    ratio_trunc(r * REV_DAY_TO_NANO_RAD_NUM, UNIT_DEN as int)
}

/// Micro-degrees converted to micro-radians.
pub open spec fn deg_to_micro_rad(x: int) -> int {
    ratio_trunc(x * DEG_TO_RAD_NUM, UNIT_DEN as int)
}

/// The advance of a mean anomaly from a record's epoch to now: whole
/// elapsed seconds times the mean motion, reduced to `[0, TWO_PI)`.
pub open spec fn advanced_mean_anomaly(m0: int, epoch_micros: int, now_micros: int, n: int) -> int {
    let dsec = ratio_trunc(now_micros - epoch_micros, 1_000_000);
    norm_angle(m0 + ratio_trunc(dsec * n, 1000))
}

/// What ingestion establishes and every later phase preserves.
pub open spec fn elements_valid(el: OrbitalElements) -> bool {
    &&& orbit_valid(el.orbit())
    &&& el.mean_motion <= MAX_MEAN_MOTION
    &&& 0 <= el.mean_anomaly < TWO_PI
}

impl OrbitalElements {
    /// The orientation part of the element set, without the mean
    /// anomaly.
    pub open spec fn orbit(self) -> Orbit {
        Orbit {
            mean_motion: self.mean_motion,
            eccentricity: self.eccentricity,
            inclination: self.inclination,
            longitude_of_ascending_node: self.longitude_of_ascending_node,
            argument_of_periapsis: self.argument_of_periapsis,
        }
    }

    /// Split the element set into the immutable orbit and the mean
    /// anomaly, which varies per tick.
    pub fn sep_out_mean_anomaly(self) -> (r: (Orbit, i64))
        ensures
            r.0 == self.orbit(),
            r.1 == self.mean_anomaly,
    {
        (
            Orbit {
                mean_motion: self.mean_motion,
                eccentricity: self.eccentricity,
                inclination: self.inclination,
                longitude_of_ascending_node: self.longitude_of_ascending_node,
                argument_of_periapsis: self.argument_of_periapsis,
            },
            self.mean_anomaly,
        )
    }

    /// Ingest a pre-converted element slice, as the command endpoint
    /// hands it in: `[mean_motion (nano-rad/s), eccentricity,
    /// inclination, ascending node, argument of periapsis, mean
    /// anomaly]`, angles in micro-radians.
    ///
    /// Rejected exactly when the eccentricity is outside `[0, 1)` or
    /// the mean motion is not positive; angles are reduced to
    /// `[0, TWO_PI)`.
    pub fn from_slice(data: &[i64; 6]) -> (r: Result<Self, ElementsError>)
        ensures
            r == Err::<Self, ElementsError>(ElementsError::InvalidEccentricity) <==> !(0 <= data[1]
                < SCALE),
            r == Err::<Self, ElementsError>(ElementsError::InvalidMeanMotion) <==> (0 <= data[1]
                < SCALE && !(1 <= data[0] <= MAX_MEAN_MOTION)),
            r matches Ok(el) ==> {
                &&& el.mean_motion == data[0]
                &&& el.eccentricity == data[1]
                &&& el.inclination == norm_angle(data[2] as int)
                &&& el.longitude_of_ascending_node == norm_angle(data[3] as int)
                &&& el.argument_of_periapsis == norm_angle(data[4] as int)
                &&& el.mean_anomaly == norm_angle(data[5] as int)
                &&& elements_valid(el)
            },
            r.is_ok() <==> (0 <= data[1] < SCALE && 1 <= data[0] <= MAX_MEAN_MOTION),
    {
        let eccentricity = data[1];
        if eccentricity < 0 || eccentricity >= SCALE {
            return Err(ElementsError::InvalidEccentricity);
        }
        let mean_motion = data[0];
        if mean_motion < 1 || mean_motion > MAX_MEAN_MOTION {
            return Err(ElementsError::InvalidMeanMotion);
        }
        Ok(
            OrbitalElements {
                mean_motion,
                eccentricity,
                inclination: normalize_angle(data[2]),
                longitude_of_ascending_node: normalize_angle(data[3]),
                argument_of_periapsis: normalize_angle(data[4]),
                mean_anomaly: normalize_angle(data[5]),
            },
        )
    }

    /// Ingest one catalog record: parse its epoch, convert the units to
    /// fixed point, validate the invariants, and advance the mean
    /// anomaly by the time elapsed from the epoch to `now_micros`.
    ///
    /// The record is rejected with `MalformedTimestamp` exactly when
    /// the epoch does not match the pattern, with `InvalidEccentricity`
    /// exactly when the eccentricity is outside `[0, 1)`, and with
    /// `InvalidMeanMotion` exactly when the converted rate is not
    /// positive.
    pub fn from_raw_sate_data(raw: &RawSatelliteData, now_micros: i64) -> (r: Result<
        Self,
        ElementsError,
    >)
        ensures
            r == Err::<Self, ElementsError>(ElementsError::MalformedTimestamp)
                <==> !timestamp_valid(raw.epoch@),
            r == Err::<Self, ElementsError>(ElementsError::InvalidEccentricity) <==> (
            timestamp_valid(raw.epoch@) && !(0 <= raw.eccentricity < SCALE)),
            r == Err::<Self, ElementsError>(ElementsError::InvalidMeanMotion) <==> (timestamp_valid(
                raw.epoch@,
            ) && 0 <= raw.eccentricity < SCALE && !(1 <= rev_day_to_nano_rad(
                raw.mean_motion as int,
            ) <= MAX_MEAN_MOTION)),
            r matches Ok(el) ==> {
                &&& el.mean_motion == rev_day_to_nano_rad(raw.mean_motion as int)
                &&& el.eccentricity == raw.eccentricity
                &&& el.inclination == norm_angle(deg_to_micro_rad(raw.inclination as int))
                &&& el.longitude_of_ascending_node == norm_angle(
                    deg_to_micro_rad(raw.ra_of_asc_node as int),
                )
                &&& el.argument_of_periapsis == norm_angle(
                    deg_to_micro_rad(raw.arg_of_pericenter as int),
                )
                &&& el.mean_anomaly == advanced_mean_anomaly(
                    norm_angle(deg_to_micro_rad(raw.mean_anomaly as int)),
                    parse_epoch_spec(raw.epoch@).unwrap(),
                    now_micros as int,
                    el.mean_motion as int,
                )
                &&& elements_valid(el)
            },
    {
        let epoch_micros = match parse_time_from_str(raw.epoch.as_str()) {
            Some(v) => v,
            None => {
                return Err(ElementsError::MalformedTimestamp);
            },
        };
        if raw.eccentricity < 0 || raw.eccentricity >= SCALE {
            return Err(ElementsError::InvalidEccentricity);
        }
        let mean_motion = rev_day_to_nano_rad_exec(raw.mean_motion);
        if mean_motion < 1 || mean_motion > MAX_MEAN_MOTION {
            return Err(ElementsError::InvalidMeanMotion);
        }
        let m0 = normalize_angle(deg_to_micro_rad_exec(raw.mean_anomaly));
        let mean_anomaly = advance_from_epoch(m0, epoch_micros, now_micros, mean_motion);
        Ok(
            OrbitalElements {
                mean_motion,
                eccentricity: raw.eccentricity,
                inclination: normalize_angle(deg_to_micro_rad_exec(raw.inclination)),
                longitude_of_ascending_node: normalize_angle(
                    deg_to_micro_rad_exec(raw.ra_of_asc_node),
                ),
                argument_of_periapsis: normalize_angle(deg_to_micro_rad_exec(raw.arg_of_pericenter)),
                mean_anomaly,
            },
        )
    }
}

/// Whether a pre-converted element slice passes validation.
pub open spec fn slice_ok(data: [i64; 6]) -> bool {
    &&& 0 <= data[1] < SCALE
    &&& 1 <= data[0] <= MAX_MEAN_MOTION
}

/// The element set a valid pre-converted slice ingests to.
pub open spec fn slice_elements(data: [i64; 6]) -> OrbitalElements {
    OrbitalElements {
        mean_motion: data[0],
        eccentricity: data[1],
        inclination: norm_angle(data[2] as int) as i64,
        longitude_of_ascending_node: norm_angle(data[3] as int) as i64,
        argument_of_periapsis: norm_angle(data[4] as int) as i64,
        mean_anomaly: norm_angle(data[5] as int) as i64,
    }
}

/// The error a rejected pre-converted slice reports.
pub open spec fn slice_error(data: [i64; 6]) -> ElementsError {
    if !(0 <= data[1] < SCALE) {
        ElementsError::InvalidEccentricity
    } else {
        ElementsError::InvalidMeanMotion
    }
}

/// The accepted part of a batch, in order.
pub open spec fn accepted_of(rs: Seq<(String, [i64; 6])>) -> Seq<(String, OrbitalElements)>
    decreases rs.len(),
{
    if rs.len() == 0 {
        Seq::empty()
    } else if slice_ok(rs.last().1) {
        accepted_of(rs.drop_last()).push((rs.last().0, slice_elements(rs.last().1)))
    } else {
        accepted_of(rs.drop_last())
    }
}

/// The rejected part of a batch, in order, each with its error.
pub open spec fn rejected_of(rs: Seq<(String, [i64; 6])>) -> Seq<(String, ElementsError)>
    decreases rs.len(),
{
    if rs.len() == 0 {
        Seq::empty()
    } else if slice_ok(rs.last().1) {
        rejected_of(rs.drop_last())
    } else {
        rejected_of(rs.drop_last()).push((rs.last().0, slice_error(rs.last().1)))
    }
}

/// Ingest a whole batch of pre-converted element slices: each record is
/// validated on its own, the accepted ones come back as elements in
/// batch order, and each rejected one comes back with its error - a bad
/// record never aborts the batch.
pub fn from_slices(records: Vec<(String, [i64; 6])>) -> (r: (
    Vec<(String, OrbitalElements)>,
    Vec<(String, ElementsError)>,
))
    ensures
        r.0@ == accepted_of(records@),
        r.1@ == rejected_of(records@),
        forall|k: int| 0 <= k < r.0@.len() ==> elements_valid((#[trigger] r.0@[k]).1),
{
    let ghost orig = records@;
    let mut rest = records;
    let mut accepted: Vec<(String, OrbitalElements)> = Vec::new();
    let mut rejected: Vec<(String, ElementsError)> = Vec::new();
    proof {
        assert(orig.subrange(0, 0) =~= Seq::<(String, [i64; 6])>::empty());
        assert(rest@ == orig.subrange(0, orig.len() as int));
    }
    while rest.len() > 0
        invariant
            rest@.len() <= orig.len(),
            rest@ == orig.subrange(orig.len() - rest@.len(), orig.len() as int),
            accepted@ == accepted_of(orig.subrange(0, orig.len() - rest@.len())),
            rejected@ == rejected_of(orig.subrange(0, orig.len() - rest@.len())),
            forall|k: int|
                0 <= k < accepted@.len() ==> elements_valid((#[trigger] accepted@[k]).1),
        decreases rest@.len(),
    {
        let ghost done = orig.len() - rest@.len();
        let ghost rest_before = rest@;
        let (name, data) = rest.remove(0);
        proof {
            assert(rest_before[0] == orig.subrange(done as int, orig.len() as int)[0]);
            assert(name == orig[done as int].0);
            assert(data == orig[done as int].1);
            assert(rest@ =~= orig.subrange(done + 1, orig.len() as int));
            let pre = orig.subrange(0, done as int);
            let pre1 = orig.subrange(0, done + 1);
            assert(pre1.drop_last() =~= pre);
            assert(pre1.last() == orig[done as int]);
        }
        match OrbitalElements::from_slice(&data) {
            Ok(el) => {
                proof {
                    assert(slice_ok(orig[done as int].1));
                    assert(el == slice_elements(orig[done as int].1));
                }
                accepted.push((name, el));
            },
            Err(e) => {
                proof {
                    assert(!slice_ok(orig[done as int].1));
                    assert(e == slice_error(orig[done as int].1));
                }
                rejected.push((name, e));
            },
        }
    }
    proof {
        assert(orig.subrange(0, orig.len() as int) =~= orig);
    }
    (accepted, rejected)
}

/// Convert micro-rev/day to nano-rad/s, as executable code.
fn rev_day_to_nano_rad_exec(r: i64) -> (n: i64)
    ensures
        n == rev_day_to_nano_rad(r as int),
{
    let wide: i128 = (r as i128) * (REV_DAY_TO_NANO_RAD_NUM as i128);
    proof {
        lemma_i64_wide_product(r as int, REV_DAY_TO_NANO_RAD_NUM as int);
    }
    let q: i128 = if wide >= 0 {
        wide / (UNIT_DEN as i128)
    } else {
        -((-wide) / (UNIT_DEN as i128))
    };
    proof {
        lemma_wide_quotient_fits(wide as int, UNIT_DEN as int);
        assert(-(0x8000_0000_0000_0000int * 72_722_052_166_430) <= wide as int && (wide as int)
            <= 0x8000_0000_0000_0000int * 72_722_052_166_430) by (nonlinear_arith)
            requires
                wide as int == (r as int) * 72_722_052_166_430 && -0x8000_0000_0000_0000int <= r
                    <= 0x7fff_ffff_ffff_ffffint,
        ;
        if wide >= 0 {
            lemma_unit_quotient_bound(wide as int);
        } else {
            lemma_unit_quotient_bound(-(wide as int));
        }
    }
    q as i64
}

/// Convert micro-degrees to micro-radians, as executable code.
fn deg_to_micro_rad_exec(x: i64) -> (r: i64)
    ensures
        r == deg_to_micro_rad(x as int),
{
    let wide: i128 = (x as i128) * (DEG_TO_RAD_NUM as i128);
    proof {
        lemma_i64_wide_product(x as int, DEG_TO_RAD_NUM as int);
    }
    let q: i128 = if wide >= 0 {
        wide / (UNIT_DEN as i128)
    } else {
        -((-wide) / (UNIT_DEN as i128))
    };
    proof {
        lemma_wide_quotient_fits(wide as int, UNIT_DEN as int);
        assert(-(0x8000_0000_0000_0000int * 72_722_052_166_430) <= wide as int && (wide as int)
            <= 0x8000_0000_0000_0000int * 72_722_052_166_430) by (nonlinear_arith)
            requires
                wide as int == (x as int) * 17_453_292_519_943 && -0x8000_0000_0000_0000int <= x
                    <= 0x7fff_ffff_ffff_ffffint,
        ;
        if wide >= 0 {
            lemma_unit_quotient_bound(wide as int);
        } else {
            lemma_unit_quotient_bound(-(wide as int));
        }
    }
    q as i64
}

/// Advance a normalized mean anomaly by the whole seconds elapsed from
/// a record's epoch to now, at the given mean motion.
fn advance_from_epoch(m0: i64, epoch_micros: i64, now_micros: i64, mean_motion: i64) -> (m: i64)
    requires
        0 <= m0 < TWO_PI,
    ensures
        m == advanced_mean_anomaly(m0 as int, epoch_micros as int, now_micros as int,
            mean_motion as int),
        0 <= m < TWO_PI,
{
    let diff: i128 = (now_micros as i128) - (epoch_micros as i128);
    let dsec: i128 = if diff >= 0 {
        diff / 1_000_000
    } else {
        -((-diff) / 1_000_000)
    };
    proof {
        lemma_wide_quotient_fits(diff as int, 1_000_000);
        lemma_i64_wide_product(dsec as int, mean_motion as int);
    }
    let prod: i128 = dsec * (mean_motion as i128);
    let dd: i128 = if prod >= 0 {
        prod / 1000
    } else {
        -((-prod) / 1000)
    };
    proof {
        lemma_wide_quotient_fits(prod as int, 1000);
    }
    normalize_angle_i128((m0 as i128) + dd)
}

/// The product of two i64-range values fits comfortably in i128.
proof fn lemma_i64_wide_product(a: int, b: int)
    requires
        -0x8000_0000_0000_0000 <= a <= 0x7fff_ffff_ffff_ffff,
        -0x8000_0000_0000_0000 <= b <= 0x7fff_ffff_ffff_ffff,
    ensures
        -0x4000_0000_0000_0000_0000_0000_0000_0000 <= a * b
            <= 0x4000_0000_0000_0000_0000_0000_0000_0000,
{
    assert(-0x4000_0000_0000_0000_0000_0000_0000_0000 <= a * b
        <= 0x4000_0000_0000_0000_0000_0000_0000_0000) by (nonlinear_arith)
        requires
            -0x8000_0000_0000_0000 <= a <= 0x7fff_ffff_ffff_ffff && -0x8000_0000_0000_0000 <= b
                <= 0x7fff_ffff_ffff_ffff,
    ;
}

/// A non-negative value within the unit-conversion range divided by the
/// conversion denominator stays well within i64.
proof fn lemma_unit_quotient_bound(a: int)
    requires
        0 <= a <= 0x8000_0000_0000_0000 * 72_722_052_166_430,
    ensures
        0 <= a / (UNIT_DEN as int) <= 700_000_000_000_000_000,
{
    let d = UNIT_DEN as int;
    let q = a / d;
    vstd::arithmetic::div_mod::lemma_fundamental_div_mod(a, d);
    vstd::arithmetic::div_mod::lemma_mod_pos_bound(a, d);
    vstd::arithmetic::div_mod::lemma_div_basics(d);
    vstd::arithmetic::div_mod::lemma_div_is_ordered(0, a, d);
    assert(q <= 700_000_000_000_000_000) by (nonlinear_arith)
        requires
            a == d * q + (a % d) && 0 <= a % d && a <= 0x8000_0000_0000_0000int
                * 72_722_052_166_430 && d == 1_000_000_000_000_000,
    ;
}

/// A truncating quotient is no larger in magnitude than its numerator.
proof fn lemma_wide_quotient_fits(num: int, den: int)
    requires
        den >= 1,
    ensures
        num >= 0 ==> 0 <= num / den <= num,
        num < 0 ==> 0 <= (-num) / den <= -num,
{
    if num >= 0 {
        vstd::arithmetic::div_mod::lemma_div_is_ordered_by_denominator(num, 1, den);
        vstd::arithmetic::div_mod::lemma_div_is_ordered(0, num, den);
    } else {
        vstd::arithmetic::div_mod::lemma_div_is_ordered_by_denominator(-num, 1, den);
        vstd::arithmetic::div_mod::lemma_div_is_ordered(0, -num, den);
    }
}

} // verus!
