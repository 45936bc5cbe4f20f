//! The command endpoint's data plane: requests and responses as plain
//! values, and the length-prefixed framing the transport uses. Sockets
//! and JSON live with the caller; the library frames and checks bytes.

use vstd::prelude::*;

verus! {

/// What a network client can ask of the simulation.
#[derive(Debug, Clone, Copy, PartialEq, Eq, Structural)]
pub enum RequestCmd {
    /// Return, per satellite name, the list of connected peer names.
    GetTopology,
    /// Clear every satellite's connections and markers.
    DisconnectAll,
}

/// One framed request from the network path; the simulation drains
/// these once per tick and never blocks on them.
#[derive(Debug, Clone, Copy, PartialEq, Eq, Structural)]
pub struct NetRequest {
    pub cmd: RequestCmd,
}

/// The endpoint configuration: which port the command transport binds.
#[derive(Debug, Clone, Copy, PartialEq, Eq, Structural)]
pub struct IOPlugin {
    pub port: u16,
}

impl IOPlugin {
    /// An endpoint bound to the given port.
    pub fn new(port: u16) -> (r: Self)
        ensures
            r.port == port,
    {
        IOPlugin { port }
    }
}

/// Earth's standard gravitational parameter in km^3/s^2, scaled by
/// 10^18 so that `sqrt(MU_SCALED / a^3)` comes out in nano-rad/s.
pub const MU_SCALED: u128 = 398_600_441_800_000_000_000_000;

/// An add-satellite request phrased over the orbit's geometry: apogee
/// and perigee in kilometres, the four angles in micro-radians.
#[derive(Debug, Clone, Copy, PartialEq, Eq, Structural)]
pub struct AddSatellite {
    pub apogee: i64,
    pub perigee: i64,
    pub inclination: i64,
    pub longitude_of_ascending_node: i64,
    pub argument_of_periapsis: i64,
    pub mean_anomaly: i64,
}

/// The mean motion of an orbit of semi-major axis `a` kilometres, in
/// nano-rad/s: `sqrt(mu / a^3)`.
pub open spec fn mean_motion_of_axis(a: int) -> int {
    crate::fixmath::sqrt_floor((MU_SCALED as int) / (a * a * a))
}

impl AddSatellite {
    /// The request in the command endpoint's element order:
    /// `[mean_motion, eccentricity, inclination, ascending node,
    /// argument of periapsis, mean anomaly]`.
    ///
    /// The eccentricity comes from the shape of the orbit,
    /// `(apogee - perigee) / (apogee + perigee)`, and the mean motion
    /// from its size. The axis must put the orbit between 1000 and a
    /// million kilometres for the fixed-point ranges to hold.
    pub fn as_slice(&self) -> (r: [i64; 6])
        requires
            1 <= self.perigee <= self.apogee,
            2_000 <= self.apogee + self.perigee <= 2_000_000,
        ensures
            r[0] == mean_motion_of_axis((self.apogee + self.perigee) as int / 2),
            r[1] == crate::fixmath::ratio_trunc(
                (self.apogee - self.perigee) * (crate::fixmath::SCALE as int),
                self.apogee + self.perigee,
            ),
            0 <= r[1] < crate::fixmath::SCALE,
            r[2] == self.inclination,
            r[3] == self.longitude_of_ascending_node,
            r[4] == self.argument_of_periapsis,
            r[5] == self.mean_anomaly,
    {
        let span = self.apogee + self.perigee;
        proof {
            assert((self.apogee - self.perigee) * (crate::fixmath::SCALE as int) < (
            span as int) * (crate::fixmath::SCALE as int) && 0 <= (self.apogee - self.perigee) * (
            crate::fixmath::SCALE as int) && (span as int) * (crate::fixmath::SCALE as int)
                <= 2_000_000_000_000int) by (nonlinear_arith)
                requires
                    1 <= self.perigee <= self.apogee && 2_000 <= span <= 2_000_000 && span
                        == self.apogee + self.perigee,
            ;
            crate::fixmath::lemma_ratio_trunc_bound(
                (self.apogee - self.perigee) * (crate::fixmath::SCALE as int),
                span as int,
                crate::fixmath::SCALE as int,
            );
            vstd::arithmetic::div_mod::lemma_div_is_ordered(
                (self.apogee - self.perigee) * (crate::fixmath::SCALE as int),
                (span as int) * (crate::fixmath::SCALE as int) - 1,
                span as int,
            );
            vstd::arithmetic::div_mod::lemma_div_multiples_vanish(
                crate::fixmath::SCALE as int,
                span as int,
            );
            assert((span as int) * (crate::fixmath::SCALE as int) - 1 < (span as int) * (
            crate::fixmath::SCALE as int)) by (nonlinear_arith);
        }
        let eccentricity = crate::fixmath::div_trunc(
            (self.apogee - self.perigee) * crate::fixmath::SCALE,
            span,
        );
        assert(eccentricity < crate::fixmath::SCALE) by {
            vstd::arithmetic::div_mod::lemma_div_is_ordered(
                (self.apogee - self.perigee) * (crate::fixmath::SCALE as int),
                (span as int) * (crate::fixmath::SCALE as int) - 1,
                span as int,
            );
            assert(((span as int) * (crate::fixmath::SCALE as int) - 1) / (span as int)
                < crate::fixmath::SCALE as int) by {
                vstd::arithmetic::div_mod::lemma_div_multiples_vanish(
                    crate::fixmath::SCALE as int,
                    span as int,
                );
                vstd::arithmetic::div_mod::lemma_div_is_ordered(
                    (span as int) * (crate::fixmath::SCALE as int) - 1,
                    (span as int) * (crate::fixmath::SCALE as int),
                    span as int,
                );
                assert((span as int) * (crate::fixmath::SCALE as int) == (
                crate::fixmath::SCALE as int) * (span as int)) by (nonlinear_arith);
                vstd::arithmetic::div_mod::lemma_mod_multiples_basic(
                    crate::fixmath::SCALE as int,
                    span as int,
                );
                if ((span as int) * (crate::fixmath::SCALE as int) - 1) / (span as int)
                    == crate::fixmath::SCALE as int {
                    vstd::arithmetic::div_mod::lemma_fundamental_div_mod(
                        (span as int) * (crate::fixmath::SCALE as int) - 1,
                        span as int,
                    );
                    assert(false) by (nonlinear_arith)
                        requires
                            (span as int) * (crate::fixmath::SCALE as int) - 1 == (span as int) * (
                            crate::fixmath::SCALE as int) + (((span as int) * (
                            crate::fixmath::SCALE as int) - 1) % (span as int)) && ((span as int)
                                * (crate::fixmath::SCALE as int) - 1) % (span as int) >= 0,
                    ;
                }
            }
        }
        let axis = span / 2;
        proof {
            assert(1_000_000_000 <= (axis as int) * (axis as int) * (axis as int)
                && (axis as int) * (axis as int) * (axis as int) <= 1_000_000_000_000_000_000int
                && 0 <= (axis as int) * (axis as int) && (axis as int) * (axis as int)
                <= 1_000_000_000_000int) by (nonlinear_arith)
                requires
                    1_000 <= axis <= 1_000_000,
            ;
            vstd::arithmetic::div_mod::lemma_div_is_ordered_by_denominator(
                MU_SCALED as int,
                1_000_000_000,
                (axis as int) * (axis as int) * (axis as int),
            );
        }
        let cube: u128 = (axis as u128) * (axis as u128) * (axis as u128);
        let ratio: u128 = MU_SCALED / cube;
        let mean_motion = crate::fixmath::isqrt(ratio as i64);
        [
            mean_motion,
            eccentricity,
            self.inclination,
            self.longitude_of_ascending_node,
            self.argument_of_periapsis,
            self.mean_anomaly,
        ]
    }
}

/// The value of a four-byte big-endian length header.
pub open spec fn be_u32_of(b0: u8, b1: u8, b2: u8, b3: u8) -> int {
    b0 * 16_777_216 + b1 * 65_536 + b2 * 256 + b3
}

/// Read a frame's length from its four-byte big-endian header.
pub fn parse_frame_len(b0: u8, b1: u8, b2: u8, b3: u8) -> (r: u32)
    ensures
        r == be_u32_of(b0, b1, b2, b3),
{
    (b0 as u32) * 16_777_216 + (b1 as u32) * 65_536 + (b2 as u32) * 256 + (b3 as u32)
}

/// Frame a payload for the wire: its length as a four-byte big-endian
/// header, followed by the payload itself.
pub fn encode_frame(payload: &Vec<u8>) -> (r: Vec<u8>)
    requires
        payload@.len() <= u32::MAX,
    ensures
        r@.len() == payload@.len() + 4,
        be_u32_of(r@[0], r@[1], r@[2], r@[3]) == payload@.len(),
        r@.subrange(4, r@.len() as int) == payload@,
{
    let n: u32 = payload.len() as u32;
    let b0: u8 = (n / 16_777_216) as u8;
    let b1: u8 = ((n / 65_536) % 256) as u8;
    let b2: u8 = ((n / 256) % 256) as u8;
    let b3: u8 = (n % 256) as u8;
    proof {
        assert(be_u32_of(b0, b1, b2, b3) == n) by (bit_vector)
            requires
                b0 == (n / 16_777_216u32) as u8 && b1 == ((n / 65_536u32) % 256u32) as u8 && b2 == (
                (n / 256u32) % 256u32) as u8 && b3 == (n % 256u32) as u8,
        ;
    }
    let mut r: Vec<u8> = Vec::new();
    r.push(b0);
    r.push(b1);
    r.push(b2);
    r.push(b3);
    let mut i: usize = 0;
    while i < payload.len()
        invariant
            0 <= i <= payload@.len(),
            r@.len() == i + 4,
            r@[0] == b0 && r@[1] == b1 && r@[2] == b2 && r@[3] == b3,
            forall|k: int| 0 <= k < i ==> r@[k + 4] == payload@[k],
        decreases payload@.len() - i,
    {
        r.push(payload[i]);
        i = i + 1;
    }
    proof {
        assert(r@.subrange(4, r@.len() as int) =~= payload@);
    }
    r
}

} // verus!
