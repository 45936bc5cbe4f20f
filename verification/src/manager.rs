//! The simulation context: the satellite table with its identities,
//! elements, positions and connection sets, the orbit index for
//! display, and the per-tick motion updates.
//!
//! `SatelliteManager::well_formed` is the global invariant: satellite
//! handles are strictly increasing, every connection set is a bounded,
//! duplicate-free set of existing peers, and the link relation is
//! symmetric. Every public mutation preserves it.

use vstd::prelude::*;

use crate::elements::elements_valid;
use crate::elements::OrbitalElements;
use crate::fixmath::norm_angle;
use crate::fixmath::normalize_angle_i128;
use crate::fixmath::ratio_trunc;
use crate::orbit::pos_spec;
use crate::orbit::get_pos_from_elements;
use crate::orbit::Orbit;
use crate::orbit::Position;
use crate::orbit::POS_LIMIT;
use crate::communication::dist_sq_spec;

verus! {

/// Per-node capacity can never exceed this; it keeps index arithmetic
/// on candidate lists within range.
pub const MAX_CONNECTION_NUMBER: usize = 1_000_000;

/// Ceiling on the simulation speed multiplier (stored in thousandths).
pub const MAX_TIME_SPEED: i64 = 1_000_000_000;

/// Ceiling on one tick's elapsed simulated milliseconds.
pub const MAX_TICK_MS: i64 = 86_400_000_000;

/// The unordered set of peers a satellite is linked to, stored as a
/// duplicate-free vector of satellite handles.
#[derive(Debug, Clone)]
pub struct Connections {
    pub peers: Vec<u64>,
}

/// The back-reference from a satellite to the orbit it rides.
#[derive(Debug, Clone, Copy, PartialEq, Eq, Structural)]
pub struct Following(pub u64);

/// The index from an orbit to the satellites riding it; a weak
/// back-reference maintained beside the satellite table, never an
/// owning pointer.
#[derive(Debug, Clone)]
pub struct FollowedBy(pub Vec<u64>);

/// One satellite: a totally ordered opaque handle, a display name, the
/// owned element set, the last propagated position, the connection set,
/// and the transient per-tick admission marker.
#[derive(Debug, Clone)]
pub struct Satellite {
    pub id: u64,
    pub name: String,
    pub elements: OrbitalElements,
    pub position: Position,
    pub connections: Connections,
    pub trying: bool,
    pub following: Following,
}

/// Build a satellite record as it is spawned: empty connection set, no
/// admission marker, position at the origin until the first tick.
pub fn create_satellite(id: u64, name: String, elements: OrbitalElements, orbit_id: u64) -> (s:
    Satellite)
    ensures
        s.id == id,
        s.name == name,
        s.elements == elements,
        s.connections.peers@ =~= Seq::<u64>::empty(),
        !s.trying,
        s.following == Following(orbit_id),
        s.position == (Position { x: 0, y: 0, z: 0 }),
{
    Satellite {
        id,
        name,
        elements,
        position: Position { x: 0, y: 0, z: 0 },
        connections: Connections { peers: Vec::new() },
        trying: false,
        following: Following(orbit_id),
    }
}

/// The simulation context: everything the tick reads and writes.
pub struct SatelliteManager {
    /// The satellite table, ordered by strictly increasing handle.
    pub sats: Vec<Satellite>,
    /// Orbits spawned for display, aligned with `followed_by`.
    pub orbits: Vec<Orbit>,
    /// The handle of each orbit in `orbits`.
    pub orbit_ids: Vec<u64>,
    /// The satellites riding each orbit in `orbits`.
    pub followed_by: Vec<FollowedBy>,
    /// Ingested records waiting to be spawned into the table.
    pub unspawned_sats: Vec<(String, OrbitalElements)>,
    /// The next unused handle.
    pub next_id: u64,
    /// Per-node link capacity.
    pub connection_number: usize,
    /// Admission/eviction distance threshold, metres.
    pub connection_distance: i64,
    /// Propagation rate multiplier, thousandths.
    pub time_speed: i64,
}

impl SatelliteManager {
    /// Number of satellites in the table.
    pub open spec fn n(self) -> int {
        self.sats@.len() as int
    }

    /// The handle of the satellite at index `i`.
    pub open spec fn sat_id(self, i: int) -> u64 {
        self.sats@[i].id
    }

    /// The connection set of the satellite at index `i`.
    pub open spec fn peers_of(self, i: int) -> Seq<u64> {
        self.sats@[i].connections.peers@
    }

    /// Whether some satellite carries this handle.
    pub open spec fn has_sat(self, id: u64) -> bool {
        exists|i: int| 0 <= i < self.n() && #[trigger] self.sat_id(i) == id
    }

    /// The index of the satellite carrying this handle.
    pub open spec fn index_of(self, id: u64) -> int {
        choose|i: int| 0 <= i < self.n() && #[trigger] self.sat_id(i) == id
    }

    /// Whether the satellite at index `i` lists the one at `j` as a
    /// peer.
    pub open spec fn linked(self, i: int, j: int) -> bool {
        self.peers_of(i).contains(self.sat_id(j))
    }

    /// The satellite handles, in table order.
    pub open spec fn ids_of(self) -> Seq<u64> {
        Seq::new(self.sats@.len(), |i: int| self.sats@[i].id)
    }

    /// The connection table: each satellite's peer list, in table order.
    pub open spec fn conns_of(self) -> Seq<Seq<u64>> {
        Seq::new(self.sats@.len(), |i: int| self.sats@[i].connections.peers@)
    }

    /// Per-satellite part of the invariant: the connection set is a
    /// duplicate-free set of existing peers within capacity, the
    /// elements are valid, and the position is in range.
    pub open spec fn sat_ok(self, i: int) -> bool {
        let s = self.sats@[i];
        &&& s.connections.peers@.no_duplicates()
        &&& !s.connections.peers@.contains(s.id)
        &&& s.connections.peers@.len() <= self.connection_number
        &&& (forall|k: int|
            0 <= k < s.connections.peers@.len() ==> self.has_sat(#[trigger] s.connections.peers@[k]))
        &&& elements_valid(s.elements)
        &&& -POS_LIMIT <= s.position.x <= POS_LIMIT
        &&& -POS_LIMIT <= s.position.y <= POS_LIMIT
        &&& -POS_LIMIT <= s.position.z <= POS_LIMIT
    }

    /// Bounds on the configuration, fixed at construction.
    pub open spec fn config_ok(self) -> bool {
        &&& 0 < self.connection_number <= MAX_CONNECTION_NUMBER
        &&& 0 <= self.connection_distance <= POS_LIMIT
        &&& 0 <= self.time_speed <= MAX_TIME_SPEED
    }

    /// The global invariant of the simulation context.
    pub open spec fn well_formed(self) -> bool {
        &&& forall|i: int, j: int|
            #![trigger self.sat_id(i), self.sat_id(j)]
            0 <= i < j < self.n() ==> self.sat_id(i) < self.sat_id(j)
        &&& forall|i: int| 0 <= i < self.n() ==> #[trigger] self.sat_id(i) < self.next_id
        &&& forall|i: int| 0 <= i < self.n() ==> self.sat_ok(i)
        &&& forall|i: int, j: int|
            0 <= i < self.n() && 0 <= j < self.n() && #[trigger] self.linked(i, j) ==> self.linked(
                j,
                i,
            )
        &&& self.orbits@.len() == self.orbit_ids@.len()
        &&& self.orbits@.len() == self.followed_by@.len()
        &&& forall|k: int|
            0 <= k < self.orbits@.len() ==> crate::orbit::orbit_valid(#[trigger] self.orbits@[k])
        &&& forall|k: int| 0 <= k < self.orbit_ids@.len() ==> #[trigger] self.orbit_ids@[k] < self.next_id
        &&& forall|q: int|
            0 <= q < self.unspawned_sats@.len() ==> elements_valid(
                #[trigger] self.unspawned_sats@[q].1,
            )
        &&& self.config_ok()
    }

    /// The link-graph invariants, spelled out: in any well-formed
    /// context — and `tick` ensures one — every connection set is
    /// within capacity and duplicate-free, no satellite is linked to
    /// itself, and a peer lists back everyone who lists it.
    pub proof fn lemma_link_graph_invariants(self)
        requires
            self.well_formed(),
        ensures
            forall|i: int|
                0 <= i < self.n() ==> #[trigger] self.peers_of(i).len() <= self.connection_number,
            forall|i: int| 0 <= i < self.n() ==> (#[trigger] self.peers_of(i)).no_duplicates(),
            forall|i: int| 0 <= i < self.n() ==> !(#[trigger] self.linked(i, i)),
            forall|i: int, j: int|
                0 <= i < self.n() && 0 <= j < self.n() ==> (#[trigger] self.linked(i, j)
                    <==> self.linked(j, i)),
    {
        assert forall|i: int|
            0 <= i < self.n() implies #[trigger] self.peers_of(i).len() <= self.connection_number
            && self.peers_of(i).no_duplicates() && !self.linked(i, i) by {
            assert(self.sat_ok(i));
        }
    }

    /// Two satellites at distinct indices carry distinct handles.
    pub proof fn lemma_ids_distinct(self, i: int, j: int)
        requires
            self.well_formed(),
            0 <= i < self.n(),
            0 <= j < self.n(),
            i != j,
        ensures
            self.sat_id(i) != self.sat_id(j),
    {
    }

    /// The invariant only reads the satellite table, the orbit tables,
    /// the queue and the configuration: two contexts that agree on them
    /// are equally well formed.
    pub proof fn lemma_same_state_wf(a: Self, b: Self)
        requires
            a.well_formed(),
            b.sats == a.sats,
            b.next_id == a.next_id,
            b.orbits == a.orbits,
            b.orbit_ids == a.orbit_ids,
            b.followed_by == a.followed_by,
            forall|q: int|
                0 <= q < b.unspawned_sats@.len() ==> elements_valid(
                    #[trigger] b.unspawned_sats@[q].1,
                ),
            b.connection_number == a.connection_number,
            b.connection_distance == a.connection_distance,
            b.time_speed == a.time_speed,
        ensures
            b.well_formed(),
    {
        assert(b.n() == a.n());
        assert forall|i: int| 0 <= i < b.n() implies #[trigger] b.sat_id(i) == a.sat_id(i) by {}
        assert forall|i: int, j: int|
            #![trigger b.sat_id(i), b.sat_id(j)]
            0 <= i < j < b.n() implies b.sat_id(i) < b.sat_id(j) by {
            assert(a.sat_id(i) < a.sat_id(j));
        }
        assert forall|i: int| 0 <= i < b.n() implies #[trigger] b.sat_id(i) < b.next_id by {
            assert(a.sat_id(i) < a.next_id);
        }
        assert forall|i: int| 0 <= i < b.n() implies b.sat_ok(i) by {
            assert(a.sat_ok(i));
            let s = b.sats@[i];
            assert forall|k: int|
                0 <= k < s.connections.peers@.len() implies b.has_sat(
                #[trigger] s.connections.peers@[k],
            ) by {
                let id = s.connections.peers@[k];
                assert(a.sats@[i].connections.peers@[k] == id);
                assert(a.has_sat(id));
                let w = choose|j: int| 0 <= j < a.n() && #[trigger] a.sat_id(j) == id;
                assert(0 <= w < b.n() && b.sat_id(w) == id);
            }
        }
        assert forall|i: int, j: int|
            0 <= i < b.n() && 0 <= j < b.n() && #[trigger] b.linked(i, j) implies b.linked(
            j,
            i,
        ) by {
            assert(b.peers_of(i) == a.peers_of(i));
            assert(b.peers_of(j) == a.peers_of(j));
            assert(a.linked(i, j));
            assert(a.linked(j, i));
        }
    }

    /// An empty context with the given configuration.
    pub fn new(connection_number: usize, connection_distance: i64, time_speed: i64) -> (r: Self)
        requires
            0 < connection_number <= MAX_CONNECTION_NUMBER,
            0 <= connection_distance <= POS_LIMIT,
            0 <= time_speed <= MAX_TIME_SPEED,
        ensures
            r.well_formed(),
            r.n() == 0,
            r.connection_number == connection_number,
            r.connection_distance == connection_distance,
            r.time_speed == time_speed,
    {
        SatelliteManager {
            sats: Vec::new(),
            orbits: Vec::new(),
            orbit_ids: Vec::new(),
            followed_by: Vec::new(),
            unspawned_sats: Vec::new(),
            next_id: 0,
            connection_number,
            connection_distance,
            time_speed,
        }
    }

    /// Find the index of the satellite carrying a handle, by scan over
    /// the table.
    pub fn find_index(&self, id: u64) -> (r: Option<usize>)
        ensures
            r matches Some(i) ==> 0 <= i < self.n() && self.sat_id(i as int) == id,
            r is None ==> !self.has_sat(id),
    {
        let mut i: usize = 0;
        while i < self.sats.len()
            invariant
                0 <= i <= self.n(),
                forall|k: int| 0 <= k < i ==> #[trigger] self.sat_id(k) != id,
            decreases self.n() - i,
        {
            if self.sats[i].id == id {
                return Some(i);
            }
            i = i + 1;
        }
        None
    }

    /// Queue ingested records for the next spawn step.
    pub fn add_satellites(&mut self, satellites: Vec<(String, OrbitalElements)>)
        requires
            old(self).well_formed(),
            forall|q: int|
                0 <= q < satellites@.len() ==> elements_valid(#[trigger] satellites@[q].1),
        ensures
            final(self).well_formed(),
            final(self).unspawned_sats@ == old(self).unspawned_sats@ + satellites@,
            final(self).sats == old(self).sats,
            final(self).orbits == old(self).orbits,
            final(self).connection_number == old(self).connection_number,
            final(self).connection_distance == old(self).connection_distance,
            final(self).time_speed == old(self).time_speed,
    {
        let mut satellites = satellites;
        self.unspawned_sats.append(&mut satellites);
        proof {
            Self::lemma_same_state_wf(*old(self), *self);
        }
    }
    /// The invariant never reads the mean anomaly, the position or the
    /// admission marker beyond their own ranges: a context whose
    /// satellites differ only there, within range, stays well formed.
    pub proof fn lemma_same_links_wf(a: Self, b: Self)
        requires
            a.well_formed(),
            b.sats@.len() == a.sats@.len(),
            forall|i: int|
                0 <= i < b.sats@.len() ==> {
                    &&& (#[trigger] b.sats@[i]).id == a.sats@[i].id
                    &&& b.sats@[i].connections == a.sats@[i].connections
                    &&& elements_valid(b.sats@[i].elements)
                    &&& -POS_LIMIT <= b.sats@[i].position.x <= POS_LIMIT
                    &&& -POS_LIMIT <= b.sats@[i].position.y <= POS_LIMIT
                    &&& -POS_LIMIT <= b.sats@[i].position.z <= POS_LIMIT
                },
            b.next_id == a.next_id,
            b.orbits == a.orbits,
            b.orbit_ids == a.orbit_ids,
            b.followed_by == a.followed_by,
            b.unspawned_sats == a.unspawned_sats,
            b.connection_number == a.connection_number,
            b.connection_distance == a.connection_distance,
            b.time_speed == a.time_speed,
        ensures
            b.well_formed(),
    {
        assert(b.n() == a.n());
        assert forall|i: int| 0 <= i < b.n() implies #[trigger] b.sat_id(i) == a.sat_id(i) by {}
        assert forall|i: int, j: int|
            #![trigger b.sat_id(i), b.sat_id(j)]
            0 <= i < j < b.n() implies b.sat_id(i) < b.sat_id(j) by {
            assert(a.sat_id(i) < a.sat_id(j));
        }
        assert forall|i: int| 0 <= i < b.n() implies #[trigger] b.sat_id(i) < b.next_id by {
            assert(a.sat_id(i) < a.next_id);
        }
        assert forall|i: int| 0 <= i < b.n() implies b.sat_ok(i) by {
            assert(a.sat_ok(i));
            let s = b.sats@[i];
            assert(s.connections.peers@ == a.sats@[i].connections.peers@);
            assert forall|k: int|
                0 <= k < s.connections.peers@.len() implies b.has_sat(
                #[trigger] s.connections.peers@[k],
            ) by {
                let id = s.connections.peers@[k];
                assert(a.sats@[i].connections.peers@[k] == id);
                assert(a.has_sat(id));
                let w = choose|j: int| 0 <= j < a.n() && #[trigger] a.sat_id(j) == id;
                assert(0 <= w < b.n() && b.sat_id(w) == id);
            }
        }
        assert forall|i: int, j: int|
            0 <= i < b.n() && 0 <= j < b.n() && #[trigger] b.linked(i, j) implies b.linked(
            j,
            i,
        ) by {
            assert(b.peers_of(i) == a.peers_of(i));
            assert(b.peers_of(j) == a.peers_of(j));
            assert(a.linked(i, j));
            assert(a.linked(j, i));
        }
    }
}

/// `b` is `a` with a different mean anomaly and nothing else changed.
pub open spec fn sat_same_except_anomaly(a: Satellite, b: Satellite) -> bool {
    b == (Satellite {
        elements: OrbitalElements { mean_anomaly: b.elements.mean_anomaly, ..a.elements },
        ..a
    })
}

/// `b` is `a` with a different position and nothing else changed.
pub open spec fn sat_same_except_position(a: Satellite, b: Satellite) -> bool {
    b == (Satellite { position: b.position, ..a })
}

/// `b` is `a` with a different connection set or admission marker and
/// nothing else changed.
pub open spec fn sat_same_except_links(a: Satellite, b: Satellite) -> bool {
    b == (Satellite { connections: b.connections, trying: b.trying, ..a })
}

/// One tick's advance of a mean anomaly: the mean motion (nano-rad/s)
/// times the elapsed milliseconds times the speed multiplier
/// (thousandths), reduced to `[0, TWO_PI)`.
pub open spec fn tick_advanced(m: int, n: int, dt_ms: int, speed: int) -> int {
    norm_angle(m + ratio_trunc(n * dt_ms * speed, 1_000_000_000))
}

/// Everything a consumer of the context can observe is equal: the same
/// satellites with the same names, elements, positions, links and
/// markers, the same orbits, queue and configuration.
pub open spec fn same_observable(a: SatelliteManager, b: SatelliteManager) -> bool {
    &&& b.sats@.len() == a.sats@.len()
    &&& forall|i: int|
        0 <= i < a.sats@.len() ==> {
            &&& (#[trigger] b.sats@[i]).id == a.sats@[i].id
            &&& b.sats@[i].name@ == a.sats@[i].name@
            &&& b.sats@[i].elements == a.sats@[i].elements
            &&& b.sats@[i].position == a.sats@[i].position
            &&& b.sats@[i].connections.peers@ == a.sats@[i].connections.peers@
            &&& b.sats@[i].trying == a.sats@[i].trying
            &&& b.sats@[i].following == a.sats@[i].following
        }
    &&& b.orbits == a.orbits
    &&& b.orbit_ids == a.orbit_ids
    &&& b.next_id == a.next_id
    &&& b.connection_number == a.connection_number
    &&& b.connection_distance == a.connection_distance
    &&& b.time_speed == a.time_speed
}

/// `b` is `a` after a global reset: every connection set empty, every
/// admission marker cleared, and nothing else changed.
pub open spec fn reset_state(a: SatelliteManager, b: SatelliteManager) -> bool {
    &&& b.sats@.len() == a.sats@.len()
    &&& forall|i: int|
        0 <= i < a.sats@.len() ==> {
            &&& sat_same_except_links(a.sats@[i], #[trigger] b.sats@[i])
            &&& b.sats@[i].connections.peers@.len() == 0
            &&& !b.sats@[i].trying
        }
    &&& b.orbits == a.orbits
    &&& b.orbit_ids == a.orbit_ids
    &&& b.followed_by == a.followed_by
    &&& b.unspawned_sats == a.unspawned_sats
    &&& b.next_id == a.next_id
    &&& b.connection_number == a.connection_number
    &&& b.connection_distance == a.connection_distance
    &&& b.time_speed == a.time_speed
}

/// Invoking the global reset twice in a row yields the same empty-graph
/// state as invoking it once: the second reset changes nothing that any
/// consumer can observe.
pub proof fn lemma_reset_idempotent(a: SatelliteManager, b: SatelliteManager, c: SatelliteManager)
    requires
        reset_state(a, b),
        reset_state(b, c),
    ensures
        same_observable(b, c),
{
    assert forall|i: int| 0 <= i < b.sats@.len() implies (#[trigger] c.sats@[i]).id
        == b.sats@[i].id && c.sats@[i].name@ == b.sats@[i].name@ && c.sats@[i].elements
        == b.sats@[i].elements && c.sats@[i].position == b.sats@[i].position
        && c.sats@[i].connections.peers@ == b.sats@[i].connections.peers@ && c.sats@[i].trying
        == b.sats@[i].trying && c.sats@[i].following == b.sats@[i].following by {
        assert(sat_same_except_links(b.sats@[i], c.sats@[i]));
        assert(c.sats@[i].connections.peers@ =~= b.sats@[i].connections.peers@);
    }
}

impl SatelliteManager {
    /// Advance every satellite's mean anomaly by one tick of `dt_ms`
    /// simulated milliseconds at the configured time speed, keeping it
    /// in `[0, TWO_PI)`.
    pub fn update_mean_anomaly(&mut self, dt_ms: i64)
        requires
            old(self).well_formed(),
            0 <= dt_ms <= MAX_TICK_MS,
        ensures
            final(self).well_formed(),
            final(self).sats@.len() == old(self).sats@.len(),
            forall|i: int|
                0 <= i < old(self).sats@.len() ==> {
                    &&& sat_same_except_anomaly(old(self).sats@[i], #[trigger] final(self).sats@[i])
                    &&& final(self).sats@[i].elements.mean_anomaly == tick_advanced(
                        old(self).sats@[i].elements.mean_anomaly as int,
                        old(self).sats@[i].elements.mean_motion as int,
                        dt_ms as int,
                        old(self).time_speed as int,
                    )
                },
            final(self).orbits == old(self).orbits,
            final(self).orbit_ids == old(self).orbit_ids,
            final(self).followed_by == old(self).followed_by,
            final(self).unspawned_sats == old(self).unspawned_sats,
            final(self).next_id == old(self).next_id,
            final(self).connection_number == old(self).connection_number,
            final(self).connection_distance == old(self).connection_distance,
            final(self).time_speed == old(self).time_speed,
    {
        let speed = self.time_speed;
        let mut i: usize = 0;
        while i < self.sats.len()
            invariant
                old(self).well_formed(),
                0 <= dt_ms <= MAX_TICK_MS,
                0 <= speed <= MAX_TIME_SPEED,
                speed == old(self).time_speed,
                0 <= i <= self.sats@.len(),
                self.sats@.len() == old(self).sats@.len(),
                forall|k: int|
                    0 <= k < i ==> {
                        &&& sat_same_except_anomaly(old(self).sats@[k], #[trigger] self.sats@[k])
                        &&& self.sats@[k].elements.mean_anomaly == tick_advanced(
                            old(self).sats@[k].elements.mean_anomaly as int,
                            old(self).sats@[k].elements.mean_motion as int,
                            dt_ms as int,
                            speed as int,
                        )
                        &&& elements_valid(self.sats@[k].elements)
                    },
                forall|k: int| i <= k < self.sats@.len() ==> self.sats@[k] == old(self).sats@[k],
                self.orbits == old(self).orbits,
                self.orbit_ids == old(self).orbit_ids,
                self.followed_by == old(self).followed_by,
                self.unspawned_sats == old(self).unspawned_sats,
                self.next_id == old(self).next_id,
                self.connection_number == old(self).connection_number,
                self.connection_distance == old(self).connection_distance,
                self.time_speed == old(self).time_speed,
            decreases self.sats@.len() - i,
        {
            proof {
                assert(old(self).sat_ok(i as int));
            }
            let el = self.sats[i].elements;
            proof {
                assert(elements_valid(el));
                assert(0 <= (el.mean_motion as int) * (dt_ms as int) && (el.mean_motion as int) * (
                dt_ms as int) <= 0x1_0000_0000_0000_0000_0000_0000int && 0 <= (el.mean_motion as int)
                    * (dt_ms as int) * (speed as int) && (el.mean_motion as int) * (dt_ms as int) * (
                speed as int) <= 0x1000_0000_0000_0000_0000_0000_0000_0000int) by (nonlinear_arith)
                    requires
                        1 <= el.mean_motion <= 1_000_000_000_000 && 0 <= dt_ms <= 86_400_000_000
                            && 0 <= speed <= 1_000_000_000,
                ;
            }
            let prod: i128 = (el.mean_motion as i128) * (dt_ms as i128) * (speed as i128);
            let dd: i128 = prod / 1_000_000_000;
            proof {
                vstd::arithmetic::div_mod::lemma_div_is_ordered_by_denominator(prod as int, 1,
                    1_000_000_000);
                vstd::arithmetic::div_mod::lemma_div_is_ordered(0, prod as int, 1_000_000_000);
            }
            let m2 = normalize_angle_i128((el.mean_anomaly as i128) + dd);
            self.sats[i].elements.mean_anomaly = m2;
            i = i + 1;
        }
        proof {
            assert forall|i: int|
                0 <= i < self.sats@.len() implies {
                &&& (#[trigger] self.sats@[i]).id == old(self).sats@[i].id
                &&& self.sats@[i].connections == old(self).sats@[i].connections
                &&& elements_valid(self.sats@[i].elements)
                &&& -POS_LIMIT <= self.sats@[i].position.x <= POS_LIMIT
                &&& -POS_LIMIT <= self.sats@[i].position.y <= POS_LIMIT
                &&& -POS_LIMIT <= self.sats@[i].position.z <= POS_LIMIT
            } by {
                assert(old(self).sat_ok(i));
                assert(sat_same_except_anomaly(old(self).sats@[i], self.sats@[i]));
            }
            Self::lemma_same_links_wf(*old(self), *self);
        }
    }

    /// Recompute every satellite's Cartesian position from its elements.
    /// A satellite whose Kepler solve does not converge keeps its last
    /// position for this tick; the fault is per satellite, never fatal.
    pub fn update_satellite_position(&mut self)
        requires
            old(self).well_formed(),
        ensures
            final(self).well_formed(),
            final(self).sats@.len() == old(self).sats@.len(),
            forall|i: int|
                0 <= i < old(self).sats@.len() ==> {
                    &&& sat_same_except_position(old(self).sats@[i], #[trigger] final(self).sats@[i])
                    &&& match pos_spec(
                        old(self).sats@[i].elements.orbit(),
                        old(self).sats@[i].elements.mean_anomaly as int,
                    ) {
                        Some(p) => (
                            final(self).sats@[i].position.x as int,
                            final(self).sats@[i].position.y as int,
                            final(self).sats@[i].position.z as int,
                        ) == p,
                        None => final(self).sats@[i].position == old(self).sats@[i].position,
                    }
                },
            final(self).orbits == old(self).orbits,
            final(self).orbit_ids == old(self).orbit_ids,
            final(self).followed_by == old(self).followed_by,
            final(self).unspawned_sats == old(self).unspawned_sats,
            final(self).next_id == old(self).next_id,
            final(self).connection_number == old(self).connection_number,
            final(self).connection_distance == old(self).connection_distance,
            final(self).time_speed == old(self).time_speed,
    {
        let mut i: usize = 0;
        while i < self.sats.len()
            invariant
                old(self).well_formed(),
                0 <= i <= self.sats@.len(),
                self.sats@.len() == old(self).sats@.len(),
                forall|k: int|
                    0 <= k < i ==> {
                        &&& sat_same_except_position(old(self).sats@[k], #[trigger] self.sats@[k])
                        &&& match pos_spec(
                            old(self).sats@[k].elements.orbit(),
                            old(self).sats@[k].elements.mean_anomaly as int,
                        ) {
                            Some(p) => (
                                self.sats@[k].position.x as int,
                                self.sats@[k].position.y as int,
                                self.sats@[k].position.z as int,
                            ) == p,
                            None => self.sats@[k].position == old(self).sats@[k].position,
                        }
                        &&& -POS_LIMIT <= self.sats@[k].position.x <= POS_LIMIT
                        &&& -POS_LIMIT <= self.sats@[k].position.y <= POS_LIMIT
                        &&& -POS_LIMIT <= self.sats@[k].position.z <= POS_LIMIT
                    },
                forall|k: int| i <= k < self.sats@.len() ==> self.sats@[k] == old(self).sats@[k],
                self.orbits == old(self).orbits,
                self.orbit_ids == old(self).orbit_ids,
                self.followed_by == old(self).followed_by,
                self.unspawned_sats == old(self).unspawned_sats,
                self.next_id == old(self).next_id,
                self.connection_number == old(self).connection_number,
                self.connection_distance == old(self).connection_distance,
                self.time_speed == old(self).time_speed,
            decreases self.sats@.len() - i,
        {
            proof {
                assert(old(self).sat_ok(i as int));
            }
            let el = self.sats[i].elements;
            let orbit = Orbit {
                mean_motion: el.mean_motion,
                eccentricity: el.eccentricity,
                inclination: el.inclination,
                longitude_of_ascending_node: el.longitude_of_ascending_node,
                argument_of_periapsis: el.argument_of_periapsis,
            };
            match get_pos_from_elements(&orbit, el.mean_anomaly) {
                Ok(p) => {
                    self.sats[i].position = p;
                },
                Err(_) => {},
            }
            i = i + 1;
        }
        proof {
            assert forall|i: int|
                0 <= i < self.sats@.len() implies {
                &&& (#[trigger] self.sats@[i]).id == old(self).sats@[i].id
                &&& self.sats@[i].connections == old(self).sats@[i].connections
                &&& elements_valid(self.sats@[i].elements)
                &&& -POS_LIMIT <= self.sats@[i].position.x <= POS_LIMIT
                &&& -POS_LIMIT <= self.sats@[i].position.y <= POS_LIMIT
                &&& -POS_LIMIT <= self.sats@[i].position.z <= POS_LIMIT
            } by {
                assert(old(self).sat_ok(i));
                assert(sat_same_except_position(old(self).sats@[i], self.sats@[i]));
            }
            Self::lemma_same_links_wf(*old(self), *self);
        }
    }

    /// The global reset: clear every satellite's connection set and
    /// admission marker, atomically from any consumer's point of view.
    pub fn handle_disconnect_all(&mut self)
        requires
            old(self).well_formed(),
        ensures
            final(self).well_formed(),
            reset_state(*old(self), *final(self)),
    {
        let mut i: usize = 0;
        while i < self.sats.len()
            invariant
                old(self).well_formed(),
                0 <= i <= self.sats@.len(),
                self.sats@.len() == old(self).sats@.len(),
                forall|k: int|
                    0 <= k < i ==> {
                        &&& sat_same_except_links(old(self).sats@[k], #[trigger] self.sats@[k])
                        &&& self.sats@[k].connections.peers@.len() == 0
                        &&& !self.sats@[k].trying
                    },
                forall|k: int| i <= k < self.sats@.len() ==> self.sats@[k] == old(self).sats@[k],
                self.orbits == old(self).orbits,
                self.orbit_ids == old(self).orbit_ids,
                self.followed_by == old(self).followed_by,
                self.unspawned_sats == old(self).unspawned_sats,
                self.next_id == old(self).next_id,
                self.connection_number == old(self).connection_number,
                self.connection_distance == old(self).connection_distance,
                self.time_speed == old(self).time_speed,
            decreases self.sats@.len() - i,
        {
            self.sats[i].connections = Connections { peers: Vec::new() };
            self.sats[i].trying = false;
            i = i + 1;
        }
        proof {
            let a = *old(self);
            let b = *self;
            assert(b.n() == a.n());
            assert forall|i: int| 0 <= i < b.n() implies #[trigger] b.sat_id(i) == a.sat_id(i) by {}
            assert forall|i: int, j: int|
                #![trigger b.sat_id(i), b.sat_id(j)]
                0 <= i < j < b.n() implies b.sat_id(i) < b.sat_id(j) by {
                assert(a.sat_id(i) < a.sat_id(j));
            }
            assert forall|i: int| 0 <= i < b.n() implies #[trigger] b.sat_id(i) < b.next_id by {
                assert(a.sat_id(i) < a.next_id);
            }
            assert forall|i: int| 0 <= i < b.n() implies b.sat_ok(i) by {
                assert(a.sat_ok(i));
            }
            assert forall|i: int, j: int|
                0 <= i < b.n() && 0 <= j < b.n() && #[trigger] b.linked(i, j) implies b.linked(
                j,
                i,
            ) by {
                assert(b.peers_of(i).len() == 0);
            }
        }
    }

    /// Spawn every queued satellite into the table: a fresh ascending
    /// handle for the satellite and one for its orbit, an empty
    /// connection set, no admission marker, and the orbit index updated
    /// with the new back-reference.
    ///
    /// Returns whether anything was spawned, the cue to raise
    /// `OrbitChanged`. Spawning stops early only if the handle space is
    /// exhausted.
    pub fn spawn(&mut self) -> (changed: bool)
        requires
            old(self).well_formed(),
        ensures
            final(self).well_formed(),
            old(self).sats@.len() <= final(self).sats@.len() <= old(self).sats@.len() + old(
                self,
            ).unspawned_sats@.len(),
            forall|i: int|
                0 <= i < old(self).sats@.len() ==> #[trigger] final(self).sats@[i] == old(
                    self,
                ).sats@[i],
            forall|i: int|
                old(self).sats@.len() <= i < final(self).sats@.len() ==> {
                    &&& (#[trigger] final(self).sats@[i]).name == old(self).unspawned_sats@[i - old(
                        self,
                    ).sats@.len()].0
                    &&& final(self).sats@[i].elements == old(self).unspawned_sats@[i - old(
                        self,
                    ).sats@.len()].1
                    &&& final(self).sats@[i].connections.peers@.len() == 0
                    &&& !final(self).sats@[i].trying
                },
            changed == (final(self).sats@.len() > old(self).sats@.len()),
            final(self).sats@.len() == old(self).sats@.len() + old(self).unspawned_sats@.len()
                || final(self).next_id >= u64::MAX - 1,
            final(self).unspawned_sats@.len() == 0 || final(self).next_id >= u64::MAX - 1,
            final(self).orbits@.len() == old(self).orbits@.len() + final(self).sats@.len() - old(
                self,
            ).sats@.len(),
            final(self).orbit_ids@.len() == final(self).orbits@.len(),
            final(self).followed_by@.len() == final(self).orbits@.len(),
            forall|w: int|
                0 <= w < old(self).orbits@.len() ==> {
                    &&& #[trigger] final(self).orbits@[w] == old(self).orbits@[w]
                    &&& final(self).orbit_ids@[w] == old(self).orbit_ids@[w]
                    &&& final(self).followed_by@[w] == old(self).followed_by@[w]
                },
            forall|w: int|
                old(self).orbits@.len() <= w < final(self).orbits@.len() ==> {
                    &&& #[trigger] final(self).orbits@[w] == old(self).unspawned_sats@[w - old(
                        self,
                    ).orbits@.len()].1.orbit()
                    &&& final(self).sats@[old(self).sats@.len() + w - old(
                        self,
                    ).orbits@.len()].following.0 == final(self).orbit_ids@[w]
                    &&& final(self).followed_by@[w].0@.len() == 1
                    &&& final(self).followed_by@[w].0@[0] == final(self).sats@[old(
                        self,
                    ).sats@.len() + w - old(self).orbits@.len()].id
                },
            final(self).connection_number == old(self).connection_number,
            final(self).connection_distance == old(self).connection_distance,
            final(self).time_speed == old(self).time_speed,
    {
        let ghost orig = *self;
        let mut q: usize = 0;
        let total = self.unspawned_sats.len();
        let mut changed = false;
        while q < total
            invariant
                orig == *old(self),
                self.well_formed(),
                orig.well_formed(),
                0 <= q <= total,
                total == orig.unspawned_sats@.len(),
                self.unspawned_sats == orig.unspawned_sats,
                self.sats@.len() == orig.sats@.len() + q,
                forall|i: int| 0 <= i < orig.sats@.len() ==> #[trigger] self.sats@[i] == orig.sats@[i],
                forall|i: int|
                    orig.sats@.len() <= i < self.sats@.len() ==> {
                        &&& (#[trigger] self.sats@[i]).name == orig.unspawned_sats@[i
                            - orig.sats@.len()].0
                        &&& self.sats@[i].elements == orig.unspawned_sats@[i - orig.sats@.len()].1
                        &&& self.sats@[i].connections.peers@.len() == 0
                        &&& !self.sats@[i].trying
                    },
                self.orbits@.len() == orig.orbits@.len() + q,
                self.orbit_ids@.len() == self.orbits@.len(),
                self.followed_by@.len() == self.orbits@.len(),
                forall|w: int|
                    0 <= w < orig.orbits@.len() ==> {
                        &&& #[trigger] self.orbits@[w] == orig.orbits@[w]
                        &&& self.orbit_ids@[w] == orig.orbit_ids@[w]
                        &&& self.followed_by@[w] == orig.followed_by@[w]
                    },
                forall|w: int|
                    orig.orbits@.len() <= w < self.orbits@.len() ==> {
                        &&& #[trigger] self.orbits@[w] == orig.unspawned_sats@[w
                            - orig.orbits@.len()].1.orbit()
                        &&& self.sats@[orig.sats@.len() + w - orig.orbits@.len()].following.0
                            == self.orbit_ids@[w]
                        &&& self.followed_by@[w].0@.len() == 1
                        &&& self.followed_by@[w].0@[0] == self.sats@[orig.sats@.len() + w
                            - orig.orbits@.len()].id
                    },
                changed == (q > 0),
                self.connection_number == orig.connection_number,
                self.connection_distance == orig.connection_distance,
                self.time_speed == orig.time_speed,
            decreases total - q,
        {
            if self.next_id >= u64::MAX - 1 {
                return changed;
            }
            let sat_id = self.next_id;
            let orbit_id = self.next_id + 1;
            let name = self.unspawned_sats[q].0.clone();
            let elements = self.unspawned_sats[q].1;
            let (orbit, _anomaly) = elements.sep_out_mean_anomaly();
            let ghost before = *self;
            let sat = create_satellite(sat_id, name, elements, orbit_id);
            self.sats.push(sat);
            self.orbits.push(orbit);
            self.orbit_ids.push(orbit_id);
            let mut riders: Vec<u64> = Vec::new();
            riders.push(sat_id);
            self.followed_by.push(FollowedBy(riders));
            self.next_id = orbit_id + 1;
            proof {
                let a = before;
                let b = *self;
                assert(elements_valid(elements)) by {
                    assert(orig.unspawned_sats@[q as int].1 == elements);
                }
                assert(b.sats@ == a.sats@.push(sat));
                assert(b.n() == a.n() + 1);
                assert forall|i: int| 0 <= i < a.n() implies b.sats@[i] == a.sats@[i] by {}
                assert(b.sats@[a.n()] == sat);
                assert forall|i: int, j: int|
                    #![trigger b.sat_id(i), b.sat_id(j)]
                    0 <= i < j < b.n() implies b.sat_id(i) < b.sat_id(j) by {
                    if j < a.n() {
                        assert(a.sat_id(i) < a.sat_id(j));
                    } else {
                        assert(b.sat_id(j) == sat_id);
                        assert(a.sat_id(i) < a.next_id);
                    }
                }
                assert forall|i: int| 0 <= i < b.n() implies #[trigger] b.sat_id(i) < b.next_id by {
                    if i < a.n() {
                        assert(a.sat_id(i) < a.next_id);
                    }
                }
                assert forall|i: int| 0 <= i < b.n() implies b.sat_ok(i) by {
                    if i < a.n() {
                        assert(a.sat_ok(i));
                        let s = b.sats@[i];
                        assert forall|k: int|
                            0 <= k < s.connections.peers@.len() implies b.has_sat(
                            #[trigger] s.connections.peers@[k],
                        ) by {
                            let id = s.connections.peers@[k];
                            assert(a.sats@[i].connections.peers@[k] == id);
                            assert(a.has_sat(id));
                            let w = choose|j: int| 0 <= j < a.n() && #[trigger] a.sat_id(j) == id;
                            assert(b.sat_id(w) == id);
                        }
                    } else {
                        assert(b.sats@[i] == sat);
                    }
                }
                assert forall|i: int, j: int|
                    0 <= i < b.n() && 0 <= j < b.n() && #[trigger] b.linked(i, j) implies b.linked(
                    j,
                    i,
                ) by {
                    if i < a.n() && j < a.n() {
                        assert(b.peers_of(i) == a.peers_of(i));
                        assert(b.peers_of(j) == a.peers_of(j));
                        assert(a.linked(i, j));
                        assert(a.linked(j, i));
                    } else if i == a.n() {
                        assert(b.peers_of(i).len() == 0);
                        assert(!b.linked(i, j));
                    } else {
                        // No old satellite can list the fresh handle.
                        assert(a.sat_ok(i));
                        assert(b.peers_of(i) == a.peers_of(i));
                        assert(a.peers_of(i).contains(b.sat_id(j)));
                        let w0 = choose|w: int|
                            0 <= w < a.peers_of(i).len() && a.peers_of(i)[w] == b.sat_id(j);
                        assert(a.sats@[i].connections.peers@[w0] == b.sat_id(j));
                        assert(a.has_sat(b.sat_id(j)));
                        let w = choose|w: int|
                            0 <= w < a.n() && #[trigger] a.sat_id(w) == b.sat_id(j);
                        assert(a.sat_id(w) < a.next_id);
                        assert(b.sat_id(j) == sat_id);
                        assert(false);
                    }
                }
            }
            proof {
                let a = before;
                assert(self.orbits@ == a.orbits@.push(orbit));
                assert(self.orbit_ids@ == a.orbit_ids@.push(orbit_id));
                assert forall|w: int|
                    0 <= w < orig.orbits@.len() implies {
                    &&& #[trigger] self.orbits@[w] == orig.orbits@[w]
                    &&& self.orbit_ids@[w] == orig.orbit_ids@[w]
                    &&& self.followed_by@[w] == orig.followed_by@[w]
                } by {
                    assert(a.orbits@[w] == orig.orbits@[w]);
                    assert(a.orbit_ids@[w] == orig.orbit_ids@[w]);
                    assert(a.followed_by@[w] == orig.followed_by@[w]);
                }
                assert forall|w: int|
                    orig.orbits@.len() <= w < self.orbits@.len() implies {
                    &&& #[trigger] self.orbits@[w] == orig.unspawned_sats@[w
                        - orig.orbits@.len()].1.orbit()
                    &&& self.sats@[orig.sats@.len() + w - orig.orbits@.len()].following.0
                        == self.orbit_ids@[w]
                    &&& self.followed_by@[w].0@.len() == 1
                    &&& self.followed_by@[w].0@[0] == self.sats@[orig.sats@.len() + w
                        - orig.orbits@.len()].id
                } by {
                    if w < a.orbits@.len() {
                        assert(self.orbits@[w] == a.orbits@[w]);
                        assert(self.orbit_ids@[w] == a.orbit_ids@[w]);
                        assert(self.followed_by@[w] == a.followed_by@[w]);
                        assert(self.sats@[orig.sats@.len() + w - orig.orbits@.len()]
                            == a.sats@[orig.sats@.len() + w - orig.orbits@.len()]);
                    } else {
                        assert(w == a.orbits@.len());
                        assert(self.orbits@[w] == orbit);
                        assert(orbit == elements.orbit());
                        assert(self.orbit_ids@[w] == orbit_id);
                        assert(self.sats@[orig.sats@.len() + q as int] == sat);
                    }
                }
            }
            changed = true;
            q = q + 1;
        }
        let ghost pre_clear = *self;
        self.unspawned_sats = Vec::new();
        proof {
            Self::lemma_same_state_wf(pre_clear, *self);
            assert(self.sats@.len() == orig.sats@.len() + orig.unspawned_sats@.len());
        }
        changed
    }

    /// The topology as seen by the command endpoint: for each satellite,
    /// its display name and the names of the peers it is linked to.
    pub fn get_topology(&self) -> (r: Vec<(String, Vec<String>)>)
        requires
            self.well_formed(),
        ensures
            r@.len() == self.n(),
            forall|i: int|
                0 <= i < self.n() ==> (#[trigger] r@[i]).0@ == self.sats@[i].name@ && r@[i].1@.len()
                    == self.peers_of(i).len(),
            forall|i: int, k: int|
                0 <= i < self.n() && 0 <= k < self.peers_of(i).len() ==> (#[trigger] r@[i].1@[k])@
                    == self.sats@[self.index_of(self.peers_of(i)[k])].name@,
    {
        let mut r: Vec<(String, Vec<String>)> = Vec::new();
        let mut i: usize = 0;
        while i < self.sats.len()
            invariant
                self.well_formed(),
                0 <= i <= self.n(),
                r@.len() == i,
                forall|q: int|
                    0 <= q < i ==> (#[trigger] r@[q]).0@ == self.sats@[q].name@ && r@[q].1@.len()
                        == self.peers_of(q).len(),
                forall|q: int, k: int|
                    0 <= q < i && 0 <= k < self.peers_of(q).len() ==> (#[trigger] r@[q].1@[k])@
                        == self.sats@[self.index_of(self.peers_of(q)[k])].name@,
            decreases self.n() - i,
        {
            proof {
                assert(self.sat_ok(i as int));
            }
            let mut peer_names: Vec<String> = Vec::new();
            let deg = self.sats[i].connections.peers.len();
            let mut k: usize = 0;
            while k < deg
                invariant
                    self.well_formed(),
                    0 <= i < self.n(),
                    0 <= k <= deg,
                    deg == self.peers_of(i as int).len(),
                    peer_names@.len() == k,
                    forall|w: int|
                        0 <= w < k ==> (#[trigger] peer_names@[w])@ == self.sats@[self.index_of(
                            self.peers_of(i as int)[w],
                        )].name@,
                decreases deg - k,
            {
                let pid = self.sats[i].connections.peers[k];
                proof {
                    assert(self.sat_ok(i as int));
                    assert(self.peers_of(i as int)[k as int] == pid);
                    assert(self.has_sat(pid));
                }
                match self.find_index(pid) {
                    Some(j) => {
                        peer_names.push(self.sats[j].name.clone());
                        proof {
                            let w = self.index_of(pid);
                            assert(0 <= w < self.n() && self.sat_id(w) == pid);
                            if w != j as int {
                                self.lemma_ids_distinct(w, j as int);
                            }
                        }
                    },
                    None => {
                        proof {
                            assert(false);
                        }
                    },
                }
                k = k + 1;
            }
            r.push((self.sats[i].name.clone(), peer_names));
            i = i + 1;
        }
        r
    }

    /// One full simulation tick, its five phases in strict order after
    /// the motion updates: advance every mean anomaly, recompute the
    /// positions, select candidates by the injected random seed, propose
    /// connections, apply them, detect out-of-range links, apply the
    /// disconnections.
    ///
    /// Afterwards the invariant holds in full: every connection set is
    /// within capacity and the link relation is symmetric, with no
    /// self-loops and no duplicates; no satellite is created or removed,
    /// and no identity, name or orbit changes. The motion is pinned
    /// exactly - every mean anomaly advances per `tick_advanced` and
    /// every position follows `pos_spec` - and no link whose endpoints
    /// lie farther apart than the threshold survives the tick.
    /// If every out-of-range edge was proposed for eviction and the
    /// eviction list was applied exactly, then every surviving link is
    /// within the distance threshold.
    proof fn lemma_links_in_range(
        s5: Self,
        fin: Self,
        evictions: Seq<crate::communication::DisconnectTwo>,
    )
        requires
            s5.well_formed(),
            fin.sats@.len() == s5.sats@.len(),
            forall|a: int, b: int|
                0 <= a < s5.n() && 0 <= b < s5.n() ==> (#[trigger] fin.linked(a, b) <==> (
                s5.linked(a, b) && !crate::communication::disc_requested(
                    evictions,
                    s5.sat_id(a),
                    s5.sat_id(b),
                ))),
            forall|a: int, b: int|
                #![trigger s5.sat_id(a), s5.sat_id(b)]
                crate::communication::evict_pair(s5, a, b)
                    ==> crate::communication::disc_requested(
                    evictions,
                    s5.sat_id(a),
                    s5.sat_id(b),
                ),
            forall|i: int|
                0 <= i < s5.sats@.len() ==> (#[trigger] fin.sats@[i]).position
                    == s5.sats@[i].position,
        ensures
            forall|a: int, b: int|
                0 <= a < s5.n() && 0 <= b < s5.n() && #[trigger] fin.linked(a, b) ==> dist_sq_spec(
                    fin.sats@[a].position,
                    fin.sats@[b].position,
                ) <= (s5.connection_distance as int) * (s5.connection_distance as int),
    {
        let t = s5.connection_distance as int;
        assert forall|a: int, b: int|
            0 <= a < s5.n() && 0 <= b < s5.n() && #[trigger] fin.linked(a, b) implies dist_sq_spec(
            fin.sats@[a].position,
            fin.sats@[b].position,
        ) <= t * t by {
            assert(s5.linked(a, b));
            if dist_sq_spec(fin.sats@[a].position, fin.sats@[b].position) > t * t {
                assert(fin.sats@[a].position == s5.sats@[a].position);
                assert(fin.sats@[b].position == s5.sats@[b].position);
                if a == b {
                    assert(s5.sat_ok(a));
                    assert(!s5.linked(a, a));
                } else {
                    s5.lemma_ids_distinct(a, b);
                    if s5.sat_id(a) < s5.sat_id(b) {
                        assert(crate::communication::evict_pair(s5, a, b));
                        assert(crate::communication::disc_requested(evictions, s5.sat_id(a),
                            s5.sat_id(b)));
                    } else {
                        assert(s5.linked(b, a));
                        crate::communication::lemma_dist_sq_symmetric(s5.sats@[a].position,
                            s5.sats@[b].position);
                        assert(crate::communication::evict_pair(s5, b, a));
                        assert(crate::communication::disc_requested(evictions, s5.sat_id(b),
                            s5.sat_id(a)));
                        let w = choose|w: int|
                            0 <= w < evictions.len() && (((#[trigger] evictions[w]).from
                                == s5.sat_id(b) && evictions[w].to == s5.sat_id(a)) || (
                            evictions[w].from == s5.sat_id(a) && evictions[w].to == s5.sat_id(b)));
                        assert(crate::communication::disc_requested(evictions, s5.sat_id(a),
                            s5.sat_id(b)));
                    }
                    assert(!fin.linked(a, b));
                }
            }
        }
    }

    #[verifier::rlimit(100)]
    pub fn tick(&mut self, dt_ms: i64, order_seed: u64)
        requires
            old(self).well_formed(),
            0 <= dt_ms <= MAX_TICK_MS,
        ensures
            final(self).well_formed(),
            final(self).sats@.len() == old(self).sats@.len(),
            forall|i: int|
                0 <= i < old(self).sats@.len() ==> same_identity(
                    old(self).sats@[i],
                    #[trigger] final(self).sats@[i],
                ),
            forall|i: int|
                0 <= i < old(self).sats@.len()
                    ==> (#[trigger] final(self).sats@[i]).elements.mean_anomaly == tick_advanced(
                    old(self).sats@[i].elements.mean_anomaly as int,
                    old(self).sats@[i].elements.mean_motion as int,
                    dt_ms as int,
                    old(self).time_speed as int,
                ),
            forall|i: int|
                0 <= i < old(self).sats@.len() ==> match pos_spec(
                    old(self).sats@[i].elements.orbit(),
                    tick_advanced(
                        old(self).sats@[i].elements.mean_anomaly as int,
                        old(self).sats@[i].elements.mean_motion as int,
                        dt_ms as int,
                        old(self).time_speed as int,
                    ),
                ) {
                    Some(p) => (
                        (#[trigger] final(self).sats@[i]).position.x as int,
                        final(self).sats@[i].position.y as int,
                        final(self).sats@[i].position.z as int,
                    ) == p,
                    None => final(self).sats@[i].position == old(self).sats@[i].position,
                },
            forall|a: int, b: int|
                0 <= a < old(self).sats@.len() && 0 <= b < old(self).sats@.len()
                    && #[trigger] final(self).linked(a, b) ==> dist_sq_spec(
                    final(self).sats@[a].position,
                    final(self).sats@[b].position,
                ) <= (old(self).connection_distance as int) * (
                old(self).connection_distance as int),
            exists|
                s2: SatelliteManager,
                s3: SatelliteManager,
                s4: SatelliteManager,
                s5: SatelliteManager,
                order: Seq<(usize, usize)>,
                props: Seq<crate::communication::ConnectTwo>,
                evs: Seq<crate::communication::DisconnectTwo>,
            |
                motion_rel(*old(self), s2, dt_ms as int) && #[trigger] tick_phases(
                    s2,
                    s3,
                    s4,
                    s5,
                    *final(self),
                    order,
                    props,
                    evs,
                ),
            final(self).connection_number == old(self).connection_number,
            final(self).connection_distance == old(self).connection_distance,
            final(self).time_speed == old(self).time_speed,
    {
        let ghost s0 = *self;
        self.update_mean_anomaly(dt_ms);
        let ghost s1 = *self;
        self.update_satellite_position();
        let ghost s2 = *self;
        self.mark_satellites_try_connect(order_seed);
        let ghost s3 = *self;
        let props = self.connect_nearest();
        let ghost s4 = *self;
        self.handle_connection(&props);
        let ghost s5 = *self;
        let evictions = self.disconnect_farthest();
        self.handle_disconnection(&evictions);
        proof {
            assert forall|i: int|
                0 <= i < s0.sats@.len() implies {
                &&& same_identity(s0.sats@[i], #[trigger] self.sats@[i])
                &&& self.sats@[i].elements == s1.sats@[i].elements
                &&& self.sats@[i].position == s2.sats@[i].position
            } by {
                assert(sat_same_except_anomaly(s0.sats@[i], s1.sats@[i]));
                assert(sat_same_except_position(s1.sats@[i], s2.sats@[i]));
                assert(crate::communication::sat_same_except_trying(s2.sats@[i], s3.sats@[i]));
                assert(crate::communication::sat_same_except_trying(s3.sats@[i], s4.sats@[i]));
                assert(crate::communication::sat_same_except_conns(s4.sats@[i], s5.sats@[i]));
                assert(crate::communication::sat_same_except_conns(s5.sats@[i], self.sats@[i]));
            }
            assert forall|i: int|
                0 <= i < s0.sats@.len() implies match pos_spec(
                s0.sats@[i].elements.orbit(),
                tick_advanced(
                    s0.sats@[i].elements.mean_anomaly as int,
                    s0.sats@[i].elements.mean_motion as int,
                    dt_ms as int,
                    s0.time_speed as int,
                ),
            ) {
                Some(p) => (
                    (#[trigger] self.sats@[i]).position.x as int,
                    self.sats@[i].position.y as int,
                    self.sats@[i].position.z as int,
                ) == p,
                None => self.sats@[i].position == s0.sats@[i].position,
            } by {
                assert(sat_same_except_anomaly(s0.sats@[i], s1.sats@[i]));
                assert(s1.sats@[i].elements.orbit() == s0.sats@[i].elements.orbit());
                assert(sat_same_except_position(s1.sats@[i], s2.sats@[i]));
                assert(s1.sats@[i].position == s0.sats@[i].position);
            }
            // No out-of-range link survives the tick: phase 4 proposes
            // every such edge in canonical direction and phase 5 removes
            // exactly what was proposed.
            assert forall|i: int| 0 <= i < s5.sats@.len() implies (#[trigger] self.sats@[i]).position
                == s5.sats@[i].position by {
                assert(crate::communication::sat_same_except_conns(s5.sats@[i], self.sats@[i]));
            }
            Self::lemma_links_in_range(s5, *self, evictions@);
            // The ghost snapshots of the pipeline witness the phase
            // composition.
            let order = choose|o: Seq<(usize, usize)>|
                crate::communication::marks_from_order(s2, s3, o);
            assert(motion_rel(s0, s2, dt_ms as int)) by {
                assert forall|i: int|
                    0 <= i < s0.sats@.len() implies {
                    &&& (#[trigger] s2.sats@[i]).id == s0.sats@[i].id
                    &&& s2.sats@[i].name == s0.sats@[i].name
                    &&& s2.sats@[i].following == s0.sats@[i].following
                    &&& s2.sats@[i].connections == s0.sats@[i].connections
                    &&& s2.sats@[i].trying == s0.sats@[i].trying
                    &&& s2.sats@[i].elements.orbit() == s0.sats@[i].elements.orbit()
                    &&& s2.sats@[i].elements.mean_anomaly == tick_advanced(
                        s0.sats@[i].elements.mean_anomaly as int,
                        s0.sats@[i].elements.mean_motion as int,
                        dt_ms as int,
                        s0.time_speed as int,
                    )
                    &&& match pos_spec(
                        s0.sats@[i].elements.orbit(),
                        s2.sats@[i].elements.mean_anomaly as int,
                    ) {
                        Some(p) => (
                            s2.sats@[i].position.x as int,
                            s2.sats@[i].position.y as int,
                            s2.sats@[i].position.z as int,
                        ) == p,
                        None => s2.sats@[i].position == s0.sats@[i].position,
                    }
                } by {
                    assert(sat_same_except_anomaly(s0.sats@[i], s1.sats@[i]));
                    assert(sat_same_except_position(s1.sats@[i], s2.sats@[i]));
                    assert(s1.sats@[i].position == s0.sats@[i].position);
                }
            }
            assert(tick_phases(s2, s3, s4, s5, *self, order, props@, evictions@));
        }
    }
}

/// How a tick's motion updates relate its start to the state the link
/// phases run on: every mean anomaly advanced per `tick_advanced`,
/// every position recomputed per `pos_spec`, everything else untouched.
pub open spec fn motion_rel(s0: SatelliteManager, s2: SatelliteManager, dt_ms: int) -> bool {
    &&& s2.sats@.len() == s0.sats@.len()
    &&& s2.connection_number == s0.connection_number
    &&& s2.connection_distance == s0.connection_distance
    &&& s2.time_speed == s0.time_speed
    &&& forall|i: int|
        0 <= i < s0.sats@.len() ==> {
            &&& (#[trigger] s2.sats@[i]).id == s0.sats@[i].id
            &&& s2.sats@[i].name == s0.sats@[i].name
            &&& s2.sats@[i].following == s0.sats@[i].following
            &&& s2.sats@[i].connections == s0.sats@[i].connections
            &&& s2.sats@[i].trying == s0.sats@[i].trying
            &&& s2.sats@[i].elements.orbit() == s0.sats@[i].elements.orbit()
            &&& s2.sats@[i].elements.mean_anomaly == tick_advanced(
                s0.sats@[i].elements.mean_anomaly as int,
                s0.sats@[i].elements.mean_motion as int,
                dt_ms,
                s0.time_speed as int,
            )
            &&& match pos_spec(
                s0.sats@[i].elements.orbit(),
                s2.sats@[i].elements.mean_anomaly as int,
            ) {
                Some(p) => (
                    s2.sats@[i].position.x as int,
                    s2.sats@[i].position.y as int,
                    s2.sats@[i].position.z as int,
                ) == p,
                None => s2.sats@[i].position == s0.sats@[i].position,
            }
        }
}

/// How the five phases relate the post-motion state to the tick's end:
/// a shuffle order governing the marks, a proposal list meeting each
/// proposer's quota nearest-first, the proposals folded over the
/// connection table, and the out-of-range edges evicted exactly.
pub open spec fn tick_phases(
    s2: SatelliteManager,
    s3: SatelliteManager,
    s4: SatelliteManager,
    s5: SatelliteManager,
    fin: SatelliteManager,
    order: Seq<(usize, usize)>,
    props: Seq<crate::communication::ConnectTwo>,
    evs: Seq<crate::communication::DisconnectTwo>,
) -> bool {
    &&& s3.sats@.len() == s2.sats@.len()
    &&& s3.connection_number == s2.connection_number
    &&& s3.connection_distance == s2.connection_distance
    &&& crate::communication::marks_from_order(s2, s3, order)
    &&& forall|i: int|
        0 <= i < s2.sats@.len() ==> crate::communication::sat_same_except_trying(
            s2.sats@[i],
            #[trigger] s3.sats@[i],
        )
    &&& s4.sats@.len() == s3.sats@.len()
    &&& s4.connection_number == s3.connection_number
    &&& forall|i: int|
        0 <= i < s3.sats@.len() ==> crate::communication::sat_same_except_trying(
            s3.sats@[i],
            #[trigger] s4.sats@[i],
        ) && !s4.sats@[i].trying
    &&& forall|k: int|
        0 <= k < props.len() ==> crate::communication::proposal_ok(s3, #[trigger] props[k])
    &&& forall|i: int|
        0 <= i < s3.n() ==> crate::communication::count_from(props, #[trigger] s3.sat_id(i)) == (
        if s3.sats@[i].trying {
            crate::communication::proposal_quota(s3, i)
        } else {
            0int
        })
    &&& forall|i: int, j: int, j2: int|
        0 <= i < s3.n() && s3.sats@[i].trying && crate::communication::cand_ok(s3, i, j)
            && crate::communication::cand_ok(s3, i, j2)
            && #[trigger] crate::communication::nearer_target(s3, i, j, j2)
            && #[trigger] crate::communication::directed_requested(
            props,
            s3.sat_id(i),
            s3.sat_id(j2),
        ) ==> crate::communication::directed_requested(props, s3.sat_id(i), s3.sat_id(j))
    &&& s5.sats@.len() == s4.sats@.len()
    &&& forall|i: int|
        0 <= i < s4.sats@.len() ==> crate::communication::sat_same_except_conns(
            s4.sats@[i],
            #[trigger] s5.sats@[i],
        )
    &&& s5.conns_of() == crate::communication::apply_connects(
        s4.ids_of(),
        s4.conns_of(),
        props,
        s4.connection_number as int,
    )
    &&& forall|k: int|
        0 <= k < evs.len() ==> crate::communication::sound_evict_prop(s5, #[trigger] evs[k])
    &&& forall|a: int, b: int|
        #![trigger s5.sat_id(a), s5.sat_id(b)]
        crate::communication::evict_pair(s5, a, b) ==> crate::communication::disc_requested(
            evs,
            s5.sat_id(a),
            s5.sat_id(b),
        )
    &&& fin.sats@.len() == s5.sats@.len()
    &&& forall|i: int|
        0 <= i < s5.sats@.len() ==> crate::communication::sat_same_except_conns(
            s5.sats@[i],
            #[trigger] fin.sats@[i],
        )
    &&& forall|a: int, b: int|
        0 <= a < s5.n() && 0 <= b < s5.n() ==> (#[trigger] fin.linked(a, b) <==> (s5.linked(a, b)
            && !crate::communication::disc_requested(evs, s5.sat_id(a), s5.sat_id(b))))
}

/// Nothing a tick may change about who a satellite is: the handle, the
/// name, the orbit it rides and its orientation elements all persist.
pub open spec fn same_identity(a: Satellite, b: Satellite) -> bool {
    &&& b.id == a.id
    &&& b.name == a.name
    &&& b.following == a.following
    &&& b.elements.orbit() == a.elements.orbit()
}

} // verus!
