//! The link-topology state machine: once per tick, five strictly
//! ordered phases select under-capacity satellites, propose connections
//! to nearby peers, apply them under a capacity re-check, detect
//! out-of-range links, and apply the disconnections.
//!
//! All decisions work on squared distances against the squared
//! threshold, and the canonical direction of an edge is the pair with
//! the smaller satellite handle first.

use vstd::multiset::Multiset;
use vstd::prelude::*;

use crate::manager::SatelliteManager;
use crate::manager::Satellite;
use crate::orbit::Position;
use crate::orbit::POS_LIMIT;

verus! {

/// The external command that clears the whole link graph.
#[derive(Debug, Clone, Copy, PartialEq, Eq, Structural)]
pub struct DisconnectAll;

/// A connect proposal from one satellite to another, by handle.
#[derive(Debug, Clone, Copy, PartialEq, Eq, Structural)]
pub struct ConnectTwo {
    pub from: u64,
    pub to: u64,
}

/// A disconnect proposal for an existing edge, by handle.
#[derive(Debug, Clone, Copy, PartialEq, Eq, Structural)]
pub struct DisconnectTwo {
    pub from: u64,
    pub to: u64,
}

/// `b` is `a` with a different admission marker and nothing else
/// changed.
pub open spec fn sat_same_except_trying(a: Satellite, b: Satellite) -> bool {
    b == (Satellite { trying: b.trying, ..a })
}

/// The squared distance between two positions, in square metres.
pub open spec fn dist_sq_spec(a: Position, b: Position) -> int {
    (a.x - b.x) * (a.x - b.x) + (a.y - b.y) * (a.y - b.y) + (a.z - b.z) * (a.z - b.z)
}

/// The squared distance does not depend on the order of its endpoints.
pub proof fn lemma_dist_sq_symmetric(p: Position, q: Position)
    ensures
        dist_sq_spec(p, q) == dist_sq_spec(q, p),
{
    assert((p.x - q.x) * (p.x - q.x) == (q.x - p.x) * (q.x - p.x)) by (nonlinear_arith);
    assert((p.y - q.y) * (p.y - q.y) == (q.y - p.y) * (q.y - p.y)) by (nonlinear_arith);
    assert((p.z - q.z) * (p.z - q.z) == (q.z - p.z) * (q.z - p.z)) by (nonlinear_arith);
}

/// Squared distance between two in-range positions; using the square
/// saves a root per comparison and loses nothing against a squared
/// threshold.
pub fn dist_sq(a: &Position, b: &Position) -> (d: i128)
    requires
        -POS_LIMIT <= a.x <= POS_LIMIT,
        -POS_LIMIT <= a.y <= POS_LIMIT,
        -POS_LIMIT <= a.z <= POS_LIMIT,
        -POS_LIMIT <= b.x <= POS_LIMIT,
        -POS_LIMIT <= b.y <= POS_LIMIT,
        -POS_LIMIT <= b.z <= POS_LIMIT,
    ensures
        d == dist_sq_spec(*a, *b),
        0 <= d <= 48_000_000_000_000_000_000_000_000,
{
    let dx: i128 = (a.x as i128) - (b.x as i128);
    let dy: i128 = (a.y as i128) - (b.y as i128);
    let dz: i128 = (a.z as i128) - (b.z as i128);
    proof {
        assert(0 <= dx * dx <= 16_000_000_000_000_000_000_000_000 && 0 <= dy * dy
            <= 16_000_000_000_000_000_000_000_000 && 0 <= dz * dz
            <= 16_000_000_000_000_000_000_000_000) by (nonlinear_arith)
            requires
                -4_000_000_000_000 <= dx <= 4_000_000_000_000 && -4_000_000_000_000 <= dy
                    <= 4_000_000_000_000 && -4_000_000_000_000 <= dz <= 4_000_000_000_000,
        ;
    }
    dx * dx + dy * dy + dz * dz
}

/// One step of a 64-bit linear congruential generator, the injected
/// random source of the candidate shuffle.
fn next_rand(state: u64) -> u64 {
    let wide: u128 = (state as u128) * 6_364_136_223_846_793_005u128
        + 1_442_695_040_888_963_407u128;
    #[verifier::truncate] (wide as u64)
}

/// Shuffle the candidate list by drawing entries without replacement
/// from the injected seed: deterministic in the seed, so tests can fix
/// the outcome, and the multiset of entries is unchanged.
fn shuffle_candidates(v: &mut Vec<(usize, usize)>, seed: u64)
    ensures
        final(v)@.to_multiset() == old(v)@.to_multiset(),
        final(v)@.len() == old(v)@.len(),
{
    broadcast use vstd::seq_lib::group_to_multiset_ensures;

    let mut out: Vec<(usize, usize)> = Vec::new();
    let ghost orig = v@;
    let mut state = seed;
    while v.len() > 0
        invariant
            out@.to_multiset().add(v@.to_multiset()) =~= orig.to_multiset(),
            out@.len() + v@.len() == orig.len(),
        decreases v@.len(),
    {
        state = next_rand(state);
        let idx = (state % (v.len() as u64)) as usize;
        let ghost v_before = v@;
        let ghost out_before = out@;
        let picked = v.remove(idx);
        out.push(picked);
        proof {
            broadcast use vstd::seq_lib::group_to_multiset_ensures;

            assert(picked == v_before[idx as int]);
            assert(v_before.remove(idx as int).to_multiset() =~= v_before.to_multiset().remove(
                v_before[idx as int],
            ));
            assert(out_before.push(picked).to_multiset() =~= out_before.to_multiset().insert(
                picked,
            ));
            assert(v_before.contains(picked));
            assert(v_before.to_multiset().count(picked) > 0);
            assert forall|x: (usize, usize)|
                out@.to_multiset().count(x) + v@.to_multiset().count(x) == orig.to_multiset().count(
                x,
            ) by {
                assert(out_before.to_multiset().count(x) + v_before.to_multiset().count(x)
                    == orig.to_multiset().count(x));
            }
            assert(out@.to_multiset().add(v@.to_multiset()) =~= orig.to_multiset());
        }
    }
    proof {
        broadcast use vstd::seq_lib::group_to_multiset_ensures;

        assert(v@.to_multiset() =~= Multiset::<(usize, usize)>::empty()) by {
            assert(v@.to_multiset().len() == 0);
        }
        assert(out@.to_multiset() =~= orig.to_multiset());
    }
    *v = out;
}

/// Non-decreasing in the second component, the degree.
pub open spec fn sorted_by_degree(s: Seq<(usize, usize)>) -> bool {
    forall|i: int, j: int| 0 <= i < j < s.len() ==> (#[trigger] s[i]).1 <= (#[trigger] s[j]).1
}

/// Stable sort of `(index, degree)` pairs by ascending degree, by
/// repeatedly extracting the first entry of least degree.
fn sort_by_degree(v: &mut Vec<(usize, usize)>)
    ensures
        final(v)@.to_multiset() == old(v)@.to_multiset(),
        final(v)@.len() == old(v)@.len(),
        sorted_by_degree(final(v)@),
{
    broadcast use vstd::seq_lib::group_to_multiset_ensures;

    let mut out: Vec<(usize, usize)> = Vec::new();
    let ghost orig = v@;
    while v.len() > 0
        invariant
            out@.to_multiset().add(v@.to_multiset()) =~= orig.to_multiset(),
            out@.len() + v@.len() == orig.len(),
            sorted_by_degree(out@),
            forall|k: int, l: int|
                0 <= k < out@.len() && 0 <= l < v@.len() ==> (#[trigger] out@[k]).1 <= (
                #[trigger] v@[l]).1,
        decreases v@.len(),
    {
        let mut best: usize = 0;
        let mut i: usize = 1;
        while i < v.len()
            invariant
                0 < v@.len(),
                0 <= best < i <= v@.len(),
                forall|l: int| 0 <= l < i ==> (#[trigger] v@[l]).1 >= v@[best as int].1,
            decreases v@.len() - i,
        {
            if v[i].1 < v[best].1 {
                best = i;
            }
            i = i + 1;
        }
        let ghost v_before = v@;
        let ghost out_before = out@;
        let picked = v.remove(best);
        out.push(picked);
        proof {
            broadcast use vstd::seq_lib::group_to_multiset_ensures;

            assert(picked == v_before[best as int]);
            assert(v@ == v_before.remove(best as int));
            assert(out@ == out_before.push(picked));
            assert(v_before.remove(best as int).to_multiset() =~= v_before.to_multiset().remove(
                v_before[best as int],
            ));
            assert(out_before.push(picked).to_multiset() =~= out_before.to_multiset().insert(
                picked,
            ));
            assert(v_before.contains(picked));
            assert(v_before.to_multiset().count(picked) > 0);
            assert forall|x: (usize, usize)|
                out@.to_multiset().count(x) + v@.to_multiset().count(x) == orig.to_multiset().count(
                x,
            ) by {
                assert(out_before.to_multiset().count(x) + v_before.to_multiset().count(x)
                    == orig.to_multiset().count(x));
            }
            assert(out@.to_multiset().add(v@.to_multiset()) =~= orig.to_multiset());
        }
    }
    proof {
        broadcast use vstd::seq_lib::group_to_multiset_ensures;

        assert(v@.to_multiset() =~= Multiset::<(usize, usize)>::empty()) by {
            assert(v@.to_multiset().len() == 0);
        }
        assert(out@.to_multiset() =~= orig.to_multiset());
    }
    *v = out;
}

/// Non-decreasing in squared distance, ties broken by index.
pub open spec fn sorted_by_dist(s: Seq<(i128, usize)>) -> bool {
    forall|i: int, j: int|
        0 <= i < j < s.len() ==> ((#[trigger] s[i]).0 < (#[trigger] s[j]).0 || (s[i].0 == s[j].0
            && s[i].1 <= s[j].1))
}

/// Sort `(squared distance, index)` candidates ascending, nearest
/// first, ties broken by index so the order is deterministic.
fn sort_by_dist(v: &mut Vec<(i128, usize)>)
    ensures
        final(v)@.to_multiset() == old(v)@.to_multiset(),
        final(v)@.len() == old(v)@.len(),
        sorted_by_dist(final(v)@),
{
    broadcast use vstd::seq_lib::group_to_multiset_ensures;

    let mut out: Vec<(i128, usize)> = Vec::new();
    let ghost orig = v@;
    while v.len() > 0
        invariant
            out@.to_multiset().add(v@.to_multiset()) =~= orig.to_multiset(),
            out@.len() + v@.len() == orig.len(),
            sorted_by_dist(out@),
            forall|k: int, l: int|
                0 <= k < out@.len() && 0 <= l < v@.len() ==> ((#[trigger] out@[k]).0 < (
                #[trigger] v@[l]).0 || (out@[k].0 == v@[l].0 && out@[k].1 <= v@[l].1)),
        decreases v@.len(),
    {
        let mut best: usize = 0;
        let mut i: usize = 1;
        while i < v.len()
            invariant
                0 < v@.len(),
                0 <= best < i <= v@.len(),
                forall|l: int|
                    0 <= l < i ==> ((#[trigger] v@[l]).0 > v@[best as int].0 || (v@[l].0
                        == v@[best as int].0 && v@[l].1 >= v@[best as int].1)),
            decreases v@.len() - i,
        {
            let (d, idx) = v[i];
            let (bd, bidx) = v[best];
            if d < bd || (d == bd && idx < bidx) {
                best = i;
            }
            i = i + 1;
        }
        let ghost v_before = v@;
        let ghost out_before = out@;
        let picked = v.remove(best);
        out.push(picked);
        proof {
            broadcast use vstd::seq_lib::group_to_multiset_ensures;

            assert(picked == v_before[best as int]);
            assert(v_before.remove(best as int).to_multiset() =~= v_before.to_multiset().remove(
                v_before[best as int],
            ));
            assert(out_before.push(picked).to_multiset() =~= out_before.to_multiset().insert(
                picked,
            ));
            assert(v_before.contains(picked));
            assert(v_before.to_multiset().count(picked) > 0);
            assert forall|x: (i128, usize)|
                out@.to_multiset().count(x) + v@.to_multiset().count(x) == orig.to_multiset().count(
                x,
            ) by {
                assert(out_before.to_multiset().count(x) + v_before.to_multiset().count(x)
                    == orig.to_multiset().count(x));
            }
            assert(out@.to_multiset().add(v@.to_multiset()) =~= orig.to_multiset());
        }
    }
    proof {
        broadcast use vstd::seq_lib::group_to_multiset_ensures;

        assert(v@.to_multiset() =~= Multiset::<(i128, usize)>::empty()) by {
            assert(v@.to_multiset().len() == 0);
        }
        assert(out@.to_multiset() =~= orig.to_multiset());
    }
    *v = out;
}

/// What phase 2 promises of each proposal it emits: the proposer was
/// marked, the target was an unmarked, under-capacity peer, and the
/// two lay strictly within the distance threshold of each other.
pub open spec fn proposal_ok(m: SatelliteManager, p: ConnectTwo) -> bool {
    exists|i: int, j: int|
        #![trigger m.sat_id(i), m.sat_id(j)]
        {
            &&& 0 <= i < m.n() && 0 <= j < m.n() && i != j
            &&& m.sat_id(i) == p.from && m.sat_id(j) == p.to
            &&& m.sats@[i].trying && !m.sats@[j].trying
            &&& m.peers_of(j).len() < m.connection_number
            &&& dist_sq_spec(m.sats@[i].position, m.sats@[j].position) < (
            m.connection_distance as int) * (m.connection_distance as int)
        }
}

/// Whether a proposal list asks for the unordered pair `{a, b}`.
pub open spec fn prop_requested(ps: Seq<ConnectTwo>, a: u64, b: u64) -> bool {
    exists|k: int|
        0 <= k < ps.len() && (((#[trigger] ps[k]).from == a && ps[k].to == b) || (ps[k].from == b
            && ps[k].to == a))
}

/// The eligibility of `j` as a connection target for proposer `i`:
/// another satellite, unmarked, under capacity, strictly within the
/// distance threshold.
pub open spec fn cand_ok(m: SatelliteManager, i: int, j: int) -> bool {
    &&& 0 <= j < m.n()
    &&& j != i
    &&& !m.sats@[j].trying
    &&& m.peers_of(j).len() < m.connection_number
    &&& dist_sq_spec(m.sats@[i].position, m.sats@[j].position) < (m.connection_distance as int) * (
    m.connection_distance as int)
}

/// How many eligible targets proposer `i` has below index `k`.
pub open spec fn cand_count(m: SatelliteManager, i: int, k: int) -> int
    decreases k,
{
    if k <= 0 {
        0
    } else {
        cand_count(m, i, k - 1) + if cand_ok(m, i, k - 1) {
            1int
        } else {
            0int
        }
    }
}

/// How many fresh links proposer `i` still wants: its remaining
/// capacity, or none if it is already full.
pub open spec fn want_of(m: SatelliteManager, i: int) -> int {
    if m.peers_of(i).len() < m.connection_number {
        m.connection_number - m.peers_of(i).len()
    } else {
        0
    }
}

/// How many proposals phase 2 owes proposer `i`: its remaining
/// capacity, bounded by how many eligible candidates it has.
pub open spec fn proposal_quota(m: SatelliteManager, i: int) -> int {
    vstd::math::min(want_of(m, i), cand_count(m, i, m.n()))
}

/// How many proposals of the list are from the given handle.
pub open spec fn count_from(ps: Seq<ConnectTwo>, id: u64) -> int
    decreases ps.len(),
{
    if ps.len() == 0 {
        0
    } else {
        count_from(ps.drop_last(), id) + if ps.last().from == id {
            1int
        } else {
            0int
        }
    }
}

/// Whether the list holds a proposal from `a` to `b`, in that
/// direction.
pub open spec fn directed_requested(ps: Seq<ConnectTwo>, a: u64, b: u64) -> bool {
    exists|k: int| 0 <= k < ps.len() && (#[trigger] ps[k]).from == a && ps[k].to == b
}

/// Whether target `j` is strictly nearer to proposer `i` than target
/// `j2` is, ties broken by index.
pub open spec fn nearer_target(m: SatelliteManager, i: int, j: int, j2: int) -> bool {
    let d = dist_sq_spec(m.sats@[i].position, m.sats@[j].position);
    let d2 = dist_sq_spec(m.sats@[i].position, m.sats@[j2].position);
    d < d2 || (d == d2 && j < j2)
}

/// Appending one proposal raises its sender's count by one and no
/// other.
proof fn lemma_count_from_push(ps: Seq<ConnectTwo>, p: ConnectTwo, id: u64)
    ensures
        count_from(ps.push(p), id) == count_from(ps, id) + if p.from == id {
            1int
        } else {
            0int
        },
{
    assert(ps.push(p).drop_last() =~= ps);
    assert(ps.push(p).last() == p);
}

/// A sender's count is non-negative, and zero exactly when no proposal
/// of the list is from it.
proof fn lemma_count_from_zero(ps: Seq<ConnectTwo>, id: u64)
    ensures
        0 <= count_from(ps, id),
        count_from(ps, id) == 0 <==> (forall|q: int|
            0 <= q < ps.len() ==> (#[trigger] ps[q]).from != id),
    decreases ps.len(),
{
    if ps.len() > 0 {
        lemma_count_from_zero(ps.drop_last(), id);
        assert forall|q: int| 0 <= q < ps.len() - 1 implies ps.drop_last()[q] == ps[q] by {}
        if ps.last().from != id && count_from(ps.drop_last(), id) == 0 {
            assert forall|q: int| 0 <= q < ps.len() implies (#[trigger] ps[q]).from != id by {
                if q < ps.len() - 1 {
                    assert(ps.drop_last()[q] == ps[q]);
                    assert(ps.drop_last()[q].from != id);
                }
            }
        }
        if forall|q: int| 0 <= q < ps.len() ==> (#[trigger] ps[q]).from != id {
            assert(ps.last().from != id);
        }
    }
}

/// Whether some position of the handle list carries this handle.
pub open spec fn seq_has_id(ids: Seq<u64>, id: u64) -> bool {
    exists|i: int| 0 <= i < ids.len() && #[trigger] ids[i] == id
}

/// The position of a handle in the handle list.
pub open spec fn seq_index_of(ids: Seq<u64>, id: u64) -> int {
    choose|i: int| 0 <= i < ids.len() && #[trigger] ids[i] == id
}

/// One apply step of phase 3 on the connection table: the proposal is
/// applied exactly when both handles exist, differ, the edge is absent,
/// and both endpoints are under capacity at this step; otherwise it is
/// dropped silently.
pub open spec fn apply_connect(ids: Seq<u64>, conns: Seq<Seq<u64>>, p: ConnectTwo, cap: int) -> Seq<
    Seq<u64>,
> {
    if !seq_has_id(ids, p.from) || !seq_has_id(ids, p.to) {
        conns
    } else {
        let i = seq_index_of(ids, p.from);
        let j = seq_index_of(ids, p.to);
        if i == j {
            conns
        } else if conns[i].len() >= cap || conns[j].len() >= cap {
            conns
        } else if conns[i].contains(p.to) {
            conns
        } else {
            conns.update(i, conns[i].push(p.to)).update(j, conns[j].push(p.from))
        }
    }
}

/// The whole apply phase as a left fold of the proposal list over the
/// connection table.
pub open spec fn apply_connects(
    ids: Seq<u64>,
    conns: Seq<Seq<u64>>,
    props: Seq<ConnectTwo>,
    cap: int,
) -> Seq<Seq<u64>>
    decreases props.len(),
{
    if props.len() == 0 {
        conns
    } else {
        apply_connects(ids, apply_connect(ids, conns, props[0], cap), props.drop_first(), cap)
    }
}

/// Folding one more proposal from the right applies it to the folded
/// table.
proof fn lemma_apply_connects_push(
    ids: Seq<u64>,
    conns: Seq<Seq<u64>>,
    props: Seq<ConnectTwo>,
    p: ConnectTwo,
    cap: int,
)
    ensures
        apply_connects(ids, conns, props.push(p), cap) == apply_connect(
            ids,
            apply_connects(ids, conns, props, cap),
            p,
            cap,
        ),
    decreases props.len(),
{
    if props.len() == 0 {
        assert(props.push(p)[0] == p);
        assert(props.push(p).drop_first() =~= Seq::<ConnectTwo>::empty());
        assert(apply_connects(ids, conns, props.push(p), cap) == apply_connects(ids,
            apply_connect(ids, conns, p, cap), Seq::<ConnectTwo>::empty(), cap));
        assert(apply_connects(ids, apply_connect(ids, conns, p, cap),
            Seq::<ConnectTwo>::empty(), cap) == apply_connect(ids, conns, p, cap));
        assert(apply_connects(ids, conns, props, cap) == conns);
    } else {
        assert(props.push(p)[0] == props[0]);
        assert(props.push(p).drop_first() =~= props.drop_first().push(p));
        assert(apply_connects(ids, conns, props.push(p), cap) == apply_connects(ids,
            apply_connect(ids, conns, props[0], cap), props.drop_first().push(p), cap));
        lemma_apply_connects_push(ids, apply_connect(ids, conns, props[0], cap),
            props.drop_first(), p, cap);
        assert(apply_connects(ids, conns, props, cap) == apply_connects(ids, apply_connect(ids,
            conns, props[0], cap), props.drop_first(), cap));
    }
}

/// A satellite that phase 1 may mark: present, unmarked, and under
/// capacity.
pub open spec fn eligible(m: SatelliteManager, i: int) -> bool {
    &&& 0 <= i < m.n()
    &&& !m.sats@[i].trying
    &&& m.peers_of(i).len() < m.connection_number
}

/// The `(index, degree)` pairs of the eligible satellites below `k`,
/// in index order.
pub open spec fn eligible_pairs(m: SatelliteManager, k: int) -> Seq<(usize, usize)>
    decreases k,
{
    if k <= 0 {
        Seq::empty()
    } else if eligible(m, k - 1) {
        eligible_pairs(m, k - 1).push(((k - 1) as usize, m.peers_of(k - 1).len() as usize))
    } else {
        eligible_pairs(m, k - 1)
    }
}

/// What phase 1 promises of the marks it sets: some ordering of the
/// eligible satellites exists - the shuffle's outcome, sorted by
/// ascending degree - whose first `count / (capacity + 1)` entries are
/// exactly the newly marked satellites.
pub open spec fn marks_from_order(
    before: SatelliteManager,
    after: SatelliteManager,
    order: Seq<(usize, usize)>,
) -> bool {
    &&& order.to_multiset() == eligible_pairs(before, before.n()).to_multiset()
    &&& sorted_by_degree(order)
    &&& forall|i: int|
        0 <= i < before.n() ==> ((#[trigger] after.sats@[i]).trying <==> (before.sats@[i].trying
            || exists|w: int|
            0 <= w < (order.len() as int) / (before.connection_number + 1) && (#[trigger] order[w]).0
                == i))
}

impl SatelliteManager {
    /// Phase 1 of the tick: among the satellites under capacity and not
    /// already marked, shuffle for fairness by the injected random seed,
    /// order by ascending degree so the least-connected are served
    /// first, and mark the first `count / (capacity + 1)` of them as
    /// trying to connect.
    ///
    /// Which satellites of equal degree come first is decided by the
    /// seed, so tests can fix it; every marked satellite was unmarked
    /// and under capacity.
    pub fn mark_satellites_try_connect(&mut self, order_seed: u64)
        requires
            old(self).well_formed(),
        ensures
            final(self).well_formed(),
            final(self).sats@.len() == old(self).sats@.len(),
            forall|i: int|
                0 <= i < old(self).sats@.len() ==> sat_same_except_trying(
                    old(self).sats@[i],
                    #[trigger] final(self).sats@[i],
                ),
            forall|i: int|
                0 <= i < old(self).sats@.len() && (#[trigger] final(self).sats@[i]).trying ==> (
                old(self).sats@[i].trying || old(self).sats@[i].connections.peers@.len() < old(
                    self,
                ).connection_number),
            exists|order: Seq<(usize, usize)>| marks_from_order(*old(self), *final(self), order),
            final(self).orbits == old(self).orbits,
            final(self).orbit_ids == old(self).orbit_ids,
            final(self).followed_by == old(self).followed_by,
            final(self).unspawned_sats == old(self).unspawned_sats,
            final(self).next_id == old(self).next_id,
            final(self).connection_number == old(self).connection_number,
            final(self).connection_distance == old(self).connection_distance,
            final(self).time_speed == old(self).time_speed,
    {
        broadcast use vstd::seq_lib::group_to_multiset_ensures;

        let ghost orig = *self;
        let cap = self.connection_number;
        let mut unfull: Vec<(usize, usize)> = Vec::new();
        let mut i: usize = 0;
        while i < self.sats.len()
            invariant
                *self == orig,
                0 <= i <= self.sats@.len(),
                cap == self.connection_number,
                unfull@ == eligible_pairs(orig, i as int),
                forall|k: int|
                    0 <= k < unfull@.len() ==> {
                        &&& 0 <= (#[trigger] unfull@[k]).0 < self.sats@.len()
                        &&& !self.sats@[unfull@[k].0 as int].trying
                        &&& self.sats@[unfull@[k].0 as int].connections.peers@.len() < cap
                    },
            decreases self.sats@.len() - i,
        {
            if !self.sats[i].trying {
                let deg = self.sats[i].connections.peers.len();
                if deg < cap {
                    unfull.push((i, deg));
                }
            }
            i = i + 1;
        }
        let part = unfull.len() / (cap + 1);
        shuffle_candidates(&mut unfull, order_seed);
        proof {
            assert forall|k: int|
                0 <= k < unfull@.len() implies {
                &&& 0 <= (#[trigger] unfull@[k]).0 < self.sats@.len()
                &&& !self.sats@[unfull@[k].0 as int].trying
                &&& self.sats@[unfull@[k].0 as int].connections.peers@.len() < cap
            } by {
                assert(unfull@.to_multiset().contains(unfull@[k]));
            }
        }
        sort_by_degree(&mut unfull);
        proof {
            assert forall|k: int|
                0 <= k < unfull@.len() implies {
                &&& 0 <= (#[trigger] unfull@[k]).0 < self.sats@.len()
                &&& !self.sats@[unfull@[k].0 as int].trying
                &&& self.sats@[unfull@[k].0 as int].connections.peers@.len() < cap
            } by {
                assert(unfull@.to_multiset().contains(unfull@[k]));
            }
        }
        let ghost before_marks = *self;
        proof {
            assert(unfull@.to_multiset() == eligible_pairs(orig, orig.n()).to_multiset());
        }
        let mut k: usize = 0;
        while k < part
            invariant
                orig == *old(self),
                before_marks.sats == orig.sats,
                before_marks.connection_number == orig.connection_number,
                unfull@.to_multiset() == eligible_pairs(orig, orig.n()).to_multiset(),
                sorted_by_degree(unfull@),
                part == (unfull@.len() as int) / (cap + 1),
                cap == orig.connection_number,
                0 <= k <= part,
                part <= unfull@.len(),
                forall|i2: int|
                    0 <= i2 < orig.n() ==> ((#[trigger] self.sats@[i2]).trying <==> (
                    orig.sats@[i2].trying || exists|w: int|
                        0 <= w < k && (#[trigger] unfull@[w]).0 == i2)),
                self.sats@.len() == before_marks.sats@.len(),
                forall|q: int|
                    0 <= q < unfull@.len() ==> 0 <= (#[trigger] unfull@[q]).0
                        < before_marks.sats@.len(),
                forall|q: int|
                    0 <= q < unfull@.len() ==> !before_marks.sats@[(#[trigger] unfull@[q]).0 as int].trying
                        && before_marks.sats@[unfull@[q].0 as int].connections.peers@.len() < cap,
                forall|i2: int|
                    0 <= i2 < before_marks.sats@.len() ==> sat_same_except_trying(
                        before_marks.sats@[i2],
                        #[trigger] self.sats@[i2],
                    ),
                forall|i2: int|
                    0 <= i2 < before_marks.sats@.len() && (#[trigger] self.sats@[i2]).trying ==> (
                    before_marks.sats@[i2].trying
                        || before_marks.sats@[i2].connections.peers@.len() < cap),
                self.orbits == before_marks.orbits,
                self.orbit_ids == before_marks.orbit_ids,
                self.followed_by == before_marks.followed_by,
                self.unspawned_sats == before_marks.unspawned_sats,
                self.next_id == before_marks.next_id,
                self.connection_number == before_marks.connection_number,
                self.connection_distance == before_marks.connection_distance,
                self.time_speed == before_marks.time_speed,
            decreases part - k,
        {
            let idx = unfull[k].0;
            let ghost before_step = *self;
            self.sats[idx].trying = true;
            proof {
                assert forall|i2: int|
                    0 <= i2 < orig.n() implies ((#[trigger] self.sats@[i2]).trying <==> (
                    orig.sats@[i2].trying || exists|w: int|
                        0 <= w < k + 1 && (#[trigger] unfull@[w]).0 == i2)) by {
                    if i2 == idx {
                        assert(unfull@[k as int].0 == i2);
                    } else {
                        assert(self.sats@[i2] == before_step.sats@[i2]);
                        if exists|w: int| 0 <= w < k + 1 && (#[trigger] unfull@[w]).0 == i2 {
                            let w = choose|w: int|
                                0 <= w < k + 1 && (#[trigger] unfull@[w]).0 == i2;
                            assert(w < k);
                        }
                    }
                }
            }
            k = k + 1;
        }
        proof {
            assert(marks_from_order(orig, *self, unfull@)) by {
                assert forall|i2: int|
                    0 <= i2 < orig.n() implies ((#[trigger] self.sats@[i2]).trying <==> (
                    orig.sats@[i2].trying || exists|w: int|
                        0 <= w < (unfull@.len() as int) / (orig.connection_number + 1) && (
                        #[trigger] unfull@[w]).0 == i2)) by {
                    assert((unfull@.len() as int) / (orig.connection_number + 1) == part as int);
                }
            }
            assert(before_marks.sats == orig.sats);
            assert forall|i2: int|
                0 <= i2 < self.sats@.len() implies {
                &&& (#[trigger] self.sats@[i2]).id == orig.sats@[i2].id
                &&& self.sats@[i2].connections == orig.sats@[i2].connections
                &&& crate::elements::elements_valid(self.sats@[i2].elements)
                &&& -POS_LIMIT <= self.sats@[i2].position.x <= POS_LIMIT
                &&& -POS_LIMIT <= self.sats@[i2].position.y <= POS_LIMIT
                &&& -POS_LIMIT <= self.sats@[i2].position.z <= POS_LIMIT
            } by {
                assert(orig.sat_ok(i2));
                assert(sat_same_except_trying(orig.sats@[i2], self.sats@[i2]));
            }
            Self::lemma_same_links_wf(orig, *self);
        }
    }

    /// Phase 2 of the tick: every marked satellite proposes connections
    /// to its nearest unmarked, under-capacity peers strictly within the
    /// distance threshold, at most enough to fill its remaining
    /// capacity; all markers are cleared, whatever the outcome.
    ///
    /// Every proposal satisfies `proposal_ok` against the state the
    /// phase started from; each marked satellite sends exactly
    /// `min(capacity - degree, candidate count)` proposals, and no
    /// eligible candidate strictly nearer than a proposed one is left
    /// unproposed.
    pub fn connect_nearest(&mut self) -> (props: Vec<ConnectTwo>)
        requires
            old(self).well_formed(),
        ensures
            final(self).well_formed(),
            final(self).sats@.len() == old(self).sats@.len(),
            forall|i: int|
                0 <= i < old(self).sats@.len() ==> sat_same_except_trying(
                    old(self).sats@[i],
                    #[trigger] final(self).sats@[i],
                ),
            forall|i: int| 0 <= i < old(self).sats@.len() ==> !(#[trigger] final(self).sats@[i]).trying,
            forall|k: int| 0 <= k < props@.len() ==> proposal_ok(*old(self), #[trigger] props@[k]),
            forall|i: int|
                0 <= i < old(self).n() ==> count_from(props@, #[trigger] old(self).sat_id(i)) == (
                if old(self).sats@[i].trying {
                    proposal_quota(*old(self), i)
                } else {
                    0int
                }),
            forall|i: int, j: int, j2: int|
                0 <= i < old(self).n() && old(self).sats@[i].trying && cand_ok(*old(self), i, j)
                    && cand_ok(*old(self), i, j2) && #[trigger] nearer_target(*old(self), i, j, j2)
                    && #[trigger] directed_requested(
                    props@,
                    old(self).sat_id(i),
                    old(self).sat_id(j2),
                ) ==> directed_requested(props@, old(self).sat_id(i), old(self).sat_id(j)),
            final(self).orbits == old(self).orbits,
            final(self).orbit_ids == old(self).orbit_ids,
            final(self).followed_by == old(self).followed_by,
            final(self).unspawned_sats == old(self).unspawned_sats,
            final(self).next_id == old(self).next_id,
            final(self).connection_number == old(self).connection_number,
            final(self).connection_distance == old(self).connection_distance,
            final(self).time_speed == old(self).time_speed,
    {
        let ghost orig = *self;
        let cap = self.connection_number;
        let thresh = self.connection_distance;
        proof {
            assert(0 <= (thresh as int) * (thresh as int)
                <= 16_000_000_000_000_000_000_000_000int) by (nonlinear_arith)
                requires
                    0 <= thresh <= 2_000_000_000_000,
            ;
        }
        let t2: i128 = (thresh as i128) * (thresh as i128);
        let mut props: Vec<ConnectTwo> = Vec::new();
        let n = self.sats.len();
        let mut i: usize = 0;
        while i < n
            invariant
                *self == orig,
                orig == *old(self),
                orig.well_formed(),
                n == self.sats@.len(),
                cap == self.connection_number,
                thresh == self.connection_distance,
                t2 == (thresh as int) * (thresh as int),
                0 <= i <= n,
                forall|k: int| 0 <= k < props@.len() ==> proposal_ok(orig, #[trigger] props@[k]),
                forall|i2: int|
                    0 <= i2 < n ==> count_from(props@, #[trigger] orig.sat_id(i2)) == (if i2 < i
                        && orig.sats@[i2].trying {
                        proposal_quota(orig, i2)
                    } else {
                        0int
                    }),
                forall|i2: int, j: int, j2: int|
                    0 <= i2 < n && orig.sats@[i2].trying && cand_ok(orig, i2, j) && cand_ok(
                        orig,
                        i2,
                        j2,
                    ) && #[trigger] nearer_target(orig, i2, j, j2) && #[trigger] directed_requested(
                        props@,
                        orig.sat_id(i2),
                        orig.sat_id(j2),
                    ) ==> directed_requested(props@, orig.sat_id(i2), orig.sat_id(j)),
            decreases n - i,
        {
            if self.sats[i].trying {
                proof {
                    assert(orig.sat_ok(i as int));
                }
                let pi = self.sats[i].position;
                let deg_i = self.sats[i].connections.peers.len();
                let want: usize = if deg_i < cap {
                    cap - deg_i
                } else {
                    0
                };
                let mut cands: Vec<(i128, usize)> = Vec::new();
                let mut j: usize = 0;
                while j < n
                    invariant
                        *self == orig,
                        orig.well_formed(),
                        n == self.sats@.len(),
                        cap == self.connection_number,
                        thresh == self.connection_distance,
                        t2 == (thresh as int) * (thresh as int),
                        0 <= i < n,
                        0 <= j <= n,
                        pi == self.sats@[i as int].position,
                        self.sats@[i as int].trying,
                        cands@.len() == cand_count(orig, i as int, j as int),
                        forall|k: int|
                            0 <= k < cands@.len() ==> {
                                &&& cand_ok(orig, i as int, (#[trigger] cands@[k]).1 as int)
                                &&& cands@[k].0 == dist_sq_spec(
                                    orig.sats@[i as int].position,
                                    orig.sats@[cands@[k].1 as int].position,
                                )
                            },
                        forall|j2: int|
                            0 <= j2 < j && cand_ok(orig, i as int, j2) ==> exists|w: int|
                                0 <= w < cands@.len() && (#[trigger] cands@[w]).1 as int == j2,
                    decreases n - j,
                {
                    let ghost cands_before = cands@;
                    if j != i && !self.sats[j].trying
                        && self.sats[j].connections.peers.len() < cap {
                        proof {
                            assert(orig.sat_ok(i as int));
                            assert(orig.sat_ok(j as int));
                        }
                        let d = dist_sq(&pi, &self.sats[j].position);
                        if d < t2 {
                            cands.push((d, j));
                            proof {
                                assert(cand_ok(orig, i as int, j as int));
                            }
                        } else {
                            proof {
                                assert(!cand_ok(orig, i as int, j as int));
                            }
                        }
                    } else {
                        proof {
                            assert(!cand_ok(orig, i as int, j as int));
                        }
                    }
                    proof {
                        assert forall|j2: int|
                            0 <= j2 < j + 1 && cand_ok(orig, i as int, j2) implies exists|w: int|
                            0 <= w < cands@.len() && (#[trigger] cands@[w]).1 as int == j2 by {
                            if j2 < j {
                                let w = choose|w: int|
                                    0 <= w < cands_before.len() && (#[trigger] cands_before[w]).1
                                        as int == j2;
                                assert(cands@[w].1 as int == j2);
                            } else {
                                assert(cands@[cands@.len() - 1].1 as int == j2);
                            }
                        }
                    }
                    j = j + 1;
                }
                let ghost pre = cands@;
                sort_by_dist(&mut cands);
                proof {
                    broadcast use vstd::seq_lib::group_to_multiset_ensures;

                    assert forall|k: int|
                        0 <= k < cands@.len() implies {
                        &&& cand_ok(orig, i as int, (#[trigger] cands@[k]).1 as int)
                        &&& cands@[k].0 == dist_sq_spec(
                            orig.sats@[i as int].position,
                            orig.sats@[cands@[k].1 as int].position,
                        )
                    } by {
                        assert(cands@.to_multiset().contains(cands@[k]));
                    }
                    assert forall|j2: int|
                        cand_ok(orig, i as int, j2) implies exists|w: int|
                        0 <= w < cands@.len() && (#[trigger] cands@[w]).1 as int == j2 by {
                        let w0 = choose|w: int|
                            0 <= w < pre.len() && (#[trigger] pre[w]).1 as int == j2;
                        assert(pre.to_multiset().contains(pre[w0]));
                        assert(cands@.to_multiset().contains(pre[w0]));
                        assert(cands@.contains(pre[w0]));
                        let w = choose|w: int| 0 <= w < cands@.len() && cands@[w] == pre[w0];
                        assert(cands@[w].1 as int == j2);
                    }
                }
                let take: usize = if want < cands.len() {
                    want
                } else {
                    cands.len()
                };
                proof {
                    lemma_count_from_zero(props@, orig.sat_id(i as int));
                }
                let mut k: usize = 0;
                while k < take
                    invariant
                        *self == orig,
                        orig.well_formed(),
                        n == self.sats@.len(),
                        cap == self.connection_number,
                        thresh == self.connection_distance,
                        t2 == (thresh as int) * (thresh as int),
                        0 <= i < n,
                        0 <= k <= take <= cands@.len(),
                        self.sats@[i as int].trying,
                        forall|q: int|
                            0 <= q < cands@.len() ==> {
                                &&& cand_ok(orig, i as int, (#[trigger] cands@[q]).1 as int)
                                &&& cands@[q].0 == dist_sq_spec(
                                    orig.sats@[i as int].position,
                                    orig.sats@[cands@[q].1 as int].position,
                                )
                            },
                        forall|q: int| 0 <= q < props@.len() ==> proposal_ok(orig, #[trigger] props@[q]),
                        count_from(props@, orig.sat_id(i as int)) == k,
                        forall|i2: int|
                            0 <= i2 < n && i2 != i ==> count_from(
                                props@,
                                #[trigger] orig.sat_id(i2),
                            ) == (if i2 < i && orig.sats@[i2].trying {
                                proposal_quota(orig, i2)
                            } else {
                                0int
                            }),
                        forall|w: int|
                            0 <= w < k ==> directed_requested(
                                props@,
                                orig.sat_id(i as int),
                                orig.sat_id((#[trigger] cands@[w]).1 as int),
                            ),
                        forall|q: int|
                            0 <= q < props@.len() && (#[trigger] props@[q]).from == orig.sat_id(
                                i as int,
                            ) ==> exists|w: int|
                                0 <= w < k && props@[q].to == orig.sat_id(
                                    (#[trigger] cands@[w]).1 as int,
                                ),
                        forall|i2: int, j: int, j2: int|
                            0 <= i2 < n && orig.sats@[i2].trying && cand_ok(orig, i2, j) && cand_ok(
                                orig,
                                i2,
                                j2,
                            ) && #[trigger] nearer_target(orig, i2, j, j2)
                                && #[trigger] directed_requested(
                                props@,
                                orig.sat_id(i2),
                                orig.sat_id(j2),
                            ) && i2 != i ==> directed_requested(
                                props@,
                                orig.sat_id(i2),
                                orig.sat_id(j),
                            ),
                    decreases take - k,
                {
                    let target = cands[k].1;
                    let p = ConnectTwo { from: self.sats[i].id, to: self.sats[target].id };
                    proof {
                        assert(cand_ok(orig, i as int, target as int));
                        assert(orig.sat_id(i as int) == p.from);
                        assert(orig.sat_id(target as int) == p.to);
                        assert(proposal_ok(orig, p)) by {
                            assert(0 <= i < orig.n() && 0 <= target < orig.n() && i as int
                                != target as int && orig.sat_id(i as int) == p.from && orig.sat_id(
                                target as int,
                            ) == p.to && orig.sats@[i as int].trying
                                && !orig.sats@[target as int].trying && orig.peers_of(
                                target as int,
                            ).len() < orig.connection_number && dist_sq_spec(
                                orig.sats@[i as int].position,
                                orig.sats@[target as int].position,
                            ) < (orig.connection_distance as int) * (
                            orig.connection_distance as int));
                        }
                    }
                    let ghost props_before = props@;
                    props.push(p);
                    proof {
                        assert(props@ == props_before.push(p));
                        assert forall|id2: u64|
                            count_from(props@, id2) == count_from(props_before, id2) + (
                            if p.from == id2 {
                                1int
                            } else {
                                0int
                            }) by {
                            lemma_count_from_push(props_before, p, id2);
                        }
                        assert forall|i2: int| 0 <= i2 < n && i2 != i implies count_from(
                            props@,
                            #[trigger] orig.sat_id(i2),
                        ) == (if i2 < i && orig.sats@[i2].trying {
                            proposal_quota(orig, i2)
                        } else {
                            0int
                        }) by {
                            orig.lemma_ids_distinct(i2, i as int);
                        }
                        // Earlier targets stay requested; the new one is.
                        assert forall|w: int|
                            0 <= w < k + 1 implies directed_requested(
                            props@,
                            orig.sat_id(i as int),
                            orig.sat_id((#[trigger] cands@[w]).1 as int),
                        ) by {
                            if w < k {
                                let q = choose|q: int|
                                    0 <= q < props_before.len() && (#[trigger] props_before[q]).from
                                        == orig.sat_id(i as int) && props_before[q].to
                                        == orig.sat_id(cands@[w].1 as int);
                                assert(props@[q] == props_before[q]);
                            } else {
                                assert(props@[props@.len() - 1] == p);
                            }
                        }
                        assert forall|q: int|
                            0 <= q < props@.len() && (#[trigger] props@[q]).from == orig.sat_id(
                                i as int,
                            ) implies exists|w: int|
                            0 <= w < k + 1 && props@[q].to == orig.sat_id(
                                (#[trigger] cands@[w]).1 as int,
                            ) by {
                            if q < props_before.len() {
                                assert(props@[q] == props_before[q]);
                                let w = choose|w: int|
                                    0 <= w < k && props_before[q].to == orig.sat_id(
                                        (#[trigger] cands@[w]).1 as int,
                                    );
                                assert(props@[q].to == orig.sat_id(cands@[w].1 as int));
                            } else {
                                assert(props@[q] == p);
                                assert(props@[q].to == orig.sat_id(cands@[k as int].1 as int));
                            }
                        }
                        // Earlier proposers' facts survive the push.
                        assert forall|i2: int, j: int, j2: int|
                            0 <= i2 < n && orig.sats@[i2].trying && cand_ok(orig, i2, j) && cand_ok(
                                orig,
                                i2,
                                j2,
                            ) && #[trigger] nearer_target(orig, i2, j, j2)
                                && #[trigger] directed_requested(
                                props@,
                                orig.sat_id(i2),
                                orig.sat_id(j2),
                            ) && i2 != i implies directed_requested(
                            props@,
                            orig.sat_id(i2),
                            orig.sat_id(j),
                        ) by {
                            orig.lemma_ids_distinct(i2, i as int);
                            let q = choose|q: int|
                                0 <= q < props@.len() && (#[trigger] props@[q]).from == orig.sat_id(
                                    i2,
                                ) && props@[q].to == orig.sat_id(j2);
                            assert(q < props_before.len());
                            assert(directed_requested(props_before, orig.sat_id(i2), orig.sat_id(
                                j2,
                            )));
                            let q2 = choose|q2: int|
                                0 <= q2 < props_before.len() && (#[trigger] props_before[q2]).from
                                    == orig.sat_id(i2) && props_before[q2].to == orig.sat_id(j);
                            assert(props@[q2] == props_before[q2]);
                        }
                    }
                    k = k + 1;
                }
                proof {
                    // The quota for this proposer is met exactly.
                    assert(cands@.len() == cand_count(orig, i as int, n as int));
                    assert(count_from(props@, orig.sat_id(i as int)) == proposal_quota(
                        orig,
                        i as int,
                    )) by {
                        assert(want as int == (if orig.peers_of(i as int).len()
                            < orig.connection_number {
                            orig.connection_number - orig.peers_of(i as int).len()
                        } else {
                            0int
                        }));
                    }
                    // Nearest-first for this proposer.
                    assert forall|j: int, j2: int|
                        cand_ok(orig, i as int, j) && cand_ok(orig, i as int, j2)
                            && #[trigger] nearer_target(orig, i as int, j, j2)
                            && #[trigger] directed_requested(
                            props@,
                            orig.sat_id(i as int),
                            orig.sat_id(j2),
                        ) implies directed_requested(props@, orig.sat_id(i as int), orig.sat_id(
                        j,
                    )) by {
                        let q = choose|q: int|
                            0 <= q < props@.len() && (#[trigger] props@[q]).from == orig.sat_id(
                                i as int,
                            ) && props@[q].to == orig.sat_id(j2);
                        let w2 = choose|w: int|
                            0 <= w < take && props@[q].to == orig.sat_id(
                                (#[trigger] cands@[w]).1 as int,
                            );
                        assert(orig.sat_id(j2) == orig.sat_id(cands@[w2].1 as int));
                        if j2 != cands@[w2].1 as int {
                            orig.lemma_ids_distinct(j2, cands@[w2].1 as int);
                        }
                        assert(j2 == cands@[w2].1 as int);
                        let w = choose|w: int|
                            0 <= w < cands@.len() && (#[trigger] cands@[w]).1 as int == j;
                        if w < take {
                            assert(directed_requested(props@, orig.sat_id(i as int), orig.sat_id(
                                cands@[w].1 as int,
                            )));
                        } else {
                            // Sorted order puts every taken candidate no
                            // farther than an untaken one.
                            assert(cands@[w2].0 < cands@[w].0 || (cands@[w2].0 == cands@[w].0
                                && cands@[w2].1 <= cands@[w].1));
                            assert(cands@[w].0 == dist_sq_spec(
                                orig.sats@[i as int].position,
                                orig.sats@[j].position,
                            ));
                            assert(cands@[w2].0 == dist_sq_spec(
                                orig.sats@[i as int].position,
                                orig.sats@[j2].position,
                            ));
                            assert(!nearer_target(orig, i as int, j, j2));
                        }
                    }
                }
            } else {
                proof {
                    assert(count_from(props@, orig.sat_id(i as int)) == 0);
                }
            }
            i = i + 1;
        }
        let mut c: usize = 0;
        while c < n
            invariant
                orig.well_formed(),
                n == self.sats@.len(),
                self.sats@.len() == orig.sats@.len(),
                0 <= c <= n,
                forall|q: int|
                    0 <= q < c ==> sat_same_except_trying(
                        orig.sats@[q],
                        #[trigger] self.sats@[q],
                    ) && !self.sats@[q].trying,
                forall|q: int| c <= q < n ==> self.sats@[q] == orig.sats@[q],
                self.orbits == orig.orbits,
                self.orbit_ids == orig.orbit_ids,
                self.followed_by == orig.followed_by,
                self.unspawned_sats == orig.unspawned_sats,
                self.next_id == orig.next_id,
                self.connection_number == orig.connection_number,
                self.connection_distance == orig.connection_distance,
                self.time_speed == orig.time_speed,
            decreases n - c,
        {
            self.sats[c].trying = false;
            c = c + 1;
        }
        proof {
            assert forall|i2: int|
                0 <= i2 < self.sats@.len() implies {
                &&& (#[trigger] self.sats@[i2]).id == orig.sats@[i2].id
                &&& self.sats@[i2].connections == orig.sats@[i2].connections
                &&& crate::elements::elements_valid(self.sats@[i2].elements)
                &&& -POS_LIMIT <= self.sats@[i2].position.x <= POS_LIMIT
                &&& -POS_LIMIT <= self.sats@[i2].position.y <= POS_LIMIT
                &&& -POS_LIMIT <= self.sats@[i2].position.z <= POS_LIMIT
            } by {
                assert(orig.sat_ok(i2));
                assert(sat_same_except_trying(orig.sats@[i2], self.sats@[i2]));
            }
            Self::lemma_same_links_wf(orig, *self);
        }
        props
    }

    /// Append each endpoint to the other's connection set; the callers
    /// have re-checked capacity and absence of the edge.
    fn connect_pair(&mut self, i: usize, j: usize)
        requires
            old(self).well_formed(),
            0 <= i < old(self).n(),
            0 <= j < old(self).n(),
            i != j,
            old(self).peers_of(i as int).len() < old(self).connection_number,
            old(self).peers_of(j as int).len() < old(self).connection_number,
            !old(self).linked(i as int, j as int),
        ensures
            final(self).well_formed(),
            final(self).sats@.len() == old(self).sats@.len(),
            forall|q: int|
                0 <= q < old(self).sats@.len() ==> sat_same_except_conns(
                    old(self).sats@[q],
                    #[trigger] final(self).sats@[q],
                ),
            forall|q: int|
                0 <= q < old(self).sats@.len() && q != i && q != j ==> final(self).sats@[q] == old(
                    self,
                ).sats@[q],
            final(self).peers_of(i as int) == old(self).peers_of(i as int).push(
                old(self).sat_id(j as int),
            ),
            final(self).peers_of(j as int) == old(self).peers_of(j as int).push(
                old(self).sat_id(i as int),
            ),
            forall|a: int, b: int|
                0 <= a < old(self).n() && 0 <= b < old(self).n() ==> (#[trigger] final(self).linked(
                    a,
                    b,
                ) <==> (old(self).linked(a, b) || (a == i && b == j) || (a == j && b == i))),
            final(self).orbits == old(self).orbits,
            final(self).orbit_ids == old(self).orbit_ids,
            final(self).followed_by == old(self).followed_by,
            final(self).unspawned_sats == old(self).unspawned_sats,
            final(self).next_id == old(self).next_id,
            final(self).connection_number == old(self).connection_number,
            final(self).connection_distance == old(self).connection_distance,
            final(self).time_speed == old(self).time_speed,
    {
        proof {
            assert(old(self).sat_ok(i as int));
            assert(old(self).sat_ok(j as int));
            old(self).lemma_ids_distinct(i as int, j as int);
            if old(self).linked(j as int, i as int) {
                assert(old(self).linked(i as int, j as int));
            }
        }
        let id_i = self.sats[i].id;
        let id_j = self.sats[j].id;
        self.sats[i].connections.peers.push(id_j);
        self.sats[j].connections.peers.push(id_i);
        proof {
            let a = *old(self);
            let b = *self;
            assert(b.peers_of(i as int) == a.peers_of(i as int).push(id_j));
            assert(b.peers_of(j as int) == a.peers_of(j as int).push(id_i));
            assert forall|q: int| 0 <= q < b.n() && q != i && q != j implies b.sats@[q]
                == a.sats@[q] by {}
            assert(b.n() == a.n());
            assert forall|q: int| 0 <= q < b.n() implies #[trigger] b.sat_id(q) == a.sat_id(q) by {}
            // Membership in a pushed sequence: the old entries or the new one.
            assert forall|q: int, x: u64| 0 <= q < b.n() implies (#[trigger] b.peers_of(q).contains(
                x,
            ) <==> (a.peers_of(q).contains(x) || (q == i && x == id_j) || (q == j && x
                == id_i))) by {
                if q == i {
                    lemma_push_contains(a.peers_of(i as int), id_j, x);
                } else if q == j {
                    lemma_push_contains(a.peers_of(j as int), id_i, x);
                } else {
                    assert(b.peers_of(q) == a.peers_of(q));
                }
            }
            assert forall|x: int, y: int|
                0 <= x < b.n() && 0 <= y < b.n() implies (#[trigger] b.linked(x, y) <==> (a.linked(
                x,
                y,
            ) || (x == i && y == j) || (x == j && y == i))) by {
                a.lemma_ids_distinct_all(x, y, i as int, j as int);
            }
            assert forall|x: int, y: int|
                0 <= x < b.n() && 0 <= y < b.n() && #[trigger] b.linked(x, y) implies b.linked(
                y,
                x,
            ) by {
                if a.linked(x, y) {
                    assert(a.linked(y, x));
                }
            }
            assert forall|q: int, x: int|
                #![trigger b.sat_id(q), b.sat_id(x)]
                0 <= q < x < b.n() implies b.sat_id(q) < b.sat_id(x) by {
                assert(a.sat_id(q) < a.sat_id(x));
            }
            assert forall|q: int| 0 <= q < b.n() implies #[trigger] b.sat_id(q) < b.next_id by {
                assert(a.sat_id(q) < a.next_id);
            }
            assert forall|q: int| 0 <= q < b.n() implies b.sat_ok(q) by {
                assert(a.sat_ok(q));
                let s = b.sats@[q];
                if q == i {
                    lemma_push_no_duplicates(a.peers_of(i as int), id_j);
                    assert(!b.peers_of(i as int).contains(b.sat_id(i as int))) by {
                        lemma_push_contains(a.peers_of(i as int), id_j, a.sat_id(i as int));
                    }
                } else if q == j {
                    assert(!a.peers_of(j as int).contains(id_i)) by {
                        if a.peers_of(j as int).contains(id_i) {
                            assert(a.linked(j as int, i as int));
                            assert(a.linked(i as int, j as int));
                        }
                    }
                    lemma_push_no_duplicates(a.peers_of(j as int), id_i);
                    assert(!b.peers_of(j as int).contains(b.sat_id(j as int))) by {
                        lemma_push_contains(a.peers_of(j as int), id_i, a.sat_id(j as int));
                    }
                } else {
                    assert(b.sats@[q] == a.sats@[q]);
                }
                assert forall|k: int|
                    0 <= k < s.connections.peers@.len() implies b.has_sat(
                    #[trigger] s.connections.peers@[k],
                ) by {
                    let id = s.connections.peers@[k];
                    assert(b.peers_of(q).contains(id));
                    if a.peers_of(q).contains(id) {
                        let w0 = choose|w: int| 0 <= w < a.peers_of(q).len() && a.peers_of(q)[w] == id;
                        assert(a.sats@[q].connections.peers@[w0] == id);
                        assert(a.has_sat(id));
                        let w = choose|w: int| 0 <= w < a.n() && #[trigger] a.sat_id(w) == id;
                        assert(b.sat_id(w) == id);
                    } else if q == i {
                        assert(id == id_j);
                        assert(b.sat_id(j as int) == id);
                    } else {
                        assert(id == id_i);
                        assert(b.sat_id(i as int) == id);
                    }
                }
            }
        }
    }

    /// Handles with distinct indices are distinct, stated for four
    /// indices at once to ease case analysis over pushed peers.
    proof fn lemma_ids_distinct_all(self, x: int, y: int, i: int, j: int)
        requires
            self.well_formed(),
            0 <= x < self.n(),
            0 <= y < self.n(),
            0 <= i < self.n(),
            0 <= j < self.n(),
        ensures
            x != y ==> self.sat_id(x) != self.sat_id(y),
            x != i ==> self.sat_id(x) != self.sat_id(i),
            x != j ==> self.sat_id(x) != self.sat_id(j),
            y != i ==> self.sat_id(y) != self.sat_id(i),
            y != j ==> self.sat_id(y) != self.sat_id(j),
            i != j ==> self.sat_id(i) != self.sat_id(j),
    {
    }

    /// Phase 3 of the tick: apply connect proposals, re-checking each
    /// endpoint's capacity at apply time; a proposal whose target filled
    /// up meanwhile, or whose edge already exists, is dropped silently,
    /// an expected race under concurrent proposals rather than a fault.
    ///
    /// The final connection table is pinned exactly: it is the left fold
    /// of the proposal list, each proposal applied precisely when both
    /// endpoints exist, differ, are unlinked and under capacity at its
    /// step. No existing link is ever removed here, and every new link
    /// was asked for by some proposal.
    pub fn handle_connection(&mut self, props: &Vec<ConnectTwo>)
        requires
            old(self).well_formed(),
        ensures
            final(self).well_formed(),
            final(self).sats@.len() == old(self).sats@.len(),
            forall|q: int|
                0 <= q < old(self).sats@.len() ==> sat_same_except_conns(
                    old(self).sats@[q],
                    #[trigger] final(self).sats@[q],
                ),
            forall|a: int, b: int|
                0 <= a < old(self).n() && 0 <= b < old(self).n() && old(self).linked(a, b)
                    ==> #[trigger] final(self).linked(a, b),
            forall|a: int, b: int|
                0 <= a < old(self).n() && 0 <= b < old(self).n() && #[trigger] final(self).linked(
                    a,
                    b,
                ) && !old(self).linked(a, b) ==> prop_requested(
                    props@,
                    old(self).sat_id(a),
                    old(self).sat_id(b),
                ),
            final(self).conns_of() == apply_connects(
                old(self).ids_of(),
                old(self).conns_of(),
                props@,
                old(self).connection_number as int,
            ),
            final(self).orbits == old(self).orbits,
            final(self).orbit_ids == old(self).orbit_ids,
            final(self).followed_by == old(self).followed_by,
            final(self).unspawned_sats == old(self).unspawned_sats,
            final(self).next_id == old(self).next_id,
            final(self).connection_number == old(self).connection_number,
            final(self).connection_distance == old(self).connection_distance,
            final(self).time_speed == old(self).time_speed,
    {
        let ghost orig = *self;
        let cap = self.connection_number;
        proof {
            assert(props@.subrange(0, 0) =~= Seq::<ConnectTwo>::empty());
        }
        let mut k: usize = 0;
        while k < props.len()
            invariant
                orig == *old(self),
                self.well_formed(),
                cap == self.connection_number,
                self.sats@.len() == orig.sats@.len(),
                forall|q: int|
                    0 <= q < orig.sats@.len() ==> sat_same_except_conns(
                        orig.sats@[q],
                        #[trigger] self.sats@[q],
                    ),
                forall|a: int, b: int|
                    0 <= a < orig.n() && 0 <= b < orig.n() && orig.linked(a, b)
                        ==> #[trigger] self.linked(a, b),
                forall|a: int, b: int|
                    0 <= a < orig.n() && 0 <= b < orig.n() && #[trigger] self.linked(a, b)
                        && !orig.linked(a, b) ==> prop_requested(
                        props@,
                        orig.sat_id(a),
                        orig.sat_id(b),
                    ),
                0 <= k <= props@.len(),
                self.conns_of() == apply_connects(
                    orig.ids_of(),
                    orig.conns_of(),
                    props@.subrange(0, k as int),
                    cap as int,
                ),
                self.orbits == orig.orbits,
                self.orbit_ids == orig.orbit_ids,
                self.followed_by == orig.followed_by,
                self.unspawned_sats == orig.unspawned_sats,
                self.next_id == orig.next_id,
                self.connection_number == orig.connection_number,
                self.connection_distance == orig.connection_distance,
                self.time_speed == orig.time_speed,
            decreases props@.len() - k,
        {
            let ghost step_start = *self;
            let p = props[k];
            proof {
                assert(props@.subrange(0, k + 1 as int) =~= props@.subrange(0, k as int).push(p));
                lemma_apply_connects_push(orig.ids_of(), orig.conns_of(),
                    props@.subrange(0, k as int), p, cap as int);
                // The table and the spec step read the same handles.
                assert forall|id: u64| step_start.has_sat(id) <==> seq_has_id(
                    orig.ids_of(),
                    id,
                ) by {
                    assert(step_start.sats@.len() == orig.sats@.len());
                    if step_start.has_sat(id) {
                        let w = choose|w: int|
                            0 <= w < step_start.n() && #[trigger] step_start.sat_id(w) == id;
                        assert(orig.ids_of()[w] == id);
                    }
                    if seq_has_id(orig.ids_of(), id) {
                        let w = choose|w: int|
                            0 <= w < orig.ids_of().len() && #[trigger] orig.ids_of()[w] == id;
                        assert(step_start.sat_id(w) == id);
                    }
                }
            }
            let found_i = self.find_index(p.from);
            let found_j = self.find_index(p.to);
            let ghost mut applied: bool = false;
            let ghost mut gi: int = 0;
            let ghost mut gj: int = 0;
            match (found_i, found_j) {
                (Some(i), Some(j)) => {
                    if i != j {
                        let di = self.sats[i].connections.peers.len();
                        let dj = self.sats[j].connections.peers.len();
                        let has_edge = contains_id(&self.sats[i].connections.peers, p.to);
                        proof {
                            gi = i as int;
                            gj = j as int;
                        }
                        if di < cap && dj < cap && !has_edge {
                            let ghost before = *self;
                            proof {
                                assert(!before.linked(i as int, j as int));
                            }
                            self.connect_pair(i, j);
                            proof {
                                applied = true;
                                assert forall|q: int|
                                    0 <= q < orig.sats@.len() implies sat_same_except_conns(
                                    orig.sats@[q],
                                    #[trigger] self.sats@[q],
                                ) by {
                                    assert(sat_same_except_conns(orig.sats@[q], before.sats@[q]));
                                    assert(sat_same_except_conns(before.sats@[q], self.sats@[q]));
                                }
                                assert forall|a: int, b: int|
                                    0 <= a < orig.n() && 0 <= b < orig.n() && #[trigger] self.linked(
                                        a,
                                        b,
                                    ) && !orig.linked(a, b) implies prop_requested(
                                    props@,
                                    orig.sat_id(a),
                                    orig.sat_id(b),
                                ) by {
                                    if !before.linked(a, b) {
                                        assert((a == i && b == j) || (a == j && b == i));
                                        assert(orig.sat_id(i as int) == p.from);
                                        assert(orig.sat_id(j as int) == p.to);
                                        assert(0 <= k < props@.len() && ((props@[k as int].from
                                            == orig.sat_id(a) && props@[k as int].to == orig.sat_id(
                                            b,
                                        )) || (props@[k as int].from == orig.sat_id(b)
                                            && props@[k as int].to == orig.sat_id(a))));
                                    }
                                }
                            }
                        }
                    }
                },
                _ => {},
            }
            proof {
                let ids = orig.ids_of();
                let cs = step_start.conns_of();
                // Relate the exec step to the spec step.
                assert(self.conns_of() =~= apply_connect(ids, cs, p, cap as int)) by {
                    match found_i {
                        Some(i) => {
                            assert(step_start.sat_id(i as int) == p.from);
                            assert(ids[i as int] == p.from);
                            assert(seq_has_id(ids, p.from));
                            assert(seq_index_of(ids, p.from) == i as int) by {
                                let w = seq_index_of(ids, p.from);
                                assert(0 <= w < ids.len() && ids[w] == p.from);
                                assert(step_start.sat_id(w) == p.from);
                                if w != i as int {
                                    step_start.lemma_ids_distinct(w, i as int);
                                }
                            }
                            match found_j {
                                Some(j) => {
                                    assert(step_start.sat_id(j as int) == p.to);
                                    assert(ids[j as int] == p.to);
                                    assert(seq_has_id(ids, p.to));
                                    assert(seq_index_of(ids, p.to) == j as int) by {
                                        let w = seq_index_of(ids, p.to);
                                        assert(0 <= w < ids.len() && ids[w] == p.to);
                                        assert(step_start.sat_id(w) == p.to);
                                        if w != j as int {
                                            step_start.lemma_ids_distinct(w, j as int);
                                        }
                                    }
                                    assert(cs[i as int] == step_start.peers_of(i as int));
                                    assert(cs[j as int] == step_start.peers_of(j as int));
                                    if applied {
                                        assert(self.peers_of(gi) == step_start.peers_of(gi).push(
                                            p.to,
                                        ));
                                        assert(self.peers_of(gj) == step_start.peers_of(gj).push(
                                            p.from,
                                        ));
                                        assert forall|q: int|
                                            0 <= q < self.conns_of().len()
                                                implies #[trigger] self.conns_of()[q]
                                            == apply_connect(ids, cs, p, cap as int)[q] by {
                                            if q != gi && q != gj {
                                                assert(self.sats@[q] == step_start.sats@[q]);
                                            }
                                        }
                                    } else {
                                        assert(*self == step_start);
                                    }
                                },
                                None => {
                                    assert(!step_start.has_sat(p.to));
                                    assert(!seq_has_id(ids, p.to));
                                    assert(*self == step_start);
                                },
                            }
                        },
                        None => {
                            assert(!step_start.has_sat(p.from));
                            assert(!seq_has_id(ids, p.from));
                            assert(*self == step_start);
                        },
                    }
                }
                assert(self.conns_of() == apply_connects(orig.ids_of(), orig.conns_of(),
                    props@.subrange(0, k + 1 as int), cap as int));
            }
            k = k + 1;
        }
        proof {
            assert(props@.subrange(0, props@.len() as int) =~= props@);
        }
    }
}

/// `b` is `a` with a different connection set and nothing else changed.
pub open spec fn sat_same_except_conns(a: Satellite, b: Satellite) -> bool {
    b == (Satellite { connections: b.connections, ..a })
}

/// An edge due for eviction, in canonical direction: the satellites at
/// `a` and `b` are linked, `a` carries the smaller handle, and their
/// squared distance exceeds the squared threshold.
pub open spec fn evict_pair(m: SatelliteManager, a: int, b: int) -> bool {
    &&& 0 <= a < m.n() && 0 <= b < m.n()
    &&& m.sat_id(a) < m.sat_id(b)
    &&& m.linked(a, b)
    &&& dist_sq_spec(m.sats@[a].position, m.sats@[b].position) > (m.connection_distance as int) * (
    m.connection_distance as int)
}

/// A sound disconnect proposal: both handles exist, and the edge
/// between their satellites, in canonical direction, is due for
/// eviction.
pub open spec fn sound_evict_prop(m: SatelliteManager, p: DisconnectTwo) -> bool {
    &&& m.has_sat(p.from)
    &&& m.has_sat(p.to)
    &&& evict_pair(m, m.index_of(p.from), m.index_of(p.to))
}

/// Whether a disconnect list names the unordered pair `{x, y}`.
pub open spec fn disc_requested(ps: Seq<DisconnectTwo>, x: u64, y: u64) -> bool {
    exists|k: int|
        0 <= k < ps.len() && (((#[trigger] ps[k]).from == x && ps[k].to == y) || (ps[k].from == y
            && ps[k].to == x))
}

/// Membership in a pushed sequence: either an old entry or the pushed
/// value.
proof fn lemma_push_contains(s: Seq<u64>, v: u64, x: u64)
    ensures
        s.push(v).contains(x) <==> (s.contains(x) || x == v),
{
    if s.contains(x) {
        let w = choose|w: int| 0 <= w < s.len() && s[w] == x;
        assert(s.push(v)[w] == x);
    }
    if x == v {
        assert(s.push(v)[s.len() as int] == v);
    }
    if s.push(v).contains(x) {
        let w = choose|w: int| 0 <= w < s.push(v).len() && s.push(v)[w] == x;
        if w < s.len() {
            assert(s[w] == x);
        }
    }
}

/// Pushing a fresh value onto a duplicate-free sequence keeps it
/// duplicate-free.
proof fn lemma_push_no_duplicates(s: Seq<u64>, v: u64)
    requires
        s.no_duplicates(),
        !s.contains(v),
    ensures
        s.push(v).no_duplicates(),
{
    let t = s.push(v);
    assert forall|i: int, j: int| 0 <= i < t.len() && 0 <= j < t.len() && i != j implies t[i]
        != t[j] by {
        if i < s.len() && j < s.len() {
            assert(s[i] == t[i] && s[j] == t[j]);
        } else if i < s.len() {
            assert(t[j] == v);
            assert(s[i] == t[i]);
            if t[i] == v {
                assert(s.contains(v));
            }
        } else {
            assert(t[i] == v);
            assert(s[j] == t[j]);
            if t[j] == v {
                assert(s.contains(v));
            }
        }
    }
}

impl SatelliteManager {
    /// Whether the edge from the satellite at `i` to the peer with
    /// handle `pid` is due for eviction.
    fn evict_check(&self, i: usize, pid: u64, t2: i128) -> (r: bool)
        requires
            self.well_formed(),
            0 <= i < self.n(),
            self.has_sat(pid),
            t2 == (self.connection_distance as int) * (self.connection_distance as int),
        ensures
            r <==> exists|b: int|
                0 <= b < self.n() && #[trigger] self.sat_id(b) == pid && evict_pair(
                    *self,
                    i as int,
                    b,
                ) && self.linked(i as int, b),
    {
        proof {
            assert(self.sat_ok(i as int));
        }
        if self.sats[i].id >= pid {
            proof {
                assert forall|b: int|
                    0 <= b < self.n() && #[trigger] self.sat_id(b) == pid implies !evict_pair(
                    *self,
                    i as int,
                    b,
                ) by {}
            }
            return false;
        }
        match self.find_index(pid) {
            Some(j) => {
                proof {
                    assert(self.sat_ok(j as int));
                }
                let d = dist_sq(&self.sats[i].position, &self.sats[j].position);
                let r = d > t2 && contains_id(&self.sats[i].connections.peers, pid);
                proof {
                    assert forall|b: int|
                        0 <= b < self.n() && #[trigger] self.sat_id(b) == pid implies b
                        == j as int by {
                        if b != j as int {
                            self.lemma_ids_distinct(b, j as int);
                        }
                    }
                    if r {
                        assert(evict_pair(*self, i as int, j as int));
                    }
                }
                r
            },
            None => {
                proof {
                    assert(false);
                }
                false
            },
        }
    }

    /// Phase 4 of the tick: scan every edge exactly once, in the
    /// canonical direction of ascending handles, and propose a
    /// disconnect for each pair whose squared distance exceeds the
    /// squared threshold.
    ///
    /// The emitted list holds a proposal for an edge if and only if that
    /// edge is due for eviction.
    pub fn disconnect_farthest(&self) -> (props: Vec<DisconnectTwo>)
        requires
            self.well_formed(),
        ensures
            forall|k: int| 0 <= k < props@.len() ==> sound_evict_prop(*self, #[trigger] props@[k]),
            forall|a: int, b: int|
                #![trigger self.sat_id(a), self.sat_id(b)]
                evict_pair(*self, a, b) ==> disc_requested(props@, self.sat_id(a), self.sat_id(b)),
    {
        let thresh = self.connection_distance;
        proof {
            assert(0 <= (thresh as int) * (thresh as int)
                <= 16_000_000_000_000_000_000_000_000int) by (nonlinear_arith)
                requires
                    0 <= thresh <= 2_000_000_000_000,
            ;
        }
        let t2: i128 = (thresh as i128) * (thresh as i128);
        let mut props: Vec<DisconnectTwo> = Vec::new();
        let ghost mut wit: Seq<(int, int)> = Seq::empty();
        let n = self.sats.len();
        let mut i: usize = 0;
        while i < n
            invariant
                self.well_formed(),
                n == self.sats@.len(),
                thresh == self.connection_distance,
                t2 == (thresh as int) * (thresh as int),
                0 <= i <= n,
                wit.len() == props@.len(),
                forall|k: int|
                    0 <= k < props@.len() ==> evict_pair(*self, (#[trigger] wit[k]).0, wit[k].1)
                        && props@[k].from == self.sat_id(wit[k].0) && props@[k].to == self.sat_id(
                        wit[k].1,
                    ),
                forall|a: int, b: int|
                    #![trigger self.sat_id(a), self.sat_id(b)]
                    evict_pair(*self, a, b) && a < i ==> disc_requested(
                        props@,
                        self.sat_id(a),
                        self.sat_id(b),
                    ),
            decreases n - i,
        {
            proof {
                assert(self.sat_ok(i as int));
            }
            let id_i = self.sats[i].id;
            let deg = self.sats[i].connections.peers.len();
            let mut k: usize = 0;
            while k < deg
                invariant
                    self.well_formed(),
                    n == self.sats@.len(),
                    thresh == self.connection_distance,
                    t2 == (thresh as int) * (thresh as int),
                    0 <= i < n,
                    0 <= k <= deg,
                    deg == self.peers_of(i as int).len(),
                    id_i == self.sat_id(i as int),
                    wit.len() == props@.len(),
                    forall|q: int|
                        0 <= q < props@.len() ==> evict_pair(*self, (#[trigger] wit[q]).0, wit[q].1)
                            && props@[q].from == self.sat_id(wit[q].0) && props@[q].to
                            == self.sat_id(wit[q].1),
                    forall|a: int, b: int|
                        #![trigger self.sat_id(a), self.sat_id(b)]
                        evict_pair(*self, a, b) && a < i ==> disc_requested(
                            props@,
                            self.sat_id(a),
                            self.sat_id(b),
                        ),
                    forall|b: int|
                        evict_pair(*self, i as int, b) && self.peers_of(i as int).subrange(
                            0,
                            k as int,
                        ).contains(#[trigger] self.sat_id(b)) ==> disc_requested(
                            props@,
                            self.sat_id(i as int),
                            self.sat_id(b),
                        ),
                decreases deg - k,
            {
                proof {
                    assert(self.sat_ok(i as int));
                }
                let pid = self.sats[i].connections.peers[k];
                proof {
                    assert(self.peers_of(i as int)[k as int] == pid);
                    assert(self.has_sat(pid));
                }
                let ghost props_before = props@;
                let ev = self.evict_check(i, pid, t2);
                if ev {
                    props.push(DisconnectTwo { from: id_i, to: pid });
                    proof {
                        let b0 = choose|b: int|
                            0 <= b < self.n() && #[trigger] self.sat_id(b) == pid && evict_pair(
                                *self,
                                i as int,
                                b,
                            ) && self.linked(i as int, b);
                        wit = wit.push((i as int, b0));
                        assert(evict_pair(*self, i as int, b0) && props@[props@.len() - 1].from
                            == self.sat_id(i as int) && props@[props@.len() - 1].to == self.sat_id(
                            b0,
                        ));
                    }
                }
                proof {
                    // Old proposals carry over unchanged.
                    assert forall|q: int|
                        0 <= q < props@.len() implies evict_pair(
                        *self,
                        (#[trigger] wit[q]).0,
                        wit[q].1,
                    ) && props@[q].from == self.sat_id(wit[q].0) && props@[q].to == self.sat_id(
                        wit[q].1,
                    ) by {
                        if q < props_before.len() {
                            assert(props@[q] == props_before[q]);
                        }
                    }
                    assert forall|a: int, b: int|
                        #![trigger self.sat_id(a), self.sat_id(b)]
                        evict_pair(*self, a, b) && a < i implies disc_requested(
                        props@,
                        self.sat_id(a),
                        self.sat_id(b),
                    ) by {
                        assert(disc_requested(props_before, self.sat_id(a), self.sat_id(b)));
                        let w = choose|w: int|
                            0 <= w < props_before.len() && (((#[trigger] props_before[w]).from
                                == self.sat_id(a) && props_before[w].to == self.sat_id(b)) || (
                            props_before[w].from == self.sat_id(b) && props_before[w].to
                                == self.sat_id(a)));
                        assert(props@[w] == props_before[w]);
                    }
                    // The prefix of scanned peers now includes position k.
                    assert forall|b: int|
                        evict_pair(*self, i as int, b) && self.peers_of(i as int).subrange(
                            0,
                            k + 1 as int,
                        ).contains(#[trigger] self.sat_id(b)) implies disc_requested(
                        props@,
                        self.sat_id(i as int),
                        self.sat_id(b),
                    ) by {
                        let pre = self.peers_of(i as int).subrange(0, k as int);
                        let pre1 = self.peers_of(i as int).subrange(0, k + 1 as int);
                        if pre.contains(self.sat_id(b)) {
                            assert(disc_requested(props_before, self.sat_id(i as int), self.sat_id(
                                b,
                            )));
                            let w = choose|w: int|
                                0 <= w < props_before.len() && (((#[trigger] props_before[w]).from
                                    == self.sat_id(i as int) && props_before[w].to == self.sat_id(
                                    b,
                                )) || (props_before[w].from == self.sat_id(b)
                                    && props_before[w].to == self.sat_id(i as int)));
                            assert(props@[w] == props_before[w]);
                        } else {
                            let w = choose|w: int| 0 <= w < pre1.len() && pre1[w] == self.sat_id(b);
                            assert(pre1[w] == self.peers_of(i as int)[w]);
                            if w < k {
                                assert(pre[w] == self.sat_id(b));
                            }
                            assert(w == k);
                            assert(pid == self.sat_id(b));
                            assert(self.linked(i as int, b)) by {
                                assert(self.peers_of(i as int)[k as int] == self.sat_id(b));
                            }
                            assert(ev);
                            assert(props@[props@.len() - 1].from == self.sat_id(i as int)
                                && props@[props@.len() - 1].to == self.sat_id(b));
                        }
                    }
                }
                k = k + 1;
            }
            proof {
                assert forall|a: int, b: int|
                    #![trigger self.sat_id(a), self.sat_id(b)]
                    evict_pair(*self, a, b) && a < i + 1 implies disc_requested(
                    props@,
                    self.sat_id(a),
                    self.sat_id(b),
                ) by {
                    if a == i {
                        assert(self.linked(a, b));
                        assert(self.peers_of(i as int).subrange(
                            0,
                            self.peers_of(i as int).len() as int,
                        ) =~= self.peers_of(i as int));
                    }
                }
            }
            i = i + 1;
        }
        proof {
            assert forall|k: int| 0 <= k < props@.len() implies sound_evict_prop(
                *self,
                #[trigger] props@[k],
            ) by {
                let (a, b) = wit[k];
                assert(evict_pair(*self, a, b) && props@[k].from == self.sat_id(a) && props@[k].to
                    == self.sat_id(b));
                let a2 = self.index_of(props@[k].from);
                let b2 = self.index_of(props@[k].to);
                assert(0 <= a2 < self.n() && self.sat_id(a2) == props@[k].from);
                assert(0 <= b2 < self.n() && self.sat_id(b2) == props@[k].to);
                if a2 != a {
                    self.lemma_ids_distinct(a2, a);
                }
                if b2 != b {
                    self.lemma_ids_distinct(b2, b);
                }
            }
        }
        props
    }

    /// Phase 5 of the tick: apply disconnect proposals, removing each
    /// endpoint from the other's connection set; an endpoint already
    /// absent, removed by a prior action this tick, is tolerated without
    /// error.
    ///
    /// After this phase an edge exists exactly when it existed before
    /// and no proposal named its pair.
    pub fn handle_disconnection(&mut self, props: &Vec<DisconnectTwo>)
        requires
            old(self).well_formed(),
        ensures
            final(self).well_formed(),
            final(self).sats@.len() == old(self).sats@.len(),
            forall|q: int|
                0 <= q < old(self).sats@.len() ==> sat_same_except_conns(
                    old(self).sats@[q],
                    #[trigger] final(self).sats@[q],
                ),
            forall|a: int, b: int|
                0 <= a < old(self).n() && 0 <= b < old(self).n() ==> (#[trigger] final(self).linked(
                    a,
                    b,
                ) <==> (old(self).linked(a, b) && !disc_requested(
                    props@,
                    old(self).sat_id(a),
                    old(self).sat_id(b),
                ))),
            final(self).orbits == old(self).orbits,
            final(self).orbit_ids == old(self).orbit_ids,
            final(self).followed_by == old(self).followed_by,
            final(self).unspawned_sats == old(self).unspawned_sats,
            final(self).next_id == old(self).next_id,
            final(self).connection_number == old(self).connection_number,
            final(self).connection_distance == old(self).connection_distance,
            final(self).time_speed == old(self).time_speed,
    {
        let ghost orig = *self;
        let mut k: usize = 0;
        while k < props.len()
            invariant
                self.well_formed(),
                orig.well_formed(),
                0 <= k <= props@.len(),
                self.sats@.len() == orig.sats@.len(),
                forall|q: int|
                    0 <= q < orig.sats@.len() ==> sat_same_except_conns(
                        orig.sats@[q],
                        #[trigger] self.sats@[q],
                    ),
                forall|a: int, b: int|
                    0 <= a < orig.n() && 0 <= b < orig.n() ==> (#[trigger] self.linked(a, b) <==> (
                    orig.linked(a, b) && !disc_requested(
                        props@.subrange(0, k as int),
                        orig.sat_id(a),
                        orig.sat_id(b),
                    ))),
                self.orbits == orig.orbits,
                self.orbit_ids == orig.orbit_ids,
                self.followed_by == orig.followed_by,
                self.unspawned_sats == orig.unspawned_sats,
                self.next_id == orig.next_id,
                self.connection_number == orig.connection_number,
                self.connection_distance == orig.connection_distance,
                self.time_speed == orig.time_speed,
            decreases props@.len() - k,
        {
            let p = props[k];
            let ghost before = *self;
            let found_i = self.find_index(p.from);
            let found_j = self.find_index(p.to);
            let ghost hit: bool = false;
            let ghost hi: int = 0;
            let ghost hj: int = 0;
            match (found_i, found_j) {
                (Some(i), Some(j)) => {
                    if i != j {
                        self.disconnect_pair(i, j);
                        proof {
                            hit = true;
                            hi = i as int;
                            hj = j as int;
                        }
                    }
                },
                _ => {},
            }
            proof {
                assert forall|a: int, b: int|
                    0 <= a < orig.n() && 0 <= b < orig.n() implies (#[trigger] self.linked(a, b)
                    <==> (orig.linked(a, b) && !disc_requested(
                    props@.subrange(0, k + 1 as int),
                    orig.sat_id(a),
                    orig.sat_id(b),
                ))) by {
                    let sub = props@.subrange(0, k as int);
                    let sub1 = props@.subrange(0, k + 1 as int);
                    assert(sub1 == sub.push(p)) by {
                        assert(sub1 =~= sub.push(p));
                    }
                    lemma_disc_requested_push(sub, p, orig.sat_id(a), orig.sat_id(b));
                    assert(before.sat_id(a) == orig.sat_id(a));
                    assert(before.sat_id(b) == orig.sat_id(b));
                    if hit {
                        // The pair named by this proposal is exactly the
                        // index pair that was disconnected.
                        assert(p.from == before.sat_id(hi) && p.to == before.sat_id(hj));
                        assert(self.linked(a, b) <==> (before.linked(a, b) && !((a == hi && b == hj)
                            || (a == hj && b == hi))));
                        before.lemma_ids_distinct_all(a, b, hi, hj);
                    } else {
                        assert(*self == before);
                        // The proposal names no pair of existing distinct
                        // satellites, so nothing changes.
                        if (p.from == orig.sat_id(a) && p.to == orig.sat_id(b)) || (p.from
                            == orig.sat_id(b) && p.to == orig.sat_id(a)) {
                            match found_i {
                                Some(i) => {
                                    match found_j {
                                        Some(j) => {
                                            assert(i == j);
                                            assert(before.sat_id(i as int) == p.from);
                                            assert(before.sat_id(j as int) == p.to);
                                            before.lemma_ids_distinct_all(a, b, i as int, j as int);
                                            assert(orig.sat_id(a) == orig.sat_id(b));
                                            if a != b {
                                                orig.lemma_ids_distinct(a, b);
                                            }
                                            assert(a == b);
                                            assert(!orig.linked(a, b)) by {
                                                assert(orig.sat_ok(a));
                                            }
                                        },
                                        None => {
                                            assert(!before.has_sat(p.to));
                                            assert(before.sat_id(a) == orig.sat_id(a));
                                            assert(false);
                                        },
                                    }
                                },
                                None => {
                                    assert(!before.has_sat(p.from));
                                    assert(false);
                                },
                            }
                        }
                    }
                }
            }
            k = k + 1;
        }
        proof {
            assert forall|a: int, b: int|
                0 <= a < orig.n() && 0 <= b < orig.n() implies (#[trigger] self.linked(a, b) <==> (
            orig.linked(a, b) && !disc_requested(props@, orig.sat_id(a), orig.sat_id(b)))) by {
                assert(props@.subrange(0, props@.len() as int) =~= props@);
            }
        }
    }
}

/// A pair is named by `ps.push(p)` exactly when it is named by `ps` or
/// by `p` itself.
proof fn lemma_disc_requested_push(ps: Seq<DisconnectTwo>, p: DisconnectTwo, x: u64, y: u64)
    ensures
        disc_requested(ps.push(p), x, y) <==> (disc_requested(ps, x, y) || (p.from == x && p.to
            == y) || (p.from == y && p.to == x)),
{
    if disc_requested(ps, x, y) {
        let w = choose|w: int|
            0 <= w < ps.len() && (((#[trigger] ps[w]).from == x && ps[w].to == y) || (ps[w].from
                == y && ps[w].to == x));
        assert(ps.push(p)[w] == ps[w]);
    }
    if (p.from == x && p.to == y) || (p.from == y && p.to == x) {
        assert(ps.push(p)[ps.len() as int] == p);
    }
    if disc_requested(ps.push(p), x, y) {
        let w = choose|w: int|
            0 <= w < ps.push(p).len() && (((#[trigger] ps.push(p)[w]).from == x && ps.push(p)[w].to
                == y) || (ps.push(p)[w].from == y && ps.push(p)[w].to == x));
        if w < ps.len() {
            assert(ps[w] == ps.push(p)[w]);
        }
    }
}

/// Remove a handle from a duplicate-free vector, tolerating absence.
fn remove_value(v: &mut Vec<u64>, id: u64)
    requires
        old(v)@.no_duplicates(),
    ensures
        final(v)@.no_duplicates(),
        final(v)@.len() <= old(v)@.len(),
        forall|x: u64| final(v)@.contains(x) <==> (old(v)@.contains(x) && x != id),
{
    let ghost orig = v@;
    let mut out: Vec<u64> = Vec::new();
    let mut i: usize = 0;
    while i < v.len()
        invariant
            orig == v@,
            orig.no_duplicates(),
            0 <= i <= orig.len(),
            out@.len() <= i,
            out@.no_duplicates(),
            forall|x: u64|
                out@.contains(x) <==> (orig.subrange(0, i as int).contains(x) && x != id),
        decreases orig.len() - i,
    {
        let x = v[i];
        let ghost out_before = out@;
        let ghost pre = orig.subrange(0, i as int);
        let ghost pre1 = orig.subrange(0, i + 1 as int);
        if x != id {
            proof {
                if out_before.contains(x) {
                    assert(pre.contains(x));
                    let w = choose|w: int| 0 <= w < pre.len() && pre[w] == x;
                    assert(orig[w] == x && orig[i as int] == x && w != i);
                }
                lemma_push_no_duplicates(out_before, x);
            }
            out.push(x);
        }
        proof {
            assert forall|y: u64| out@.contains(y) <==> (pre1.contains(y) && y != id) by {
                if x != id {
                    lemma_push_contains(out_before, x, y);
                }
                if pre.contains(y) {
                    let w = choose|w: int| 0 <= w < pre.len() && pre[w] == y;
                    assert(pre1[w] == y);
                }
                if pre1.contains(y) {
                    let w = choose|w: int| 0 <= w < pre1.len() && pre1[w] == y;
                    if w < i {
                        assert(pre[w] == y);
                    } else {
                        assert(y == x);
                    }
                }
                if x != id && y == x {
                    assert(pre1[i as int] == x);
                }
            }
        }
        i = i + 1;
    }
    proof {
        assert(orig.subrange(0, orig.len() as int) =~= orig);
    }
    *v = out;
}

impl SatelliteManager {
    /// Remove each endpoint from the other's connection set; absence on
    /// either side is tolerated.
    fn disconnect_pair(&mut self, i: usize, j: usize)
        requires
            old(self).well_formed(),
            0 <= i < old(self).n(),
            0 <= j < old(self).n(),
            i != j,
        ensures
            final(self).well_formed(),
            final(self).sats@.len() == old(self).sats@.len(),
            forall|q: int|
                0 <= q < old(self).sats@.len() ==> sat_same_except_conns(
                    old(self).sats@[q],
                    #[trigger] final(self).sats@[q],
                ),
            forall|a: int, b: int|
                0 <= a < old(self).n() && 0 <= b < old(self).n() ==> (#[trigger] final(self).linked(
                    a,
                    b,
                ) <==> (old(self).linked(a, b) && !((a == i && b == j) || (a == j && b == i)))),
            final(self).orbits == old(self).orbits,
            final(self).orbit_ids == old(self).orbit_ids,
            final(self).followed_by == old(self).followed_by,
            final(self).unspawned_sats == old(self).unspawned_sats,
            final(self).next_id == old(self).next_id,
            final(self).connection_number == old(self).connection_number,
            final(self).connection_distance == old(self).connection_distance,
            final(self).time_speed == old(self).time_speed,
    {
        proof {
            assert(old(self).sat_ok(i as int));
            assert(old(self).sat_ok(j as int));
            old(self).lemma_ids_distinct(i as int, j as int);
        }
        let id_i = self.sats[i].id;
        let id_j = self.sats[j].id;
        remove_value(&mut self.sats[i].connections.peers, id_j);
        remove_value(&mut self.sats[j].connections.peers, id_i);
        proof {
            let a = *old(self);
            let b = *self;
            assert(b.n() == a.n());
            assert forall|q: int| 0 <= q < b.n() && q != i && q != j implies b.sats@[q]
                == a.sats@[q] by {}
            assert forall|q: int| 0 <= q < b.n() implies #[trigger] b.sat_id(q) == a.sat_id(q) by {}
            assert forall|q: int, x: u64| 0 <= q < b.n() implies (#[trigger] b.peers_of(q).contains(
                x,
            ) <==> (a.peers_of(q).contains(x) && !((q == i && x == id_j) || (q == j && x
                == id_i)))) by {
                if q != i && q != j {
                    assert(b.peers_of(q) == a.peers_of(q));
                }
            }
            assert forall|x: int, y: int|
                0 <= x < b.n() && 0 <= y < b.n() implies (#[trigger] b.linked(x, y) <==> (a.linked(
                x,
                y,
            ) && !((x == i && y == j) || (x == j && y == i)))) by {
                a.lemma_ids_distinct_all(x, y, i as int, j as int);
            }
            assert forall|x: int, y: int|
                0 <= x < b.n() && 0 <= y < b.n() && #[trigger] b.linked(x, y) implies b.linked(
                y,
                x,
            ) by {
                assert(a.linked(x, y));
                assert(a.linked(y, x));
            }
            assert forall|q: int, x: int|
                #![trigger b.sat_id(q), b.sat_id(x)]
                0 <= q < x < b.n() implies b.sat_id(q) < b.sat_id(x) by {
                assert(a.sat_id(q) < a.sat_id(x));
            }
            assert forall|q: int| 0 <= q < b.n() implies #[trigger] b.sat_id(q) < b.next_id by {
                assert(a.sat_id(q) < a.next_id);
            }
            assert forall|q: int| 0 <= q < b.n() implies b.sat_ok(q) by {
                assert(a.sat_ok(q));
                if q != i && q != j {
                    assert(b.sats@[q] == a.sats@[q]);
                }
                let s = b.sats@[q];
                assert(b.peers_of(q).len() <= a.peers_of(q).len());
                assert(!b.peers_of(q).contains(b.sat_id(q))) by {
                    if b.peers_of(q).contains(b.sat_id(q)) {
                        assert(a.peers_of(q).contains(a.sat_id(q)));
                    }
                }
                assert forall|k: int|
                    0 <= k < s.connections.peers@.len() implies b.has_sat(
                    #[trigger] s.connections.peers@[k],
                ) by {
                    let id = s.connections.peers@[k];
                    assert(b.peers_of(q)[k] == id);
                    assert(b.peers_of(q).contains(id));
                    assert(a.peers_of(q).contains(id));
                    let w0 = choose|w: int| 0 <= w < a.peers_of(q).len() && a.peers_of(q)[w] == id;
                    assert(a.sats@[q].connections.peers@[w0] == id);
                    assert(a.has_sat(id));
                    let w = choose|w: int| 0 <= w < a.n() && #[trigger] a.sat_id(w) == id;
                    assert(b.sat_id(w) == id);
                }
            }
        }
    }
}

/// Linear membership test over a vector of handles.
fn contains_id(v: &Vec<u64>, id: u64) -> (r: bool)
    ensures
        r <==> v@.contains(id),
{
    let mut i: usize = 0;
    while i < v.len()
        invariant
            0 <= i <= v@.len(),
            forall|k: int| 0 <= k < i ==> v@[k] != id,
        decreases v@.len() - i,
    {
        if v[i] == id {
            return true;
        }
        i = i + 1;
    }
    false
}

} // verus!
