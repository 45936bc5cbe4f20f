use orbiter::elements::OrbitalElements;
use orbiter::manager::SatelliteManager;

fn make_manager(capacity: usize, distance_m: i64) -> SatelliteManager {
    SatelliteManager::new(capacity, distance_m, 1000)
}

fn circular_elements(mean_anomaly: i64) -> OrbitalElements {
    // a = 7001 km, e = 0, equatorial.
    OrbitalElements::from_slice(&[1_077_927, 0, 0, 0, 0, mean_anomaly]).unwrap()
}

fn add_and_spawn(m: &mut SatelliteManager, sats: Vec<(String, OrbitalElements)>) {
    m.add_satellites(sats);
    assert!(m.spawn());
}

fn degree(m: &SatelliteManager, i: usize) -> usize {
    m.sats[i].connections.peers.len()
}

fn linked(m: &SatelliteManager, i: usize, j: usize) -> bool {
    m.sats[i].connections.peers.contains(&m.sats[j].id)
}

fn assert_graph_invariants(m: &SatelliteManager, capacity: usize) {
    for i in 0..m.sats.len() {
        let peers = &m.sats[i].connections.peers;
        assert!(peers.len() <= capacity);
        assert!(!peers.contains(&m.sats[i].id));
        for k in 0..peers.len() {
            assert!(!peers[k + 1..].contains(&peers[k]));
            // Symmetry: the peer lists us back.
            let j = m.sats.iter().position(|s| s.id == peers[k]).unwrap();
            assert!(m.sats[j].connections.peers.contains(&m.sats[i].id));
        }
    }
}

#[test]
fn communication_test_iter() {
    let sats = [1, 2, 3, 4, 5, 6];
    let mut iter = sats.into_iter();
    let first = iter.next().unwrap();
    let rest = iter.collect::<Vec<_>>();

    println!("first: {}, rest: {:?}", first, rest); // first: 1, rest: [2, 3, 4, 5, 6]
}

#[test]
fn two_satellites_connect_within_threshold() {
    // Two satellites 100 km apart, threshold 500 km, capacity 1: after
    // one tick both are connected to each other.
    let mut m = make_manager(1, 500_000);
    add_and_spawn(
        &mut m,
        vec![
            ("SAT-A".to_string(), circular_elements(0)),
            ("SAT-B".to_string(), circular_elements(14_284)),
        ],
    );
    m.tick(0, 11);
    assert!(linked(&m, 0, 1));
    assert!(linked(&m, 1, 0));
    assert_eq!(degree(&m, 0), 1);
    assert_eq!(degree(&m, 1), 1);
    let topo = m.get_topology();
    assert_eq!(topo.len(), 2);
    assert_eq!(topo[0].0, "SAT-A");
    assert_eq!(topo[0].1, vec!["SAT-B".to_string()]);
    assert_eq!(topo[1].1, vec!["SAT-A".to_string()]);
}

#[test]
fn link_evicted_when_moved_apart() {
    // Two coplanar circular orbits 49 km apart connect, then drift to
    // almost 1000 km of separation; the next tick removes the link.
    let mut m = make_manager(1, 500_000);
    let lower = circular_elements(0);
    let upper = OrbitalElements::from_slice(&[1_066_568, 0, 0, 0, 0, 0]).unwrap();
    add_and_spawn(
        &mut m,
        vec![("LOW".to_string(), lower), ("HIGH".to_string(), upper)],
    );
    m.tick(0, 11);
    assert!(linked(&m, 0, 1) && linked(&m, 1, 0));
    m.tick(12_326_028, 12);
    assert!(!linked(&m, 0, 1));
    assert!(!linked(&m, 1, 0));
    assert_eq!(degree(&m, 0), 0);
    assert_eq!(degree(&m, 1), 0);
}

#[test]
fn three_satellites_capacity_one() {
    // Three satellites mutually in range with capacity 1: exactly one
    // of the three possible pairs connects, never a triangle.
    let mut m = make_manager(1, 500_000);
    add_and_spawn(
        &mut m,
        vec![
            ("S1".to_string(), circular_elements(0)),
            ("S2".to_string(), circular_elements(14_284)),
            ("S3".to_string(), circular_elements(28_568)),
        ],
    );
    m.tick(0, 11);
    let total: usize = (0..3).map(|i| degree(&m, i)).sum();
    assert_eq!(total, 2);
    let with_link = (0..3).filter(|&i| degree(&m, i) == 1).count();
    assert_eq!(with_link, 2);
    assert_graph_invariants(&m, 1);
}

#[test]
fn capacity_and_symmetry_after_every_tick() {
    // A small constellation over several ticks: degrees stay within
    // capacity and the link relation stays symmetric.
    let mut m = make_manager(2, 500_000);
    let sats = (0..6)
        .map(|k| (format!("N{}", k), circular_elements(14_284 * k as i64)))
        .collect::<Vec<_>>();
    add_and_spawn(&mut m, sats);
    for _ in 0..5 {
        m.tick(1000, 99);
        assert_graph_invariants(&m, 2);
    }
}

#[test]
fn reset_is_idempotent() {
    // The global reset clears the graph; doing it twice leaves the very
    // same empty-graph state as once.
    let mut m = make_manager(1, 500_000);
    add_and_spawn(
        &mut m,
        vec![
            ("A".to_string(), circular_elements(0)),
            ("B".to_string(), circular_elements(14_284)),
        ],
    );
    m.tick(0, 11);
    assert!(linked(&m, 0, 1));
    m.handle_disconnect_all();
    let first = m.get_topology();
    let anomalies_first: Vec<i64> = m.sats.iter().map(|s| s.elements.mean_anomaly).collect();
    m.handle_disconnect_all();
    let second = m.get_topology();
    let anomalies_second: Vec<i64> = m.sats.iter().map(|s| s.elements.mean_anomaly).collect();
    assert_eq!(first, second);
    assert_eq!(anomalies_first, anomalies_second);
    for i in 0..m.sats.len() {
        assert_eq!(degree(&m, i), 0);
        assert!(!m.sats[i].trying);
    }
}

#[test]
fn churn_bound_limits_marking() {
    // Two satellites with capacity 2: the per-tick selection marks
    // floor(2 / (2 + 1)) = 0 candidates, so no link forms even though
    // the pair is well within range.
    let mut m = make_manager(2, 500_000);
    add_and_spawn(
        &mut m,
        vec![
            ("A".to_string(), circular_elements(0)),
            ("B".to_string(), circular_elements(14_284)),
        ],
    );
    m.tick(0, 11);
    assert_eq!(degree(&m, 0), 0);
    assert_eq!(degree(&m, 1), 0);
}

#[test]
fn spawn_assigns_fresh_ids_and_orbits() {
    let mut m = make_manager(1, 500_000);
    add_and_spawn(
        &mut m,
        vec![
            ("A".to_string(), circular_elements(0)),
            ("B".to_string(), circular_elements(14_284)),
        ],
    );
    assert_eq!(m.sats.len(), 2);
    assert!(m.sats[0].id < m.sats[1].id);
    assert_eq!(m.orbits.len(), 2);
    assert_eq!(m.followed_by.len(), 2);
    assert_eq!(m.followed_by[0].0, vec![m.sats[0].id]);
    assert_eq!(m.sats[0].following.0, m.orbit_ids[0]);
    // No queued records are left after a spawn.
    assert!(m.unspawned_sats.is_empty());
    assert!(!m.spawn());
}
