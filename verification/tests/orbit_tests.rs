use orbiter::fixmath::TWO_PI;
use orbiter::orbit::ellipse_orbit_data;
use orbiter::orbit::get_pos_from_elements;
use orbiter::orbit::Orbit;

fn circular_orbit() -> Orbit {
    Orbit {
        mean_motion: 1_077_927,
        eccentricity: 0,
        inclination: 0,
        longitude_of_ascending_node: 0,
        argument_of_periapsis: 0,
    }
}

fn tilted_orbit() -> Orbit {
    Orbit {
        mean_motion: 1_077_927,
        eccentricity: 100_000,
        inclination: 400_000,
        longitude_of_ascending_node: 700_000,
        argument_of_periapsis: 300_000,
    }
}

#[test]
fn position_on_circular_orbit() {
    // At zero anomaly the satellite sits on the x-axis at the
    // semi-major axis.
    let p = get_pos_from_elements(&circular_orbit(), 0).unwrap();
    assert_eq!((p.x, p.y, p.z), (7_001_008, 0, 0));
    let q = get_pos_from_elements(&circular_orbit(), 14_284).unwrap();
    assert_eq!((q.x, q.y, q.z), (7_000_314, 100_002, 0));
}

#[test]
fn position_on_tilted_orbit() {
    let p = get_pos_from_elements(&tilted_orbit(), 1_234_567).unwrap();
    assert_eq!((p.x, p.y, p.z), (-1_438_954, 6_233_236, -2_407_575));
}

#[test]
fn position_is_periodic() {
    // One full revolution of the mean anomaly returns the same
    // Cartesian position, exactly.
    let orbit = tilted_orbit();
    for m in [0i64, 1_234_567, 5_000_000, -3_000_000] {
        let p = get_pos_from_elements(&orbit, m).unwrap();
        let q = get_pos_from_elements(&orbit, m + TWO_PI).unwrap();
        assert_eq!((p.x, p.y, p.z), (q.x, q.y, q.z));
    }
}

#[test]
fn ellipse_geometry() {
    let data = ellipse_orbit_data(&tilted_orbit());
    assert_eq!(data.half_size.0, 7_001_008);
    assert_eq!(data.half_size.1, 6_965_911);
    assert_eq!(data.rotation, (400_000, 700_000, 300_000));
    // A circular orbit has no focal offset: the ellipse is centred.
    let round = ellipse_orbit_data(&circular_orbit());
    assert_eq!(round.half_size.0, round.half_size.1);
    assert_eq!((round.location.x, round.location.y, round.location.z), (0, 0, 0));
}
