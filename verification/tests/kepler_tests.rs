use orbiter::fixmath::cos_fixed;
use orbiter::fixmath::normalize_angle;
use orbiter::fixmath::sin_fixed;
use orbiter::fixmath::SCALE;
use orbiter::fixmath::TWO_PI;
use orbiter::kepler::anomaly_mean_to_eccentric;
use orbiter::kepler::anomaly_mean_to_true;
use orbiter::kepler::KEPLER_EPS;

#[test]
fn solver_satisfies_kepler_equation() {
    let m: i64 = 1_000_000;
    let e: i64 = 100_000;
    let ea = anomaly_mean_to_eccentric(m, e).unwrap();
    assert_eq!(ea, 1_088_598);
    let residual = ea - e * sin_fixed(ea) / SCALE - normalize_angle(m);
    assert!(-KEPLER_EPS <= residual && residual <= KEPLER_EPS);
}

#[test]
fn solver_high_eccentricity_bootstrap() {
    // e >= 0.8 starts the iteration at pi and still converges.
    let m: i64 = 2_000_000;
    let e: i64 = 900_000;
    let ea = anomaly_mean_to_eccentric(m, e).unwrap();
    assert_eq!(ea, 2_522_416);
    let residual = ea - e * sin_fixed(ea) / SCALE - normalize_angle(m);
    assert!(-KEPLER_EPS <= residual && residual <= KEPLER_EPS);
}

#[test]
fn solver_converges_across_the_range() {
    // Sweep of mean anomalies and eccentricities: every in-range input
    // converges within the iteration cap.
    let mut m: i64 = -2 * TWO_PI;
    while m < 2 * TWO_PI {
        let mut e: i64 = 0;
        while e < SCALE {
            let r = anomaly_mean_to_eccentric(m, e);
            assert!(r.is_ok(), "non-convergence at M={} e={}", m, e);
            let ea = r.unwrap();
            let residual = ea - e * sin_fixed(ea) / SCALE - normalize_angle(m);
            assert!(-KEPLER_EPS <= residual && residual <= KEPLER_EPS);
            e += 99_991;
        }
        m += 524_287;
    }
}

#[test]
fn circular_orbit_identity() {
    // e = 0: the true anomaly is the mean anomaly itself.
    let m: i64 = 1_234_567;
    let dir = anomaly_mean_to_true(m, 0).unwrap();
    assert_eq!(dir.sin, 944_006);
    assert_eq!(dir.cos, 329_929);
    assert_eq!(dir.sin, sin_fixed(m));
    assert_eq!(dir.cos, cos_fixed(m));
}

#[test]
fn circular_orbit_identity_negative_anomaly() {
    let m: i64 = -1_000_000;
    assert_eq!(normalize_angle(m), 5_283_185);
    let dir = anomaly_mean_to_true(m, 0).unwrap();
    assert_eq!(dir.sin, -841_471);
    assert_eq!(dir.cos, 540_303);
    let ea = anomaly_mean_to_eccentric(m, 0).unwrap();
    assert_eq!(ea, 5_283_185);
}
