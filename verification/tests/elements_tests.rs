use orbiter::elements::from_slices;
use orbiter::elements::ElementsError;
use orbiter::elements::OrbitalElements;
use orbiter::elements::RawSatelliteData;
use orbiter::epoch::parse_time_from_str;

fn raw_record() -> RawSatelliteData {
    // A catalog record with all fields scaled by 10^6:
    // 15.064005 rev/day, e = 0.000154, angles in micro-degrees.
    RawSatelliteData {
        object_id: "2019-074B".to_string(),
        epoch: "2024-10-27T04:10:58.101312".to_string(),
        mean_motion: 15_064_005,
        eccentricity: 154,
        inclination: 53_053_500,
        ra_of_asc_node: 264_541_800,
        arg_of_pericenter: 101_051_300,
        mean_anomaly: 259_064_900,
    }
}

#[test]
fn utils_test_chrono() {
    let date = "2024-10-27T04:10:58.101312";
    let parsed_time = parse_time_from_str(date).unwrap();
    println!("{}", parsed_time);
    assert_eq!(parsed_time, 1_730_002_258_101_312);
}

#[test]
fn epoch_parsing() {
    assert_eq!(parse_time_from_str("1970-01-01T00:00:00"), Some(0));
    assert_eq!(
        parse_time_from_str("2024-02-29T00:00:00"),
        Some(1_709_164_800_000_000)
    );
    // Not a leap year.
    assert_eq!(parse_time_from_str("2023-02-29T00:00:00"), None);
    assert_eq!(parse_time_from_str("2024-13-01T00:00:00"), None);
    assert_eq!(parse_time_from_str("2024-10-27T24:00:00"), None);
    // Trailing input beyond the pattern is rejected.
    assert_eq!(parse_time_from_str("2024-10-27T04:10:58Z"), None);
    assert_eq!(parse_time_from_str("2024-10-27T04:10:58.1013120"), None);
    assert_eq!(parse_time_from_str("not a timestamp"), None);
}

#[test]
fn ingest_catalog_record() {
    // Ingest one hundred seconds after the record's epoch.
    let now = 1_730_002_258_101_312 + 100_000_000;
    let el = OrbitalElements::from_raw_sate_data(&raw_record(), now).unwrap();
    assert_eq!(el.mean_motion, 1_095_485);
    assert_eq!(el.eccentricity, 154);
    assert_eq!(el.inclination, 925_958);
    assert_eq!(el.mean_anomaly, 4_631_083);
}

#[test]
fn eccentricity_one_is_rejected() {
    // e = 1.0 exactly is out of [0, 1): the record is rejected and no
    // satellite is created from it.
    let mut raw = raw_record();
    raw.eccentricity = 1_000_000;
    assert_eq!(
        OrbitalElements::from_raw_sate_data(&raw, 1_730_002_258_101_312),
        Err(ElementsError::InvalidEccentricity)
    );
    assert_eq!(
        OrbitalElements::from_slice(&[1_077_927, 1_000_000, 0, 0, 0, 0]),
        Err(ElementsError::InvalidEccentricity)
    );
    assert_eq!(
        OrbitalElements::from_slice(&[1_077_927, -1, 0, 0, 0, 0]),
        Err(ElementsError::InvalidEccentricity)
    );
}

#[test]
fn malformed_timestamp_is_rejected() {
    let mut raw = raw_record();
    raw.epoch = "27/10/2024 04:10".to_string();
    assert_eq!(
        OrbitalElements::from_raw_sate_data(&raw, 0),
        Err(ElementsError::MalformedTimestamp)
    );
}

#[test]
fn nonpositive_mean_motion_is_rejected() {
    let mut raw = raw_record();
    raw.mean_motion = 0;
    assert_eq!(
        OrbitalElements::from_raw_sate_data(&raw, 0),
        Err(ElementsError::InvalidMeanMotion)
    );
    assert_eq!(
        OrbitalElements::from_slice(&[0, 0, 0, 0, 0, 0]),
        Err(ElementsError::InvalidMeanMotion)
    );
}

#[test]
fn from_slice_normalizes_angles() {
    let el = OrbitalElements::from_slice(&[1_077_927, 0, -1_000_000, 7_000_000, 0, 6_283_185])
        .unwrap();
    assert_eq!(el.inclination, 5_283_185);
    assert_eq!(el.longitude_of_ascending_node, 716_815);
    assert_eq!(el.mean_anomaly, 0);
    let (orbit, anomaly) = el.sep_out_mean_anomaly();
    assert_eq!(orbit.mean_motion, 1_077_927);
    assert_eq!(anomaly, 0);
}

#[test]
fn batch_ingestion_rejects_per_record() {
    // One bad record in the middle does not abort the batch: the good
    // ones are accepted in order, the bad one is reported by name.
    let records = vec![
        ("G1".to_string(), [1_077_927i64, 0, 0, 0, 0, 0]),
        ("BAD".to_string(), [1_077_927, 1_000_000, 0, 0, 0, 0]),
        ("G2".to_string(), [1_077_927, 154, 0, 0, 0, 14_284]),
    ];
    let (accepted, rejected) = from_slices(records);
    assert_eq!(accepted.len(), 2);
    assert_eq!(accepted[0].0, "G1");
    assert_eq!(accepted[1].0, "G2");
    assert_eq!(accepted[1].1.mean_anomaly, 14_284);
    assert_eq!(rejected.len(), 1);
    assert_eq!(rejected[0].0, "BAD");
    assert_eq!(rejected[0].1, ElementsError::InvalidEccentricity);
}
