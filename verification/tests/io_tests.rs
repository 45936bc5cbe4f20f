use orbiter::config::Display;
use orbiter::config::Simulation;
use orbiter::io::encode_frame;
use orbiter::io::parse_frame_len;
use orbiter::io::IOPlugin;
use orbiter::widgets::button_system;
use orbiter::widgets::ButtonVisual;
use orbiter::widgets::Interaction;
use orbiter::widgets::WidgetColor;

#[test]
fn add_satellite_from_geometry() {
    // A 6900 x 7000 km orbit: eccentricity from the shape, mean motion
    // from the size.
    let request = orbiter::io::AddSatellite {
        apogee: 7000,
        perigee: 6900,
        inclination: 925_958,
        longitude_of_ascending_node: 0,
        argument_of_periapsis: 0,
        mean_anomaly: 1_234_567,
    };
    let slice = request.as_slice();
    assert_eq!(slice, [1_089_661, 7194, 925_958, 0, 0, 1_234_567]);
    // What it produces is accepted by the ingestion path.
    assert!(orbiter::elements::OrbitalElements::from_slice(&slice).is_ok());
}

#[test]
fn frame_round_trip() {
    let payload: Vec<u8> = vec![10, 20, 30, 40, 50];
    let framed = encode_frame(&payload);
    assert_eq!(framed.len(), payload.len() + 4);
    let n = parse_frame_len(framed[0], framed[1], framed[2], framed[3]);
    assert_eq!(n as usize, payload.len());
    assert_eq!(&framed[4..], &payload[..]);
}

#[test]
fn frame_length_is_big_endian() {
    assert_eq!(parse_frame_len(0, 0, 1, 2), 258);
    assert_eq!(parse_frame_len(1, 0, 0, 0), 16_777_216);
    let framed = encode_frame(&vec![0u8; 258]);
    assert_eq!((framed[0], framed[1], framed[2], framed[3]), (0, 0, 1, 2));
}

#[test]
fn endpoint_port() {
    let plugin = IOPlugin::new(15702);
    assert_eq!(plugin.port, 15702);
}

#[test]
fn button_states() {
    let pressed: ButtonVisual = button_system(Interaction::Pressed);
    assert!(pressed.activate);
    assert_eq!(pressed.background, WidgetColor::On);
    assert_eq!(pressed.border, WidgetColor::Black);
    let hovered = button_system(Interaction::Hovered);
    assert!(!hovered.activate);
    assert_eq!(hovered.border, WidgetColor::Gold);
    let idle = button_system(Interaction::Idle);
    assert!(!idle.activate);
    assert_eq!(idle.background, WidgetColor::Off);
}

#[test]
fn display_toggles() {
    let mut display = Display { orbit: false, connection: true };
    display.toggle_orbit();
    assert!(display.orbit && display.connection);
    display.toggle_connection();
    assert!(display.orbit && !display.connection);
}

#[test]
fn simulation_parameter_check() {
    let good = Simulation { time_speed: 1000, connection_distance: 500_000, connection_number: 1 };
    assert!(good.check());
    let bad = Simulation { time_speed: -1, connection_distance: 500_000, connection_number: 0 };
    assert!(!bad.check());
}
