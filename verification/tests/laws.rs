use wizctl::bulb::{brightness_percent, listed_scenes};
use wizctl::colors::{
    get_scene_name, parse_brightness, parse_color, parse_kelvin, parse_scene, percent_text, rgb_to_hex,
    Percent,
};
use wizctl::state::{validate_ip, State};
use wizctl::worker::{after_poll, Cmd};

/// The brightness `value` gives, with its percentage read as an `f64` the way
/// the command line reads it.
fn brightness(value: &str) -> Result<u8, String> {
    let reading = match percent_text(value) {
        Some(text) => match text.parse::<f64>() {
            Err(_) => Percent::NotANumber,
            Ok(p) if !(0.0..=100.0).contains(&p) || p.is_nan() || p.is_infinite() => {
                Percent::OutOfRange
            }
            Ok(p) => Percent::Byte((p * 255.0 / 100.0).round().clamp(0.0, 255.0) as u8),
        },
        None => Percent::NotANumber,
    };
    parse_brightness(value, reading)
}

#[test]
fn every_listed_scene_parses_by_id() {
    for (id, name) in listed_scenes() {
        assert_eq!(parse_scene(&id.to_string()), Ok((id, name)));
    }
    assert_eq!(parse_scene("37"), Err("Unknown WiZ scene ID: 37".to_string()));
}

#[test]
fn whole_percentages_round_trip_through_bytes() {
    for p in 0u8..=100 {
        let b = brightness(&format!("{p}%")).unwrap();
        assert_eq!(brightness_percent(b), p, "{p}%");
    }
}

#[test]
fn every_byte_parses_as_brightness() {
    for b in 0u8..=255 {
        assert_eq!(brightness(&b.to_string()), Ok(b));
    }
}

#[test]
fn kelvin_values_parse_with_and_without_suffix() {
    for k in [1000u16, 2200, 2700, 4000, 6500, 10000] {
        assert_eq!(parse_kelvin(&k.to_string()), Ok(k));
        assert_eq!(parse_kelvin(&format!("{k}K")), Ok(k));
    }
}

#[test]
fn default_address_is_valid() {
    let ip = State::default().ip;
    assert_eq!(validate_ip(&ip), Ok(ip.clone()));
}

#[test]
fn superseding_is_symmetric() {
    let cmds = [
        Cmd::Power(true),
        Cmd::Brightness(3),
        Cmd::Kelvin(2700),
        Cmd::Rgb(1, 2, 3),
        Cmd::Scene(4),
        Cmd::SetIp("10.0.0.1".to_string()),
        Cmd::Ping,
    ];
    for a in &cmds {
        for b in &cmds {
            assert_eq!(a.same_kind(b), b.same_kind(a));
        }
        assert_eq!(a.same_kind(a), !matches!(a, Cmd::SetIp(_)));
    }
}

#[test]
fn decimal_triples_parse_as_colors() {
    use_triples(&[(0, 0, 0), (255, 128, 0), (9, 10, 99), (255, 255, 255), (1, 200, 37)]);
}

fn use_triples(list: &[(u8, u8, u8)]) {
    for &(r, g, b) in list {
        assert_eq!(wizctl::colors::parse_color(&format!("{r},{g},{b}")), Ok((r, g, b)));
    }
}

#[test]
fn reported_dimming_round_trips() {
    use_dimmings();
}

fn use_dimmings() {
    for d in 0u8..=100 {
        let mut p = wizctl::bulb::PilotResult::default();
        p.dimming = Some(d);
        let b = p.brightness_255().unwrap();
        assert_eq!(brightness_percent(b), d);
        if d >= 10 {
            assert_eq!(wizctl::bulb::dimming_percent(b), d);
        }
    }
}

#[test]
fn upper_case_hex_parses_back() {
    for (r, g, b) in [(0u8, 0u8, 0u8), (255, 140, 0), (12, 200, 90), (171, 205, 239)] {
        let hex = rgb_to_hex(r, g, b).to_uppercase();
        assert_eq!(parse_color(&hex), Ok((r, g, b)), "{hex}");
    }
}

#[test]
fn a_parsed_scene_is_named_by_its_id() {
    for value in ["14", "cozy", "NIGHT-LIGHT", "dim to warm", "40", "Candlelight"] {
        let (id, name) = parse_scene(value).unwrap();
        assert_eq!(get_scene_name(id), Some(name), "{value}");
    }
    for (id, name) in listed_scenes() {
        assert_eq!(parse_scene(name), Ok((id, name)));
        assert_eq!(parse_scene(&name.to_uppercase()), Ok((id, name)));
    }
}

#[test]
fn the_poll_schedule_backs_off_and_resets() {
    let outcomes = [false, false, false, false, false, true, false, true];
    let mut failures = 0usize;
    let mut delays = Vec::new();
    for ok in outcomes {
        let (f, d) = after_poll(failures, ok);
        failures = f;
        delays.push(d);
    }
    assert_eq!(delays, vec![6_000, 12_000, 20_000, 30_000, 30_000, 10_000, 6_000, 10_000]);
    assert_eq!(failures, 0);
}
