use wizctl::colors::{
    get_scene_name, parse_brightness, parse_color, parse_kelvin, parse_scene, percent_text, rgb_to_hex,
    Percent,
};

/// The brightness `value` gives, with its percentage read as an `f64` the way
/// the command line reads it.
fn brightness(value: &str) -> Result<u8, String> {
    let reading = match percent_text(value) {
        Some(text) => match text.parse::<f64>() {
            Err(_) => Percent::NotANumber,
            Ok(p) if !(0.0..=100.0).contains(&p) || p.is_nan() || p.is_infinite() => {
                Percent::OutOfRange
            }
            Ok(p) => Percent::Byte((p * 255.0 / 100.0).round().clamp(0.0, 255.0) as u8),
        },
        None => Percent::NotANumber,
    };
    parse_brightness(value, reading)
}

#[test]
fn test_parse_color() {
    assert_eq!(parse_color("red").unwrap(), (255, 0, 0));
    assert_eq!(parse_color("warm-white").unwrap(), (255, 214, 170));
    assert_eq!(parse_color("#ff0000").unwrap(), (255, 0, 0));
    assert_eq!(parse_color("#00f").unwrap(), (0, 0, 255));
    assert_eq!(parse_color("255, 128, 0").unwrap(), (255, 128, 0));
    assert!(parse_color("invalid_color").is_err());
}

#[test]
fn test_parse_brightness() {
    assert_eq!(brightness("128").unwrap(), 128);
    assert_eq!(brightness("50%").unwrap(), 128);
    assert_eq!(brightness("100%").unwrap(), 255);
    assert_eq!(brightness("0%").unwrap(), 0);
    assert!(brightness("300").is_err());
    assert!(brightness("150%").is_err());
}

#[test]
fn test_parse_kelvin() {
    assert_eq!(parse_kelvin("2700").unwrap(), 2700);
    assert_eq!(parse_kelvin("4000K").unwrap(), 4000);
    assert_eq!(parse_kelvin("6500k").unwrap(), 6500);
    assert!(parse_kelvin("500").is_err());
    assert!(parse_kelvin("15000").is_err());
}

#[test]
fn test_parse_scene() {
    assert_eq!(parse_scene("6").unwrap(), (6, "Cozy"));
    assert_eq!(parse_scene("cozy").unwrap(), (6, "Cozy"));
    assert_eq!(parse_scene("Sunset").unwrap(), (3, "Sunset"));
    assert_eq!(parse_scene("night-light").unwrap(), (14, "Night light"));
    assert!(parse_scene("999").is_err());
    assert!(parse_scene("not_a_scene").is_err());
}

#[test]
fn test_named_colors() {
    assert_eq!(parse_color("red").unwrap(), (255, 0, 0));
    assert_eq!(parse_color("blue").unwrap(), (0, 0, 255));
    assert_eq!(parse_color("green").unwrap(), (0, 255, 0));
    assert_eq!(parse_color("warmwhite").unwrap(), (255, 214, 170));
    assert_eq!(parse_color("cool-white").unwrap(), (212, 235, 255));
}

#[test]
fn test_hex_colors() {
    assert_eq!(parse_color("#ff5500").unwrap(), (255, 85, 0));
    assert_eq!(parse_color("ff5500").unwrap(), (255, 85, 0));
    assert_eq!(parse_color("#f50").unwrap(), (255, 85, 0));
    assert_eq!(parse_color("f50").unwrap(), (255, 85, 0));
}

#[test]
fn test_rgb_parsing() {
    assert_eq!(parse_color("255,128,0").unwrap(), (255, 128, 0));
    assert_eq!(parse_color("  255 , 128 , 0  ").unwrap(), (255, 128, 0));
}

#[test]
fn test_brightness_parsing() {
    assert_eq!(brightness("0").unwrap(), 0);
    assert_eq!(brightness("255").unwrap(), 255);
    assert_eq!(brightness("128").unwrap(), 128);
    assert_eq!(brightness("50%").unwrap(), 128);
    assert_eq!(brightness("100%").unwrap(), 255);
    assert_eq!(brightness("0%").unwrap(), 0);
    assert!(brightness("256").is_err());
    assert!(brightness("101%").is_err());
}

#[test]
fn test_kelvin_parsing() {
    assert_eq!(parse_kelvin("2700").unwrap(), 2700);
    assert_eq!(parse_kelvin("2700K").unwrap(), 2700);
    assert_eq!(parse_kelvin("6500k").unwrap(), 6500);
    assert!(parse_kelvin("999").is_err());
    assert!(parse_kelvin("10001").is_err());
}

#[test]
fn test_scene_parsing() {
    assert_eq!(parse_scene("1").unwrap(), (1, "Ocean"));
    assert_eq!(parse_scene("ocean").unwrap(), (1, "Ocean"));
    assert_eq!(parse_scene("Cozy").unwrap(), (6, "Cozy"));
    assert_eq!(parse_scene("candlelight").unwrap(), (29, "Candlelight"));
    assert_eq!(parse_scene("night light").unwrap(), (14, "Night light"));
    assert_eq!(parse_scene("night-light").unwrap(), (14, "Night light"));
}

#[test]
fn color_errors_name_the_input() {
    assert_eq!(parse_color("   "), Err("Color value cannot be empty".to_string()));
    assert_eq!(
        parse_color("chartreuse-ish"),
        Err("Invalid color 'chartreuse-ish'. Use a name (e.g. red, warmwhite), #RRGGBB (#ff5500), #RGB (#f50), or R,G,B (255,128,0)".to_string())
    );
    assert!(parse_color("256,0,0").is_err());
    assert!(parse_color("1,2").is_err());
}

#[test]
fn color_names_ignore_case_and_separators() {
    // Goes through `str::to_lowercase`: an unchanged argument would not match.
    assert_eq!(parse_color("RED").unwrap(), (255, 0, 0));
    assert_eq!(parse_color("Warm White").unwrap(), (255, 214, 170));
    assert_eq!(parse_color("#FF5500").unwrap(), (255, 85, 0));
    assert_eq!(parse_color("+1,+2,3").unwrap(), (1, 2, 3));
}

#[test]
fn hex_output_parses_back() {
    for &(r, g, b) in &[(0u8, 0u8, 0u8), (255, 140, 0), (18, 200, 137), (255, 255, 255)] {
        let hex = rgb_to_hex(r, g, b);
        assert_eq!(hex.len(), 7);
        assert_eq!(parse_color(&hex).unwrap(), (r, g, b));
    }
    assert_eq!(rgb_to_hex(255, 140, 0), "#ff8c00");
    assert_eq!(rgb_to_hex(12, 200, 90), "#0cc85a");
}

#[test]
fn brightness_percentages_round_half_up() {
    assert_eq!(brightness("10%").unwrap(), 26);
    assert_eq!(brightness("0.5%").unwrap(), 1);
    assert_eq!(brightness("0.1%").unwrap(), 0);
    assert_eq!(brightness("99.9%").unwrap(), 255);
    assert_eq!(brightness("25.5%").unwrap(), 65);
    assert_eq!(brightness("1e2%").unwrap(), 255);
    assert_eq!(brightness(".5e1%").unwrap(), 13);
    assert_eq!(brightness("+50%").unwrap(), 128);
    assert_eq!(brightness("-0%").unwrap(), 0);
    assert_eq!(brightness("0e999999999999999999999%").unwrap(), 0);
    assert_eq!(brightness("1e-999999999999999999999%").unwrap(), 0);
    assert_eq!(brightness("100.000%").unwrap(), 255);
    assert_eq!(brightness("  7%  ").unwrap(), 18);
}

#[test]
fn brightness_errors() {
    assert_eq!(brightness("  "), Err("Brightness value cannot be empty".to_string()));
    assert_eq!(brightness("abc%"), Err("Invalid brightness percentage: 'abc%'".to_string()));
    assert_eq!(brightness("%"), Err("Invalid brightness percentage: '%'".to_string()));
    assert_eq!(brightness("1e%"), Err("Invalid brightness percentage: '1e%'".to_string()));
    assert_eq!(brightness("50 %"), Err("Invalid brightness percentage: '50 %'".to_string()));
    for bad in ["101%", "-1%", "100.0001%", "nan%", "inf%", "-Infinity%", "1e3%"] {
        assert_eq!(
            brightness(bad),
            Err("Brightness percentage must be between 0% and 100%".to_string()),
            "{bad}"
        );
    }
    assert_eq!(
        brightness("bright"),
        Err("Invalid brightness value 'bright'. Use 0-255 or 0%-100%".to_string())
    );
    assert_eq!(brightness("-5"), Err("Brightness must be between 0 and 255".to_string()));
    assert_eq!(brightness("+7").unwrap(), 7);
}

#[test]
fn percentages_are_read_as_floating_point() {
    assert_eq!(percent_text(" 50% "), Some("50".to_string()));
    assert_eq!(percent_text("50"), None);
    assert_eq!(percent_text("%"), Some(String::new()));
    // The f64 nearest these literals is 10 and 100.
    assert_eq!(brightness("9.99999999999999999999%"), Ok(26));
    assert_eq!(brightness("100.000000000000001%"), Ok(255));
    // The reading matters only to a percentage.
    assert_eq!(parse_brightness("128", Percent::Byte(7)), Ok(128));
    assert_eq!(parse_brightness("12%", Percent::Byte(7)), Ok(7));
    assert_eq!(
        parse_brightness("x%", Percent::NotANumber),
        Err("Invalid brightness percentage: 'x%'".to_string())
    );
}

#[test]
fn kelvin_errors() {
    assert_eq!(
        parse_kelvin("500"),
        Err("Kelvin temperature 500K is outside safe hardware range (1000K - 10000K, typical: 2200K - 6500K)".to_string())
    );
    assert_eq!(
        parse_kelvin("warm"),
        Err("Invalid Kelvin temperature: 'warm'. Expected integer e.g. 2700 or 4000K".to_string())
    );
    assert_eq!(parse_kelvin(""), Err("Kelvin value cannot be empty".to_string()));
    assert_eq!(parse_kelvin("10000KK").unwrap(), 10000);
    assert_eq!(parse_kelvin("1000 K").unwrap(), 1000);
}

#[test]
fn scene_errors_and_lookup() {
    assert_eq!(parse_scene("999"), Err("Unknown WiZ scene ID: 999".to_string()));
    assert_eq!(
        parse_scene("not_a_scene"),
        Err("Unknown WiZ scene 'not_a_scene'. Run 'wizctl scenes' to list available scenes.".to_string())
    );
    assert_eq!(parse_scene(""), Err("Scene value cannot be empty".to_string()));
    assert_eq!(parse_scene("DIM-TO-WARM").unwrap(), (40, "Dim-to-warm"));
    assert_eq!(get_scene_name(14), Some("Night light"));
    assert_eq!(get_scene_name(37), None);
    assert_eq!(get_scene_name(0), None);
}
