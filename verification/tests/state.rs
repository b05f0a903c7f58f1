use wizctl::colors::default_preset_colors;
use wizctl::state::{record_recent, sanitize_state, settle_loaded_state, validate_ip, State};

#[test]
fn test_state_defaults_and_sanitization() {
    let mut state = State::default();
    assert_eq!(state.power, true);
    assert_eq!(state.brightness, 255);
    assert_eq!(state.kelvin, 2700);
    assert_eq!(state.scene_id, 6);

    state.brightness = 0;
    state.kelvin = 50000;
    let sanitized = sanitize_state(state);
    assert_eq!(sanitized.brightness, 1);
    assert_eq!(sanitized.kelvin, 2700);
}

#[test]
fn test_validate_ip() {
    assert!(validate_ip("192.168.0.102").is_ok());
    assert!(validate_ip("10.0.0.1").is_ok());
    assert!(validate_ip("").is_err());
    assert!(validate_ip("not_an_ip").is_err());
    assert!(validate_ip("255.255.255.255").is_err());
    assert!(validate_ip("224.0.0.1").is_err()); // Multicast
}

#[test]
fn test_sanitize_state() {
    let mut state = State::default();
    state.brightness = 0;
    state.kelvin = 200;
    let sanitized = sanitize_state(state);
    assert_eq!(sanitized.brightness, 1);
    assert_eq!(sanitized.kelvin, 2700);
}

#[test]
fn validate_ip_messages_and_trimming() {
    assert_eq!(validate_ip("  10.0.0.7 ").unwrap(), "10.0.0.7");
    assert_eq!(validate_ip(" "), Err("IP address cannot be empty".to_string()));
    assert_eq!(
        validate_ip("1.2.3"),
        Err("Invalid IP address format: '1.2.3'".to_string())
    );
    assert_eq!(
        validate_ip("239.1.1.1"),
        Err("Multicast IP addresses are not permitted: '239.1.1.1'".to_string())
    );
    assert_eq!(
        validate_ip("255.255.255.255"),
        Err("Global broadcast IP address is not permitted: '255.255.255.255'".to_string())
    );
    assert!(validate_ip("1.2.3.256").is_err());
    assert!(validate_ip("01.2.3.4").is_err());
    assert!(validate_ip("0.0.0.0").is_ok());
}

#[test]
fn fresh_state_matches_the_defaults() {
    let s = State::default();
    assert_eq!(s.ip, "192.168.0.102");
    assert_eq!(s.rgb, [255, 140, 0]);
    assert_eq!(s.hex, "#ff8c00");
    assert_eq!(s.mode, "color");
    assert_eq!(s.recent_colors, default_preset_colors());
    assert!(!s.restore_on_reconnect);
    assert_eq!(State::initial(Some("10.1.1.1")).ip, "10.1.1.1");
    assert_eq!(State::initial(Some("bogus")).ip, "192.168.0.102");
}

#[test]
fn sanitize_repairs_every_field() {
    let mut s = State::default();
    s.ip = "224.0.0.9".to_string();
    s.scene_id = 41;
    s.rgb = [1, 2, 3];
    s.hex = "#zzzzzz".to_string();
    s.recent_colors = vec![
        "RED".to_string(),
        "#ff0000".to_string(),
        "nonsense".to_string(),
        "0,0,255".to_string(),
    ];
    let t = sanitize_state(s);
    assert_eq!(t.ip, "192.168.0.102");
    assert_eq!(t.scene_id, 6);
    assert_eq!(t.hex, "#010203");
    assert_eq!(t.recent_colors, vec!["#ff0000".to_string(), "#0000ff".to_string()]);

    // Sanitising twice changes nothing more.
    let again = sanitize_state(t.clone());
    assert_eq!(again.recent_colors, t.recent_colors);
    assert_eq!(again.ip, t.ip);
    assert_eq!(again.hex, t.hex);

    let mut empty = State::default();
    empty.recent_colors = vec!["??".to_string()];
    assert_eq!(sanitize_state(empty).recent_colors, default_preset_colors());
}

#[test]
fn sanitize_caps_recent_colors_at_sixteen() {
    let mut s = State::default();
    s.recent_colors = (0u8..20).map(|i| format!("#0000{:02x}", i)).collect();
    let t = sanitize_state(s);
    assert_eq!(t.recent_colors.len(), 16);
    assert_eq!(t.recent_colors[0], "#000000");
    assert_eq!(t.recent_colors[15], "#00000f");
}

#[test]
fn settling_prefers_a_valid_configured_address() {
    let mut stored = State::default();
    stored.ip = "10.0.0.5".to_string();
    stored.brightness = 0;
    let r = settle_loaded_state(Some(stored.clone()), Some("10.0.0.9"));
    assert_eq!(r.ip, "10.0.0.9");
    assert_eq!(r.brightness, 1);
    let r = settle_loaded_state(Some(stored), Some("nope"));
    assert_eq!(r.ip, "10.0.0.5");
    let r = settle_loaded_state(None, None);
    assert_eq!(r.ip, "192.168.0.102");
    assert_eq!(r.kelvin, 2700);
}

#[test]
fn recording_moves_a_color_to_the_front() {
    let mut recent = vec!["#111111".to_string(), "#222222".to_string(), "#333333".to_string()];
    record_recent(&mut recent, "#222222".to_string(), false);
    assert_eq!(recent, vec!["#222222", "#111111", "#333333"]);
    // Recording the same color again changes nothing.
    record_recent(&mut recent, "#222222".to_string(), false);
    assert_eq!(recent, vec!["#222222", "#111111", "#333333"]);

    let mut full: Vec<String> = (0u8..16).map(|i| format!("#0000{:02x}", i)).collect();
    record_recent(&mut full, "#ffffff".to_string(), false);
    assert_eq!(full.len(), 16);
    assert_eq!(full[0], "#ffffff");
    assert_eq!(full[15], "#00000e");
}

#[test]
fn recording_can_ignore_case() {
    let mut recent = vec!["#AABBCC".to_string(), "#010101".to_string()];
    record_recent(&mut recent, "#aabbcc".to_string(), true);
    assert_eq!(recent, vec!["#aabbcc", "#010101"]);
    let mut exact = vec!["#AABBCC".to_string(), "#010101".to_string()];
    record_recent(&mut exact, "#aabbcc".to_string(), false);
    assert_eq!(exact, vec!["#aabbcc", "#AABBCC", "#010101"]);
}
