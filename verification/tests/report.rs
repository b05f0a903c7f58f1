use wizctl::bulb::{favorites_from_slots, PilotResult};
use wizctl::report::{scene_list_lines, status_lines, wizclick_lines};

#[test]
fn status_report_lists_what_the_bulb_reports() {
    let mut p = PilotResult::default();
    p.mac = Some("cc4085e299f4".to_string());
    p.rssi = Some(-42);
    p.state = Some(true);
    p.dimming = Some(75);
    p.scene_id = Some(6);
    p.temp = Some(3500);
    p.src = Some("udp".to_string());
    let favs = favorites_from_slots(&vec![6, 14]);
    let lines = status_lines("10.0.0.2", &p, Some((255, 128, 0)), &favs);
    assert_eq!(
        lines,
        vec![
            "Bulb:       10.0.0.2",
            "MAC:        cc4085e299f4",
            "Signal:     -42 dBm",
            "Power:      ON",
            "Brightness: 191/255 (75%)",
            "Scene:      Cozy (ID: 6)",
            "RGB:        255,128,0 (#ff8000)",
            "Kelvin:     3500K",
            "Source:     udp",
            "WiZclick:   Mode 1: Cozy | Mode 2: Night light",
        ]
    );
}

#[test]
fn status_report_omits_what_is_absent() {
    let p = PilotResult::default();
    let lines = status_lines("10.0.0.2", &p, None, &Vec::new());
    assert_eq!(lines, vec!["Bulb:       10.0.0.2", "Power:      OFF", "Scene:      None"]);
    let mut p = PilotResult::default();
    p.scene_id = Some(500);
    let lines = status_lines("h", &p, None, &Vec::new());
    assert_eq!(lines[2], "Scene:      ID 500");
}

#[test]
fn scene_list_pads_ids() {
    let lines = scene_list_lines();
    assert_eq!(lines.len(), 37 + 4);
    assert_eq!(lines[0], "Available WiZ Scenes:");
    assert_eq!(lines[1], "-----------------------------------");
    assert_eq!(lines[2], "   1: Ocean");
    assert_eq!(lines[11], "  10: Bedtime");
    assert_eq!(lines[38], "  40: Dim-to-warm");
    assert_eq!(lines[40], "Usage: wizctl scene <id|name>");
}

#[test]
fn wizclick_listing() {
    let favs = favorites_from_slots(&vec![6, 14]);
    let lines = wizclick_lines(&favs);
    assert_eq!(
        lines,
        vec![
            "WiZclick Settings (Wall Switch Modes):",
            "----------------------------------------",
            "  Mode 1 (Click 1): Cozy (Scene ID: 6)",
            "  Mode 2 (Click 2): Night light (Scene ID: 14)",
            "----------------------------------------",
            "Toggle physical wall switch once for Mode 1, twice quickly for Mode 2.",
            "Usage: wizctl wizclick [1|2]",
        ]
    );
}
