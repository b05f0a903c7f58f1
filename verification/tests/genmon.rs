use wizctl::genmon::generate_genmon_xml;
use wizctl::state::State;

#[test]
fn test_genmon_xml_structure() {
    let xml = generate_genmon_xml(Some("192.168.0.102"), &State::default(), "/tmp/wizctl/assets");
    assert!(xml.contains("<img>"), "Missing <img> tag");
    assert!(xml.contains("</img>"), "Missing </img> tag");
    assert!(xml.contains("<txt>"), "Missing <txt> tag");
    assert!(xml.contains("</txt>"), "Missing </txt> tag");
    assert!(xml.contains("<tool>"), "Missing <tool> tag");
    assert!(xml.contains("</tool>"), "Missing </tool> tag");
    assert!(xml.contains("<click>"), "Missing <click> tag");
    assert!(xml.contains("</click>"), "Missing </click> tag");
    assert!(xml.contains("WiZ Smart Light (192.168.0.102)"));
    assert!(xml.contains("wizctl widget --click"));
}

#[test]
fn genmon_block_for_the_default_state() {
    let xml = generate_genmon_xml(None, &State::default(), "/opt/icons/");
    assert_eq!(
        xml,
        "<img>/opt/icons/panel_bulb_on.png</img>\n<txt> 100% </txt>\n<tool>WiZ Smart Light (192.168.0.102)\nStatus: ON\nBrightness: 100% (255/255)\nColor: #ff8c00\nLeft-click: Quick Widget | Double-click: Toggle</tool>\n<click>wizctl widget --click</click>\n"
    );
}

#[test]
fn genmon_block_for_scene_and_off_states() {
    let mut s = State::default();
    s.mode = "scene".to_string();
    s.scene_id = 14;
    s.brightness = 128;
    let xml = generate_genmon_xml(Some("10.0.0.2"), &s, "/a");
    assert!(xml.starts_with("<img>/a/panel_bulb_on.png</img>\n<txt> Night light (50%) </txt>"));
    assert!(xml.contains("Scene: Night light (ID 14)"));
    assert!(xml.contains("Brightness: 50% (128/255)"));

    s.power = false;
    s.mode = "kelvin".to_string();
    s.kelvin = 4000;
    let xml = generate_genmon_xml(Some("10.0.0.2"), &s, "");
    assert!(xml.starts_with("<img>panel_bulb_off.png</img>\n<txt> OFF </txt>"));
    assert!(xml.contains("Status: OFF"));
    assert!(xml.contains("White Temp: 4000K"));
}
