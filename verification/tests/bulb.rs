use wizctl::bulb::{
    brightness_percent, dimming_percent, favorites_from_slots, mix_params, saved_state_params,
    wizclick_favorites, wizclick_pick, PilotResult, WiZclickFavorite,
};
use wizctl::state::State;

#[test]
fn report_accessors() {
    let mut p = PilotResult::default();
    assert!(!p.is_on());
    assert_eq!(p.brightness_255(), None);
    assert_eq!(p.scene_name(), None);
    p.state = Some(true);
    p.dimming = Some(50);
    p.scene_id = Some(6);
    assert!(p.is_on());
    assert_eq!(p.brightness_255(), Some(128));
    assert_eq!(p.scene_name(), Some("Cozy"));
    p.dimming = Some(100);
    assert_eq!(p.brightness_255(), Some(255));
    p.dimming = Some(10);
    assert_eq!(p.brightness_255(), Some(26));
    p.scene_id = Some(0);
    assert_eq!(p.scene_name(), None);
    p.scene_id = Some(999);
    assert_eq!(p.scene_name(), None);
}

#[test]
fn all_channels_dark_reports_no_channels() {
    let mut p = PilotResult::default();
    p.r = Some(0);
    p.g = Some(0);
    p.b = Some(0);
    p.temp = Some(2700);
    assert_eq!(p.color_channels(), None);
    p.w = Some(128);
    assert_eq!(p.color_channels(), Some((0, 0, 0, 128)));
    p.r = Some(200);
    p.w = None;
    assert_eq!(p.color_channels(), Some((200, 0, 0, 0)));
    p.g = None;
    assert_eq!(p.color_channels(), None);
}

#[test]
fn readback_matches_the_channels_it_was_sent() {
    let mut p = PilotResult::default();
    p.r = Some(255);
    p.g = Some(10);
    p.b = Some(0);
    assert!(p.matches_mix(((255, 10, 0), 0)));
    assert!(!p.matches_mix(((255, 10, 0), 5)));
    p.w = Some(5);
    assert!(p.matches_mix(((255, 10, 0), 5)));
}

#[test]
fn brightness_scales_between_bytes_and_percentages() {
    assert_eq!(brightness_percent(255), 100);
    assert_eq!(brightness_percent(128), 50);
    assert_eq!(brightness_percent(0), 0);
    assert_eq!(dimming_percent(255), 100);
    assert_eq!(dimming_percent(128), 50);
    assert_eq!(dimming_percent(0), 10);
    assert_eq!(dimming_percent(20), 10);
}

#[test]
fn saved_state_goes_out_as_one_request() {
    let mut s = State::default();
    let p = saved_state_params(&s, ((255, 0, 0), 0));
    assert_eq!(p.state, Some(true));
    assert_eq!(p.dimming, Some(100));
    assert_eq!((p.r, p.g, p.b, p.w), (Some(255), Some(0), Some(0), Some(0)));
    s.mode = "kelvin".to_string();
    s.kelvin = 1000;
    let p = saved_state_params(&s, ((255, 0, 0), 0));
    assert_eq!((p.temp, p.r), (Some(2200), None));
    s.mode = "scene".to_string();
    let p = saved_state_params(&s, ((255, 0, 0), 0));
    assert_eq!((p.scene_id, p.temp), (Some(6), None));
    s.power = false;
    let p = saved_state_params(&s, ((255, 0, 0), 0));
    assert_eq!((p.state, p.dimming, p.scene_id), (Some(false), None, None));
    let m = mix_params(((1, 2, 3), 4));
    assert_eq!((m.state, m.r, m.g, m.b, m.w), (Some(true), Some(1), Some(2), Some(3), Some(4)));
}

fn view(f: &WiZclickFavorite) -> (u32, u32, String) {
    (f.mode, f.scene_id, f.scene_name.clone())
}

#[test]
fn favorites_skip_empty_slots() {
    let favs = favorites_from_slots(&vec![6, 0, 14, 777]);
    let got: Vec<_> = favs.iter().map(view).collect();
    assert_eq!(
        got,
        vec![
            (1, 6, "Cozy".to_string()),
            (3, 14, "Night light".to_string()),
            (4, 777, "Unknown".to_string())
        ]
    );
    let defaults = wizclick_favorites(Vec::new());
    let got: Vec<_> = defaults.iter().map(view).collect();
    assert_eq!(got, vec![(1, 6, "Cozy".to_string()), (2, 14, "Night light".to_string())]);
    assert_eq!(wizclick_favorites(favs.clone()).len(), 3);
}

#[test]
fn wizclick_modes_select_their_favorite() {
    let favs = wizclick_favorites(Vec::new());
    assert_eq!(wizclick_pick(&favs, 2), Ok(1));
    assert_eq!(wizclick_pick(&favs, 1), Ok(0));
    assert_eq!(
        wizclick_pick(&favs, 3),
        Err("WiZclick mode must be between 1 and 2, got 3".to_string())
    );
}
