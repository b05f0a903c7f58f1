use wizctl::bulb::{PilotParams, PilotResult};
use wizctl::state::State;
use wizctl::worker::{
    adopt_report_popover, adopt_report_studio, after_poll, coalesce_burst, first_poll_delay, poll_event,
    poll_delay_after, restore_commands, BulbWorker, Cmd, CmdEffect, Event,
};

#[test]
fn same_kind_only_matches_identical_variants() {
    assert!(Cmd::Brightness(10).same_kind(&Cmd::Brightness(200)));
    assert!(Cmd::Rgb(1, 2, 3).same_kind(&Cmd::Rgb(9, 9, 9)));
    assert!(!Cmd::Brightness(10).same_kind(&Cmd::Kelvin(2700)));
    assert!(!Cmd::Scene(6).same_kind(&Cmd::Power(true)));
}

#[test]
fn retargets_never_merge() {
    let a = Cmd::SetIp("10.0.0.1".to_string());
    let b = Cmd::SetIp("10.0.0.2".to_string());
    assert!(!a.same_kind(&b));
    assert!(Cmd::Ping.same_kind(&Cmd::Ping));
    assert_eq!(coalesce_burst(vec![a.clone(), b.clone()]), vec![a, b]);
    assert_eq!(
        coalesce_burst(vec![Cmd::Kelvin(3000), Cmd::Kelvin(4000)]),
        vec![Cmd::Kelvin(4000)]
    );
}

#[test]
fn bursts_keep_only_the_newest_of_each_kind() {
    let burst = vec![
        Cmd::Brightness(10),
        Cmd::Brightness(20),
        Cmd::Brightness(30),
        Cmd::Kelvin(3000),
        Cmd::Brightness(40),
        Cmd::Brightness(50),
    ];
    assert_eq!(
        coalesce_burst(burst),
        vec![Cmd::Kelvin(3000), Cmd::Brightness(50)]
    );
    assert_eq!(
        coalesce_burst(vec![Cmd::Brightness(10), Cmd::Kelvin(2700), Cmd::Brightness(20)]),
        vec![Cmd::Kelvin(2700), Cmd::Brightness(20)]
    );
    assert_eq!(coalesce_burst(vec![]), Vec::<Cmd>::new());
    assert_eq!(coalesce_burst(vec![Cmd::Ping]), vec![Cmd::Ping]);
}

fn pilot(params: PilotParams) -> (Option<bool>, Option<u8>, Option<u16>, Option<u32>) {
    (params.state, params.dimming, params.temp, params.scene_id)
}

#[test]
fn command_effects() {
    match Cmd::Brightness(255).effect() {
        CmdEffect::Pilot(p) => assert_eq!(pilot(p), (Some(true), Some(100), None, None)),
        _ => panic!("brightness sends setPilot"),
    }
    match Cmd::Brightness(0).effect() {
        CmdEffect::Pilot(p) => assert_eq!(p.dimming, Some(10)),
        _ => panic!("brightness sends setPilot"),
    }
    match Cmd::Kelvin(9000).effect() {
        CmdEffect::Pilot(p) => assert_eq!(pilot(p), (Some(true), None, Some(6500), None)),
        _ => panic!("kelvin sends setPilot"),
    }
    match Cmd::Scene(6).effect() {
        CmdEffect::Pilot(p) => assert_eq!(pilot(p), (Some(true), None, None, Some(6))),
        _ => panic!("scene sends setPilot"),
    }
    match Cmd::Power(false).effect() {
        CmdEffect::Pilot(p) => assert_eq!(pilot(p), (Some(false), None, None, None)),
        _ => panic!("power sends setPilot"),
    }
    assert!(matches!(Cmd::Rgb(1, 2, 3).effect(), CmdEffect::Color(1, 2, 3)));
    assert!(matches!(Cmd::Ping.effect(), CmdEffect::Idle));
    match Cmd::SetIp("10.0.0.3".to_string()).effect() {
        CmdEffect::Retarget(ip) => assert_eq!(ip, "10.0.0.3"),
        _ => panic!("retarget"),
    }
}

#[test]
fn poll_schedule_backs_off() {
    assert_eq!(poll_delay_after(&Cmd::Ping), 0);
    assert_eq!(poll_delay_after(&Cmd::SetIp("1.1.1.1".to_string())), 0);
    assert_eq!(poll_delay_after(&Cmd::Kelvin(2700)), 1200);
    assert_eq!(after_poll(3, true), (0, 10_000));
    assert_eq!(after_poll(0, false), (1, 6_000));
    assert_eq!(after_poll(1, false), (2, 12_000));
    assert_eq!(after_poll(2, false), (3, 20_000));
    assert_eq!(after_poll(3, false), (4, 30_000));
    assert_eq!(after_poll(usize::MAX, false), (usize::MAX, 30_000));
}

#[test]
fn restoring_a_preset_sends_power_mode_and_brightness() {
    let mut s = State::default();
    s.brightness = 0;
    assert_eq!(
        restore_commands(&s),
        vec![Cmd::Power(true), Cmd::Rgb(255, 140, 0), Cmd::Brightness(1)]
    );
    s.mode = "scene".to_string();
    s.scene_id = 14;
    assert_eq!(restore_commands(&s)[1], Cmd::Scene(14));
    s.mode = "kelvin".to_string();
    assert_eq!(restore_commands(&s)[1], Cmd::Kelvin(2700));
}

fn report() -> PilotResult {
    let mut p = PilotResult::default();
    p.state = Some(false);
    p.dimming = Some(0);
    p.temp = Some(0);
    p.scene_id = Some(0);
    p
}

#[test]
fn popover_adopts_a_color_report() {
    let mut s = State::default();
    let mut p = report();
    p.r = Some(10);
    adopt_report_popover(&mut s, &p, Some((1, 2, 3)), false);
    assert!(!s.power);
    assert_eq!(s.brightness, 1);
    assert_eq!(s.rgb, [1, 2, 3]);
    assert_eq!(s.hex, "#010203");
    assert_eq!(s.mode, "color");

    // Its own pick is not overwritten by the lossy readback.
    let mut s = State::default();
    adopt_report_popover(&mut s, &p, Some((1, 2, 3)), true);
    assert_eq!(s.rgb, [255, 140, 0]);
    assert_eq!(s.mode, "color");
}

#[test]
fn popover_and_studio_differ_on_kelvin_with_color() {
    let mut p = report();
    p.state = None;
    p.dimming = Some(50);
    p.temp = Some(3000);
    let mut pop = State::default();
    adopt_report_popover(&mut pop, &p, Some((9, 9, 9)), false);
    assert_eq!(pop.mode, "kelvin");
    assert_eq!(pop.kelvin, 3000);
    assert_eq!(pop.rgb, [255, 140, 0]);
    assert!(pop.power);
    assert_eq!(pop.brightness, 128);

    let mut studio = State::default();
    adopt_report_studio(&mut studio, &p, Some((9, 9, 9)), false);
    assert_eq!(studio.mode, "color");
    assert_eq!(studio.kelvin, 3000);
    assert_eq!(studio.rgb, [9, 9, 9]);
    assert!(!studio.power);
}

#[test]
fn a_scene_report_wins() {
    let mut p = report();
    p.scene_id = Some(29);
    let mut s = State::default();
    adopt_report_studio(&mut s, &p, Some((1, 1, 1)), false);
    assert_eq!(s.mode, "scene");
    assert_eq!(s.scene_id, 29);
    let mut s = State::default();
    adopt_report_popover(&mut s, &p, None, false);
    assert_eq!(s.mode, "scene");
}

#[test]
fn a_slider_drag_sends_only_its_last_value() {
    let drag: Vec<Cmd> = (1u8..=50).map(Cmd::Brightness).collect();
    assert_eq!(coalesce_burst(drag), vec![Cmd::Brightness(50)]);
}

#[test]
fn a_worker_handle_talks_over_the_channels_it_was_given() {
    let (cmd_tx, cmd_rx) = std::sync::mpsc::channel();
    let (event_tx, event_rx) = std::sync::mpsc::channel();
    let worker = BulbWorker::from_channels(cmd_tx, event_rx);

    worker.send(Cmd::Brightness(42));
    assert_eq!(cmd_rx.try_recv(), Ok(Cmd::Brightness(42)));

    assert!(worker.try_recv().is_none());
    event_tx.send(Event::Offline("no reply".to_string())).unwrap();
    match worker.try_recv() {
        Some(Event::Offline(reason)) => assert_eq!(reason, "no reply"),
        other => panic!("unexpected event: {:?}", other),
    }
}

#[test]
fn a_retarget_splits_a_burst() {
    let burst = vec![
        Cmd::Brightness(10),
        Cmd::Power(true),
        Cmd::SetIp("10.0.0.9".to_string()),
        Cmd::Brightness(20),
        Cmd::Power(false),
        Cmd::Brightness(30),
    ];
    assert_eq!(
        coalesce_burst(burst),
        vec![
            Cmd::Brightness(10),
            Cmd::Power(true),
            Cmd::SetIp("10.0.0.9".to_string()),
            Cmd::Power(false),
            Cmd::Brightness(30),
        ]
    );
}

#[test]
fn the_newest_of_each_kind_is_sent() {
    let burst = vec![
        Cmd::Brightness(10),
        Cmd::Kelvin(3000),
        Cmd::Brightness(50),
        Cmd::Power(true),
        Cmd::Kelvin(4000),
        Cmd::Brightness(200),
    ];
    assert_eq!(
        coalesce_burst(burst),
        vec![Cmd::Power(true), Cmd::Kelvin(4000), Cmd::Brightness(200)]
    );
}

#[test]
fn the_worker_polls_at_once_and_caps_the_latency() {
    assert_eq!(first_poll_delay(), 0);
    let mut p = report();
    p.rssi = Some(-50);
    match poll_event(Ok(p.clone()), 12_345) {
        Event::Online { pilot, latency_ms } => {
            assert_eq!(latency_ms, 9999);
            assert_eq!(pilot.rssi, Some(-50));
        }
        other => panic!("unexpected event: {:?}", other),
    }
    match poll_event(Ok(p), 42) {
        Event::Online { latency_ms, .. } => assert_eq!(latency_ms, 42),
        other => panic!("unexpected event: {:?}", other),
    }
    match poll_event(Err("timed out".to_string()), 3000) {
        Event::Offline(m) => assert_eq!(m, "timed out"),
        other => panic!("unexpected event: {:?}", other),
    }
}
