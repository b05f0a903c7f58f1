use wizctl::popover::{popover_frame, FrameInput};

fn input() -> FrameInput {
    FrameInput {
        elapsed_ms: 1000,
        pinned: false,
        gained_focus: true,
        focused: Some(false),
        pointer_down: false,
        escape: false,
    }
}

#[test]
fn losing_the_focus_closes_the_popover() {
    let d = popover_frame(input());
    assert!(d.close);
    assert!(!d.grab_focus);
    assert!(d.gained_focus);
}

#[test]
fn a_pinned_popover_stays_until_escape() {
    let pinned = FrameInput { pinned: true, ..input() };
    assert!(!popover_frame(pinned).close);
    assert!(popover_frame(FrameInput { escape: true, ..pinned }).close);
}

#[test]
fn no_click_away_early_mid_drag_or_before_focus() {
    assert!(!popover_frame(FrameInput { elapsed_ms: 150, ..input() }).close);
    assert!(!popover_frame(FrameInput { pointer_down: true, ..input() }).close);
    assert!(!popover_frame(FrameInput { gained_focus: false, ..input() }).close);
    assert!(!popover_frame(FrameInput { focused: None, ..input() }).close);
}

#[test]
fn the_focus_is_grabbed_while_the_window_maps() {
    let early = FrameInput { elapsed_ms: 10, gained_focus: false, focused: Some(true), ..input() };
    let d = popover_frame(early);
    assert!(d.grab_focus);
    assert!(d.gained_focus);
    assert!(!d.close);
    assert!(!popover_frame(FrameInput { elapsed_ms: 80, ..input() }).grab_focus);
}
