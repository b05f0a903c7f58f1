//! The popover window's per-frame focus and dismissal decisions: when it
//! grabs focus, when it counts as having been focused, and when it closes.

use vstd::prelude::*;

verus! {

/// What the popover sees at the start of a frame.
#[derive(Debug, Clone, Copy, PartialEq, Eq, Structural)]
pub struct FrameInput {
    /// Milliseconds since the window opened.
    pub elapsed_ms: u128,
    /// Whether the user pinned the popover open.
    pub pinned: bool,
    /// Whether the window had the focus in an earlier frame.
    pub gained_focus: bool,
    /// The window's focus as the windowing system reports it, if known.
    pub focused: Option<bool>,
    /// Whether the primary pointer button is held (a drag in progress).
    pub pointer_down: bool,
    /// Whether Escape was pressed this frame.
    pub escape: bool,
}

/// What the popover does in that frame.
#[derive(Debug, Clone, Copy, PartialEq, Eq, Structural)]
pub struct FrameDecision {
    /// Ask for the focus (during the window's first 80 ms, while it maps).
    pub grab_focus: bool,
    /// Whether the window has had the focus by now.
    pub gained_focus: bool,
    /// Close the popover.
    pub close: bool,
}

/// Whether the window has had the focus, counting this frame.
pub open spec fn spec_gained(input: FrameInput) -> bool {
    input.gained_focus || input.focused == Some(true)
}

/// Click-away dismissal: once focused, losing the focus after the first
/// 150 ms closes an unpinned popover, unless a drag is in progress.
pub open spec fn spec_clicked_away(input: FrameInput) -> bool {
    !input.pinned && input.elapsed_ms > 150 && spec_gained(input) && input.focused == Some(false)
        && !input.pointer_down
}

/// The popover's decision for a frame: grab the focus in the first 80 ms,
/// note the focus once it is had, and close on a click-away or on Escape.
pub open spec fn spec_frame(input: FrameInput) -> FrameDecision {
    FrameDecision {
        grab_focus: input.elapsed_ms < 80,
        gained_focus: spec_gained(input),
        close: spec_clicked_away(input) || input.escape,
    }
}

/// Decides the popover's focus handling and dismissal for one frame.
pub fn popover_frame(input: FrameInput) -> (d: FrameDecision)
    ensures
        d == spec_frame(input),
{
    let gained = input.gained_focus || match input.focused {
        Some(f) => f,
        None => false,
    };
    let lost = match input.focused {
        Some(f) => !f,
        None => false,
    };
    let clicked_away = !input.pinned && input.elapsed_ms > 150 && gained && lost
        && !input.pointer_down;
    FrameDecision {
        grab_focus: input.elapsed_ms < 80,
        gained_focus: gained,
        close: clicked_away || input.escape,
    }
}

/// A pinned popover closes only on Escape; nor does any popover close by a
/// click-away in its first 150 ms, during a drag, or before it ever had the
/// focus. Focus once had stays noted.
pub proof fn lemma_close_needs_escape_or_click_away(input: FrameInput)
    ensures
        (input.pinned || input.elapsed_ms <= 150 || input.pointer_down || !spec_gained(input))
            ==> (spec_frame(input).close <==> input.escape),
        input.gained_focus ==> spec_frame(input).gained_focus,
{
}

} // verus!
