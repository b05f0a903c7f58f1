//! The status block the XFCE Genmon panel plugin displays.

use vstd::prelude::*;

use crate::bulb::{brightness_percent, byte_percent};
use crate::colors::{get_scene_name, scene_name_of};
use crate::state::State;
use crate::text::{append_decimal, decimal, str_is};

verus! {

/// `PathBuf::join` of a relative file name onto a directory, as displayed.
pub open spec fn path_join(dir: Seq<char>, name: Seq<char>) -> Seq<char> {
    if dir.len() == 0 {
        name
    } else if dir.last() == '/' {
        dir + name
    } else {
        dir + seq!['/'] + name
    }
}

/// Appends `dir` joined with `name`.
pub fn append_joined(out: &mut String, dir: &str, name: &str)
    ensures
        final(out)@ == old(out)@ + path_join(dir@, name@),
{
    let n = dir.unicode_len();
    if n == 0 {
        out.append(name);
    } else if dir.get_char(n - 1) == '/' {
        out.append(dir);
        out.append(name);
    } else {
        out.append(dir);
        out.append("/");
        out.append(name);
        proof {
            reveal_strlit("/");
        }
    }
    assert(final(out)@ =~= old(out)@ + path_join(dir@, name@));
}

pub open spec fn opt_or(o: Option<Seq<char>>, d: Seq<char>) -> Seq<char> {
    match o {
        Some(s) => s,
        None => d,
    }
}

/// The scene the panel shows: scene mode with a non-zero scene id.
pub open spec fn shows_scene(s: State) -> bool {
    s.mode@ == "scene"@ && s.scene_id > 0
}

/// The panel text: `"{scene} ({pct}%)"` or `"{pct}%"` while on, `"OFF"` while
/// off.
pub open spec fn status_text(s: State) -> Seq<char> {
    let pct = decimal(byte_percent(s.brightness as int) as nat);
    if !s.power {
        "OFF"@
    } else if shows_scene(s) {
        opt_or(scene_name_of(s.scene_id), "Scene"@) + " ("@ + pct + "%)"@
    } else {
        pct + "%"@
    }
}

/// The panel tooltip, one line per fact.
pub open spec fn tooltip(ip: Seq<char>, s: State) -> Seq<char> {
    let pct = decimal(byte_percent(s.brightness as int) as nat);
    let detail = if shows_scene(s) {
        "Scene: "@ + opt_or(scene_name_of(s.scene_id), "Unknown"@) + " (ID "@ + decimal(
            s.scene_id as nat,
        ) + ")"@
    } else if s.mode@ == "kelvin"@ && s.kelvin > 0 {
        "White Temp: "@ + decimal(s.kelvin as nat) + "K"@
    } else {
        "Color: "@ + s.hex@
    };
    "WiZ Smart Light ("@ + ip + ")\nStatus: "@ + (if s.power {
        "ON"@
    } else {
        "OFF"@
    }) + "\nBrightness: "@ + pct + "% ("@ + decimal(s.brightness as nat) + "/255)\n"@ + detail
        + "\nLeft-click: Quick Widget | Double-click: Toggle"@
}

/// The whole Genmon block for the bulb at `ip`, icons taken from `dir`.
pub open spec fn genmon_block(ip: Seq<char>, s: State, dir: Seq<char>) -> Seq<char> {
    let icon = path_join(
        dir,
        if s.power {
            "panel_bulb_on.png"@
        } else {
            "panel_bulb_off.png"@
        },
    );
    "<img>"@ + icon + "</img>\n<txt> "@ + status_text(s) + " </txt>\n<tool>"@ + tooltip(ip, s)
        + "</tool>\n<click>wizctl widget --click</click>\n"@
}

/// The bulb the panel reports on: the target address when one is given,
/// else the stored one.
pub open spec fn panel_ip(target_ip: Option<&str>, s: State) -> Seq<char> {
    match target_ip {
        Some(t) => t@,
        None => s.ip@,
    }
}

/// `hay` holds `needle` as a run of consecutive characters.
pub open spec fn has_text(hay: Seq<char>, needle: Seq<char>) -> bool {
    exists|i: int| 0 <= i && i + needle.len() <= hay.len() && #[trigger] hay.subrange(i, i + needle.len())
        == needle
}

/// The Genmon block names the bulb it reports on: its tooltip reads
/// `WiZ Smart Light (<ip>)` for the address `ip` it was made for, whatever
/// address the state has stored.
pub proof fn lemma_genmon_names_its_bulb(ip: Seq<char>, s: State, dir: Seq<char>)
    ensures
        has_text(genmon_block(ip, s, dir), "WiZ Smart Light ("@ + ip + ")"@),
{
    reveal_strlit(")\nStatus: ");
    reveal_strlit(")");
    let needle = "WiZ Smart Light ("@ + ip + ")"@;
    let icon = path_join(
        dir,
        if s.power {
            "panel_bulb_on.png"@
        } else {
            "panel_bulb_off.png"@
        },
    );
    let a = "<img>"@ + icon + "</img>\n<txt> "@ + status_text(s) + " </txt>\n<tool>"@;
    let t = tooltip(ip, s);
    let tail = "</tool>\n<click>wizctl widget --click</click>\n"@;
    let block = genmon_block(ip, s, dir);
    assert(block == a + t + tail);
    let head = "WiZ Smart Light ("@ + ip;
    assert(t[head.len() as int] == ')');
    assert(t.subrange(0, needle.len() as int) =~= needle) by {
        assert forall|k: int| 0 <= k < needle.len() implies t[k] == needle[k] by {
            if k < head.len() {
                assert(t[k] == head[k]);
            }
        }
    }
    let i = a.len() as int;
    assert(block.subrange(i, i + needle.len()) =~= needle) by {
        assert forall|k: int| 0 <= k < needle.len() implies block[i + k] == t[k] by {}
    }
}

/// A target address given to the panel (`--ip`, `WIZ_IP`) is the one its
/// tooltip names, whatever address the state has stored; without one, the
/// stored address is named.
pub proof fn lemma_genmon_names_target(target_ip: Option<&str>, s: State, dir: Seq<char>)
    ensures
        target_ip matches Some(t) ==> has_text(
            genmon_block(panel_ip(target_ip, s), s, dir),
            "WiZ Smart Light ("@ + t@ + ")"@,
        ),
        target_ip is None ==> has_text(
            genmon_block(panel_ip(target_ip, s), s, dir),
            "WiZ Smart Light ("@ + s.ip@ + ")"@,
        ),
{
    lemma_genmon_names_its_bulb(panel_ip(target_ip, s), s, dir);
}

fn append_scene_name(out: &mut String, id: u32, fallback: &str)
    ensures
        final(out)@ == old(out)@ + opt_or(scene_name_of(id), fallback@),
{
    match get_scene_name(id) {
        Some(n) => out.append(n),
        None => out.append(fallback),
    }
}

fn append_status_text(out: &mut String, state: &State)
    ensures
        final(out)@ == old(out)@ + status_text(*state),
{
    let pct = brightness_percent(state.brightness) as u64;
    if !state.power {
        out.append("OFF");
    } else if str_is(&state.mode, "scene") && state.scene_id > 0 {
        append_scene_name(out, state.scene_id, "Scene");
        out.append(" (");
        append_decimal(out, pct);
        out.append("%)");
    } else {
        append_decimal(out, pct);
        out.append("%");
    }
    assert(final(out)@ =~= old(out)@ + status_text(*state));
}

fn append_detail(out: &mut String, state: &State)
    ensures
        final(out)@ == old(out)@ + (if shows_scene(*state) {
            "Scene: "@ + opt_or(scene_name_of(state.scene_id), "Unknown"@) + " (ID "@ + decimal(
                state.scene_id as nat,
            ) + ")"@
        } else if state.mode@ == "kelvin"@ && state.kelvin > 0 {
            "White Temp: "@ + decimal(state.kelvin as nat) + "K"@
        } else {
            "Color: "@ + state.hex@
        }),
{
    if str_is(&state.mode, "scene") && state.scene_id > 0 {
        out.append("Scene: ");
        append_scene_name(out, state.scene_id, "Unknown");
        out.append(" (ID ");
        append_decimal(out, state.scene_id as u64);
        out.append(")");
    } else if str_is(&state.mode, "kelvin") && state.kelvin > 0 {
        out.append("White Temp: ");
        append_decimal(out, state.kelvin as u64);
        out.append("K");
    } else {
        out.append("Color: ");
        out.append(state.hex.as_str());
    }
    assert(final(out)@ =~= old(out)@ + (if shows_scene(*state) {
        "Scene: "@ + opt_or(scene_name_of(state.scene_id), "Unknown"@) + " (ID "@ + decimal(
            state.scene_id as nat,
        ) + ")"@
    } else if state.mode@ == "kelvin"@ && state.kelvin > 0 {
        "White Temp: "@ + decimal(state.kelvin as nat) + "K"@
    } else {
        "Color: "@ + state.hex@
    }));
}

fn append_tooltip(out: &mut String, ip: &str, state: &State)
    ensures
        final(out)@ == old(out)@ + tooltip(ip@, *state),
{
    let pct = brightness_percent(state.brightness) as u64;
    out.append("WiZ Smart Light (");
    out.append(ip);
    out.append(")\nStatus: ");
    if state.power {
        out.append("ON");
    } else {
        out.append("OFF");
    }
    out.append("\nBrightness: ");
    append_decimal(out, pct);
    out.append("% (");
    append_decimal(out, state.brightness as u64);
    out.append("/255)\n");
    append_detail(out, state);
    out.append("\nLeft-click: Quick Widget | Double-click: Toggle");
    assert(final(out)@ =~= old(out)@ + tooltip(ip@, *state));
}

/// The XFCE Genmon status block for `state`: bulb icon (from `assets_dir`),
/// panel text and tooltip, and the click command. The tooltip names
/// `target_ip` when given, else the state's address.
pub fn generate_genmon_xml(target_ip: Option<&str>, state: &State, assets_dir: &str) -> (xml:
    String)
    ensures
        xml@ == genmon_block(panel_ip(target_ip, *state), *state, assets_dir@),
{
    let ip: &str = match target_ip {
        Some(t) => t,
        None => state.ip.as_str(),
    };
    let mut out = String::from_str("<img>");
    if state.power {
        append_joined(&mut out, assets_dir, "panel_bulb_on.png");
    } else {
        append_joined(&mut out, assets_dir, "panel_bulb_off.png");
    }
    out.append("</img>\n<txt> ");
    append_status_text(&mut out, state);
    out.append(" </txt>\n<tool>");
    append_tooltip(&mut out, ip, state);
    out.append("</tool>\n<click>wizctl widget --click</click>\n");
    assert(out@ =~= genmon_block(ip@, *state, assets_dir@));
    out
}

} // verus!
