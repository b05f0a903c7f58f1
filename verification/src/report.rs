//! The text reports of the command line: the bulb status report, the scene
//! list and the WiZclick listing, one `String` per printed line.

use vstd::prelude::*;

use crate::bulb::{
    byte_percent, favorite_view, listed_scenes, percent_to_byte, PilotResult, WiZclickFavorite,
};
use crate::colors::{hex_color, rgb_to_hex, scene_name_of, get_scene_name, spec_scenes};
use crate::state::views;
use crate::text::{append_decimal, append_signed_decimal, decimal, signed_decimal};

verus! {

/// `parts` joined with `sep` between neighbours (`slice::join`).
pub open spec fn joined(parts: Seq<Seq<char>>, sep: Seq<char>) -> Seq<char>
    decreases parts.len(),
{
    if parts.len() == 0 {
        Seq::empty()
    } else if parts.len() == 1 {
        parts[0]
    } else {
        joined(parts.drop_last(), sep) + sep + parts.last()
    }
}

/// A report line that is present only when `o` is.
pub open spec fn line_if(o: Option<Seq<char>>) -> Seq<Seq<char>> {
    match o {
        Some(l) => seq![l],
        None => Seq::empty(),
    }
}

/// `"r,g,b (#rrggbb)"`.
pub open spec fn rgb_text(c: (u8, u8, u8)) -> Seq<char> {
    decimal(c.0 as nat) + ","@ + decimal(c.1 as nat) + ","@ + decimal(c.2 as nat) + " ("@
        + hex_color(c.0, c.1, c.2) + ")"@
}

/// The scene line: the scene's name when the id names one, else its id, or
/// `None` when no scene is active (id absent or 0).
pub open spec fn scene_text(id: Option<u32>) -> Seq<char> {
    match id {
        Some(sid) => if sid != 0 {
            match scene_name_of(sid) {
                Some(n) => n + " (ID: "@ + decimal(sid as nat) + ")"@,
                None => "ID "@ + decimal(sid as nat),
            }
        } else {
            "None"@
        },
        None => "None"@,
    }
}

/// `"Mode {mode}: {scene name}"` for one favorite.
pub open spec fn favorite_text(f: (u32, u32, Seq<char>)) -> Seq<char> {
    "Mode "@ + decimal(f.0 as nat) + ": "@ + f.2
}

/// The status report of the bulb at `ip` from its `getPilot` reply `p`, the
/// color it displays (`shown`) and its WiZclick favorites.
pub open spec fn status_report(
    ip: Seq<char>,
    p: PilotResult,
    shown: Option<(u8, u8, u8)>,
    favs: Seq<(u32, u32, Seq<char>)>,
) -> Seq<Seq<char>> {
    seq!["Bulb:       "@ + ip] + line_if(
        match p.mac {
            Some(m) => Some("MAC:        "@ + m@),
            None => None,
        },
    ) + line_if(
        match p.rssi {
            Some(r) => Some("Signal:     "@ + signed_decimal(r as int) + " dBm"@),
            None => None,
        },
    ) + seq![
        "Power:      "@ + (if p.state == Some(true) {
            "ON"@
        } else {
            "OFF"@
        }),
    ] + line_if(
        match p.dimming {
            Some(d) => {
                let b = percent_to_byte(d as int);
                Some(
                    "Brightness: "@ + decimal(b as nat) + "/255 ("@ + decimal(
                        byte_percent(b) as nat,
                    ) + "%)"@,
                )
            },
            None => None,
        },
    ) + seq!["Scene:      "@ + scene_text(p.scene_id)] + line_if(
        match shown {
            Some(c) => Some("RGB:        "@ + rgb_text(c)),
            None => None,
        },
    ) + line_if(
        match p.temp {
            Some(k) => Some("Kelvin:     "@ + decimal(k as nat) + "K"@),
            None => None,
        },
    ) + line_if(
        match p.src {
            Some(s) => Some("Source:     "@ + s@),
            None => None,
        },
    ) + line_if(
        if favs.len() > 0 {
            Some("WiZclick:   "@ + joined(favs.map_values(|f| favorite_text(f)), " | "@))
        } else {
            None
        },
    )
}

/// A line collection holds `x` exactly when one of its two parts does.
proof fn lemma_lines_concat(a: Seq<Seq<char>>, b: Seq<Seq<char>>, x: Seq<char>)
    ensures
        (a + b).contains(x) <==> a.contains(x) || b.contains(x),
{
    if (a + b).contains(x) {
        let i = choose|i: int| 0 <= i < (a + b).len() && (a + b)[i] == x;
        if i < a.len() {
            assert(a[i] == x);
        } else {
            assert(b[i - a.len()] == x);
        }
    }
    if a.contains(x) {
        let i = choose|i: int| 0 <= i < a.len() && a[i] == x;
        assert((a + b)[i] == x);
    }
    if b.contains(x) {
        let i = choose|i: int| 0 <= i < b.len() && b[i] == x;
        assert((a + b)[a.len() + i] == x);
    }
}

/// An optional line that, when present, starts with another character than
/// `x` is never `x`.
proof fn lemma_other_line(o: Option<Seq<char>>, x: Seq<char>)
    requires
        x.len() > 0,
        o matches Some(l) ==> l.len() > 0 && l[0] != x[0],
    ensures
        !line_if(o).contains(x),
{
    if let Some(l) = o {
        if seq![l].contains(x) {
            assert(seq![l][0] == x);
        }
    }
}

/// The status report tells whether the bulb is on: its Power line reads
/// `Power:      ON` exactly when the reply says the bulb is on, and
/// `Power:      OFF` when it says it is off or does not say.
pub proof fn lemma_status_power_line(
    ip: Seq<char>,
    p: PilotResult,
    shown: Option<(u8, u8, u8)>,
    favs: Seq<(u32, u32, Seq<char>)>,
)
    ensures
        status_report(ip, p, shown, favs).contains("Power:      ON"@) <==> p.state == Some(true),
        status_report(ip, p, shown, favs).contains("Power:      OFF"@) <==> p.state != Some(true),
{
    reveal_strlit("Power:      ON");
    reveal_strlit("Power:      OFF");
    reveal_strlit("Power:      ");
    reveal_strlit("ON");
    reveal_strlit("OFF");
    reveal_strlit("Bulb:       ");
    reveal_strlit("MAC:        ");
    reveal_strlit("Signal:     ");
    reveal_strlit("Brightness: ");
    reveal_strlit("Scene:      ");
    reveal_strlit("RGB:        ");
    reveal_strlit("Kelvin:     ");
    reveal_strlit("Source:     ");
    reveal_strlit("WiZclick:   ");
    let on_line = "Power:      ON"@;
    let off_line = "Power:      OFF"@;
    let power = "Power:      "@ + (if p.state == Some(true) {
        "ON"@
    } else {
        "OFF"@
    });
    assert(p.state == Some(true) ==> power =~= on_line);
    assert(p.state != Some(true) ==> power =~= off_line);
    assert(on_line != off_line) by {
        assert(on_line.len() != off_line.len());
    }
    let bulb = seq!["Bulb:       "@ + ip];
    let mac = line_if(
        match p.mac {
            Some(m) => Some("MAC:        "@ + m@),
            None => None,
        },
    );
    let signal = line_if(
        match p.rssi {
            Some(r) => Some("Signal:     "@ + signed_decimal(r as int) + " dBm"@),
            None => None,
        },
    );
    let level = line_if(
        match p.dimming {
            Some(d) => {
                let b = percent_to_byte(d as int);
                Some(
                    "Brightness: "@ + decimal(b as nat) + "/255 ("@ + decimal(
                        byte_percent(b) as nat,
                    ) + "%)"@,
                )
            },
            None => None,
        },
    );
    let scene = seq!["Scene:      "@ + scene_text(p.scene_id)];
    let rgb = line_if(
        match shown {
            Some(c) => Some("RGB:        "@ + rgb_text(c)),
            None => None,
        },
    );
    let temp = line_if(
        match p.temp {
            Some(k) => Some("Kelvin:     "@ + decimal(k as nat) + "K"@),
            None => None,
        },
    );
    let src = line_if(
        match p.src {
            Some(t) => Some("Source:     "@ + t@),
            None => None,
        },
    );
    let fav = line_if(
        if favs.len() > 0 {
            Some("WiZclick:   "@ + joined(favs.map_values(|f| favorite_text(f)), " | "@))
        } else {
            None
        },
    );
    let r = status_report(ip, p, shown, favs);
    assert(r == bulb + mac + signal + seq![power] + level + scene + rgb + temp + src + fav);
    assert forall|x: Seq<char>| x == on_line || x == off_line implies (r.contains(x) <==> power
        == x) by {
        assert(x[0] == 'P');
        // Every other line starts with another letter.
        assert(("Bulb:       "@ + ip)[0] == 'B');
        if bulb.contains(x) {
            assert(bulb[0] == x);
        }
        if let Some(m) = p.mac {
            assert(("MAC:        "@ + m@)[0] == 'M');
        }
        lemma_other_line(
            match p.mac {
                Some(m) => Some("MAC:        "@ + m@),
                None => None,
            },
            x,
        );
        if let Some(v) = p.rssi {
            assert(("Signal:     "@ + signed_decimal(v as int) + " dBm"@)[0] == 'S');
        }
        lemma_other_line(
            match p.rssi {
                Some(v) => Some("Signal:     "@ + signed_decimal(v as int) + " dBm"@),
                None => None,
            },
            x,
        );
        if let Some(d) = p.dimming {
            let b = percent_to_byte(d as int);
            assert(("Brightness: "@ + decimal(b as nat) + "/255 ("@ + decimal(
                byte_percent(b) as nat,
            ) + "%)"@)[0] == 'B');
        }
        lemma_other_line(
            match p.dimming {
                Some(d) => {
                    let b = percent_to_byte(d as int);
                    Some(
                        "Brightness: "@ + decimal(b as nat) + "/255 ("@ + decimal(
                            byte_percent(b) as nat,
                        ) + "%)"@,
                    )
                },
                None => None,
            },
            x,
        );
        assert(("Scene:      "@ + scene_text(p.scene_id))[0] == 'S');
        if scene.contains(x) {
            assert(scene[0] == x);
        }
        if let Some(c) = shown {
            assert(("RGB:        "@ + rgb_text(c))[0] == 'R');
        }
        lemma_other_line(
            match shown {
                Some(c) => Some("RGB:        "@ + rgb_text(c)),
                None => None,
            },
            x,
        );
        if let Some(k) = p.temp {
            assert(("Kelvin:     "@ + decimal(k as nat) + "K"@)[0] == 'K');
        }
        lemma_other_line(
            match p.temp {
                Some(k) => Some("Kelvin:     "@ + decimal(k as nat) + "K"@),
                None => None,
            },
            x,
        );
        if let Some(t) = p.src {
            assert(("Source:     "@ + t@)[0] == 'S');
        }
        lemma_other_line(
            match p.src {
                Some(t) => Some("Source:     "@ + t@),
                None => None,
            },
            x,
        );
        assert(("WiZclick:   "@ + joined(favs.map_values(|f| favorite_text(f)), " | "@))[0]
            == 'W');
        lemma_other_line(
            if favs.len() > 0 {
                Some("WiZclick:   "@ + joined(favs.map_values(|f| favorite_text(f)), " | "@))
            } else {
                None
            },
            x,
        );
        if seq![power].contains(x) {
            assert(seq![power][0] == x);
        }
        assert(seq![power][0] == power);
        lemma_lines_concat(bulb, mac, x);
        lemma_lines_concat(bulb + mac, signal, x);
        lemma_lines_concat(bulb + mac + signal, seq![power], x);
        lemma_lines_concat(bulb + mac + signal + seq![power], level, x);
        lemma_lines_concat(bulb + mac + signal + seq![power] + level, scene, x);
        lemma_lines_concat(bulb + mac + signal + seq![power] + level + scene, rgb, x);
        lemma_lines_concat(bulb + mac + signal + seq![power] + level + scene + rgb, temp, x);
        lemma_lines_concat(
            bulb + mac + signal + seq![power] + level + scene + rgb + temp,
            src,
            x,
        );
        lemma_lines_concat(
            bulb + mac + signal + seq![power] + level + scene + rgb + temp + src,
            fav,
            x,
        );
    }
}

fn push_line_if(lines: &mut Vec<String>, line: Option<String>)
    ensures
        views(final(lines)@) == views(old(lines)@) + line_if(
            match line {
                Some(l) => Some(l@),
                None => None,
            },
        ),
{
    let ghost before = views(lines@);
    match line {
        Some(l) => {
            lines.push(l);
            assert(views(lines@) =~= before + seq![l@]);
        },
        None => {
            assert(views(lines@) =~= before + Seq::<Seq<char>>::empty());
        },
    }
}

fn scene_line_text(id: Option<u32>) -> (s: String)
    ensures
        s@ == "Scene:      "@ + scene_text(id),
{
    let mut s = String::from_str("Scene:      ");
    match id {
        Some(sid) => {
            if sid != 0 {
                match get_scene_name(sid) {
                    Some(n) => {
                        s.append(n);
                        s.append(" (ID: ");
                        append_decimal(&mut s, sid as u64);
                        s.append(")");
                    },
                    None => {
                        s.append("ID ");
                        append_decimal(&mut s, sid as u64);
                    },
                }
            } else {
                s.append("None");
            }
        },
        None => {
            s.append("None");
        },
    }
    assert(s@ =~= "Scene:      "@ + scene_text(id));
    s
}

fn favorites_line(favs: &Vec<WiZclickFavorite>) -> (s: String)
    requires
        favs.len() > 0,
    ensures
        s@ == "WiZclick:   "@ + joined(
            favs@.map_values(|f: WiZclickFavorite| favorite_view(f)).map_values(
                |f| favorite_text(f),
            ),
            " | "@,
        ),
{
    let ghost parts = favs@.map_values(|f: WiZclickFavorite| favorite_view(f)).map_values(
        |f| favorite_text(f),
    );
    let mut s = String::from_str("WiZclick:   ");
    let ghost head = s@;
    let mut i: usize = 0;
    while i < favs.len()
        invariant
            i <= favs.len(),
            parts == favs@.map_values(|f: WiZclickFavorite| favorite_view(f)).map_values(
                |f| favorite_text(f),
            ),
            head == "WiZclick:   "@,
            s@ == head + joined(parts.take(i as int), " | "@),
        decreases favs.len() - i,
    {
        let ghost pre = s@;
        if i > 0 {
            s.append(" | ");
        }
        s.append("Mode ");
        append_decimal(&mut s, favs[i].mode as u64);
        s.append(": ");
        s.append(favs[i].scene_name.as_str());
        proof {
            let next = parts.take(i + 1);
            assert(next.drop_last() =~= parts.take(i as int));
            assert(next.last() == parts[i as int]);
            assert(parts[i as int] == favorite_text(favorite_view(favs@[i as int])));
            if i == 0 {
                assert(joined(parts.take(0), " | "@) =~= Seq::<char>::empty());
            }
        }
        i = i + 1;
        assert(s@ =~= head + joined(parts.take(i as int), " | "@));
    }
    assert(parts.take(favs.len() as int) =~= parts);
    s
}

/// The lines `wizctl status` prints for the bulb at `ip`: its reply `pilot`,
/// the color it displays (`shown`, as `PilotResult::rgb` recovers it) and its
/// WiZclick favorites.
pub fn status_lines(
    ip: &str,
    pilot: &PilotResult,
    shown: Option<(u8, u8, u8)>,
    favs: &Vec<WiZclickFavorite>,
) -> (lines: Vec<String>)
    ensures
        views(lines@) == status_report(
            ip@,
            *pilot,
            shown,
            favs@.map_values(|f: WiZclickFavorite| favorite_view(f)),
        ),
{
    let mut lines: Vec<String> = Vec::new();
    let mut bulb = String::from_str("Bulb:       ");
    bulb.append(ip);
    lines.push(bulb);
    assert(views(lines@) =~= seq!["Bulb:       "@ + ip@]);
    let mac = match &pilot.mac {
        Some(m) => {
            let mut s = String::from_str("MAC:        ");
            s.append(m.as_str());
            Some(s)
        },
        None => None,
    };
    assert(match mac {
        Some(l) => Some(l@),
        None => None,
    } == match pilot.mac {
        Some(m) => Some("MAC:        "@ + m@),
        None => None::<Seq<char>>,
    });
    push_line_if(&mut lines, mac);
    let signal = match pilot.rssi {
        Some(r) => {
            let mut s = String::from_str("Signal:     ");
            append_signed_decimal(&mut s, r as i64);
            s.append(" dBm");
            Some(s)
        },
        None => None,
    };
    assert(match signal {
        Some(l) => Some(l@),
        None => None,
    } == match pilot.rssi {
        Some(r) => Some("Signal:     "@ + signed_decimal(r as int) + " dBm"@),
        None => None::<Seq<char>>,
    });
    push_line_if(&mut lines, signal);
    let power = if pilot.is_on() {
        String::from_str("Power:      ON")
    } else {
        String::from_str("Power:      OFF")
    };
    proof {
        reveal_strlit("Power:      ON");
        reveal_strlit("Power:      OFF");
        reveal_strlit("Power:      ");
        reveal_strlit("ON");
        reveal_strlit("OFF");
    }
    assert(power@ == "Power:      "@ + (if pilot.state == Some(true) {
        "ON"@
    } else {
        "OFF"@
    }));
    push_line_if(&mut lines, Some(power));
    let level = match pilot.brightness_255() {
        Some(b) => {
            let mut s = String::from_str("Brightness: ");
            append_decimal(&mut s, b as u64);
            s.append("/255 (");
            append_decimal(&mut s, crate::bulb::brightness_percent(b) as u64);
            s.append("%)");
            Some(s)
        },
        None => None,
    };
    assert(match level {
        Some(l) => Some(l@),
        None => None,
    } == match pilot.dimming {
        Some(d) => {
            let b = percent_to_byte(d as int);
            Some(
                "Brightness: "@ + decimal(b as nat) + "/255 ("@ + decimal(byte_percent(b) as nat)
                    + "%)"@,
            )
        },
        None => None::<Seq<char>>,
    });
    push_line_if(&mut lines, level);
    push_line_if(&mut lines, Some(scene_line_text(pilot.scene_id)));
    let color = match shown {
        Some((r, g, b)) => {
            let mut s = String::from_str("RGB:        ");
            append_decimal(&mut s, r as u64);
            s.append(",");
            append_decimal(&mut s, g as u64);
            s.append(",");
            append_decimal(&mut s, b as u64);
            s.append(" (");
            let hex = rgb_to_hex(r, g, b);
            s.append(hex.as_str());
            s.append(")");
            Some(s)
        },
        None => None,
    };
    assert(match color {
        Some(l) => Some(l@),
        None => None,
    } == match shown {
        Some(c) => Some("RGB:        "@ + rgb_text(c)),
        None => None::<Seq<char>>,
    });
    push_line_if(&mut lines, color);
    let kelvin = match pilot.temp {
        Some(k) => {
            let mut s = String::from_str("Kelvin:     ");
            append_decimal(&mut s, k as u64);
            s.append("K");
            Some(s)
        },
        None => None,
    };
    push_line_if(&mut lines, kelvin);
    let source = match &pilot.src {
        Some(src) => {
            let mut s = String::from_str("Source:     ");
            s.append(src.as_str());
            Some(s)
        },
        None => None,
    };
    push_line_if(&mut lines, source);
    let wizclick = if favs.len() > 0 {
        Some(favorites_line(favs))
    } else {
        None
    };
    push_line_if(&mut lines, wizclick);
    assert(views(lines@) =~= status_report(
        ip@,
        *pilot,
        shown,
        favs@.map_values(|f: WiZclickFavorite| favorite_view(f)),
    ));
    lines
}

/// One entry of the scene list: the id right-aligned in two columns.
pub open spec fn scene_list_line(id: u32, name: Seq<char>) -> Seq<char> {
    "  "@ + (if id < 10 {
        " "@
    } else {
        Seq::empty()
    }) + decimal(id as nat) + ": "@ + name
}

/// What `wizctl scenes` prints: every scene of the table with an id up to
/// 40, in increasing id order, between a header and a usage line.
pub open spec fn scene_list() -> Seq<Seq<char>> {
    seq!["Available WiZ Scenes:"@, "-----------------------------------"@] + spec_scenes().map_values(
        |e: (u32, Seq<char>)| scene_list_line(e.0, e.1),
    ) + seq!["-----------------------------------"@, "Usage: wizctl scene <id|name>"@]
}

/// The lines of `wizctl scenes`.
pub fn scene_list_lines() -> (lines: Vec<String>)
    ensures
        views(lines@) == scene_list(),
{
    let listed = listed_scenes();
    let mut lines: Vec<String> = Vec::new();
    lines.push(String::from_str("Available WiZ Scenes:"));
    lines.push(String::from_str("-----------------------------------"));
    let ghost head = seq!["Available WiZ Scenes:"@, "-----------------------------------"@];
    let ghost entries = spec_scenes().map_values(|e: (u32, Seq<char>)| scene_list_line(e.0, e.1));
    assert(views(lines@) =~= head);
    let mut i: usize = 0;
    while i < listed.len()
        invariant
            i <= listed@.len(),
            listed@.len() == spec_scenes().len(),
            forall|k: int|
                0 <= k < listed@.len() ==> (#[trigger] listed@[k]).0 == spec_scenes()[k].0
                    && listed@[k].1@ == spec_scenes()[k].1,
            entries == spec_scenes().map_values(|e: (u32, Seq<char>)| scene_list_line(e.0, e.1)),
            views(lines@) == head + entries.take(i as int),
        decreases listed.len() - i,
    {
        let (id, name) = listed[i];
        let mut s = String::from_str("  ");
        if id < 10 {
            s.append(" ");
        }
        append_decimal(&mut s, id as u64);
        s.append(": ");
        s.append(name);
        assert(s@ =~= scene_list_line(id, name@));
        let ghost before = views(lines@);
        lines.push(s);
        assert(views(lines@) =~= before.push(s@));
        i = i + 1;
        assert(entries.take(i as int) =~= entries.take(i - 1).push(entries[i - 1]));
    }
    assert(entries.take(listed.len() as int) =~= entries);
    lines.push(String::from_str("-----------------------------------"));
    lines.push(String::from_str("Usage: wizctl scene <id|name>"));
    assert(views(lines@) =~= scene_list());
    lines
}

/// One WiZclick mode of the listing.
pub open spec fn wizclick_line(f: (u32, u32, Seq<char>)) -> Seq<char> {
    "  Mode "@ + decimal(f.0 as nat) + " (Click "@ + decimal(f.0 as nat) + "): "@ + f.2
        + " (Scene ID: "@ + decimal(f.1 as nat) + ")"@
}

/// What `wizctl wizclick` prints without a mode: every favorite, between a
/// header and the usage notes.
pub open spec fn wizclick_listing(favs: Seq<(u32, u32, Seq<char>)>) -> Seq<Seq<char>> {
    seq!["WiZclick Settings (Wall Switch Modes):"@, "----------------------------------------"@] + favs.map_values(
        |f: (u32, u32, Seq<char>)| wizclick_line(f),
    ) + seq![
        "----------------------------------------"@,
        "Toggle physical wall switch once for Mode 1, twice quickly for Mode 2."@,
        "Usage: wizctl wizclick [1|2]"@,
    ]
}

/// The lines of `wizctl wizclick` without a mode.
pub fn wizclick_lines(favs: &Vec<WiZclickFavorite>) -> (lines: Vec<String>)
    ensures
        views(lines@) == wizclick_listing(favs@.map_values(|f: WiZclickFavorite| favorite_view(f))),
{
    let ghost fv = favs@.map_values(|f: WiZclickFavorite| favorite_view(f));
    let ghost entries = fv.map_values(|f: (u32, u32, Seq<char>)| wizclick_line(f));
    let ghost head = seq!["WiZclick Settings (Wall Switch Modes):"@, "----------------------------------------"@];
    let mut lines: Vec<String> = Vec::new();
    lines.push(String::from_str("WiZclick Settings (Wall Switch Modes):"));
    lines.push(String::from_str("----------------------------------------"));
    assert(views(lines@) =~= head);
    let mut i: usize = 0;
    while i < favs.len()
        invariant
            i <= favs.len(),
            fv == favs@.map_values(|f: WiZclickFavorite| favorite_view(f)),
            entries == fv.map_values(|f: (u32, u32, Seq<char>)| wizclick_line(f)),
            views(lines@) == head + entries.take(i as int),
        decreases favs.len() - i,
    {
        let f = &favs[i];
        let mut s = String::from_str("  Mode ");
        append_decimal(&mut s, f.mode as u64);
        s.append(" (Click ");
        append_decimal(&mut s, f.mode as u64);
        s.append("): ");
        s.append(f.scene_name.as_str());
        s.append(" (Scene ID: ");
        append_decimal(&mut s, f.scene_id as u64);
        s.append(")");
        assert(s@ =~= wizclick_line(fv[i as int]));
        let ghost before = views(lines@);
        lines.push(s);
        assert(views(lines@) =~= before.push(s@));
        i = i + 1;
        assert(entries.take(i as int) =~= entries.take(i - 1).push(entries[i - 1]));
    }
    assert(entries.take(favs.len() as int) =~= entries);
    lines.push(String::from_str("----------------------------------------"));
    lines.push(
        String::from_str("Toggle physical wall switch once for Mode 1, twice quickly for Mode 2."),
    );
    lines.push(String::from_str("Usage: wizctl wizclick [1|2]"));
    assert(views(lines@) =~= wizclick_listing(fv));
    lines
}

} // verus!
