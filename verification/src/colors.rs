//! Preset colors, the WiZ scene table, and the parsers for the values a user
//! types: colors, brightness, Kelvin temperatures and scenes.

use vstd::prelude::*;

use crate::text::{
    all_ascii, ascii_lower, ascii_lower_seq, ascii_upper, ascii_upper_seq, hex_char, lemma_hex_byte_roundtrip, lemma_trim_end, lemma_trim_start,
    append_decimal, decimal, is_ascii_char,
    chars_eq, chars_of, hex_byte, hex_digit_char, hex_digit_value, hex_value, is_ascii_hexdigit,
    is_hex_digit, is_whitespace, is_ws, lowercase, lowercase_chars, parse_unsigned,
    parse_unsigned_chars, split, split_chars, string_of, trim, trim_chars, trimmed, parse_i32,
    parse_i32_chars, take_chars, lemma_decimal_parses, lemma_decimal_digits, is_digit,
    split_fold, lemma_split_fold_plain, lemma_split_fold_sep,
};

verus! {

// ---------------------------------------------------------------------------
// Tables
// ---------------------------------------------------------------------------

/// The WiZ scene table, in the order the bulb firmware numbers it.
pub open spec fn spec_scenes() -> Seq<(u32, Seq<char>)> {
    seq![
        (1u32, "Ocean"@),
        (2u32, "Romance"@),
        (3u32, "Sunset"@),
        (4u32, "Party"@),
        (5u32, "Fireplace"@),
        (6u32, "Cozy"@),
        (7u32, "Forest"@),
        (8u32, "Pastel colors"@),
        (9u32, "Wake-up"@),
        (10u32, "Bedtime"@),
        (11u32, "Warm white"@),
        (12u32, "Daylight"@),
        (13u32, "Cool white"@),
        (14u32, "Night light"@),
        (15u32, "Focus"@),
        (16u32, "Relax"@),
        (17u32, "True colors"@),
        (18u32, "TV time"@),
        (19u32, "Plantgrowth"@),
        (20u32, "Spring"@),
        (21u32, "Summer"@),
        (22u32, "Fall"@),
        (23u32, "Deep dive"@),
        (24u32, "Jungle"@),
        (25u32, "Mojito"@),
        (26u32, "Club"@),
        (27u32, "Christmas"@),
        (28u32, "Halloween"@),
        (29u32, "Candlelight"@),
        (30u32, "Golden white"@),
        (31u32, "Pulse"@),
        (32u32, "Steampunk"@),
        (33u32, "Diwali"@),
        (34u32, "White"@),
        (35u32, "Alarm"@),
        (36u32, "Snowy sky"@),
        (40u32, "Dim-to-warm"@),
    ]
}

/// The WiZ scene table: `(scene id, display name)`.
pub fn scenes() -> (v: Vec<(u32, &'static str)>)
    ensures
        v@.len() == spec_scenes().len(),
        forall|i: int|
            0 <= i < v@.len() ==> (#[trigger] v@[i]).0 == spec_scenes()[i].0 && v@[i].1@
                == spec_scenes()[i].1,
{
    let v = vec![
        (1, "Ocean"),
        (2, "Romance"),
        (3, "Sunset"),
        (4, "Party"),
        (5, "Fireplace"),
        (6, "Cozy"),
        (7, "Forest"),
        (8, "Pastel colors"),
        (9, "Wake-up"),
        (10, "Bedtime"),
        (11, "Warm white"),
        (12, "Daylight"),
        (13, "Cool white"),
        (14, "Night light"),
        (15, "Focus"),
        (16, "Relax"),
        (17, "True colors"),
        (18, "TV time"),
        (19, "Plantgrowth"),
        (20, "Spring"),
        (21, "Summer"),
        (22, "Fall"),
        (23, "Deep dive"),
        (24, "Jungle"),
        (25, "Mojito"),
        (26, "Club"),
        (27, "Christmas"),
        (28, "Halloween"),
        (29, "Candlelight"),
        (30, "Golden white"),
        (31, "Pulse"),
        (32, "Steampunk"),
        (33, "Diwali"),
        (34, "White"),
        (35, "Alarm"),
        (36, "Snowy sky"),
        (40, "Dim-to-warm"),
    ];
    v
}

/// Named colors accepted by `parse_color`.
pub open spec fn spec_named_colors() -> Seq<(Seq<char>, (u8, u8, u8))> {
    seq![
        ("red"@, (255u8, 0u8, 0u8)),
        ("green"@, (0u8, 255u8, 0u8)),
        ("blue"@, (0u8, 0u8, 255u8)),
        ("white"@, (255u8, 255u8, 255u8)),
        ("yellow"@, (255u8, 255u8, 0u8)),
        ("cyan"@, (0u8, 255u8, 255u8)),
        ("magenta"@, (255u8, 0u8, 255u8)),
        ("orange"@, (255u8, 128u8, 0u8)),
        ("purple"@, (128u8, 0u8, 255u8)),
        ("pink"@, (255u8, 80u8, 160u8)),
        ("warmwhite"@, (255u8, 214u8, 170u8)),
        ("coolwhite"@, (212u8, 235u8, 255u8)),
        ("daylight"@, (255u8, 255u8, 251u8)),
        ("gold"@, (255u8, 215u8, 0u8)),
        ("lime"@, (50u8, 205u8, 50u8)),
        ("teal"@, (0u8, 128u8, 128u8)),
        ("violet"@, (238u8, 130u8, 238u8)),
        ("indigo"@, (75u8, 0u8, 130u8)),
        ("amber"@, (255u8, 191u8, 0u8)),
        ("crimson"@, (220u8, 20u8, 60u8)),
        ("turquoise"@, (64u8, 224u8, 208u8)),
        ("coral"@, (255u8, 127u8, 80u8)),
    ]
}

/// Named colors accepted by `parse_color`: `(name, (r, g, b))`.
pub fn named_colors() -> (v: Vec<(&'static str, (u8, u8, u8))>)
    ensures
        v@.len() == spec_named_colors().len(),
        forall|i: int|
            0 <= i < v@.len() ==> (#[trigger] v@[i]).0@ == spec_named_colors()[i].0 && v@[i].1
                == spec_named_colors()[i].1,
{
    let v = vec![
        ("red", (255, 0, 0)),
        ("green", (0, 255, 0)),
        ("blue", (0, 0, 255)),
        ("white", (255, 255, 255)),
        ("yellow", (255, 255, 0)),
        ("cyan", (0, 255, 255)),
        ("magenta", (255, 0, 255)),
        ("orange", (255, 128, 0)),
        ("purple", (128, 0, 255)),
        ("pink", (255, 80, 160)),
        ("warmwhite", (255, 214, 170)),
        ("coolwhite", (212, 235, 255)),
        ("daylight", (255, 255, 251)),
        ("gold", (255, 215, 0)),
        ("lime", (50, 205, 50)),
        ("teal", (0, 128, 128)),
        ("violet", (238, 130, 238)),
        ("indigo", (75, 0, 130)),
        ("amber", (255, 191, 0)),
        ("crimson", (220, 20, 60)),
        ("turquoise", (64, 224, 208)),
        ("coral", (255, 127, 80)),
    ];
    v
}

/// The quick-color presets a fresh state starts with.
pub open spec fn spec_default_presets() -> Seq<Seq<char>> {
    seq![
        "#ff453a"@,
        "#ff9f0a"@,
        "#ffd60a"@,
        "#32d74b"@,
        "#64d2ff"@,
        "#0a84ff"@,
        "#bf5af2"@,
        "#ff375f"@,
        "#ffd1a9"@,
        "#f0f4f8"@,
    ]
}

/// The quick-color presets (red, orange, yellow, green, cyan, blue, purple,
/// pink, warm white, cool white) as hex strings.
pub fn default_preset_colors() -> (v: Vec<String>)
    ensures
        v@.map_values(|s: String| s@) == spec_default_presets(),
{
    let v = vec![
        String::from_str("#ff453a"),
        String::from_str("#ff9f0a"),
        String::from_str("#ffd60a"),
        String::from_str("#32d74b"),
        String::from_str("#64d2ff"),
        String::from_str("#0a84ff"),
        String::from_str("#bf5af2"),
        String::from_str("#ff375f"),
        String::from_str("#ffd1a9"),
        String::from_str("#f0f4f8"),
    ];
    assert(v@.map_values(|s: String| s@) =~= spec_default_presets());
    v
}

// ---------------------------------------------------------------------------
// Scene lookup
// ---------------------------------------------------------------------------

/// The name of the first table entry with scene id `id`.
pub open spec fn scene_lookup(t: Seq<(u32, Seq<char>)>, id: u32) -> Option<Seq<char>>
    decreases t.len(),
{
    if t.len() == 0 {
        None
    } else if t[0].0 == id {
        Some(t[0].1)
    } else {
        scene_lookup(t.drop_first(), id)
    }
}

pub open spec fn scene_name_of(id: u32) -> Option<Seq<char>> {
    scene_lookup(spec_scenes(), id)
}

/// The display name of a WiZ scene id.
pub fn get_scene_name(scene_id: u32) -> (r: Option<&'static str>)
    ensures
        match scene_name_of(scene_id) {
            Some(n) => r is Some && r->0@ == n,
            None => r is None,
        },
{
    let table = scenes();
    let ghost t = spec_scenes();
    assert(t.subrange(0, t.len() as int) =~= t);
    let mut i: usize = 0;
    while i < table.len()
        invariant
            i <= table@.len(),
            table@.len() == t.len(),
            t == spec_scenes(),
            forall|k: int|
                0 <= k < table@.len() ==> (#[trigger] table@[k]).0 == t[k].0 && table@[k].1@
                    == t[k].1,
            scene_lookup(t, scene_id) == scene_lookup(t.subrange(i as int, t.len() as int), scene_id),
        decreases table.len() - i,
    {
        let ghost rest = t.subrange(i as int, t.len() as int);
        assert(rest[0] == t[i as int]);
        if table[i].0 == scene_id {
            return Some(table[i].1);
        }
        assert(rest.drop_first() =~= t.subrange(i + 1, t.len() as int));
        i = i + 1;
    }
    None
}

// ---------------------------------------------------------------------------
// Hex rendering
// ---------------------------------------------------------------------------

/// `#rrggbb` in lowercase hexadecimal.
pub open spec fn hex_color(r: u8, g: u8, b: u8) -> Seq<char> {
    seq!['#'] + hex_byte(r) + hex_byte(g) + hex_byte(b)
}

/// `#rrggbb`, lowercase.
pub fn rgb_to_hex(r: u8, g: u8, b: u8) -> (s: String)
    ensures
        s@ == hex_color(r, g, b),
{
    let mut v: Vec<char> = Vec::new();
    v.push('#');
    v.push(hex_digit_char(r / 16));
    v.push(hex_digit_char(r % 16));
    v.push(hex_digit_char(g / 16));
    v.push(hex_digit_char(g % 16));
    v.push(hex_digit_char(b / 16));
    v.push(hex_digit_char(b % 16));
    assert(v@ =~= hex_color(r, g, b));
    string_of(&v)
}

// ---------------------------------------------------------------------------
// Shared parsing vocabulary
// ---------------------------------------------------------------------------

/// `s` with whitespace, `-` and `_` removed (the name normalisation).
pub open spec fn strip_separators(s: Seq<char>) -> Seq<char>
    decreases s.len(),
{
    if s.len() == 0 {
        s
    } else {
        let c = s.last();
        if is_ws(c) || c == '-' || c == '_' {
            strip_separators(s.drop_last())
        } else {
            strip_separators(s.drop_last()).push(c)
        }
    }
}

/// Removes whitespace, `-` and `_`.
pub fn strip_separators_chars(v: &Vec<char>) -> (r: Vec<char>)
    ensures
        r@ == strip_separators(v@),
{
    let mut r: Vec<char> = Vec::new();
    let mut i: usize = 0;
    while i < v.len()
        invariant
            i <= v.len(),
            r@ == strip_separators(v@.subrange(0, i as int)),
        decreases v.len() - i,
    {
        let c = v[i];
        assert(v@.subrange(0, i + 1).drop_last() =~= v@.subrange(0, i as int));
        if !(is_whitespace(c) || c == '-' || c == '_') {
            r.push(c);
        }
        i = i + 1;
    }
    assert(v@.subrange(0, v.len() as int) =~= v@);
    r
}

/// Whether a `Result` with a `String` error matches a specified outcome.
pub open spec fn result_is<T>(r: Result<T, String>, s: Result<T, Seq<char>>) -> bool {
    match (r, s) {
        (Ok(a), Ok(b)) => a == b,
        (Err(m), Err(n)) => m@ == n,
        _ => false,
    }
}

fn message(text: &str) -> (s: String)
    ensures
        s@ == text@,
{
    String::from_str(text)
}

/// `head + middle + tail` as a new `String`.
fn message_around(head: &str, middle: &Vec<char>, tail: &str) -> (s: String)
    ensures
        s@ == head@ + middle@ + tail@,
{
    let mut s = String::from_str(head);
    let m = string_of(middle);
    s.append(m.as_str());
    s.append(tail);
    s
}

fn message_around_str(head: &str, middle: &str, tail: &str) -> (s: String)
    ensures
        s@ == head@ + middle@ + tail@,
{
    let mut s = String::from_str(head);
    s.append(middle);
    s.append(tail);
    s
}

// ---------------------------------------------------------------------------
// Colors
// ---------------------------------------------------------------------------

/// The color of the first named entry called `name`.
pub open spec fn color_lookup(t: Seq<(Seq<char>, (u8, u8, u8))>, name: Seq<char>) -> Option<
    (u8, u8, u8),
>
    decreases t.len(),
{
    if t.len() == 0 {
        None
    } else if t[0].0 == name {
        Some(t[0].1)
    } else {
        color_lookup(t.drop_first(), name)
    }
}

pub open spec fn all_hex(s: Seq<char>) -> bool {
    forall|i: int| 0 <= i < s.len() ==> is_hex_digit(#[trigger] s[i])
}

pub open spec fn hex_pair(s: Seq<char>, i: int) -> u8 {
    (hex_value(s[i]) * 16 + hex_value(s[i + 1])) as u8
}

pub open spec fn hex_doubled(c: char) -> u8 {
    (hex_value(c) * 17) as u8
}

pub open spec fn invalid_color_msg(value: Seq<char>) -> Seq<char> {
    "Invalid color '"@ + value
        + "'. Use a name (e.g. red, warmwhite), #RRGGBB (#ff5500), #RGB (#f50), or R,G,B (255,128,0)"@
}

/// `R, G, B`: exactly three comma-separated, trimmed byte values.
pub open spec fn rgb_triple(val: Seq<char>) -> Option<(u8, u8, u8)> {
    let parts = split(val, ',');
    if parts.len() == 3 {
        match (
            parse_unsigned(trim(parts[0]), 255),
            parse_unsigned(trim(parts[1]), 255),
            parse_unsigned(trim(parts[2]), 255),
        ) {
            (Some(r), Some(g), Some(b)) => Some((r as u8, g as u8, b as u8)),
            _ => None,
        }
    } else {
        None
    }
}

/// The color denoted by `val`, the trimmed and lowercased user input; `value`
/// is the raw input, quoted in the error message.
pub open spec fn color_from_lowered(val: Seq<char>, value: Seq<char>) -> Result<
    (u8, u8, u8),
    Seq<char>,
> {
    if val.len() == 0 {
        Err("Color value cannot be empty"@)
    } else if color_lookup(spec_named_colors(), val) is Some {
        Ok(color_lookup(spec_named_colors(), val)->0)
    } else if color_lookup(spec_named_colors(), strip_separators(val)) is Some {
        Ok(color_lookup(spec_named_colors(), strip_separators(val))->0)
    } else {
        let h = if val[0] == '#' {
            val.drop_first()
        } else {
            val
        };
        if h.len() == 6 && all_hex(h) {
            Ok((hex_pair(h, 0), hex_pair(h, 2), hex_pair(h, 4)))
        } else if h.len() == 3 && all_hex(h) {
            Ok((hex_doubled(h[0]), hex_doubled(h[1]), hex_doubled(h[2])))
        } else if rgb_triple(val) is Some {
            Ok(rgb_triple(val)->0)
        } else {
            Err(invalid_color_msg(value))
        }
    }
}

/// What `parse_color` returns for `value`.
pub open spec fn spec_parse_color(value: Seq<char>) -> Result<(u8, u8, u8), Seq<char>> {
    color_from_lowered(lowercase(trim(value)), value)
}

fn lookup_named_color(name: &Vec<char>) -> (r: Option<(u8, u8, u8)>)
    ensures
        r == color_lookup(spec_named_colors(), name@),
{
    let table = named_colors();
    let ghost t = spec_named_colors();
    assert(t.subrange(0, t.len() as int) =~= t);
    let mut i: usize = 0;
    while i < table.len()
        invariant
            i <= table@.len(),
            table@.len() == t.len(),
            t == spec_named_colors(),
            forall|k: int|
                0 <= k < table@.len() ==> (#[trigger] table@[k]).0@ == t[k].0 && table@[k].1
                    == t[k].1,
            color_lookup(t, name@) == color_lookup(t.subrange(i as int, t.len() as int), name@),
        decreases table.len() - i,
    {
        let ghost rest = t.subrange(i as int, t.len() as int);
        assert(rest[0] == t[i as int]);
        let candidate = chars_of(table[i].0);
        if chars_eq(&candidate, name) {
            return Some(table[i].1);
        }
        assert(rest.drop_first() =~= t.subrange(i + 1, t.len() as int));
        i = i + 1;
    }
    None
}

fn all_hex_chars(v: &Vec<char>, start: usize) -> (b: bool)
    requires
        start <= v.len(),
    ensures
        b == all_hex(v@.subrange(start as int, v.len() as int)),
{
    let mut i = start;
    while i < v.len()
        invariant
            start <= i <= v.len(),
            forall|k: int| start <= k < i ==> is_hex_digit(#[trigger] v@[k]),
        decreases v.len() - i,
    {
        if !is_ascii_hexdigit(v[i]) {
            assert(v@.subrange(start as int, v.len() as int)[i - start] == v@[i as int]);
            return false;
        }
        i = i + 1;
    }
    assert forall|k: int|
        0 <= k < v.len() - start implies is_hex_digit(
        #[trigger] v@.subrange(start as int, v.len() as int)[k],
    ) by {
        assert(v@.subrange(start as int, v.len() as int)[k] == v@[k + start]);
    }
    true
}

fn rgb_triple_chars(val: &Vec<char>) -> (r: Option<(u8, u8, u8)>)
    ensures
        r == rgb_triple(val@),
{
    let parts = split_chars(val, ',');
    let ghost ps = parts@.map_values(|p: Vec<char>| p@);
    if parts.len() != 3 {
        return None;
    }
    assert(ps[0] == parts@[0]@ && ps[1] == parts@[1]@ && ps[2] == parts@[2]@);
    let a = trim_chars(&parts[0]);
    let b = trim_chars(&parts[1]);
    let c = trim_chars(&parts[2]);
    match (parse_unsigned_chars(&a, 255), parse_unsigned_chars(&b, 255), parse_unsigned_chars(&c, 255)) {
        (Some(x), Some(y), Some(z)) => Some((x as u8, y as u8, z as u8)),
        _ => None,
    }
}

/// The color denoted by already trimmed and lowercased input `val`; `value`
/// is the raw input, quoted in the error message.
pub fn parse_lowered_color(val: &Vec<char>, value: &str) -> (r: Result<(u8, u8, u8), String>)
    ensures
        result_is(r, color_from_lowered(val@, value@)),
{
    if val.len() == 0 {
        return Err(message("Color value cannot be empty"));
    }
    if let Some(rgb) = lookup_named_color(val) {
        return Ok(rgb);
    }
    let norm = strip_separators_chars(val);
    if let Some(rgb) = lookup_named_color(&norm) {
        return Ok(rgb);
    }
    let start: usize = if val[0] == '#' {
        1
    } else {
        0
    };
    let ghost h = if val@[0] == '#' {
        val@.drop_first()
    } else {
        val@
    };
    assert(h =~= val@.subrange(start as int, val.len() as int));
    let hl = val.len() - start;
    if hl == 6 && all_hex_chars(val, start) {
        assert(forall|k: int| 0 <= k < 6 ==> h[k] == val@[start + k]);
        assert(is_hex_digit(h[0]) && is_hex_digit(h[1]) && is_hex_digit(h[2]));
        assert(is_hex_digit(h[3]) && is_hex_digit(h[4]) && is_hex_digit(h[5]));
        let r = hex_digit_value(val[start]) * 16 + hex_digit_value(val[start + 1]);
        let g = hex_digit_value(val[start + 2]) * 16 + hex_digit_value(val[start + 3]);
        let b = hex_digit_value(val[start + 4]) * 16 + hex_digit_value(val[start + 5]);
        return Ok((r, g, b));
    }
    if hl == 3 && all_hex_chars(val, start) {
        assert(forall|k: int| 0 <= k < 3 ==> h[k] == val@[start + k]);
        assert(is_hex_digit(h[0]) && is_hex_digit(h[1]) && is_hex_digit(h[2]));
        let r = hex_digit_value(val[start]) * 17;
        let g = hex_digit_value(val[start + 1]) * 17;
        let b = hex_digit_value(val[start + 2]) * 17;
        return Ok((r, g, b));
    }
    if let Some(rgb) = rgb_triple_chars(val) {
        return Ok(rgb);
    }
    Err(
        message_around_str(
            "Invalid color '",
            value,
            "'. Use a name (e.g. red, warmwhite), #RRGGBB (#ff5500), #RGB (#f50), or R,G,B (255,128,0)",
        ),
    )
}

/// Parses a color given by name (`red`, `warm-white`), `#RRGGBB`, `RRGGBB`,
/// `#RGB`, `RGB` or `R,G,B`.
pub fn parse_color(value: &str) -> (r: Result<(u8, u8, u8), String>)
    ensures
        result_is(r, spec_parse_color(value@)),
{
    let t = trimmed(value);
    let val = lowercase_chars(&t);
    parse_lowered_color(&val, value)
}


// ---------------------------------------------------------------------------
// Brightness
// ---------------------------------------------------------------------------

/// How the text before a trailing `%` reads as a percentage. The number
/// itself is read as a floating-point value by the caller (see
/// `percent_text`); this library only decides what each reading means.
#[derive(Debug, Clone, Copy, PartialEq, Eq, Structural)]
pub enum Percent {
    /// Not a number.
    NotANumber,
    /// A number outside `0..=100`, or not finite.
    OutOfRange,
    /// The percentage scaled to `0..=255` and rounded.
    Byte(u8),
}

/// The text of a percentage in `value`: the trimmed value without its
/// trailing `%`, when it ends in one.
pub open spec fn spec_percent_text(value: Seq<char>) -> Option<Seq<char>> {
    let val = trim(value);
    if val.len() > 0 && val.last() == '%' {
        Some(val.drop_last())
    } else {
        None
    }
}

/// The text of a percentage in `value`, for the caller to read as a number
/// before calling `parse_brightness`; `None` when `value` is no percentage.
pub fn percent_text(value: &str) -> (r: Option<String>)
    ensures
        r is Some == spec_percent_text(value@) is Some,
        r matches Some(t) ==> spec_percent_text(value@) == Some(t@),
{
    let val = trimmed(value);
    if val.len() > 0 && val[val.len() - 1] == '%' {
        let pct = take_chars(&val, val.len() - 1);
        assert(pct@ =~= val@.drop_last());
        Some(string_of(&pct))
    } else {
        None
    }
}

/// What `parse_brightness` returns for `value`, given how the percentage
/// text of `value` reads (`percent`, used only when `value` is one).
pub open spec fn spec_parse_brightness(value: Seq<char>, percent: Percent) -> Result<u8, Seq<char>> {
    let val = trim(value);
    if val.len() == 0 {
        Err("Brightness value cannot be empty"@)
    } else if val.last() == '%' {
        match percent {
            Percent::NotANumber => Err("Invalid brightness percentage: '"@ + val + "'"@),
            Percent::OutOfRange => Err("Brightness percentage must be between 0% and 100%"@),
            Percent::Byte(b) => Ok(b),
        }
    } else {
        match parse_i32(val) {
            None => Err("Invalid brightness value '"@ + val + "'. Use 0-255 or 0%-100%"@),
            Some(b) => if 0 <= b <= 255 {
                Ok(b as u8)
            } else {
                Err("Brightness must be between 0 and 255"@)
            },
        }
    }
}

/// Parses a brightness given as a byte (`0`..=`255`) or as a percentage
/// (`0%`..=`100%`). The percentage's number is read by the caller from
/// `percent_text(value)` and handed in as `percent`; this function decides
/// everything else.
pub fn parse_brightness(value: &str, percent: Percent) -> (r: Result<u8, String>)
    ensures
        result_is(r, spec_parse_brightness(value@, percent)),
{
    let val = trimmed(value);
    if val.len() == 0 {
        return Err(message("Brightness value cannot be empty"));
    }
    if val[val.len() - 1] == '%' {
        match percent {
            Percent::NotANumber => Err(
                message_around("Invalid brightness percentage: '", &val, "'"),
            ),
            Percent::OutOfRange => Err(
                message("Brightness percentage must be between 0% and 100%"),
            ),
            Percent::Byte(b) => Ok(b),
        }
    } else {
        match parse_i32_chars(&val) {
            None => Err(
                message_around("Invalid brightness value '", &val, "'. Use 0-255 or 0%-100%"),
            ),
            Some(b) => {
                if 0 <= b && b <= 255 {
                    Ok(b as u8)
                } else {
                    Err(message("Brightness must be between 0 and 255"))
                }
            },
        }
    }
}

// ---------------------------------------------------------------------------
// Kelvin
// ---------------------------------------------------------------------------

/// `s` without its trailing run of `k`/`K` (`trim_end_matches`).
pub open spec fn trim_end_k(s: Seq<char>) -> Seq<char>
    decreases s.len(),
{
    if s.len() > 0 && (s.last() == 'k' || s.last() == 'K') {
        trim_end_k(s.drop_last())
    } else {
        s
    }
}

proof fn lemma_trim_end_k(s: Seq<char>, j: int)
    requires
        0 <= j <= s.len(),
        forall|k: int| j <= k < s.len() ==> (#[trigger] s[k] == 'k' || s[k] == 'K'),
        j == 0 || !(s[j - 1] == 'k' || s[j - 1] == 'K'),
    ensures
        trim_end_k(s) == s.subrange(0, j),
    decreases s.len() - j,
{
    if j == s.len() {
        assert(s.subrange(0, j) =~= s);
    } else {
        let t = s.drop_last();
        assert(s[s.len() - 1] == 'k' || s[s.len() - 1] == 'K');
        assert forall|k: int| j <= k < t.len() implies (#[trigger] t[k] == 'k' || t[k] == 'K') by {
            assert(t[k] == s[k]);
        }
        lemma_trim_end_k(t, j);
        assert(t.subrange(0, j) =~= s.subrange(0, j));
    }
}

pub open spec fn kelvin_range_msg(k: nat) -> Seq<char> {
    "Kelvin temperature "@ + decimal(k)
        + "K is outside safe hardware range (1000K - 10000K, typical: 2200K - 6500K)"@
}

/// What `parse_kelvin` returns for `value`.
pub open spec fn spec_parse_kelvin(value: Seq<char>) -> Result<u16, Seq<char>> {
    let val = trim(value);
    if val.len() == 0 {
        Err("Kelvin value cannot be empty"@)
    } else {
        match parse_unsigned(trim(trim_end_k(val)), 0xffff_ffff) {
            None => Err(
                "Invalid Kelvin temperature: '"@ + value + "'. Expected integer e.g. 2700 or 4000K"@,
            ),
            Some(k) => if 1000 <= k <= 10000 {
                Ok(k as u16)
            } else {
                Err(kelvin_range_msg(k as nat))
            },
        }
    }
}

/// Parses a white temperature such as `2700`, `4000K` or `6500k`, accepted
/// within 1000K..=10000K.
pub fn parse_kelvin(value: &str) -> (r: Result<u16, String>)
    ensures
        result_is(r, spec_parse_kelvin(value@)),
{
    let val = trimmed(value);
    if val.len() == 0 {
        return Err(message("Kelvin value cannot be empty"));
    }
    let mut j: usize = val.len();
    while j > 0 && (val[j - 1] == 'k' || val[j - 1] == 'K')
        invariant
            j <= val@.len(),
            forall|k: int| j <= k < val@.len() ==> (#[trigger] val@[k] == 'k' || val@[k] == 'K'),
        decreases j,
    {
        j = j - 1;
    }
    proof {
        lemma_trim_end_k(val@, j as int);
    }
    let mut stripped: Vec<char> = Vec::new();
    let mut i: usize = 0;
    while i < j
        invariant
            i <= j <= val@.len(),
            stripped@ == val@.subrange(0, i as int),
        decreases j - i,
    {
        stripped.push(val[i]);
        i = i + 1;
        assert(stripped@ =~= val@.subrange(0, i as int));
    }
    let cleaned = trim_chars(&stripped);
    match parse_unsigned_chars(&cleaned, 0xffff_ffff) {
        None => Err(
            message_around_str(
                "Invalid Kelvin temperature: '",
                value,
                "'. Expected integer e.g. 2700 or 4000K",
            ),
        ),
        Some(k) => {
            if 1000 <= k && k <= 10000 {
                Ok(k as u16)
            } else {
                let mut s = String::from_str("Kelvin temperature ");
                append_decimal(&mut s, k);
                s.append(
                    "K is outside safe hardware range (1000K - 10000K, typical: 2200K - 6500K)",
                );
                Err(s)
            }
        },
    }
}

// ---------------------------------------------------------------------------
// Scenes
// ---------------------------------------------------------------------------

/// The key scene names are compared by: lowercased, without separators.
pub open spec fn name_key(s: Seq<char>) -> Seq<char> {
    strip_separators(lowercase(s))
}

/// The first table entry whose name has the key `key`.
pub open spec fn scene_by_key(t: Seq<(u32, Seq<char>)>, key: Seq<char>) -> Option<(u32, Seq<char>)>
    decreases t.len(),
{
    if t.len() == 0 {
        None
    } else if name_key(t[0].1) == key {
        Some(t[0])
    } else {
        scene_by_key(t.drop_first(), key)
    }
}

pub open spec fn unknown_scene_msg(value: Seq<char>) -> Seq<char> {
    "Unknown WiZ scene '"@ + value + "'. Run 'wizctl scenes' to list available scenes."@
}

/// What `parse_scene` returns for `value`.
pub open spec fn spec_parse_scene(value: Seq<char>) -> Result<(u32, Seq<char>), Seq<char>> {
    let val = trim(value);
    if val.len() == 0 {
        Err("Scene value cannot be empty"@)
    } else {
        match parse_unsigned(val, 0xffff_ffff) {
            Some(id) => match scene_name_of(id as u32) {
                Some(n) => Ok((id as u32, n)),
                None => Err("Unknown WiZ scene ID: "@ + decimal(id as nat)),
            },
            None => match scene_by_key(spec_scenes(), name_key(val)) {
                Some(e) => Ok(e),
                None => Err(unknown_scene_msg(value)),
            },
        }
    }
}

pub open spec fn scene_result_is(
    r: Result<(u32, &'static str), String>,
    s: Result<(u32, Seq<char>), Seq<char>>,
) -> bool {
    match (r, s) {
        (Ok(a), Ok(b)) => a.0 == b.0 && a.1@ == b.1,
        (Err(m), Err(n)) => m@ == n,
        _ => false,
    }
}

/// The key a scene name or user input is compared by.
pub fn scene_name_key(v: &Vec<char>) -> (r: Vec<char>)
    ensures
        r@ == name_key(v@),
{
    let l = lowercase_chars(v);
    strip_separators_chars(&l)
}

/// The first scene whose name has the key `key`.
pub fn scene_by_name_key(key: &Vec<char>) -> (r: Option<(u32, &'static str)>)
    ensures
        match scene_by_key(spec_scenes(), key@) {
            Some(e) => r matches Some(x) && x.0 == e.0 && x.1@ == e.1,
            None => r is None,
        },
{
    let table = scenes();
    let ghost t = spec_scenes();
    assert(t.subrange(0, t.len() as int) =~= t);
    let mut i: usize = 0;
    while i < table.len()
        invariant
            i <= table@.len(),
            table@.len() == t.len(),
            t == spec_scenes(),
            forall|k: int|
                0 <= k < table@.len() ==> (#[trigger] table@[k]).0 == t[k].0 && table@[k].1@
                    == t[k].1,
            scene_by_key(t, key@) == scene_by_key(t.subrange(i as int, t.len() as int), key@),
        decreases table.len() - i,
    {
        let ghost rest = t.subrange(i as int, t.len() as int);
        assert(rest[0] == t[i as int]);
        let name = chars_of(table[i].1);
        let k = scene_name_key(&name);
        if chars_eq(&k, key) {
            return Some(table[i]);
        }
        assert(rest.drop_first() =~= t.subrange(i + 1, t.len() as int));
        i = i + 1;
    }
    None
}

/// Parses a WiZ scene given by numeric id (`6`) or by name (`cozy`,
/// `night-light`), returning `(id, name)`.
pub fn parse_scene(value: &str) -> (r: Result<(u32, &'static str), String>)
    ensures
        scene_result_is(r, spec_parse_scene(value@)),
{
    let val = trimmed(value);
    if val.len() == 0 {
        return Err(message("Scene value cannot be empty"));
    }
    match parse_unsigned_chars(&val, 0xffff_ffff) {
        Some(id) => {
            let id32 = id as u32;
            match get_scene_name(id32) {
                Some(n) => Ok((id32, n)),
                None => {
                    let mut s = String::from_str("Unknown WiZ scene ID: ");
                    append_decimal(&mut s, id);
                    Err(s)
                },
            }
        },
        None => {
            let key = scene_name_key(&val);
            match scene_by_name_key(&key) {
                Some(e) => Ok(e),
                None => Err(
                    message_around_str(
                        "Unknown WiZ scene '",
                        value,
                        "'. Run 'wizctl scenes' to list available scenes.",
                    ),
                ),
            }
        },
    }
}


// ---------------------------------------------------------------------------
// Laws
// ---------------------------------------------------------------------------

proof fn lemma_no_separators(s: Seq<char>)
    requires
        forall|i: int| 0 <= i < s.len() ==> !is_ws(#[trigger] s[i]) && s[i] != '-' && s[i] != '_',
    ensures
        strip_separators(s) == s,
    decreases s.len(),
{
    if s.len() > 0 {
        let t = s.drop_last();
        assert forall|i: int| 0 <= i < t.len() implies !is_ws(#[trigger] t[i]) && t[i] != '-'
            && t[i] != '_' by {
            assert(t[i] == s[i]);
        }
        lemma_no_separators(t);
        assert(t.push(s.last()) =~= s);
    }
}

proof fn lemma_color_lookup_absent(t: Seq<(Seq<char>, (u8, u8, u8))>, name: Seq<char>)
    requires
        forall|i: int| 0 <= i < t.len() ==> (#[trigger] t[i]).0 != name,
    ensures
        color_lookup(t, name) is None,
    decreases t.len(),
{
    if t.len() > 0 {
        assert(t[0].0 != name);
        let u = t.drop_first();
        assert forall|i: int| 0 <= i < u.len() implies (#[trigger] u[i]).0 != name by {
            assert(u[i] == t[i + 1]);
        }
        lemma_color_lookup_absent(u, name);
    }
}

/// Every color name starts with a lowercase ASCII letter.
proof fn lemma_names_start_with_letters()
    ensures
        forall|i: int|
            0 <= i < spec_named_colors().len() ==> (#[trigger] spec_named_colors()[i]).0.len() > 0
                && 'a' <= spec_named_colors()[i].0[0] <= 'z',
{
    reveal_strlit("red");
    reveal_strlit("green");
    reveal_strlit("blue");
    reveal_strlit("white");
    reveal_strlit("yellow");
    reveal_strlit("cyan");
    reveal_strlit("magenta");
    reveal_strlit("orange");
    reveal_strlit("purple");
    reveal_strlit("pink");
    reveal_strlit("warmwhite");
    reveal_strlit("coolwhite");
    reveal_strlit("daylight");
    reveal_strlit("gold");
    reveal_strlit("lime");
    reveal_strlit("teal");
    reveal_strlit("violet");
    reveal_strlit("indigo");
    reveal_strlit("amber");
    reveal_strlit("crimson");
    reveal_strlit("turquoise");
    reveal_strlit("coral");
}

/// No color name is a string that starts with something other than a
/// lowercase letter.
proof fn lemma_not_a_name(name: Seq<char>)
    requires
        name.len() > 0,
        !('a' <= name[0] <= 'z'),
    ensures
        color_lookup(spec_named_colors(), name) is None,
{
    lemma_names_start_with_letters();
    assert forall|i: int|
        0 <= i < spec_named_colors().len() implies (#[trigger] spec_named_colors()[i]).0
        != name by {
        assert(spec_named_colors()[i].0[0] != name[0]);
    }
    lemma_color_lookup_absent(spec_named_colors(), name);
}

/// Trimming and lowercasing leave a `#rrggbb` string unchanged.
pub proof fn lemma_hex_color_is_normal(r: u8, g: u8, b: u8)
    ensures
        trim(hex_color(r, g, b)) == hex_color(r, g, b),
        lowercase(hex_color(r, g, b)) == hex_color(r, g, b),
        hex_color(r, g, b).len() == 7,
        hex_color(r, g, b)[0] == '#',
{
    let h = hex_color(r, g, b);
    lemma_hex_byte_roundtrip(r);
    lemma_hex_byte_roundtrip(g);
    lemma_hex_byte_roundtrip(b);
    assert(h.len() == 7);
    assert(h[1] == hex_byte(r)[0] && h[2] == hex_byte(r)[1]);
    assert(h[3] == hex_byte(g)[0] && h[4] == hex_byte(g)[1]);
    assert(h[5] == hex_byte(b)[0] && h[6] == hex_byte(b)[1]);
    assert(!is_ws(h[6]));
    lemma_trim_start(h, 0);
    assert(h.subrange(0, 7) =~= h);
    lemma_trim_end(h, 7);
    assert(all_ascii(h));
    assert(ascii_lower_seq(h) =~= h);
}

/// A `#rrggbb` string, as `rgb_to_hex` writes it, parses back to its color.
pub proof fn lemma_hex_color_parses(r: u8, g: u8, b: u8)
    ensures
        spec_parse_color(hex_color(r, g, b)) == Ok::<(u8, u8, u8), Seq<char>>((r, g, b)),
{
    let h = hex_color(r, g, b);
    lemma_hex_color_is_normal(r, g, b);
    lemma_hex_byte_roundtrip(r);
    lemma_hex_byte_roundtrip(g);
    lemma_hex_byte_roundtrip(b);
    lemma_not_a_name(h);
    assert forall|i: int| 0 <= i < h.len() implies !is_ws(#[trigger] h[i]) && h[i] != '-' && h[i]
        != '_' by {
        if i > 0 {
            assert(h[i] == hex_char(0) || h[i] != '-');
        }
    }
    lemma_no_separators(h);
    let d = h.drop_first();
    assert(d =~= hex_byte(r) + hex_byte(g) + hex_byte(b));
    assert(all_hex(d));
}


/// A `#RRGGBB` string, `rgb_to_hex`'s output in upper case, parses back to
/// its color too.
pub proof fn lemma_upper_hex_color_parses(r: u8, g: u8, b: u8)
    ensures
        spec_parse_color(ascii_upper_seq(hex_color(r, g, b))) == Ok::<(u8, u8, u8), Seq<char>>(
            (r, g, b),
        ),
{
    let h = hex_color(r, g, b);
    let u = ascii_upper_seq(h);
    lemma_hex_color_is_normal(r, g, b);
    lemma_hex_color_parses(r, g, b);
    lemma_hex_byte_roundtrip(r);
    lemma_hex_byte_roundtrip(g);
    lemma_hex_byte_roundtrip(b);
    assert(h[1] == hex_byte(r)[0] && h[2] == hex_byte(r)[1]);
    assert(h[3] == hex_byte(g)[0] && h[4] == hex_byte(g)[1]);
    assert(h[5] == hex_byte(b)[0] && h[6] == hex_byte(b)[1]);
    assert forall|i: int| 0 <= i < 7 implies h[i] == '#' || ('0' <= #[trigger] h[i] <= '9') || (
    'a' <= h[i] <= 'f') by {}
    assert forall|i: int| 0 <= i < 7 implies !is_ws(#[trigger] u[i]) && is_ascii_char(u[i])
        && ascii_lower(u[i]) == h[i] by {
        assert(u[i] == ascii_upper(h[i]));
    }
    lemma_trim_start(u, 0);
    assert(u.subrange(0, 7) =~= u);
    lemma_trim_end(u, 7);
    assert(trim(u) == u);
    assert(all_ascii(u));
    assert(ascii_lower_seq(u) =~= h);
    assert(lowercase(trim(u)) == h);
}

/// Scene ids in the table rise from entry to entry.
spec fn scene_id_at(i: int) -> int {
    if i < 36 {
        i + 1
    } else {
        40
    }
}

proof fn lemma_scene_ids(i: int)
    requires
        0 <= i < spec_scenes().len(),
    ensures
        spec_scenes()[i].0 == scene_id_at(i),
{
    let t = spec_scenes();
    assert(t.len() == 37);
        if i == 0 {
            assert(t[0].0 == 1u32);
        } else if i == 1 {
            assert(t[1].0 == 2u32);
        } else if i == 2 {
            assert(t[2].0 == 3u32);
        } else if i == 3 {
            assert(t[3].0 == 4u32);
        } else if i == 4 {
            assert(t[4].0 == 5u32);
        } else if i == 5 {
            assert(t[5].0 == 6u32);
        } else if i == 6 {
            assert(t[6].0 == 7u32);
        } else if i == 7 {
            assert(t[7].0 == 8u32);
        } else if i == 8 {
            assert(t[8].0 == 9u32);
        } else if i == 9 {
            assert(t[9].0 == 10u32);
        } else if i == 10 {
            assert(t[10].0 == 11u32);
        } else if i == 11 {
            assert(t[11].0 == 12u32);
        } else if i == 12 {
            assert(t[12].0 == 13u32);
        } else if i == 13 {
            assert(t[13].0 == 14u32);
        } else if i == 14 {
            assert(t[14].0 == 15u32);
        } else if i == 15 {
            assert(t[15].0 == 16u32);
        } else if i == 16 {
            assert(t[16].0 == 17u32);
        } else if i == 17 {
            assert(t[17].0 == 18u32);
        } else if i == 18 {
            assert(t[18].0 == 19u32);
        } else if i == 19 {
            assert(t[19].0 == 20u32);
        } else if i == 20 {
            assert(t[20].0 == 21u32);
        } else if i == 21 {
            assert(t[21].0 == 22u32);
        } else if i == 22 {
            assert(t[22].0 == 23u32);
        } else if i == 23 {
            assert(t[23].0 == 24u32);
        } else if i == 24 {
            assert(t[24].0 == 25u32);
        } else if i == 25 {
            assert(t[25].0 == 26u32);
        } else if i == 26 {
            assert(t[26].0 == 27u32);
        } else if i == 27 {
            assert(t[27].0 == 28u32);
        } else if i == 28 {
            assert(t[28].0 == 29u32);
        } else if i == 29 {
            assert(t[29].0 == 30u32);
        } else if i == 30 {
            assert(t[30].0 == 31u32);
        } else if i == 31 {
            assert(t[31].0 == 32u32);
        } else if i == 32 {
            assert(t[32].0 == 33u32);
        } else if i == 33 {
            assert(t[33].0 == 34u32);
        } else if i == 34 {
            assert(t[34].0 == 35u32);
        } else if i == 35 {
            assert(t[35].0 == 36u32);
        } else if i == 36 {
            assert(t[36].0 == 40u32);
        }
}

/// The entry a key finds is in the table.
proof fn lemma_scene_by_key_member(t: Seq<(u32, Seq<char>)>, key: Seq<char>)
    requires
        scene_by_key(t, key) is Some,
    ensures
        exists|i: int| 0 <= i < t.len() && t[i] == scene_by_key(t, key)->0,
    decreases t.len(),
{
    if name_key(t[0].1) != key {
        lemma_scene_by_key_member(t.drop_first(), key);
        let i = choose|i: int|
            0 <= i < t.drop_first().len() && t.drop_first()[i] == scene_by_key(t.drop_first(), key)->0;
        assert(t[i + 1] == t.drop_first()[i]);
    } else {
        assert(t[0] == scene_by_key(t, key)->0);
    }
}

/// Looking up an entry's id in a table of distinct ids finds that entry.
proof fn lemma_scene_lookup_entry(t: Seq<(u32, Seq<char>)>, i: int)
    requires
        0 <= i < t.len(),
        forall|a: int, b: int| 0 <= a < b < t.len() ==> (#[trigger] t[a]).0 != (#[trigger] t[b]).0,
    ensures
        scene_lookup(t, t[i].0) == Some(t[i].1),
    decreases t.len(),
{
    if i > 0 {
        let d = t.drop_first();
        assert forall|a: int, b: int| 0 <= a < b < d.len() implies (#[trigger] d[a]).0 != (
        #[trigger] d[b]).0 by {
            assert(d[a] == t[a + 1] && d[b] == t[b + 1]);
        }
        assert(t[0].0 != t[i].0);
        assert(d[i - 1] == t[i]);
        lemma_scene_lookup_entry(d, i - 1);
    }
}

/// Whatever `parse_scene` accepts, by id or by name, is a listed scene under
/// its own id: `get_scene_name` gives back the name it returned.
pub proof fn lemma_parsed_scene_is_listed(value: Seq<char>)
    ensures
        spec_parse_scene(value) matches Ok((id, n)) ==> scene_name_of(id) == Some(n),
{
    let t = spec_scenes();
    let val = trim(value);
    if val.len() > 0 && parse_unsigned(val, 0xffff_ffff) is None {
        let key = name_key(val);
        if scene_by_key(t, key) is Some {
            lemma_scene_by_key_member(t, key);
            let i = choose|i: int| 0 <= i < t.len() && t[i] == scene_by_key(t, key)->0;
            assert forall|a: int, b: int| 0 <= a < b < t.len() implies (#[trigger] t[a]).0 != (
            #[trigger] t[b]).0 by {
                lemma_scene_ids(a);
                lemma_scene_ids(b);
            }
            lemma_scene_lookup_entry(t, i);
        }
    }
}

/// A short fingerprint of a name key: its length, first and last character.
spec fn key_feature(k: Seq<char>) -> int {
    if k.len() == 0 {
        0
    } else {
        k.len() * 65536 + (k[0] as int) * 256 + (k.last() as int)
    }
}

/// The fingerprint of the key of table entry `i`.
spec fn feature_at(i: int) -> int {
    if i == 0 {
        356206
    } else if i == 1 {
        488037
    } else if i == 2 {
        422772
    } else if i == 3 {
        356473
    } else if i == 4 {
        616037
    } else if i == 5 {
        287609
    } else if i == 6 {
        419444
    } else if i == 7 {
        815219
    } else if i == 8 {
        423792
    } else if i == 9 {
        483941
    } else if i == 10 {
        620389
    } else if i == 11 {
        550004
    } else if i == 12 {
        615269
    } else if i == 13 {
        683636
    } else if i == 14 {
        353907
    } else if i == 15 {
        356984
    } else if i == 16 {
        685171
    } else if i == 17 {
        423013
    } else if i == 18 {
        749672
    } else if i == 19 {
        422759
    } else if i == 20 {
        422770
    } else if i == 21 {
        288364
    } else if i == 22 {
        549989
    } else if i == 23 {
        420453
    } else if i == 24 {
        421231
    } else if i == 25 {
        287586
    } else if i == 26 {
        615283
    } else if i == 27 {
        616558
    } else if i == 28 {
        746356
    } else if i == 29 {
        747365
    } else if i == 30 {
        356453
    } else if i == 31 {
        619371
    } else if i == 32 {
        418921
    } else if i == 33 {
        358245
    } else if i == 34 {
        352621
    } else if i == 35 {
        553849
    } else {
        615533
    }
}

/// What the round trip of a scene name needs of it: printable ASCII with a
/// capital first letter and no separator at either end, and its key's
/// fingerprint.
spec fn scene_name_ok(n: Seq<char>, f: int) -> bool {
    &&& n.len() > 0
    &&& all_ascii(n)
    &&& 'A' <= n[0] <= 'Z'
    &&& !is_ws(n.last())
    &&& key_feature(name_key(n)) == f
}

proof fn lemma_scene_name_0()
    ensures
        scene_name_ok(spec_scenes()[0].1, 356206),
{
    reveal_strlit("Ocean");
    reveal_strlit("ocean");
    let s = "Ocean"@;
    assert(spec_scenes()[0].1 == s);
    assert forall|j: int| 0 <= j < s.len() implies is_ascii_char(#[trigger] s[j]) by {}
    reveal_with_fuel(strip_separators, 14);
    assert(name_key(s) =~= "ocean"@);
}

proof fn lemma_scene_name_1()
    ensures
        scene_name_ok(spec_scenes()[1].1, 488037),
{
    reveal_strlit("Romance");
    reveal_strlit("romance");
    let s = "Romance"@;
    assert(spec_scenes()[1].1 == s);
    assert forall|j: int| 0 <= j < s.len() implies is_ascii_char(#[trigger] s[j]) by {}
    reveal_with_fuel(strip_separators, 14);
    assert(name_key(s) =~= "romance"@);
}

proof fn lemma_scene_name_2()
    ensures
        scene_name_ok(spec_scenes()[2].1, 422772),
{
    reveal_strlit("Sunset");
    reveal_strlit("sunset");
    let s = "Sunset"@;
    assert(spec_scenes()[2].1 == s);
    assert forall|j: int| 0 <= j < s.len() implies is_ascii_char(#[trigger] s[j]) by {}
    reveal_with_fuel(strip_separators, 14);
    assert(name_key(s) =~= "sunset"@);
}

proof fn lemma_scene_name_3()
    ensures
        scene_name_ok(spec_scenes()[3].1, 356473),
{
    reveal_strlit("Party");
    reveal_strlit("party");
    let s = "Party"@;
    assert(spec_scenes()[3].1 == s);
    assert forall|j: int| 0 <= j < s.len() implies is_ascii_char(#[trigger] s[j]) by {}
    reveal_with_fuel(strip_separators, 14);
    assert(name_key(s) =~= "party"@);
}

proof fn lemma_scene_name_4()
    ensures
        scene_name_ok(spec_scenes()[4].1, 616037),
{
    reveal_strlit("Fireplace");
    reveal_strlit("fireplace");
    let s = "Fireplace"@;
    assert(spec_scenes()[4].1 == s);
    assert forall|j: int| 0 <= j < s.len() implies is_ascii_char(#[trigger] s[j]) by {}
    reveal_with_fuel(strip_separators, 14);
    assert(name_key(s) =~= "fireplace"@);
}

proof fn lemma_scene_name_5()
    ensures
        scene_name_ok(spec_scenes()[5].1, 287609),
{
    reveal_strlit("Cozy");
    reveal_strlit("cozy");
    let s = "Cozy"@;
    assert(spec_scenes()[5].1 == s);
    assert forall|j: int| 0 <= j < s.len() implies is_ascii_char(#[trigger] s[j]) by {}
    reveal_with_fuel(strip_separators, 14);
    assert(name_key(s) =~= "cozy"@);
}

proof fn lemma_scene_name_6()
    ensures
        scene_name_ok(spec_scenes()[6].1, 419444),
{
    reveal_strlit("Forest");
    reveal_strlit("forest");
    let s = "Forest"@;
    assert(spec_scenes()[6].1 == s);
    assert forall|j: int| 0 <= j < s.len() implies is_ascii_char(#[trigger] s[j]) by {}
    reveal_with_fuel(strip_separators, 14);
    assert(name_key(s) =~= "forest"@);
}

proof fn lemma_scene_name_7()
    ensures
        scene_name_ok(spec_scenes()[7].1, 815219),
{
    reveal_strlit("Pastel colors");
    reveal_strlit("pastelcolors");
    let s = "Pastel colors"@;
    assert(spec_scenes()[7].1 == s);
    assert forall|j: int| 0 <= j < s.len() implies is_ascii_char(#[trigger] s[j]) by {}
    reveal_with_fuel(strip_separators, 14);
    assert(name_key(s) =~= "pastelcolors"@);
}

proof fn lemma_scene_name_8()
    ensures
        scene_name_ok(spec_scenes()[8].1, 423792),
{
    reveal_strlit("Wake-up");
    reveal_strlit("wakeup");
    let s = "Wake-up"@;
    assert(spec_scenes()[8].1 == s);
    assert forall|j: int| 0 <= j < s.len() implies is_ascii_char(#[trigger] s[j]) by {}
    reveal_with_fuel(strip_separators, 14);
    assert(name_key(s) =~= "wakeup"@);
}

proof fn lemma_scene_name_9()
    ensures
        scene_name_ok(spec_scenes()[9].1, 483941),
{
    reveal_strlit("Bedtime");
    reveal_strlit("bedtime");
    let s = "Bedtime"@;
    assert(spec_scenes()[9].1 == s);
    assert forall|j: int| 0 <= j < s.len() implies is_ascii_char(#[trigger] s[j]) by {}
    reveal_with_fuel(strip_separators, 14);
    assert(name_key(s) =~= "bedtime"@);
}

proof fn lemma_scene_name_10()
    ensures
        scene_name_ok(spec_scenes()[10].1, 620389),
{
    reveal_strlit("Warm white");
    reveal_strlit("warmwhite");
    let s = "Warm white"@;
    assert(spec_scenes()[10].1 == s);
    assert forall|j: int| 0 <= j < s.len() implies is_ascii_char(#[trigger] s[j]) by {}
    reveal_with_fuel(strip_separators, 14);
    assert(name_key(s) =~= "warmwhite"@);
}

proof fn lemma_scene_name_11()
    ensures
        scene_name_ok(spec_scenes()[11].1, 550004),
{
    reveal_strlit("Daylight");
    reveal_strlit("daylight");
    let s = "Daylight"@;
    assert(spec_scenes()[11].1 == s);
    assert forall|j: int| 0 <= j < s.len() implies is_ascii_char(#[trigger] s[j]) by {}
    reveal_with_fuel(strip_separators, 14);
    assert(name_key(s) =~= "daylight"@);
}

proof fn lemma_scene_name_12()
    ensures
        scene_name_ok(spec_scenes()[12].1, 615269),
{
    reveal_strlit("Cool white");
    reveal_strlit("coolwhite");
    let s = "Cool white"@;
    assert(spec_scenes()[12].1 == s);
    assert forall|j: int| 0 <= j < s.len() implies is_ascii_char(#[trigger] s[j]) by {}
    reveal_with_fuel(strip_separators, 14);
    assert(name_key(s) =~= "coolwhite"@);
}

proof fn lemma_scene_name_13()
    ensures
        scene_name_ok(spec_scenes()[13].1, 683636),
{
    reveal_strlit("Night light");
    reveal_strlit("nightlight");
    let s = "Night light"@;
    assert(spec_scenes()[13].1 == s);
    assert forall|j: int| 0 <= j < s.len() implies is_ascii_char(#[trigger] s[j]) by {}
    reveal_with_fuel(strip_separators, 14);
    assert(name_key(s) =~= "nightlight"@);
}

proof fn lemma_scene_name_14()
    ensures
        scene_name_ok(spec_scenes()[14].1, 353907),
{
    reveal_strlit("Focus");
    reveal_strlit("focus");
    let s = "Focus"@;
    assert(spec_scenes()[14].1 == s);
    assert forall|j: int| 0 <= j < s.len() implies is_ascii_char(#[trigger] s[j]) by {}
    reveal_with_fuel(strip_separators, 14);
    assert(name_key(s) =~= "focus"@);
}

proof fn lemma_scene_name_15()
    ensures
        scene_name_ok(spec_scenes()[15].1, 356984),
{
    reveal_strlit("Relax");
    reveal_strlit("relax");
    let s = "Relax"@;
    assert(spec_scenes()[15].1 == s);
    assert forall|j: int| 0 <= j < s.len() implies is_ascii_char(#[trigger] s[j]) by {}
    reveal_with_fuel(strip_separators, 14);
    assert(name_key(s) =~= "relax"@);
}

proof fn lemma_scene_name_16()
    ensures
        scene_name_ok(spec_scenes()[16].1, 685171),
{
    reveal_strlit("True colors");
    reveal_strlit("truecolors");
    let s = "True colors"@;
    assert(spec_scenes()[16].1 == s);
    assert forall|j: int| 0 <= j < s.len() implies is_ascii_char(#[trigger] s[j]) by {}
    reveal_with_fuel(strip_separators, 14);
    assert(name_key(s) =~= "truecolors"@);
}

proof fn lemma_scene_name_17()
    ensures
        scene_name_ok(spec_scenes()[17].1, 423013),
{
    reveal_strlit("TV time");
    reveal_strlit("tvtime");
    let s = "TV time"@;
    assert(spec_scenes()[17].1 == s);
    assert forall|j: int| 0 <= j < s.len() implies is_ascii_char(#[trigger] s[j]) by {}
    reveal_with_fuel(strip_separators, 14);
    assert(name_key(s) =~= "tvtime"@);
}

proof fn lemma_scene_name_18()
    ensures
        scene_name_ok(spec_scenes()[18].1, 749672),
{
    reveal_strlit("Plantgrowth");
    reveal_strlit("plantgrowth");
    let s = "Plantgrowth"@;
    assert(spec_scenes()[18].1 == s);
    assert forall|j: int| 0 <= j < s.len() implies is_ascii_char(#[trigger] s[j]) by {}
    reveal_with_fuel(strip_separators, 14);
    assert(name_key(s) =~= "plantgrowth"@);
}

proof fn lemma_scene_name_19()
    ensures
        scene_name_ok(spec_scenes()[19].1, 422759),
{
    reveal_strlit("Spring");
    reveal_strlit("spring");
    let s = "Spring"@;
    assert(spec_scenes()[19].1 == s);
    assert forall|j: int| 0 <= j < s.len() implies is_ascii_char(#[trigger] s[j]) by {}
    reveal_with_fuel(strip_separators, 14);
    assert(name_key(s) =~= "spring"@);
}

proof fn lemma_scene_name_20()
    ensures
        scene_name_ok(spec_scenes()[20].1, 422770),
{
    reveal_strlit("Summer");
    reveal_strlit("summer");
    let s = "Summer"@;
    assert(spec_scenes()[20].1 == s);
    assert forall|j: int| 0 <= j < s.len() implies is_ascii_char(#[trigger] s[j]) by {}
    reveal_with_fuel(strip_separators, 14);
    assert(name_key(s) =~= "summer"@);
}

proof fn lemma_scene_name_21()
    ensures
        scene_name_ok(spec_scenes()[21].1, 288364),
{
    reveal_strlit("Fall");
    reveal_strlit("fall");
    let s = "Fall"@;
    assert(spec_scenes()[21].1 == s);
    assert forall|j: int| 0 <= j < s.len() implies is_ascii_char(#[trigger] s[j]) by {}
    reveal_with_fuel(strip_separators, 14);
    assert(name_key(s) =~= "fall"@);
}

proof fn lemma_scene_name_22()
    ensures
        scene_name_ok(spec_scenes()[22].1, 549989),
{
    reveal_strlit("Deep dive");
    reveal_strlit("deepdive");
    let s = "Deep dive"@;
    assert(spec_scenes()[22].1 == s);
    assert forall|j: int| 0 <= j < s.len() implies is_ascii_char(#[trigger] s[j]) by {}
    reveal_with_fuel(strip_separators, 14);
    assert(name_key(s) =~= "deepdive"@);
}

proof fn lemma_scene_name_23()
    ensures
        scene_name_ok(spec_scenes()[23].1, 420453),
{
    reveal_strlit("Jungle");
    reveal_strlit("jungle");
    let s = "Jungle"@;
    assert(spec_scenes()[23].1 == s);
    assert forall|j: int| 0 <= j < s.len() implies is_ascii_char(#[trigger] s[j]) by {}
    reveal_with_fuel(strip_separators, 14);
    assert(name_key(s) =~= "jungle"@);
}

proof fn lemma_scene_name_24()
    ensures
        scene_name_ok(spec_scenes()[24].1, 421231),
{
    reveal_strlit("Mojito");
    reveal_strlit("mojito");
    let s = "Mojito"@;
    assert(spec_scenes()[24].1 == s);
    assert forall|j: int| 0 <= j < s.len() implies is_ascii_char(#[trigger] s[j]) by {}
    reveal_with_fuel(strip_separators, 14);
    assert(name_key(s) =~= "mojito"@);
}

proof fn lemma_scene_name_25()
    ensures
        scene_name_ok(spec_scenes()[25].1, 287586),
{
    reveal_strlit("Club");
    reveal_strlit("club");
    let s = "Club"@;
    assert(spec_scenes()[25].1 == s);
    assert forall|j: int| 0 <= j < s.len() implies is_ascii_char(#[trigger] s[j]) by {}
    reveal_with_fuel(strip_separators, 14);
    assert(name_key(s) =~= "club"@);
}

proof fn lemma_scene_name_26()
    ensures
        scene_name_ok(spec_scenes()[26].1, 615283),
{
    reveal_strlit("Christmas");
    reveal_strlit("christmas");
    let s = "Christmas"@;
    assert(spec_scenes()[26].1 == s);
    assert forall|j: int| 0 <= j < s.len() implies is_ascii_char(#[trigger] s[j]) by {}
    reveal_with_fuel(strip_separators, 14);
    assert(name_key(s) =~= "christmas"@);
}

proof fn lemma_scene_name_27()
    ensures
        scene_name_ok(spec_scenes()[27].1, 616558),
{
    reveal_strlit("Halloween");
    reveal_strlit("halloween");
    let s = "Halloween"@;
    assert(spec_scenes()[27].1 == s);
    assert forall|j: int| 0 <= j < s.len() implies is_ascii_char(#[trigger] s[j]) by {}
    reveal_with_fuel(strip_separators, 14);
    assert(name_key(s) =~= "halloween"@);
}

proof fn lemma_scene_name_28()
    ensures
        scene_name_ok(spec_scenes()[28].1, 746356),
{
    reveal_strlit("Candlelight");
    reveal_strlit("candlelight");
    let s = "Candlelight"@;
    assert(spec_scenes()[28].1 == s);
    assert forall|j: int| 0 <= j < s.len() implies is_ascii_char(#[trigger] s[j]) by {}
    reveal_with_fuel(strip_separators, 14);
    assert(name_key(s) =~= "candlelight"@);
}

proof fn lemma_scene_name_29()
    ensures
        scene_name_ok(spec_scenes()[29].1, 747365),
{
    reveal_strlit("Golden white");
    reveal_strlit("goldenwhite");
    let s = "Golden white"@;
    assert(spec_scenes()[29].1 == s);
    assert forall|j: int| 0 <= j < s.len() implies is_ascii_char(#[trigger] s[j]) by {}
    reveal_with_fuel(strip_separators, 14);
    assert(name_key(s) =~= "goldenwhite"@);
}

proof fn lemma_scene_name_30()
    ensures
        scene_name_ok(spec_scenes()[30].1, 356453),
{
    reveal_strlit("Pulse");
    reveal_strlit("pulse");
    let s = "Pulse"@;
    assert(spec_scenes()[30].1 == s);
    assert forall|j: int| 0 <= j < s.len() implies is_ascii_char(#[trigger] s[j]) by {}
    reveal_with_fuel(strip_separators, 14);
    assert(name_key(s) =~= "pulse"@);
}

proof fn lemma_scene_name_31()
    ensures
        scene_name_ok(spec_scenes()[31].1, 619371),
{
    reveal_strlit("Steampunk");
    reveal_strlit("steampunk");
    let s = "Steampunk"@;
    assert(spec_scenes()[31].1 == s);
    assert forall|j: int| 0 <= j < s.len() implies is_ascii_char(#[trigger] s[j]) by {}
    reveal_with_fuel(strip_separators, 14);
    assert(name_key(s) =~= "steampunk"@);
}

proof fn lemma_scene_name_32()
    ensures
        scene_name_ok(spec_scenes()[32].1, 418921),
{
    reveal_strlit("Diwali");
    reveal_strlit("diwali");
    let s = "Diwali"@;
    assert(spec_scenes()[32].1 == s);
    assert forall|j: int| 0 <= j < s.len() implies is_ascii_char(#[trigger] s[j]) by {}
    reveal_with_fuel(strip_separators, 14);
    assert(name_key(s) =~= "diwali"@);
}

proof fn lemma_scene_name_33()
    ensures
        scene_name_ok(spec_scenes()[33].1, 358245),
{
    reveal_strlit("White");
    reveal_strlit("white");
    let s = "White"@;
    assert(spec_scenes()[33].1 == s);
    assert forall|j: int| 0 <= j < s.len() implies is_ascii_char(#[trigger] s[j]) by {}
    reveal_with_fuel(strip_separators, 14);
    assert(name_key(s) =~= "white"@);
}

proof fn lemma_scene_name_34()
    ensures
        scene_name_ok(spec_scenes()[34].1, 352621),
{
    reveal_strlit("Alarm");
    reveal_strlit("alarm");
    let s = "Alarm"@;
    assert(spec_scenes()[34].1 == s);
    assert forall|j: int| 0 <= j < s.len() implies is_ascii_char(#[trigger] s[j]) by {}
    reveal_with_fuel(strip_separators, 14);
    assert(name_key(s) =~= "alarm"@);
}

proof fn lemma_scene_name_35()
    ensures
        scene_name_ok(spec_scenes()[35].1, 553849),
{
    reveal_strlit("Snowy sky");
    reveal_strlit("snowysky");
    let s = "Snowy sky"@;
    assert(spec_scenes()[35].1 == s);
    assert forall|j: int| 0 <= j < s.len() implies is_ascii_char(#[trigger] s[j]) by {}
    reveal_with_fuel(strip_separators, 14);
    assert(name_key(s) =~= "snowysky"@);
}

proof fn lemma_scene_name_36()
    ensures
        scene_name_ok(spec_scenes()[36].1, 615533),
{
    reveal_strlit("Dim-to-warm");
    reveal_strlit("dimtowarm");
    let s = "Dim-to-warm"@;
    assert(spec_scenes()[36].1 == s);
    assert forall|j: int| 0 <= j < s.len() implies is_ascii_char(#[trigger] s[j]) by {}
    reveal_with_fuel(strip_separators, 14);
    assert(name_key(s) =~= "dimtowarm"@);
}

/// Every table entry's name meets `scene_name_ok` with its fingerprint.
proof fn lemma_scene_name(i: int)
    requires
        0 <= i < spec_scenes().len(),
    ensures
        scene_name_ok(spec_scenes()[i].1, feature_at(i)),
{
    assert(spec_scenes().len() == 37);
    if i == 0 {
        lemma_scene_name_0();
    } else if i == 1 {
        lemma_scene_name_1();
    } else if i == 2 {
        lemma_scene_name_2();
    } else if i == 3 {
        lemma_scene_name_3();
    } else if i == 4 {
        lemma_scene_name_4();
    } else if i == 5 {
        lemma_scene_name_5();
    } else if i == 6 {
        lemma_scene_name_6();
    } else if i == 7 {
        lemma_scene_name_7();
    } else if i == 8 {
        lemma_scene_name_8();
    } else if i == 9 {
        lemma_scene_name_9();
    } else if i == 10 {
        lemma_scene_name_10();
    } else if i == 11 {
        lemma_scene_name_11();
    } else if i == 12 {
        lemma_scene_name_12();
    } else if i == 13 {
        lemma_scene_name_13();
    } else if i == 14 {
        lemma_scene_name_14();
    } else if i == 15 {
        lemma_scene_name_15();
    } else if i == 16 {
        lemma_scene_name_16();
    } else if i == 17 {
        lemma_scene_name_17();
    } else if i == 18 {
        lemma_scene_name_18();
    } else if i == 19 {
        lemma_scene_name_19();
    } else if i == 20 {
        lemma_scene_name_20();
    } else if i == 21 {
        lemma_scene_name_21();
    } else if i == 22 {
        lemma_scene_name_22();
    } else if i == 23 {
        lemma_scene_name_23();
    } else if i == 24 {
        lemma_scene_name_24();
    } else if i == 25 {
        lemma_scene_name_25();
    } else if i == 26 {
        lemma_scene_name_26();
    } else if i == 27 {
        lemma_scene_name_27();
    } else if i == 28 {
        lemma_scene_name_28();
    } else if i == 29 {
        lemma_scene_name_29();
    } else if i == 30 {
        lemma_scene_name_30();
    } else if i == 31 {
        lemma_scene_name_31();
    } else if i == 32 {
        lemma_scene_name_32();
    } else if i == 33 {
        lemma_scene_name_33();
    } else if i == 34 {
        lemma_scene_name_34();
    } else if i == 35 {
        lemma_scene_name_35();
    } else if i == 36 {
        lemma_scene_name_36();
    }
}

/// Fingerprints of different entries differ.
proof fn lemma_features_differ(a: int, b: int)
    requires
        0 <= a < b < 37,
    ensures
        feature_at(a) != feature_at(b),
{
    if a == 0 {
    } else if a == 1 {
    } else if a == 2 {
    } else if a == 3 {
    } else if a == 4 {
    } else if a == 5 {
    } else if a == 6 {
    } else if a == 7 {
    } else if a == 8 {
    } else if a == 9 {
    } else if a == 10 {
    } else if a == 11 {
    } else if a == 12 {
    } else if a == 13 {
    } else if a == 14 {
    } else if a == 15 {
    } else if a == 16 {
    } else if a == 17 {
    } else if a == 18 {
    } else if a == 19 {
    } else if a == 20 {
    } else if a == 21 {
    } else if a == 22 {
    } else if a == 23 {
    } else if a == 24 {
    } else if a == 25 {
    } else if a == 26 {
    } else if a == 27 {
    } else if a == 28 {
    } else if a == 29 {
    } else if a == 30 {
    } else if a == 31 {
    } else if a == 32 {
    } else if a == 33 {
    } else if a == 34 {
    } else if a == 35 {
    } else if a == 36 {
    }
}
/// The entry a key finds when no earlier entry shares its key.
proof fn lemma_scene_by_key_at(t: Seq<(u32, Seq<char>)>, key: Seq<char>, i: int)
    requires
        0 <= i < t.len(),
        name_key(t[i].1) == key,
        forall|j: int| 0 <= j < i ==> name_key(#[trigger] t[j].1) != key,
    ensures
        scene_by_key(t, key) == Some(t[i]),
    decreases i,
{
    if i > 0 {
        let d = t.drop_first();
        assert(name_key(t[0].1) != key);
        assert forall|j: int| 0 <= j < i - 1 implies name_key(#[trigger] d[j].1) != key by {
            assert(d[j] == t[j + 1]);
        }
        assert(d[i - 1] == t[i]);
        lemma_scene_by_key_at(d, key, i - 1);
    }
}

/// Upper-casing ASCII text leaves its lowercase form unchanged.
proof fn lemma_upper_then_lower(n: Seq<char>)
    requires
        all_ascii(n),
    ensures
        lowercase(ascii_upper_seq(n)) == lowercase(n),
{
    let u = ascii_upper_seq(n);
    assert forall|j: int| 0 <= j < u.len() implies is_ascii_char(#[trigger] u[j]) by {
        assert(u[j] == ascii_upper(n[j]));
    }
    assert forall|j: int| 0 <= j < n.len() implies ascii_lower_seq(u)[j] == ascii_lower_seq(n)[j] by {
        assert(u[j] == ascii_upper(n[j]));
    }
    assert(ascii_lower_seq(u) =~= ascii_lower_seq(n));
}

/// A value that starts with a capital, ends in no whitespace, and has the
/// key of entry `i` and of no earlier entry parses to entry `i`.
proof fn lemma_named_value_parses(v: Seq<char>, i: int)
    requires
        0 <= i < spec_scenes().len(),
        v.len() > 0,
        'A' <= v[0] <= 'Z',
        !is_ws(v.last()),
        name_key(v) == name_key(spec_scenes()[i].1),
        forall|j: int| 0 <= j < i ==> name_key(#[trigger] spec_scenes()[j].1) != name_key(v),
    ensures
        spec_parse_scene(v) == Ok::<(u32, Seq<char>), Seq<char>>(spec_scenes()[i]),
{
    lemma_trim_start(v, 0);
    assert(v.subrange(0, v.len() as int) =~= v);
    lemma_trim_end(v, v.len() as int);
    assert(trim(v) == v);
    assert(!is_digit(v[0]) && v[0] != '+');
    assert(parse_unsigned(v, 0xffff_ffff) is None);
    lemma_scene_by_key_at(spec_scenes(), name_key(v), i);
}

/// Every listed scene's name parses to that scene, as the table writes it
/// and in capitals.
pub proof fn lemma_scene_names_parse(i: int)
    requires
        0 <= i < spec_scenes().len(),
    ensures
        spec_parse_scene(spec_scenes()[i].1) == Ok::<(u32, Seq<char>), Seq<char>>(spec_scenes()[i]),
        spec_parse_scene(ascii_upper_seq(spec_scenes()[i].1)) == Ok::<(u32, Seq<char>), Seq<char>>(
            spec_scenes()[i],
        ),
{
    let t = spec_scenes();
    let n = t[i].1;
    lemma_scene_name(i);
    assert forall|j: int| 0 <= j < i implies name_key(#[trigger] t[j].1) != name_key(n) by {
        lemma_scene_name(j);
        lemma_features_differ(j, i);
    }
    lemma_named_value_parses(n, i);
    lemma_upper_then_lower(n);
    let u = ascii_upper_seq(n);
    assert(u[0] == ascii_upper(n[0]));
    assert(u.last() == ascii_upper(n.last()));
    assert(name_key(u) == name_key(n));
    lemma_named_value_parses(u, i);
}

/// Typing a scene's decimal id selects that scene; an id the table does not
/// list is reported as unknown.
pub proof fn lemma_scene_id_parses(id: u32)
    ensures
        spec_parse_scene(decimal(id as nat)) == (match scene_name_of(id) {
            Some(n) => Ok::<(u32, Seq<char>), Seq<char>>((id, n)),
            None => Err("Unknown WiZ scene ID: "@ + decimal(id as nat)),
        }),
{
    lemma_decimal_parses(id as nat, 0xffff_ffff);
}


/// The reading of a percentage matters only to a value that is one.
pub proof fn lemma_reading_only_for_percentages(value: Seq<char>, p: Percent, q: Percent)
    requires
        spec_percent_text(value) is None,
    ensures
        spec_parse_brightness(value, p) == spec_parse_brightness(value, q),
{
}

/// A byte written in decimal parses as that brightness.
pub proof fn lemma_byte_brightness_parses(b: u8)
    ensures
        forall|p: Percent| spec_parse_brightness(decimal(b as nat), p) == Ok::<u8, Seq<char>>(b),
{
    let d = decimal(b as nat);
    lemma_decimal_parses(b as nat, 0x7fff_ffff);
    lemma_decimal_digits(b as nat);
    assert(is_digit(d[0]) && is_digit(d.last()));
}

/// A temperature in the accepted range, written in decimal with or without a
/// `K` suffix, parses as that temperature.
pub proof fn lemma_kelvin_parses(k: u16)
    requires
        1000 <= k <= 10000,
    ensures
        spec_parse_kelvin(decimal(k as nat)) == Ok::<u16, Seq<char>>(k),
        spec_parse_kelvin(decimal(k as nat) + seq!['K']) == Ok::<u16, Seq<char>>(k),
{
    let d = decimal(k as nat);
    lemma_decimal_parses(k as nat, 0xffff_ffff);
    lemma_decimal_digits(k as nat);
    assert(is_digit(d[0]) && is_digit(d.last()));
    lemma_trim_end_k(d, d.len() as int);
    assert(d.subrange(0, d.len() as int) =~= d);
    let v = d + seq!['K'];
    assert(v[0] == d[0]);
    assert(v.last() == 'K');
    lemma_trim_start(v, 0);
    assert(v.subrange(0, v.len() as int) =~= v);
    lemma_trim_end(v, v.len() as int);
    assert(v[v.len() - 2] == d.last());
    lemma_trim_end_k(v, d.len() as int);
    assert(v.subrange(0, d.len() as int) =~= d);
}


/// `R,G,B` written as three decimal bytes parses to that color.
pub proof fn lemma_rgb_triple_parses(r: u8, g: u8, b: u8)
    ensures
        spec_parse_color(decimal(r as nat) + seq![','] + decimal(g as nat) + seq![','] + decimal(
            b as nat,
        )) == Ok::<(u8, u8, u8), Seq<char>>((r, g, b)),
{
    let a = decimal(r as nat);
    let m = decimal(g as nat);
    let c = decimal(b as nat);
    let t = a + seq![','] + m + seq![','] + c;
    lemma_decimal_digits(r as nat);
    lemma_decimal_digits(g as nat);
    lemma_decimal_digits(b as nat);
    lemma_decimal_parses(r as nat, 255);
    lemma_decimal_parses(g as nat, 255);
    lemma_decimal_parses(b as nat, 255);
    // Digits and commas only.
    assert forall|i: int| 0 <= i < t.len() implies is_digit(#[trigger] t[i]) || t[i] == ',' by {
        if i < a.len() {
            assert(t[i] == a[i]);
        } else if i == a.len() {
        } else if i < a.len() + 1 + m.len() {
            assert(t[i] == m[i - a.len() - 1]);
        } else if i == a.len() + 1 + m.len() {
        } else {
            assert(t[i] == c[i - a.len() - 2 - m.len()]);
        }
    }
    assert(t[0] == a[0]);
    assert(t.last() == c.last());
    assert(is_digit(c[c.len() - 1]));
    lemma_trim_start(t, 0);
    assert(t.subrange(0, t.len() as int) =~= t);
    lemma_trim_end(t, t.len() as int);
    assert(all_ascii(t));
    assert(ascii_lower_seq(t) =~= t);
    assert(lowercase(trim(t)) == t);
    lemma_not_a_name(t);
    assert forall|i: int| 0 <= i < t.len() implies !is_ws(#[trigger] t[i]) && t[i] != '-' && t[i]
        != '_' by {
        assert(is_digit(t[i]) || t[i] == ',');
    }
    lemma_no_separators(t);
    assert(t[a.len() as int] == ',');
    assert(!all_hex(t));
    // The three pieces.
    assert forall|i: int| 0 <= i < a.len() implies #[trigger] a[i] != ',' by {
        assert(is_digit(a[i]));
    }
    assert forall|i: int| 0 <= i < m.len() implies #[trigger] m[i] != ',' by {
        assert(is_digit(m[i]));
    }
    assert forall|i: int| 0 <= i < c.len() implies #[trigger] c[i] != ',' by {
        assert(is_digit(c[i]));
    }
    let e = Seq::<char>::empty();
    assert(split_fold(e, ',') == (Seq::<Seq<char>>::empty(), e));
    lemma_split_fold_plain(e, a, ',');
    assert(e + a =~= a);
    lemma_split_fold_sep(a, ',');
    lemma_split_fold_plain(a.push(','), m, ',');
    lemma_split_fold_sep(a.push(',') + m, ',');
    lemma_split_fold_plain((a.push(',') + m).push(','), c, ',');
    assert(((a.push(',') + m).push(',') + c) =~= t);
    assert(split(t, ',') =~= seq![a, m, c]);
}

} // verus!
