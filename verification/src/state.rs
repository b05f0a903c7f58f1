//! The persisted controller state: its defaults, bulb address validation and
//! the sanitising pass every loaded or saved state goes through.

use vstd::prelude::*;

use crate::colors::{
    default_preset_colors, hex_color, lemma_hex_color_parses, parse_color, rgb_to_hex,
    spec_default_presets, spec_parse_color,
};
use crate::text::{
    all_digits, ascii_lower_seq, chars_eq_ignore_ascii_case, chars_of, digits_value,
    is_ascii_digit, is_ws, lemma_trim_end, lemma_trim_start, parse_unsigned_chars, split,
    split_chars, split_fold, string_of, trim, trimmed,
};

verus! {

/// Bulb address used when none is configured.
pub open spec fn default_bulb_ip() -> Seq<char> {
    "192.168.0.102"@
}

/// The cached controller state (`~/.config/wizctl/state.json`).
#[derive(Debug, Clone)]
pub struct State {
    pub ip: String,
    pub power: bool,
    pub brightness: u8,
    pub rgb: [u8; 3],
    pub hex: String,
    pub kelvin: u16,
    pub scene_id: u32,
    pub mode: String,
    pub recent_colors: Vec<String>,
    pub restore_on_reconnect: bool,
}

/// Whether a textual `Result` matches a specified outcome.
pub open spec fn text_result_is(r: Result<String, String>, s: Result<Seq<char>, Seq<char>>) -> bool {
    match (r, s) {
        (Ok(a), Ok(b)) => a@ == b,
        (Err(m), Err(n)) => m@ == n,
        _ => false,
    }
}

/// The characters of each string in a list.
pub open spec fn views(v: Seq<String>) -> Seq<Seq<char>> {
    v.map_values(|c: String| c@)
}

// ---------------------------------------------------------------------------
// Bulb addresses
// ---------------------------------------------------------------------------

/// One dotted-quad component as `Ipv4Addr` reads it: one to three decimal
/// digits, no leading zero, at most 255.
pub open spec fn octet_ok(p: Seq<char>) -> bool {
    &&& 1 <= p.len() <= 3
    &&& all_digits(p)
    &&& !(p.len() > 1 && p[0] == '0')
    &&& digits_value(p) <= 255
}

/// The four octets of a dotted-quad IPv4 address.
pub open spec fn parse_ipv4(s: Seq<char>) -> Option<(u8, u8, u8, u8)> {
    let p = split(s, '.');
    if p.len() == 4 && octet_ok(p[0]) && octet_ok(p[1]) && octet_ok(p[2]) && octet_ok(p[3]) {
        Some(
            (
                digits_value(p[0]) as u8,
                digits_value(p[1]) as u8,
                digits_value(p[2]) as u8,
                digits_value(p[3]) as u8,
            ),
        )
    } else {
        None
    }
}

/// What `validate_ip` returns for `ip`: the trimmed address, unless it is
/// empty, not a dotted quad, multicast (224.0.0.0/4) or the global broadcast.
pub open spec fn spec_validate_ip(ip: Seq<char>) -> Result<Seq<char>, Seq<char>> {
    let val = trim(ip);
    if val.len() == 0 {
        Err("IP address cannot be empty"@)
    } else {
        match parse_ipv4(val) {
            None => Err("Invalid IP address format: '"@ + ip + "'"@),
            Some(o) => if 224 <= o.0 <= 239 {
                Err("Multicast IP addresses are not permitted: '"@ + ip + "'"@)
            } else if o.0 == 255 && o.1 == 255 && o.2 == 255 && o.3 == 255 {
                Err("Global broadcast IP address is not permitted: '"@ + ip + "'"@)
            } else {
                Ok(val)
            },
        }
    }
}

fn octet_value(p: &Vec<char>) -> (r: Option<u8>)
    ensures
        r is Some <==> octet_ok(p@),
        r is Some ==> r->0 == digits_value(p@),
{
    if p.len() < 1 || p.len() > 3 || !is_ascii_digit(p[0]) {
        return None;
    }
    if p.len() > 1 && p[0] == '0' {
        return None;
    }
    match parse_unsigned_chars(p, 255) {
        Some(v) => Some(v as u8),
        None => None,
    }
}

fn ipv4_octets(v: &Vec<char>) -> (r: Option<(u8, u8, u8, u8)>)
    ensures
        r == parse_ipv4(v@),
{
    let parts = split_chars(v, '.');
    let ghost ps = parts@.map_values(|p: Vec<char>| p@);
    if parts.len() != 4 {
        return None;
    }
    assert(ps[0] == parts@[0]@ && ps[1] == parts@[1]@ && ps[2] == parts@[2]@ && ps[3]
        == parts@[3]@);
    match (
        octet_value(&parts[0]),
        octet_value(&parts[1]),
        octet_value(&parts[2]),
        octet_value(&parts[3]),
    ) {
        (Some(a), Some(b), Some(c), Some(d)) => Some((a, b, c, d)),
        _ => None,
    }
}

fn quoted(head: &str, ip: &str) -> (s: String)
    ensures
        s@ == head@ + ip@ + "'"@,
{
    let mut s = String::from_str(head);
    s.append(ip);
    s.append("'");
    s
}

/// Checks a bulb address: a dotted-quad IPv4 address that is neither
/// multicast nor the global broadcast. Returns it trimmed.
pub fn validate_ip(ip: &str) -> (r: Result<String, String>)
    ensures
        text_result_is(r, spec_validate_ip(ip@)),
{
    let val = trimmed(ip);
    if val.len() == 0 {
        return Err(String::from_str("IP address cannot be empty"));
    }
    match ipv4_octets(&val) {
        None => Err(quoted("Invalid IP address format: '", ip)),
        Some((a, b, c, d)) => {
            if 224 <= a && a <= 239 {
                Err(quoted("Multicast IP addresses are not permitted: '", ip))
            } else if a == 255 && b == 255 && c == 255 && d == 255 {
                Err(quoted("Global broadcast IP address is not permitted: '", ip))
            } else {
                Ok(string_of(&val))
            }
        },
    }
}


// ---------------------------------------------------------------------------
// Defaults
// ---------------------------------------------------------------------------

/// What a fresh state holds, bulb address aside.
pub open spec fn is_fresh(s: State) -> bool {
    &&& s.power
    &&& s.brightness == 255
    &&& s.rgb == [255u8, 140u8, 0u8]
    &&& s.hex@ == "#ff8c00"@
    &&& s.kelvin == 2700
    &&& s.scene_id == 6
    &&& s.mode@ == "color"@
    &&& views(s.recent_colors@) == spec_default_presets()
    &&& !s.restore_on_reconnect
}

/// The address a fresh state targets: the configured one (`WIZ_IP` or
/// `BULB_IP`) when it validates, else the built-in default.
pub open spec fn initial_ip(env_ip: Option<Seq<char>>) -> Seq<char> {
    match env_ip {
        Some(e) => match spec_validate_ip(e) {
            Ok(v) => v,
            Err(_) => default_bulb_ip(),
        },
        None => default_bulb_ip(),
    }
}

pub open spec fn opt_view(o: Option<&str>) -> Option<Seq<char>> {
    match o {
        Some(s) => Some(s@),
        None => None,
    }
}

impl State {
    /// A fresh state aimed at the configured bulb address `env_ip`, if any.
    pub fn initial(env_ip: Option<&str>) -> (s: State)
        ensures
            is_fresh(s),
            s.ip@ == initial_ip(opt_view(env_ip)),
    {
        let ip = match env_ip {
            Some(e) => match validate_ip(e) {
                Ok(v) => v,
                Err(_) => String::from_str("192.168.0.102"),
            },
            None => String::from_str("192.168.0.102"),
        };
        State {
            ip,
            power: true,
            brightness: 255,
            rgb: [255, 140, 0],
            hex: String::from_str("#ff8c00"),
            kelvin: 2700,
            scene_id: 6,
            mode: String::from_str("color"),
            recent_colors: default_preset_colors(),
            restore_on_reconnect: false,
        }
    }
}

impl Default for State {
    /// A fresh state aimed at the built-in default bulb address.
    fn default() -> (s: State)
        ensures
            is_fresh(s),
            s.ip@ == default_bulb_ip(),
    {
        State::initial(None)
    }
}

// ---------------------------------------------------------------------------
// Sanitising
// ---------------------------------------------------------------------------

/// Left fold over the recent-color list: every entry that parses as a color,
/// rewritten as `#rrggbb`, first occurrences only.
pub open spec fn recent_fold(list: Seq<Seq<char>>) -> Seq<Seq<char>>
    decreases list.len(),
{
    if list.len() == 0 {
        Seq::empty()
    } else {
        let acc = recent_fold(list.drop_last());
        match spec_parse_color(list.last()) {
            Ok(rgb) => {
                let h = hex_color(rgb.0, rgb.1, rgb.2);
                if acc.contains(h) {
                    acc
                } else {
                    acc.push(h)
                }
            },
            Err(_) => acc,
        }
    }
}

/// The recent-color list a sanitised state keeps: the canonical, distinct
/// colors of `list`, at most 16 of them, or the presets when none is left.
pub open spec fn sanitized_recents(list: Seq<Seq<char>>) -> Seq<Seq<char>> {
    let v = recent_fold(list);
    if v.len() == 0 {
        spec_default_presets()
    } else if v.len() > 16 {
        v.take(16)
    } else {
        v
    }
}

/// How `sanitize_state` rewrites a state.
pub open spec fn sanitized(before: State, after: State) -> bool {
    &&& after.ip@ == (if spec_validate_ip(before.ip@) is Ok {
        before.ip@
    } else {
        default_bulb_ip()
    })
    &&& after.power == before.power
    &&& after.brightness == (if before.brightness == 0 {
        1
    } else {
        before.brightness
    })
    &&& after.rgb == before.rgb
    &&& after.hex@ == hex_color(before.rgb[0], before.rgb[1], before.rgb[2])
    &&& after.kelvin == (if 1000 <= before.kelvin <= 10000 {
        before.kelvin
    } else {
        2700
    })
    &&& after.scene_id == (if before.scene_id == 0 || before.scene_id > 40 {
        6
    } else {
        before.scene_id
    })
    &&& after.mode@ == before.mode@
    &&& views(after.recent_colors@) == sanitized_recents(views(before.recent_colors@))
    &&& after.restore_on_reconnect == before.restore_on_reconnect
}

fn contains_string(v: &Vec<String>, s: &String) -> (b: bool)
    ensures
        b == views(v@).contains(s@),
{
    let mut i: usize = 0;
    while i < v.len()
        invariant
            i <= v.len(),
            forall|k: int| 0 <= k < i ==> v@[k]@ != s@,
        decreases v.len() - i,
    {
        if v[i] == *s {
            assert(views(v@)[i as int] == s@);
            return true;
        }
        i = i + 1;
    }
    assert forall|k: int| 0 <= k < views(v@).len() implies views(v@)[k] != s@ by {
        assert(views(v@)[k] == v@[k]@);
    }
    false
}

/// Sanitising never switches the bulb: the power flag comes through as it
/// was, and so do the mode and the color itself; only the address,
/// brightness, temperature, scene id, hex text and recent colors are
/// repaired.
pub proof fn lemma_sanitize_keeps_power(before: State, after: State)
    requires
        sanitized(before, after),
    ensures
        after.power == before.power,
        after.mode@ == before.mode@,
        after.rgb == before.rgb,
        after.restore_on_reconnect == before.restore_on_reconnect,
{
}

/// Settling a loaded state keeps the power flag that was saved.
pub proof fn lemma_settle_keeps_power(s: State, env_ip: Option<Seq<char>>, r: State)
    requires
        settled(Some(s), env_ip, r),
    ensures
        r.power == s.power,
{
    let t = choose|t: State| sanitized(s, t) && ({
        let target_ip = match env_ip {
            Some(e) => match spec_validate_ip(e) {
                Ok(v) => Some(v),
                Err(_) => None,
            },
            None => None,
        };
        target_ip is None ==> r.ip@ == t.ip@
    }) && {
        &&& r.power == t.power
        &&& r.brightness == t.brightness
        &&& r.rgb == t.rgb
        &&& r.hex@ == t.hex@
        &&& r.kelvin == t.kelvin
        &&& r.scene_id == t.scene_id
        &&& r.mode@ == t.mode@
        &&& views(r.recent_colors@) == views(t.recent_colors@)
        &&& r.restore_on_reconnect == t.restore_on_reconnect
    };
    lemma_sanitize_keeps_power(s, t);
}

/// Repairs a state read from disk: an unusable bulb address falls back to
/// the default, brightness is at least 1, the Kelvin temperature and scene id
/// are brought back into range, `hex` is re-derived from `rgb`, and the
/// recent colors are canonicalised, deduplicated and capped at 16.
pub fn sanitize_state(state: State) -> (r: State)
    ensures
        sanitized(state, r),
{
    let mut state = state;
    let ghost before = state;
    if validate_ip(state.ip.as_str()).is_err() {
        state.ip = String::from_str("192.168.0.102");
    }
    if state.brightness == 0 {
        state.brightness = 1;
    }
    if !(1000 <= state.kelvin && state.kelvin <= 10000) {
        state.kelvin = 2700;
    }
    if state.scene_id == 0 || state.scene_id > 40 {
        state.scene_id = 6;
    }
    state.hex = rgb_to_hex(state.rgb[0], state.rgb[1], state.rgb[2]);

    let ghost list = views(before.recent_colors@);
    let mut valid: Vec<String> = Vec::new();
    let mut i: usize = 0;
    while i < state.recent_colors.len()
        invariant
            i <= state.recent_colors.len(),
            state.recent_colors@ == before.recent_colors@,
            list == views(before.recent_colors@),
            views(valid@) == recent_fold(list.subrange(0, i as int)),
        decreases state.recent_colors.len() - i,
    {
        let ghost pre = list.subrange(0, i as int);
        assert(list.subrange(0, i + 1).drop_last() =~= pre);
        assert(list.subrange(0, i + 1).last() == state.recent_colors@[i as int]@);
        match parse_color(state.recent_colors[i].as_str()) {
            Ok((r, g, b)) => {
                let hex = rgb_to_hex(r, g, b);
                if !contains_string(&valid, &hex) {
                    valid.push(hex);
                    assert(views(valid@) =~= recent_fold(pre).push(hex_color(r, g, b)));
                }
            },
            Err(_) => {},
        }
        i = i + 1;
    }
    assert(list.subrange(0, list.len() as int) =~= list);
    if valid.len() == 0 {
        state.recent_colors = default_preset_colors();
    } else {
        let ghost v = views(valid@);
        valid.truncate(16);
        assert(v.len() > 16 ==> views(valid@) =~= v.take(16));
        assert(v.len() <= 16 ==> views(valid@) =~= v);
        state.recent_colors = valid;
    }
    state
}

/// The state to start from after reading the state file: the sanitised file
/// contents when they parsed (`loaded`), else a fresh state; a valid
/// configured address (`env_ip`) overrides the stored one either way.
pub open spec fn settled(loaded: Option<State>, env_ip: Option<Seq<char>>, r: State) -> bool {
    let target_ip = match env_ip {
        Some(e) => match spec_validate_ip(e) {
            Ok(v) => Some(v),
            Err(_) => None,
        },
        None => None,
    };
    match loaded {
        Some(s) => {
            &&& target_ip is Some ==> r.ip@ == target_ip->0
            &&& exists|t: State| sanitized(s, t) && (target_ip is None ==> r.ip@ == t.ip@) && {
                &&& r.power == t.power
                &&& r.brightness == t.brightness
                &&& r.rgb == t.rgb
                &&& r.hex@ == t.hex@
                &&& r.kelvin == t.kelvin
                &&& r.scene_id == t.scene_id
                &&& r.mode@ == t.mode@
                &&& views(r.recent_colors@) == views(t.recent_colors@)
                &&& r.restore_on_reconnect == t.restore_on_reconnect
            }
        },
        None => is_fresh(r) && r.ip@ == initial_ip(env_ip),
    }
}

/// Combines what was read from the state file with the configured address.
pub fn settle_loaded_state(loaded: Option<State>, env_ip: Option<&str>) -> (r: State)
    ensures
        settled(loaded, opt_view(env_ip), r),
{
    match loaded {
        Some(s) => {
            let t = sanitize_state(s);
            let ghost t0 = t;
            let mut r = t;
            if let Some(e) = env_ip {
                if let Ok(clean) = validate_ip(e) {
                    r.ip = clean;
                }
            }
            assert(sanitized(s, t0));
            r
        },
        None => State::initial(env_ip),
    }
}

// ---------------------------------------------------------------------------
// Recent colors
// ---------------------------------------------------------------------------

/// Whether two recent-list entries name the same color: equal text, or
/// equal up to ASCII case when `fold_case`.
pub open spec fn same_entry(a: Seq<char>, b: Seq<char>, fold_case: bool) -> bool {
    if fold_case {
        ascii_lower_seq(a) == ascii_lower_seq(b)
    } else {
        a == b
    }
}

/// `list` without the entries that name the same color as `h`.
pub open spec fn without(list: Seq<Seq<char>>, h: Seq<char>, fold_case: bool) -> Seq<Seq<char>>
    decreases list.len(),
{
    if list.len() == 0 {
        list
    } else if same_entry(list.last(), h, fold_case) {
        without(list.drop_last(), h, fold_case)
    } else {
        without(list.drop_last(), h, fold_case).push(list.last())
    }
}

/// `list` with `h` moved to the front, at most 16 entries long.
pub open spec fn recorded(list: Seq<Seq<char>>, h: Seq<char>, fold_case: bool) -> Seq<Seq<char>> {
    let l = seq![h] + without(list, h, fold_case);
    if l.len() > 16 {
        l.take(16)
    } else {
        l
    }
}

/// Puts a just-used color at the front of the recent list, dropping its
/// earlier occurrences (compared up to ASCII case when `fold_case`) and
/// keeping at most 16 entries.
pub fn record_recent(recent: &mut Vec<String>, hex: String, fold_case: bool)
    ensures
        views(final(recent)@) == recorded(views(old(recent)@), hex@, fold_case),
{
    let ghost list = views(recent@);
    let hex_chars = chars_of(hex.as_str());
    let mut kept: Vec<String> = Vec::new();
    kept.push(hex.clone());
    let mut i: usize = 0;
    while i < recent.len()
        invariant
            i <= recent.len(),
            list == views(recent@),
            hex_chars@ == hex@,
            views(kept@) == seq![hex@] + without(list.subrange(0, i as int), hex@, fold_case),
        decreases recent.len() - i,
    {
        let ghost pre = list.subrange(0, i as int);
        assert(list.subrange(0, i + 1).drop_last() =~= pre);
        assert(list.subrange(0, i + 1).last() == recent@[i as int]@);
        let same = if fold_case {
            let c = chars_of(recent[i].as_str());
            chars_eq_ignore_ascii_case(&c, &hex_chars)
        } else {
            recent[i] == hex
        };
        if !same {
            let c = recent[i].clone();
            assert(c@ == list[i as int]);
            let ghost k0 = views(kept@);
            kept.push(c);
            assert(views(kept@) =~= k0.push(c@));
            assert(views(kept@) =~= seq![hex@] + without(pre, hex@, fold_case).push(
                recent@[i as int]@,
            ));
        }
        i = i + 1;
    }
    assert(list.subrange(0, list.len() as int) =~= list);
    let ghost l = views(kept@);
    kept.truncate(16);
    assert(l.len() > 16 ==> views(kept@) =~= l.take(16));
    assert(l.len() <= 16 ==> views(kept@) =~= l);
    *recent = kept;
}

proof fn lemma_without_excludes(list: Seq<Seq<char>>, h: Seq<char>, fold_case: bool)
    ensures
        without(list, h, fold_case).len() <= list.len(),
        forall|i: int|
            0 <= i < without(list, h, fold_case).len() ==> !same_entry(
                #[trigger] without(list, h, fold_case)[i],
                h,
                fold_case,
            ),
    decreases list.len(),
{
    if list.len() > 0 {
        lemma_without_excludes(list.drop_last(), h, fold_case);
    }
}

proof fn lemma_without_keeps(list: Seq<Seq<char>>, h: Seq<char>, fold_case: bool)
    requires
        forall|i: int| 0 <= i < list.len() ==> !same_entry(#[trigger] list[i], h, fold_case),
    ensures
        without(list, h, fold_case) == list,
    decreases list.len(),
{
    if list.len() > 0 {
        let t = list.drop_last();
        assert forall|i: int| 0 <= i < t.len() implies !same_entry(#[trigger] t[i], h, fold_case) by {
            assert(t[i] == list[i]);
        }
        lemma_without_keeps(t, h, fold_case);
        assert(!same_entry(list[list.len() - 1], h, fold_case));
        assert(t.push(list.last()) =~= list);
    }
}

proof fn lemma_without_skips_front(rest: Seq<Seq<char>>, h: Seq<char>, fold_case: bool)
    ensures
        without(seq![h] + rest, h, fold_case) == without(rest, h, fold_case),
    decreases rest.len(),
{
    if rest.len() == 0 {
        assert(seq![h] + rest =~= seq![h]);
        assert(seq![h].drop_last() =~= Seq::<Seq<char>>::empty());
        assert(seq![h].last() == h);
        assert(same_entry(h, h, fold_case));
        assert(without(seq![h], h, fold_case) == without(Seq::<Seq<char>>::empty(), h, fold_case));
        assert(rest =~= Seq::<Seq<char>>::empty());
    } else {
        lemma_without_skips_front(rest.drop_last(), h, fold_case);
        assert((seq![h] + rest).drop_last() =~= seq![h] + rest.drop_last());
        assert((seq![h] + rest).last() == rest.last());
    }
}

// ---------------------------------------------------------------------------
// Laws
// ---------------------------------------------------------------------------

/// The built-in default bulb address is itself a valid address.
pub proof fn lemma_default_ip_valid()
    ensures
        spec_validate_ip(default_bulb_ip()) == Ok::<Seq<char>, Seq<char>>(default_bulb_ip()),
{
    let s = default_bulb_ip();
    reveal_strlit("192.168.0.102");
    assert(s.len() == 13);
    assert(!is_ws(s[0]) && !is_ws(s[12]));
    lemma_trim_start(s, 0);
    assert(s.subrange(0, 13) =~= s);
    lemma_trim_end(s, 13);
    assert(split_fold(s.subrange(0, 0), '.') == (Seq::<Seq<char>>::empty(), Seq::<char>::empty()));
    assert(s.subrange(0, 1).drop_last() =~= s.subrange(0, 0));
    assert(split_fold(s.subrange(0, 1), '.') =~= (Seq::<Seq<char>>::empty(), seq!['1']));
    assert(s.subrange(0, 2).drop_last() =~= s.subrange(0, 1));
    assert(split_fold(s.subrange(0, 2), '.') =~= (Seq::<Seq<char>>::empty(), seq!['1', '9']));
    assert(s.subrange(0, 3).drop_last() =~= s.subrange(0, 2));
    assert(split_fold(s.subrange(0, 3), '.') =~= (Seq::<Seq<char>>::empty(), seq!['1', '9', '2']));
    assert(s.subrange(0, 4).drop_last() =~= s.subrange(0, 3));
    assert(split_fold(s.subrange(0, 4), '.') =~= (seq![seq!['1', '9', '2']], Seq::<char>::empty()));
    assert(s.subrange(0, 5).drop_last() =~= s.subrange(0, 4));
    assert(split_fold(s.subrange(0, 5), '.') =~= (seq![seq!['1', '9', '2']], seq!['1']));
    assert(s.subrange(0, 6).drop_last() =~= s.subrange(0, 5));
    assert(split_fold(s.subrange(0, 6), '.') =~= (seq![seq!['1', '9', '2']], seq!['1', '6']));
    assert(s.subrange(0, 7).drop_last() =~= s.subrange(0, 6));
    assert(split_fold(s.subrange(0, 7), '.') =~= (seq![seq!['1', '9', '2']], seq!['1', '6', '8']));
    assert(s.subrange(0, 8).drop_last() =~= s.subrange(0, 7));
    assert(split_fold(s.subrange(0, 8), '.') =~= (seq![seq!['1', '9', '2'], seq!['1', '6', '8']], Seq::<char>::empty()));
    assert(s.subrange(0, 9).drop_last() =~= s.subrange(0, 8));
    assert(split_fold(s.subrange(0, 9), '.') =~= (seq![seq!['1', '9', '2'], seq!['1', '6', '8']], seq!['0']));
    assert(s.subrange(0, 10).drop_last() =~= s.subrange(0, 9));
    assert(split_fold(s.subrange(0, 10), '.') =~= (seq![seq!['1', '9', '2'], seq!['1', '6', '8'], seq!['0']], Seq::<char>::empty()));
    assert(s.subrange(0, 11).drop_last() =~= s.subrange(0, 10));
    assert(split_fold(s.subrange(0, 11), '.') =~= (seq![seq!['1', '9', '2'], seq!['1', '6', '8'], seq!['0']], seq!['1']));
    assert(s.subrange(0, 12).drop_last() =~= s.subrange(0, 11));
    assert(split_fold(s.subrange(0, 12), '.') =~= (seq![seq!['1', '9', '2'], seq!['1', '6', '8'], seq!['0']], seq!['1', '0']));
    assert(s.subrange(0, 13).drop_last() =~= s.subrange(0, 12));
    assert(split_fold(s.subrange(0, 13), '.') =~= (seq![seq!['1', '9', '2'], seq!['1', '6', '8'], seq!['0']], seq!['1', '0', '2']));
    let p = split(s, '.');
    assert(p =~= seq![seq!['1', '9', '2'], seq!['1', '6', '8'], seq!['0'], seq!['1', '0', '2']]);
    reveal_with_fuel(digits_value, 4);
    assert(octet_ok(p[0]) && octet_ok(p[1]) && octet_ok(p[2]) && octet_ok(p[3]));
}

/// A `#rrggbb` string that parses back to the color it names.
pub open spec fn canonical_hex(h: Seq<char>) -> bool {
    spec_parse_color(h) matches Ok(c) && h == hex_color(c.0, c.1, c.2)
}

pub open spec fn canonical_list(l: Seq<Seq<char>>) -> bool {
    &&& forall|i: int| 0 <= i < l.len() ==> canonical_hex(#[trigger] l[i])
    &&& l.no_duplicates()
}

proof fn lemma_recent_fold_canonical(list: Seq<Seq<char>>)
    ensures
        canonical_list(recent_fold(list)),
    decreases list.len(),
{
    if list.len() > 0 {
        lemma_recent_fold_canonical(list.drop_last());
        let acc = recent_fold(list.drop_last());
        if let Ok(rgb) = spec_parse_color(list.last()) {
            let h = hex_color(rgb.0, rgb.1, rgb.2);
            lemma_hex_color_parses(rgb.0, rgb.1, rgb.2);
            if !acc.contains(h) {
                let n = acc.push(h);
                assert forall|i: int| 0 <= i < n.len() implies canonical_hex(#[trigger] n[i]) by {
                    if i < acc.len() {
                        assert(n[i] == acc[i]);
                    }
                }
                assert forall|i: int, j: int|
                    0 <= i < n.len() && 0 <= j < n.len() && i != j implies n[i] != n[j] by {
                    if i < acc.len() && j < acc.len() {
                        assert(acc[i] != acc[j]);
                    } else if i < acc.len() {
                        assert(n[i] == acc[i]);
                    } else {
                        assert(n[j] == acc[j]);
                    }
                }
            }
        }
    }
}

/// Folding a list that is already canonical and duplicate-free returns it.
proof fn lemma_recent_fold_fixed(list: Seq<Seq<char>>)
    requires
        canonical_list(list),
    ensures
        recent_fold(list) == list,
    decreases list.len(),
{
    if list.len() > 0 {
        let init = list.drop_last();
        assert(canonical_list(init)) by {
            assert forall|i: int| 0 <= i < init.len() implies canonical_hex(#[trigger] init[i]) by {
                assert(init[i] == list[i]);
            }
            assert forall|i: int, j: int|
                0 <= i < init.len() && 0 <= j < init.len() && i != j implies init[i]
                != init[j] by {
                assert(init[i] == list[i] && init[j] == list[j]);
            }
        }
        lemma_recent_fold_fixed(init);
        assert(canonical_hex(list[list.len() - 1]));
        let last = list.last();
        assert(!init.contains(last)) by {
            if init.contains(last) {
                let k = choose|k: int| 0 <= k < init.len() && init[k] == last;
                assert(list[k] == list[list.len() - 1]);
            }
        }
        assert(init.push(last) =~= list);
    }
}

proof fn lemma_take_canonical(l: Seq<Seq<char>>, n: int)
    requires
        canonical_list(l),
        0 <= n <= l.len(),
    ensures
        canonical_list(l.take(n)),
{
    let t = l.take(n);
    assert forall|i: int| 0 <= i < t.len() implies canonical_hex(#[trigger] t[i]) by {
        assert(t[i] == l[i]);
    }
    assert forall|i: int, j: int| 0 <= i < t.len() && 0 <= j < t.len() && i != j implies t[i]
        != t[j] by {
        assert(t[i] == l[i] && t[j] == l[j]);
    }
}

/// The quick-color presets are canonical and distinct.
proof fn lemma_presets_canonical()
    ensures
        canonical_list(spec_default_presets()),
{
    let p = spec_default_presets();
    reveal_strlit("#ff453a");
    reveal_strlit("#ff9f0a");
    reveal_strlit("#ffd60a");
    reveal_strlit("#32d74b");
    reveal_strlit("#64d2ff");
    reveal_strlit("#0a84ff");
    reveal_strlit("#bf5af2");
    reveal_strlit("#ff375f");
    reveal_strlit("#ffd1a9");
    reveal_strlit("#f0f4f8");
    assert(p[0] =~= hex_color(0xff, 0x45, 0x3a));
    assert(p[1] =~= hex_color(0xff, 0x9f, 0x0a));
    assert(p[2] =~= hex_color(0xff, 0xd6, 0x0a));
    assert(p[3] =~= hex_color(0x32, 0xd7, 0x4b));
    assert(p[4] =~= hex_color(0x64, 0xd2, 0xff));
    assert(p[5] =~= hex_color(0x0a, 0x84, 0xff));
    assert(p[6] =~= hex_color(0xbf, 0x5a, 0xf2));
    assert(p[7] =~= hex_color(0xff, 0x37, 0x5f));
    assert(p[8] =~= hex_color(0xff, 0xd1, 0xa9));
    assert(p[9] =~= hex_color(0xf0, 0xf4, 0xf8));
    lemma_hex_color_parses(0xff, 0x45, 0x3a);
    lemma_hex_color_parses(0xff, 0x9f, 0x0a);
    lemma_hex_color_parses(0xff, 0xd6, 0x0a);
    lemma_hex_color_parses(0x32, 0xd7, 0x4b);
    lemma_hex_color_parses(0x64, 0xd2, 0xff);
    lemma_hex_color_parses(0x0a, 0x84, 0xff);
    lemma_hex_color_parses(0xbf, 0x5a, 0xf2);
    lemma_hex_color_parses(0xff, 0x37, 0x5f);
    lemma_hex_color_parses(0xff, 0xd1, 0xa9);
    lemma_hex_color_parses(0xf0, 0xf4, 0xf8);
    assert forall|i: int| 0 <= i < p.len() implies canonical_hex(#[trigger] p[i]) by {}
    assert forall|i: int, j: int| 0 <= i < p.len() && 0 <= j < p.len() && i != j implies p[i]
        != p[j] by {
        assert(p[i][1] != p[j][1] || p[i][2] != p[j][2] || p[i][3] != p[j][3] || p[i][4]
            != p[j][4] || p[i][5] != p[j][5] || p[i][6] != p[j][6]);
    }
}

/// The recent-color list of a sanitised state is canonical, duplicate-free,
/// non-empty and at most 16 long.
pub proof fn lemma_sanitized_recents_shape(list: Seq<Seq<char>>)
    ensures
        canonical_list(sanitized_recents(list)),
        1 <= sanitized_recents(list).len() <= 16,
{
    lemma_recent_fold_canonical(list);
    lemma_presets_canonical();
    let v = recent_fold(list);
    if v.len() > 16 {
        lemma_take_canonical(v, 16);
    }
}

/// Sanitising is idempotent: a sanitised state passes through
/// `sanitize_state` unchanged.
pub proof fn lemma_sanitize_idempotent(s: State, t: State, u: State)
    requires
        sanitized(s, t),
        sanitized(t, u),
    ensures
        u.ip@ == t.ip@,
        u.power == t.power,
        u.brightness == t.brightness,
        u.rgb == t.rgb,
        u.hex@ == t.hex@,
        u.kelvin == t.kelvin,
        u.scene_id == t.scene_id,
        u.mode@ == t.mode@,
        views(u.recent_colors@) == views(t.recent_colors@),
        u.restore_on_reconnect == t.restore_on_reconnect,
{
    lemma_default_ip_valid();
    let l = views(t.recent_colors@);
    lemma_sanitized_recents_shape(views(s.recent_colors@));
    lemma_recent_fold_fixed(l);
}


/// Recording a color puts it first, keeps no other entry naming the same
/// color, and leaves between 1 and 16 entries.
pub proof fn lemma_recorded_front(list: Seq<Seq<char>>, h: Seq<char>, fold_case: bool)
    ensures
        recorded(list, h, fold_case).len() >= 1,
        recorded(list, h, fold_case).len() <= 16,
        recorded(list, h, fold_case)[0] == h,
        forall|i: int|
            1 <= i < recorded(list, h, fold_case).len() ==> !same_entry(
                #[trigger] recorded(list, h, fold_case)[i],
                h,
                fold_case,
            ),
{
    lemma_without_excludes(list, h, fold_case);
    let w = without(list, h, fold_case);
    let l = seq![h] + w;
    assert forall|i: int| 1 <= i < recorded(list, h, fold_case).len() implies !same_entry(
        #[trigger] recorded(list, h, fold_case)[i],
        h,
        fold_case,
    ) by {
        assert(recorded(list, h, fold_case)[i] == l[i]);
        assert(l[i] == w[i - 1]);
    }
}

/// Recording the same color twice in a row changes nothing the second time.
pub proof fn lemma_recorded_idempotent(list: Seq<Seq<char>>, h: Seq<char>, fold_case: bool)
    ensures
        recorded(recorded(list, h, fold_case), h, fold_case) == recorded(list, h, fold_case),
{
    let r = recorded(list, h, fold_case);
    lemma_recorded_front(list, h, fold_case);
    let rest = r.drop_first();
    assert(r =~= seq![h] + rest);
    assert forall|i: int| 0 <= i < rest.len() implies !same_entry(#[trigger] rest[i], h, fold_case) by {
        assert(rest[i] == r[i + 1]);
    }
    lemma_without_skips_front(rest, h, fold_case);
    lemma_without_keeps(rest, h, fold_case);
    assert(seq![h] + without(r, h, fold_case) =~= r);
}

} // verus!
