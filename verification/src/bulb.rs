//! The WiZ pilot model: what a bulb reports (`getPilot`), what is sent to it
//! (`setPilot` parameters), and the decisions between the two.

use vstd::prelude::*;

use crate::colors::{get_scene_name, scene_name_of, scenes, spec_scenes};
use crate::state::State;
use crate::text::str_is;

verus! {

/// What a bulb reports in reply to `getPilot`.
#[derive(Debug, Clone)]
pub struct PilotResult {
    pub mac: Option<String>,
    pub rssi: Option<i32>,
    pub state: Option<bool>,
    pub scene_id: Option<u32>,
    pub dimming: Option<u8>,
    pub temp: Option<u16>,
    pub r: Option<u8>,
    pub g: Option<u8>,
    pub b: Option<u8>,
    /// Warm-white channel; carries the desaturated part of an RGB pick.
    pub w: Option<u8>,
    /// Cold-white channel.
    pub c: Option<u8>,
    pub src: Option<String>,
}

impl Default for PilotResult {
    /// A report with no field present.
    fn default() -> (p: PilotResult)
        ensures
            p.mac is None && p.rssi is None && p.state is None && p.scene_id is None,
            p.dimming is None && p.temp is None && p.src is None,
            p.r is None && p.g is None && p.b is None && p.w is None && p.c is None,
    {
        PilotResult {
            mac: None,
            rssi: None,
            state: None,
            scene_id: None,
            dimming: None,
            temp: None,
            r: None,
            g: None,
            b: None,
            w: None,
            c: None,
            src: None,
        }
    }
}

/// A 0..=100 dimming percentage on the 0..=255 brightness scale, rounded half
/// away from zero and capped at 255.
pub open spec fn percent_to_byte(d: int) -> int {
    let v = (255 * d + 50) / 100;
    if v > 255 {
        255
    } else {
        v
    }
}

/// A 0..=255 brightness as the bulb's dimming percentage: rounded, then held
/// within 10..=100 (the bulb's accepted range).
pub open spec fn byte_to_dimming(b: int) -> int {
    let v = (200 * b + 255) / 510;
    if v < 10 {
        10
    } else if v > 100 {
        100
    } else {
        v
    }
}

/// The bulb's dimming percentage for a 0..=255 brightness.
pub fn dimming_percent(brightness: u8) -> (d: u8)
    ensures
        d == byte_to_dimming(brightness as int),
        10 <= d <= 100,
{
    let v: u32 = (200 * (brightness as u32) + 255) / 510;
    if v < 10 {
        10
    } else if v > 100 {
        100
    } else {
        v as u8
    }
}

/// The rounded 0..=100 percentage of a 0..=255 brightness.
pub open spec fn byte_percent(b: int) -> int {
    (200 * b + 255) / 510
}

/// The rounded percentage of a 0..=255 brightness, for display.
pub fn brightness_percent(brightness: u8) -> (p: u8)
    ensures
        p == byte_percent(brightness as int),
        p <= 100,
{
    ((200 * (brightness as u32) + 255) / 510) as u8
}

/// A dimming percentage read from a bulb and scaled to a byte shows as the
/// same percentage, and sends the same dimming back (within the bulb's
/// 10..=100 range).
pub proof fn lemma_dimming_round_trip(d: int)
    requires
        0 <= d <= 100,
    ensures
        byte_percent(percent_to_byte(d)) == d,
        10 <= d ==> byte_to_dimming(percent_to_byte(d)) == d,
{
}

impl PilotResult {
    /// Whether the bulb reports being on (absent means off).
    pub fn is_on(&self) -> (b: bool)
        ensures
            b == (self.state == Some(true)),
    {
        match self.state {
            Some(s) => s,
            None => false,
        }
    }

    /// The reported dimming percentage on the 0..=255 scale.
    pub fn brightness_255(&self) -> (r: Option<u8>)
        ensures
            match self.dimming {
                Some(d) => r == Some(percent_to_byte(d as int) as u8),
                None => r is None,
            },
    {
        match self.dimming {
            Some(d) => {
                let v: u32 = (255 * (d as u32) + 50) / 100;
                if v > 255 {
                    Some(255)
                } else {
                    Some(v as u8)
                }
            },
            None => None,
        }
    }

    /// The name of the active scene; scene id 0 means no scene.
    pub fn scene_name(&self) -> (r: Option<&'static str>)
        ensures
            match self.scene_id {
                Some(id) => if id != 0 {
                    match scene_name_of(id) {
                        Some(n) => r is Some && r->0@ == n,
                        None => r is None,
                    }
                } else {
                    r is None
                },
                None => r is None,
            },
    {
        match self.scene_id {
            Some(id) => if id != 0 {
                get_scene_name(id)
            } else {
                None
            },
            None => None,
        }
    }

    /// The raw channels `(r, g, b, w)` the displayed color is recovered from,
    /// absent when the bulb reports no color: a missing channel, or all color
    /// and white channels dark (white or scene mode, not black).
    pub fn color_channels(&self) -> (r: Option<(u8, u8, u8, u8)>)
        ensures
            r == color_channels_of(*self),
    {
        let w = match self.w {
            Some(w) => w,
            None => 0,
        };
        match (self.r, self.g, self.b) {
            (Some(r), Some(g), Some(b)) => {
                if r == 0 && g == 0 && b == 0 && w == 0 {
                    None
                } else {
                    Some((r, g, b, w))
                }
            },
            _ => None,
        }
    }

    /// Whether the raw channels are exactly the five-channel mix `mix`
    /// (`((r, g, b), w)`; an absent white channel reads as 0).
    pub fn matches_mix(&self, mix: ((u8, u8, u8), u8)) -> (b: bool)
        ensures
            b == (self.r == Some(mix.0.0) && self.g == Some(mix.0.1) && self.b == Some(mix.0.2)
                && (match self.w {
                Some(w) => w,
                None => 0u8,
            }) == mix.1),
    {
        let w = match self.w {
            Some(w) => w,
            None => 0,
        };
        self.r == Some(mix.0.0) && self.g == Some(mix.0.1) && self.b == Some(mix.0.2) && w
            == mix.1
    }
}

pub open spec fn color_channels_of(p: PilotResult) -> Option<(u8, u8, u8, u8)> {
    let w: u8 = match p.w {
        Some(w) => w,
        None => 0,
    };
    match (p.r, p.g, p.b) {
        (Some(r), Some(g), Some(b)) => if r == 0 && g == 0 && b == 0 && w == 0 {
            None
        } else {
            Some((r, g, b, w))
        },
        _ => None,
    }
}

// ---------------------------------------------------------------------------
// setPilot parameters
// ---------------------------------------------------------------------------

/// The parameters of a `setPilot` request; absent fields are not sent.
#[derive(Debug, Clone, Copy)]
pub struct PilotParams {
    pub state: Option<bool>,
    pub dimming: Option<u8>,
    pub temp: Option<u16>,
    pub scene_id: Option<u32>,
    pub r: Option<u8>,
    pub g: Option<u8>,
    pub b: Option<u8>,
    pub w: Option<u8>,
}

pub open spec fn no_params() -> PilotParams {
    PilotParams {
        state: None,
        dimming: None,
        temp: None,
        scene_id: None,
        r: None,
        g: None,
        b: None,
        w: None,
    }
}

/// `temp` held within the bulb's white range 2200K..=6500K.
pub open spec fn clamp_white(k: int) -> int {
    if k < 2200 {
        2200
    } else if k > 6500 {
        6500
    } else {
        k
    }
}

pub fn clamp_white_kelvin(k: u16) -> (r: u16)
    ensures
        r == clamp_white(k as int),
{
    if k < 2200 {
        2200
    } else if k > 6500 {
        6500
    } else {
        k
    }
}

/// `{"state": on}`.
pub fn power_params(on: bool) -> (p: PilotParams)
    ensures
        p == (PilotParams { state: Some(on), ..no_params() }),
{
    PilotParams {
        state: Some(on),
        dimming: None,
        temp: None,
        scene_id: None,
        r: None,
        g: None,
        b: None,
        w: None,
    }
}

/// `{"state": true, "dimming": d}` for a 0..=255 brightness.
pub fn brightness_params(brightness: u8) -> (p: PilotParams)
    ensures
        p == (PilotParams {
            state: Some(true),
            dimming: Some(byte_to_dimming(brightness as int) as u8),
            ..no_params()
        }),
{
    PilotParams {
        state: Some(true),
        dimming: Some(dimming_percent(brightness)),
        temp: None,
        scene_id: None,
        r: None,
        g: None,
        b: None,
        w: None,
    }
}

/// `{"state": true, "temp": k}` with `k` held within 2200K..=6500K.
pub fn temperature_params(kelvin: u16) -> (p: PilotParams)
    ensures
        p == (PilotParams {
            state: Some(true),
            temp: Some(clamp_white(kelvin as int) as u16),
            ..no_params()
        }),
{
    PilotParams {
        state: Some(true),
        dimming: None,
        temp: Some(clamp_white_kelvin(kelvin)),
        scene_id: None,
        r: None,
        g: None,
        b: None,
        w: None,
    }
}

/// `{"state": true, "sceneId": id}`.
pub fn scene_params(scene_id: u32) -> (p: PilotParams)
    ensures
        p == (PilotParams { state: Some(true), scene_id: Some(scene_id), ..no_params() }),
{
    PilotParams {
        state: Some(true),
        dimming: None,
        temp: None,
        scene_id: Some(scene_id),
        r: None,
        g: None,
        b: None,
        w: None,
    }
}

/// `{"state": true, "r", "g", "b", "w"}` for a five-channel mix
/// `((r, g, b), w)`.
pub fn mix_params(mix: ((u8, u8, u8), u8)) -> (p: PilotParams)
    ensures
        p == (PilotParams {
            state: Some(true),
            r: Some(mix.0.0),
            g: Some(mix.0.1),
            b: Some(mix.0.2),
            w: Some(mix.1),
            ..no_params()
        }),
{
    PilotParams {
        state: Some(true),
        dimming: None,
        temp: None,
        scene_id: None,
        r: Some(mix.0.0),
        g: Some(mix.0.1),
        b: Some(mix.0.2),
        w: Some(mix.1),
    }
}

/// The single `setPilot` request that re-applies a saved state: off when the
/// state is off; otherwise its brightness together with its scene (scene
/// mode, non-zero scene), its white temperature (Kelvin mode, non-zero
/// temperature, held within 2200K..=6500K) or else its color, given as the
/// five-channel mix `mix` of `state.rgb`.
pub open spec fn saved_params(state: State, mix: ((u8, u8, u8), u8)) -> PilotParams {
    let dim = Some(byte_to_dimming(state.brightness as int) as u8);
    if !state.power {
        PilotParams { state: Some(false), ..no_params() }
    } else if state.mode@ == "scene"@ && state.scene_id > 0 {
        PilotParams {
            state: Some(true),
            dimming: dim,
            scene_id: Some(state.scene_id),
            ..no_params()
        }
    } else if state.mode@ == "kelvin"@ && state.kelvin > 0 {
        PilotParams {
            state: Some(true),
            dimming: dim,
            temp: Some(clamp_white(state.kelvin as int) as u16),
            ..no_params()
        }
    } else {
        PilotParams {
            state: Some(true),
            dimming: dim,
            r: Some(mix.0.0),
            g: Some(mix.0.1),
            b: Some(mix.0.2),
            w: Some(mix.1),
            ..no_params()
        }
    }
}

/// The `setPilot` request that re-applies a saved state; `mix` is the
/// five-channel mix of `state.rgb`.
pub fn saved_state_params(state: &State, mix: ((u8, u8, u8), u8)) -> (p: PilotParams)
    ensures
        p == saved_params(*state, mix),
{
    if !state.power {
        return power_params(false);
    }
    let dim = dimming_percent(state.brightness);
    if str_is(&state.mode, "scene") && state.scene_id > 0 {
        PilotParams {
            state: Some(true),
            dimming: Some(dim),
            temp: None,
            scene_id: Some(state.scene_id),
            r: None,
            g: None,
            b: None,
            w: None,
        }
    } else if str_is(&state.mode, "kelvin") && state.kelvin > 0 {
        PilotParams {
            state: Some(true),
            dimming: Some(dim),
            temp: Some(clamp_white_kelvin(state.kelvin)),
            scene_id: None,
            r: None,
            g: None,
            b: None,
            w: None,
        }
    } else {
        PilotParams {
            state: Some(true),
            dimming: Some(dim),
            temp: None,
            scene_id: None,
            r: Some(mix.0.0),
            g: Some(mix.0.1),
            b: Some(mix.0.2),
            w: Some(mix.1),
        }
    }
}

// ---------------------------------------------------------------------------
// WiZclick favorites
// ---------------------------------------------------------------------------

/// One WiZclick wall-switch mode and the scene it triggers.
#[derive(Debug, Clone)]
pub struct WiZclickFavorite {
    pub mode: u32,
    pub scene_id: u32,
    pub scene_name: String,
}

/// The display name used for a favorite's scene.
pub open spec fn favorite_name(id: u32) -> Seq<char> {
    match scene_name_of(id) {
        Some(n) => n,
        None => "Unknown"@,
    }
}

/// The favorites a `getFavs` reply lists, given the scene id read from each
/// slot in order (0 when the slot holds none): slot `i` becomes mode `i + 1`,
/// ids are truncated to 32 bits, and empty slots are skipped.
pub open spec fn favorites_fold(slots: Seq<u64>) -> Seq<(u32, u32, Seq<char>)>
    decreases slots.len(),
{
    if slots.len() == 0 {
        Seq::empty()
    } else {
        let acc = favorites_fold(slots.drop_last());
        let sid = slots.last() as u32;
        if sid != 0 {
            acc.push((slots.len() as u32, sid, favorite_name(sid)))
        } else {
            acc
        }
    }
}

pub open spec fn favorite_view(f: WiZclickFavorite) -> (u32, u32, Seq<char>) {
    (f.mode, f.scene_id, f.scene_name@)
}

/// The WiZclick favorites listed by the scene ids of the reply's slots.
pub fn favorites_from_slots(slots: &Vec<u64>) -> (favs: Vec<WiZclickFavorite>)
    ensures
        favs@.map_values(|f: WiZclickFavorite| favorite_view(f)) == favorites_fold(slots@),
{
    let mut favs: Vec<WiZclickFavorite> = Vec::new();
    let mut i: usize = 0;
    while i < slots.len()
        invariant
            i <= slots.len(),
            favs@.map_values(|f: WiZclickFavorite| favorite_view(f)) == favorites_fold(
                slots@.subrange(0, i as int),
            ),
        decreases slots.len() - i,
    {
        let ghost pre = slots@.subrange(0, i as int);
        assert(slots@.subrange(0, i + 1).drop_last() =~= pre);
        let sid = slots[i] as u32;
        if sid != 0 {
            let name = match get_scene_name(sid) {
                Some(n) => String::from_str(n),
                None => String::from_str("Unknown"),
            };
            let ghost before = favs@.map_values(|f: WiZclickFavorite| favorite_view(f));
            favs.push(WiZclickFavorite { mode: (i + 1) as u32, scene_id: sid, scene_name: name });
            assert(favs@.map_values(|f: WiZclickFavorite| favorite_view(f)) =~= before.push(
                ((i + 1) as u32, sid, favorite_name(sid)),
            ));
        }
        i = i + 1;
    }
    assert(slots@.subrange(0, slots.len() as int) =~= slots@);
    favs
}

/// The two-mode setup used when the bulb lists no favorites.
pub open spec fn default_favorites() -> Seq<(u32, u32, Seq<char>)> {
    seq![(1u32, 6u32, "Cozy"@), (2u32, 14u32, "Night light"@)]
}

/// The favorites to show or choose from: those reported, or the default
/// two-mode setup (Cozy, Night light) when none are.
pub fn wizclick_favorites(reported: Vec<WiZclickFavorite>) -> (favs: Vec<WiZclickFavorite>)
    ensures
        favs@.map_values(|f: WiZclickFavorite| favorite_view(f)) == if reported@.len() == 0 {
            default_favorites()
        } else {
            reported@.map_values(|f: WiZclickFavorite| favorite_view(f))
        },
{
    if reported.len() == 0 {
        let v = vec![
            WiZclickFavorite { mode: 1, scene_id: 6, scene_name: String::from_str("Cozy") },
            WiZclickFavorite {
                mode: 2,
                scene_id: 14,
                scene_name: String::from_str("Night light"),
            },
        ];
        assert(v@.map_values(|f: WiZclickFavorite| favorite_view(f)) =~= default_favorites());
        v
    } else {
        reported
    }
}

/// The position of the first favorite with WiZclick mode `mode`.
pub open spec fn favorite_index(favs: Seq<(u32, u32, Seq<char>)>, mode: u32) -> Option<int>
    decreases favs.len(),
{
    if favs.len() == 0 {
        None
    } else {
        match favorite_index(favs.drop_last(), mode) {
            Some(i) => Some(i),
            None => if favs.last().0 == mode {
                Some(favs.len() - 1)
            } else {
                None
            },
        }
    }
}

proof fn lemma_favorite_index_prefix(s: Seq<(u32, u32, Seq<char>)>, k: int, mode: u32)
    requires
        0 <= k <= s.len(),
        favorite_index(s.subrange(0, k), mode) is Some,
    ensures
        favorite_index(s, mode) == favorite_index(s.subrange(0, k), mode),
    decreases s.len() - k,
{
    if k == s.len() {
        assert(s.subrange(0, k) =~= s);
    } else {
        let t = s.drop_last();
        assert(t.subrange(0, k) =~= s.subrange(0, k));
        lemma_favorite_index_prefix(t, k, mode);
    }
}

/// The favorite that WiZclick mode `mode` selects, or the error reported when
/// no favorite has that mode.
pub fn wizclick_pick(favs: &Vec<WiZclickFavorite>, mode: u32) -> (r: Result<usize, String>)
    ensures
        match favorite_index(favs@.map_values(|f: WiZclickFavorite| favorite_view(f)), mode) {
            Some(i) => r == Ok::<usize, String>(i as usize),
            None => r matches Err(m) && m@ == "WiZclick mode must be between 1 and "@
                + crate::text::decimal(favs@.len()) + ", got "@ + crate::text::decimal(
                mode as nat,
            ),
        },
{
    let ghost fv = favs@.map_values(|f: WiZclickFavorite| favorite_view(f));
    let mut i: usize = 0;
    while i < favs.len()
        invariant
            i <= favs.len(),
            fv == favs@.map_values(|f: WiZclickFavorite| favorite_view(f)),
            favorite_index(fv.subrange(0, i as int), mode) is None,
        decreases favs.len() - i,
    {
        assert(fv.subrange(0, i + 1).drop_last() =~= fv.subrange(0, i as int));
        if favs[i].mode == mode {
            proof {
                assert(fv.subrange(0, i + 1).last() == fv[i as int]);
                lemma_favorite_index_prefix(fv, i + 1, mode);
            }
            return Ok(i);
        }
        i = i + 1;
    }
    assert(fv.subrange(0, favs.len() as int) =~= fv);
    let mut s = String::from_str("WiZclick mode must be between 1 and ");
    crate::text::append_decimal(&mut s, favs.len() as u64);
    s.append(", got ");
    crate::text::append_decimal(&mut s, mode as u64);
    Err(s)
}

// ---------------------------------------------------------------------------
// Scene listing
// ---------------------------------------------------------------------------

/// The scene table lists ids in increasing order, none above 40.
pub proof fn lemma_scene_ids_sorted()
    ensures
        forall|i: int| 0 <= i < spec_scenes().len() ==> (#[trigger] spec_scenes()[i]).0 <= 40,
        forall|i: int, j: int|
            0 <= i < j < spec_scenes().len() ==> (#[trigger] spec_scenes()[i]).0 < (
            #[trigger] spec_scenes()[j]).0,
{
    let t = spec_scenes();
    assert forall|i: int| 0 <= i < t.len() implies (#[trigger] t[i]).0 <= 40 && (i < 36 ==> t[i].0
        < t[i + 1].0) && t[i].0 >= i + 1 && t[i].0 <= i + 4 by {}
    assert forall|i: int, j: int| 0 <= i < j < t.len() implies (#[trigger] t[i]).0 < (
    #[trigger] t[j]).0 by {
        if j < 36 {
            assert(t[i].0 <= i + 1);
            assert(t[j].0 >= j + 1);
        }
    }
}

/// The scenes `wizctl scenes` lists: the table entries with an id up to 40,
/// in increasing id order.
pub fn listed_scenes() -> (v: Vec<(u32, &'static str)>)
    ensures
        v@.len() == spec_scenes().len(),
        forall|i: int|
            0 <= i < v@.len() ==> (#[trigger] v@[i]).0 == spec_scenes()[i].0 && v@[i].1@
                == spec_scenes()[i].1 && v@[i].0 <= 40,
        forall|i: int, j: int| 0 <= i < j < v@.len() ==> v@[i].0 < v@[j].0,
{
    let table = scenes();
    proof {
        lemma_scene_ids_sorted();
    }
    let mut out: Vec<(u32, &'static str)> = Vec::new();
    let mut i: usize = 0;
    while i < table.len()
        invariant
            i <= table@.len(),
            table@.len() == spec_scenes().len(),
            forall|k: int|
                0 <= k < table@.len() ==> (#[trigger] table@[k]).0 == spec_scenes()[k].0
                    && table@[k].1@ == spec_scenes()[k].1,
            out@ == table@.subrange(0, i as int),
        decreases table.len() - i,
    {
        if table[i].0 <= 40 {
            out.push(table[i]);
        }
        i = i + 1;
        assert(out@ =~= table@.subrange(0, i as int));
    }
    assert(out@ =~= table@);
    out
}

} // verus!
