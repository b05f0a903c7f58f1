//! Decisions of the background bulb worker and of the two front ends that
//! drive it: command coalescing, what each command sends, the re-poll
//! schedule with failure backoff, and how a bulb report updates the state.

use vstd::prelude::*;

use crate::bulb::{
    brightness_params, byte_to_dimming, clamp_white, no_params, percent_to_byte, power_params,
    scene_params, temperature_params, PilotParams, PilotResult,
};
use crate::colors::{hex_color, rgb_to_hex};
use crate::state::State;

verus! {

/// A command for the bulb worker.
#[derive(Debug, Clone, PartialEq)]
pub enum Cmd {
    Power(bool),
    Brightness(u8),
    Kelvin(u16),
    Rgb(u8, u8, u8),
    Scene(u32),
    /// Point the worker at a different bulb and re-poll immediately.
    SetIp(String),
    /// Poll the bulb now.
    Ping,
}

/// What the worker reports back to its front end.
#[derive(Debug, Clone)]
pub enum Event {
    Online { pilot: Box<PilotResult>, latency_ms: u32 },
    Offline(String),
}

/// Whether a later command supersedes an earlier one while a burst is
/// drained: same variant, except that retargets never merge.
pub open spec fn supersedes(a: Cmd, b: Cmd) -> bool {
    match (a, b) {
        (Cmd::Brightness(_), Cmd::Brightness(_)) => true,
        (Cmd::Kelvin(_), Cmd::Kelvin(_)) => true,
        (Cmd::Rgb(..), Cmd::Rgb(..)) => true,
        (Cmd::Power(_), Cmd::Power(_)) => true,
        (Cmd::Scene(_), Cmd::Scene(_)) => true,
        (Cmd::Ping, Cmd::Ping) => true,
        _ => false,
    }
}

impl Cmd {
    /// Commands of the same kind supersede each other while draining the queue.
    pub fn same_kind(&self, other: &Cmd) -> (b: bool)
        ensures
            b == supersedes(*self, *other),
    {
        match (self, other) {
            (Cmd::Brightness(_), Cmd::Brightness(_)) => true,
            (Cmd::Kelvin(_), Cmd::Kelvin(_)) => true,
            (Cmd::Rgb(..), Cmd::Rgb(..)) => true,
            (Cmd::Power(_), Cmd::Power(_)) => true,
            (Cmd::Scene(_), Cmd::Scene(_)) => true,
            (Cmd::Ping, Cmd::Ping) => true,
            _ => false,
        }
    }
}

/// Superseding is symmetric, and every command but a retarget supersedes its
/// own kind.
pub proof fn lemma_supersedes_symmetric(a: Cmd, b: Cmd)
    ensures
        supersedes(a, b) == supersedes(b, a),
        !(a is SetIp) ==> supersedes(a, a),
        a is SetIp ==> !supersedes(a, b),
{
}

/// The sending half of a channel (`std::sync::mpsc::Sender`).
#[verifier::external_type_specification]
#[verifier::external_body]
#[verifier::reject_recursive_types(T)]
pub struct ExSender<T>(std::sync::mpsc::Sender<T>);

/// The receiving half of a channel (`std::sync::mpsc::Receiver`).
#[verifier::external_type_specification]
#[verifier::external_body]
#[verifier::reject_recursive_types(T)]
pub struct ExReceiver<T>(std::sync::mpsc::Receiver<T>);

/// The front end's handle on the background worker thread: commands go out
/// on one channel, events come back on the other.
pub struct BulbWorker {
    tx: std::sync::mpsc::Sender<Cmd>,
    rx: std::sync::mpsc::Receiver<Event>,
}

impl BulbWorker {
    /// The channel end this handle sends commands on.
    pub closed spec fn commands(self) -> std::sync::mpsc::Sender<Cmd> {
        self.tx
    }

    /// The channel end this handle receives events on.
    pub closed spec fn events(self) -> std::sync::mpsc::Receiver<Event> {
        self.rx
    }

    /// A handle over the two channel ends shared with a running worker.
    pub fn from_channels(
        tx: std::sync::mpsc::Sender<Cmd>,
        rx: std::sync::mpsc::Receiver<Event>,
    ) -> (w: BulbWorker)
        ensures
            w.commands() == tx,
            w.events() == rx,
    {
        BulbWorker { tx, rx }
    }

    /// Queues a command for the worker (`Sender::send`); a worker that has
    /// stopped drops it. Nothing is claimed.
    #[verifier::external_body]
    pub fn send(&self, cmd: Cmd) {
        let _ = self.tx.send(cmd);
    }

    /// The next event the worker has reported, if one is waiting
    /// (`Receiver::try_recv`). Nothing is claimed of it.
    #[verifier::external_body]
    pub fn try_recv(&self) -> Option<Event> {
        self.rx.try_recv().ok()
    }
}

// ---------------------------------------------------------------------------
// Coalescing
// ---------------------------------------------------------------------------

/// Whether `c` is superseded within `rest`: a command of its kind follows
/// before the next retarget. A retarget is never superseded, and nothing
/// queued after a retarget supersedes what came before it.
pub open spec fn superseded_later(c: Cmd, rest: Seq<Cmd>) -> bool
    decreases rest.len(),
{
    if rest.len() == 0 {
        false
    } else if supersedes(c, rest[0]) {
        true
    } else if rest[0] is SetIp {
        false
    } else {
        superseded_later(c, rest.drop_first())
    }
}

/// The commands of a burst that get executed, in their queued order: each
/// one that no later command of its kind supersedes before the next
/// retarget, so that only the newest value of each kind is sent.
pub open spec fn executed(cmds: Seq<Cmd>) -> Seq<Cmd>
    decreases cmds.len(),
{
    if cmds.len() == 0 {
        cmds
    } else if superseded_later(cmds[0], cmds.drop_first()) {
        executed(cmds.drop_first())
    } else {
        seq![cmds[0]] + executed(cmds.drop_first())
    }
}

/// The newest command of a burst is always executed, and last.
pub proof fn lemma_executed_last(cmds: Seq<Cmd>)
    requires
        cmds.len() >= 1,
    ensures
        executed(cmds).len() >= 1,
        executed(cmds).last() == cmds.last(),
    decreases cmds.len(),
{
    let rest = cmds.drop_first();
    if cmds.len() == 1 {
        assert(executed(rest) =~= Seq::<Cmd>::empty());
        assert(seq![cmds[0]] + executed(rest) =~= seq![cmds[0]]);
    } else {
        lemma_executed_last(rest);
        assert(rest.last() == cmds.last());
    }
}

/// Every command that is executed was queued in the burst.
pub proof fn lemma_executed_queued(cmds: Seq<Cmd>, c: Cmd)
    requires
        executed(cmds).contains(c),
    ensures
        cmds.contains(c),
    decreases cmds.len(),
{
    let rest = cmds.drop_first();
    if cmds.len() > 0 {
        if superseded_later(cmds[0], rest) {
            lemma_executed_queued(rest, c);
            let k = choose|k: int| 0 <= k < rest.len() && rest[k] == c;
            assert(cmds[k + 1] == c);
        } else if c != cmds[0] {
            let e = executed(rest);
            let k = choose|k: int| 0 <= k < (seq![cmds[0]] + e).len() && (seq![cmds[0]] + e)[k] == c;
            assert(e[k - 1] == c);
            lemma_executed_queued(rest, c);
            let j = choose|j: int| 0 <= j < rest.len() && rest[j] == c;
            assert(cmds[j + 1] == c);
        } else {
            assert(cmds[0] == c);
        }
    }
}

/// Within a burst with no retarget, two executed commands are never of the
/// same kind: only the newest value of each kind is sent.
pub proof fn lemma_one_per_kind(cmds: Seq<Cmd>)
    requires
        forall|i: int| 0 <= i < cmds.len() ==> !(#[trigger] cmds[i] is SetIp),
    ensures
        forall|i: int, j: int|
            0 <= i < j < executed(cmds).len() ==> !supersedes(
                #[trigger] executed(cmds)[i],
                #[trigger] executed(cmds)[j],
            ),
    decreases cmds.len(),
{
    if cmds.len() > 0 {
        let rest = cmds.drop_first();
        assert forall|i: int| 0 <= i < rest.len() implies !(#[trigger] rest[i] is SetIp) by {
            assert(rest[i] == cmds[i + 1]);
        }
        lemma_one_per_kind(rest);
        if !superseded_later(cmds[0], rest) {
            let e = executed(rest);
            let all = seq![cmds[0]] + e;
            assert forall|i: int, j: int|
                0 <= i < j < all.len() implies !supersedes(#[trigger] all[i], #[trigger] all[j]) by {
                if i == 0 {
                    assert(all[j] == e[j - 1]);
                    assert(e.contains(e[j - 1]));
                    lemma_executed_queued(rest, e[j - 1]);
                    let k = choose|k: int| 0 <= k < rest.len() && rest[k] == e[j - 1];
                    lemma_not_superseded_anywhere(cmds[0], rest, k);
                } else {
                    assert(all[i] == e[i - 1] && all[j] == e[j - 1]);
                }
            }
        }
    }
}

/// With no retarget in `rest`, a command not superseded within it has no
/// command of its kind anywhere in it.
proof fn lemma_not_superseded_anywhere(c: Cmd, rest: Seq<Cmd>, k: int)
    requires
        !superseded_later(c, rest),
        0 <= k < rest.len(),
        forall|i: int| 0 <= i < rest.len() ==> !(#[trigger] rest[i] is SetIp),
    ensures
        !supersedes(c, rest[k]),
    decreases rest.len(),
{
    assert(!(rest[0] is SetIp));
    if k > 0 {
        let t = rest.drop_first();
        assert forall|i: int| 0 <= i < t.len() implies !(#[trigger] t[i] is SetIp) by {
            assert(t[i] == rest[i + 1]);
        }
        assert(t[k - 1] == rest[k]);
        lemma_not_superseded_anywhere(c, t, k - 1);
    }
}

/// With nothing in `rest` of `c`'s kind and no retarget, `c` is not
/// superseded within it.
proof fn lemma_not_superseded(c: Cmd, rest: Seq<Cmd>)
    requires
        forall|j: int| 0 <= j < rest.len() ==> !supersedes(c, #[trigger] rest[j]),
    ensures
        !superseded_later(c, rest),
    decreases rest.len(),
{
    if rest.len() > 0 {
        let t = rest.drop_first();
        assert(!supersedes(c, rest[0]));
        assert forall|j: int| 0 <= j < t.len() implies !supersedes(c, #[trigger] t[j]) by {
            assert(t[j] == rest[j + 1]);
        }
        lemma_not_superseded(c, t);
    }
}

/// The newest command of each kind in a burst is sent: a command that no
/// later command of its kind follows is executed. In a burst with no
/// retarget, `lemma_one_per_kind` adds that it is the only one of its kind
/// that is.
pub proof fn lemma_newest_of_each_kind_sent(cmds: Seq<Cmd>, i: int)
    requires
        0 <= i < cmds.len(),
        forall|j: int| i < j < cmds.len() ==> !supersedes(cmds[i], #[trigger] cmds[j]),
    ensures
        executed(cmds).contains(cmds[i]),
    decreases cmds.len(),
{
    let rest = cmds.drop_first();
    if i == 0 {
        assert forall|j: int| 0 <= j < rest.len() implies !supersedes(cmds[0], #[trigger] rest[j]) by {
            assert(rest[j] == cmds[j + 1]);
        }
        lemma_not_superseded(cmds[0], rest);
        assert((seq![cmds[0]] + executed(rest))[0] == cmds[0]);
    } else {
        assert forall|j: int| i - 1 < j < rest.len() implies !supersedes(
            rest[i - 1],
            #[trigger] rest[j],
        ) by {
            assert(rest[j] == cmds[j + 1]);
        }
        assert(rest[i - 1] == cmds[i]);
        lemma_newest_of_each_kind_sent(rest, i - 1);
        let e = executed(rest);
        let k = choose|k: int| 0 <= k < e.len() && e[k] == cmds[i];
        if !superseded_later(cmds[0], rest) {
            assert((seq![cmds[0]] + e)[k + 1] == cmds[i]);
        }
    }
}

/// A burst in which every command is of one kind (a slider drag, say) sends
/// only its newest command.
pub proof fn lemma_burst_of_one_kind(cmds: Seq<Cmd>)
    requires
        cmds.len() >= 1,
        forall|i: int| 0 <= i < cmds.len() - 1 ==> supersedes(#[trigger] cmds[i], cmds[i + 1]),
    ensures
        executed(cmds) == seq![cmds.last()],
    decreases cmds.len(),
{
    let rest = cmds.drop_first();
    if cmds.len() > 1 {
        assert forall|i: int| 0 <= i < rest.len() - 1 implies supersedes(
            #[trigger] rest[i],
            rest[i + 1],
        ) by {
            assert(rest[i] == cmds[i + 1] && rest[i + 1] == cmds[i + 2]);
        }
        lemma_burst_of_one_kind(rest);
        assert(supersedes(cmds[0], cmds[1]));
        assert(rest[0] == cmds[1]);
        assert(superseded_later(cmds[0], rest));
        assert(rest.last() == cmds.last());
    } else {
        assert(executed(rest) =~= Seq::<Cmd>::empty());
        assert(seq![cmds[0]] + executed(rest) =~= seq![cmds.last()]);
    }
}

/// Whether `c` is superseded within `rest` (see `superseded_later`).
fn superseded_in(c: &Cmd, rest: &Vec<Cmd>) -> (b: bool)
    ensures
        b == superseded_later(*c, rest@),
{
    let mut j: usize = 0;
    assert(rest@.subrange(0, rest.len() as int) =~= rest@);
    while j < rest.len()
        invariant
            j <= rest.len(),
            superseded_later(*c, rest@) == superseded_later(*c, rest@.subrange(j as int, rest.len() as int)),
        decreases rest.len() - j,
    {
        let ghost tail = rest@.subrange(j as int, rest.len() as int);
        assert(tail[0] == rest@[j as int]);
        assert(tail.drop_first() =~= rest@.subrange(j + 1, rest.len() as int));
        if c.same_kind(&rest[j]) {
            return true;
        }
        match &rest[j] {
            Cmd::SetIp(_) => {
                return false;
            },
            _ => {},
        }
        j = j + 1;
    }
    assert(rest@.subrange(j as int, rest.len() as int).len() == 0);
    false
}

/// Drains a burst of commands, returning those to execute in order: each
/// command unless a later one of its kind comes before the next retarget.
pub fn coalesce_burst(cmds: Vec<Cmd>) -> (r: Vec<Cmd>)
    ensures
        r@ == executed(cmds@),
{
    let ghost all = cmds@;
    let mut out: Vec<Cmd> = Vec::new();
    let mut rest = cmds;
    while rest.len() > 0
        invariant
            out@ + executed(rest@) == executed(all),
        decreases rest.len(),
    {
        let ghost before = rest@;
        let c = rest.remove(0);
        assert(rest@ =~= before.drop_first());
        assert(c == before[0]);
        if !superseded_in(&c, &rest) {
            let ghost o = out@;
            out.push(c);
            assert(o + (seq![c] + executed(rest@)) =~= out@ + executed(rest@));
        }
    }
    assert(executed(rest@) =~= Seq::<Cmd>::empty());
    assert(out@ + executed(rest@) =~= out@);
    out
}

// ---------------------------------------------------------------------------
// What each command sends
// ---------------------------------------------------------------------------

/// The effect of executing one command.
#[derive(Debug, Clone)]
pub enum CmdEffect {
    /// Send these `setPilot` parameters.
    Pilot(PilotParams),
    /// Send this color, split into the bulb's five-channel mix.
    Color(u8, u8, u8),
    /// Target this bulb address from now on.
    Retarget(String),
    /// Nothing to send.
    Idle,
}

impl Cmd {
    /// What executing the command does: power, brightness (as the clamped
    /// dimming percentage), white temperature (held within 2200K..=6500K) and
    /// scene go out as `setPilot` parameters, a color as its channel mix, a
    /// retarget switches bulbs, and a ping sends nothing.
    pub fn effect(self) -> (e: CmdEffect)
        ensures
            match self {
                Cmd::Power(on) => e == CmdEffect::Pilot(PilotParams { state: Some(on), ..no_params() }),
                Cmd::Brightness(b) => e == CmdEffect::Pilot(
                    PilotParams {
                        state: Some(true),
                        dimming: Some(byte_to_dimming(b as int) as u8),
                        ..no_params()
                    },
                ),
                Cmd::Kelvin(k) => e == CmdEffect::Pilot(
                    PilotParams {
                        state: Some(true),
                        temp: Some(clamp_white(k as int) as u16),
                        ..no_params()
                    },
                ),
                Cmd::Rgb(r, g, b) => e == CmdEffect::Color(r, g, b),
                Cmd::Scene(id) => e == CmdEffect::Pilot(
                    PilotParams { state: Some(true), scene_id: Some(id), ..no_params() },
                ),
                Cmd::SetIp(ip) => e matches CmdEffect::Retarget(t) && t@ == ip@,
                Cmd::Ping => e == CmdEffect::Idle,
            },
    {
        match self {
            Cmd::Power(on) => CmdEffect::Pilot(power_params(on)),
            Cmd::Brightness(b) => CmdEffect::Pilot(brightness_params(b)),
            Cmd::Kelvin(k) => CmdEffect::Pilot(temperature_params(k)),
            Cmd::Rgb(r, g, b) => CmdEffect::Color(r, g, b),
            Cmd::Scene(id) => CmdEffect::Pilot(scene_params(id)),
            Cmd::SetIp(ip) => CmdEffect::Retarget(ip),
            Cmd::Ping => CmdEffect::Idle,
        }
    }
}

// ---------------------------------------------------------------------------
// Re-poll schedule
// ---------------------------------------------------------------------------

/// Idle re-poll cadence while the bulb answers, in milliseconds.
pub open spec fn ping_interval_ms() -> int {
    10_000
}

/// Re-poll delay after `failures` consecutive failed polls (at least one):
/// 6 s, 12 s, 20 s, then 30 s from the fourth failure on.
pub open spec fn backoff_ms(failures: int) -> int {
    if failures <= 1 {
        6_000
    } else if failures == 2 {
        12_000
    } else if failures == 3 {
        20_000
    } else {
        30_000
    }
}

/// Delay before the next poll once a drained burst ended with `last`: at
/// once after a ping or a retarget, else a 1.2 s settle delay before
/// confirming the command against the bulb.
pub fn poll_delay_after(last: &Cmd) -> (ms: u64)
    ensures
        ms == (if last is Ping || last is SetIp {
            0u64
        } else {
            1200u64
        }),
{
    match last {
        Cmd::Ping => 0,
        Cmd::SetIp(_) => 0,
        _ => 1200,
    }
}

/// Delay before the worker's first poll, in milliseconds: it polls at once.
pub open spec fn first_poll_ms() -> int {
    0
}

/// The delay before the worker's first poll (see `first_poll_ms`).
pub fn first_poll_delay() -> (ms: u64)
    ensures
        ms == first_poll_ms(),
{
    0
}

/// The latency a poll reports: its round trip in milliseconds, at most 9999.
pub open spec fn capped_latency(elapsed_ms: int) -> int {
    if elapsed_ms > 9999 {
        9999
    } else {
        elapsed_ms
    }
}

/// What the worker reports of a poll that took `elapsed_ms`: the bulb's
/// report with the capped latency when it answered, else the failure's
/// message.
pub fn poll_event(outcome: Result<PilotResult, String>, elapsed_ms: u128) -> (e: Event)
    ensures
        match outcome {
            Ok(p) => e matches Event::Online { pilot, latency_ms } && *pilot == p && latency_ms
                == capped_latency(elapsed_ms as int),
            Err(m) => e matches Event::Offline(n) && n@ == m@,
        },
{
    match outcome {
        Ok(p) => {
            let latency_ms: u32 = if elapsed_ms > 9999 {
                9999
            } else {
                elapsed_ms as u32
            };
            Event::Online { pilot: Box::new(p), latency_ms }
        },
        Err(m) => Event::Offline(m),
    }
}

/// The failure count and re-poll delay after a poll, from `failures`
/// consecutive failures before it (the count saturates at `usize::MAX`).
pub open spec fn poll_step(failures: int, ok: bool) -> (int, int) {
    if ok {
        (0, ping_interval_ms())
    } else {
        let f = if failures >= usize::MAX {
            failures
        } else {
            failures + 1
        };
        (f, backoff_ms(f))
    }
}

/// The failure count and the re-poll delays after each of a series of polls
/// with outcomes `outcomes` (true for an answer), starting with no failure.
pub open spec fn poll_series(outcomes: Seq<bool>) -> (int, Seq<int>)
    decreases outcomes.len(),
{
    if outcomes.len() == 0 {
        (0, Seq::empty())
    } else {
        let (f, delays) = poll_series(outcomes.drop_last());
        let (g, d) = poll_step(f, outcomes.last());
        (g, delays.push(d))
    }
}

/// How many polls at the end of `outcomes` failed in a row.
pub open spec fn failure_run(outcomes: Seq<bool>) -> int
    decreases outcomes.len(),
{
    if outcomes.len() == 0 || outcomes.last() {
        0
    } else {
        failure_run(outcomes.drop_last()) + 1
    }
}

/// The re-poll schedule: after each answered poll the next comes 10 s later
/// and the failure count is reset; after the k-th failure in a row it comes
/// 6, 12, 20 s later, then 30 s from the fourth on.
pub proof fn lemma_poll_schedule(outcomes: Seq<bool>)
    requires
        outcomes.len() < usize::MAX,
    ensures
        poll_series(outcomes).0 == failure_run(outcomes),
        poll_series(outcomes).1.len() == outcomes.len(),
        forall|k: int|
            0 <= k < outcomes.len() ==> #[trigger] poll_series(outcomes).1[k] == if outcomes[k] {
                ping_interval_ms()
            } else {
                backoff_ms(failure_run(outcomes.take(k + 1)))
            },
    decreases outcomes.len(),
{
    if outcomes.len() > 0 {
        let init = outcomes.drop_last();
        lemma_poll_schedule(init);
        lemma_failure_run_bound(init);
        let n = outcomes.len() - 1;
        assert(outcomes.take(n + 1) =~= outcomes);
        assert(outcomes[n] == outcomes.last());
        assert forall|k: int| 0 <= k < outcomes.len() implies #[trigger] poll_series(outcomes).1[k]
            == if outcomes[k] {
            ping_interval_ms()
        } else {
            backoff_ms(failure_run(outcomes.take(k + 1)))
        } by {
            if k < n {
                assert(outcomes.take(k + 1) =~= init.take(k + 1));
                assert(outcomes[k] == init[k]);
                assert(poll_series(outcomes).1[k] == poll_series(init).1[k]);
            }
        }
    }
}

proof fn lemma_failure_run_bound(outcomes: Seq<bool>)
    ensures
        0 <= failure_run(outcomes) <= outcomes.len(),
    decreases outcomes.len(),
{
    if outcomes.len() > 0 {
        lemma_failure_run_bound(outcomes.drop_last());
    }
}

/// The failure count and re-poll delay after a poll: success resets the
/// count and waits the idle interval; a failure counts up (saturating) and
/// backs off.
pub fn after_poll(failures: usize, ok: bool) -> (r: (usize, u64))
    ensures
        (r.0 as int, r.1 as int) == poll_step(failures as int, ok),
        ok ==> r.0 == 0 && r.1 == ping_interval_ms(),
        !ok ==> r.0 == (if failures == usize::MAX {
            failures as int
        } else {
            failures + 1
        }) && r.1 == backoff_ms(r.0 as int),
{
    if ok {
        (0, 10_000)
    } else {
        let f = if failures == usize::MAX {
            failures
        } else {
            failures + 1
        };
        let delay: u64 = if f <= 1 {
            6_000
        } else if f == 2 {
            12_000
        } else if f == 3 {
            20_000
        } else {
            30_000
        };
        (f, delay)
    }
}

/// Backoff never shrinks as failures accumulate and stays within 6..=30 s.
pub proof fn lemma_backoff_monotone(a: int, b: int)
    requires
        1 <= a <= b,
    ensures
        backoff_ms(a) <= backoff_ms(b),
        6_000 <= backoff_ms(b) <= 30_000,
{
}

// ---------------------------------------------------------------------------
// Adopting a bulb report
// ---------------------------------------------------------------------------

pub open spec fn triple_array(t: (u8, u8, u8)) -> [u8; 3] {
    [t.0, t.1, t.2]
}

pub open spec fn hex_of_triple(t: (u8, u8, u8)) -> Seq<char> {
    hex_color(t.0, t.1, t.2)
}

/// The brightness a report sets, at least 1.
pub open spec fn reported_brightness(p: PilotResult) -> Option<u8> {
    match p.dimming {
        Some(d) => {
            let b = percent_to_byte(d as int);
            Some(if b == 0 {
                1u8
            } else {
                b as u8
            })
        },
        None => None,
    }
}

/// How the popover folds a bulb report into its state. `readback` is the
/// displayed color recovered from the report's channels and `own_pick`
/// whether those channels are exactly what the state's current color sends.
/// Power and brightness (at least 1) follow the report; a non-zero white
/// temperature switches to Kelvin mode, otherwise a reported color switches
/// to color mode, adopting it unless it is the state's own pick; a non-zero
/// scene id switches to scene mode.
pub open spec fn popover_adopted(
    before: State,
    p: PilotResult,
    readback: Option<(u8, u8, u8)>,
    own_pick: bool,
    after: State,
) -> bool {
    let kelvin_report = p.temp matches Some(k) && k > 0;
    let color_report = !kelvin_report && readback is Some;
    let takes_color = color_report && !own_pick;
    let scene_report = p.scene_id matches Some(s) && s != 0;
    &&& after.ip == before.ip
    &&& after.power == (match p.state {
        Some(on) => on,
        None => before.power,
    })
    &&& after.brightness == (match reported_brightness(p) {
        Some(b) => b,
        None => before.brightness,
    })
    &&& after.kelvin == (if kelvin_report {
        p.temp->0
    } else {
        before.kelvin
    })
    &&& after.rgb == (if takes_color {
        triple_array(readback->0)
    } else {
        before.rgb
    })
    &&& after.hex@ == (if takes_color {
        hex_of_triple(readback->0)
    } else {
        before.hex@
    })
    &&& after.scene_id == (if scene_report {
        p.scene_id->0
    } else {
        before.scene_id
    })
    &&& after.mode@ == (if scene_report {
        "scene"@
    } else if kelvin_report {
        "kelvin"@
    } else if color_report {
        "color"@
    } else {
        before.mode@
    })
    &&& after.recent_colors == before.recent_colors
    &&& after.restore_on_reconnect == before.restore_on_reconnect
}

/// A scene reported by the bulb (a non-zero scene id, set from the phone app
/// say) is taken over by the popover: the state then runs that scene, in
/// scene mode. A reported power state is taken over too.
pub proof fn lemma_popover_takes_reported_scene(
    before: State,
    p: PilotResult,
    readback: Option<(u8, u8, u8)>,
    own_pick: bool,
    after: State,
    s: u32,
)
    requires
        popover_adopted(before, p, readback, own_pick, after),
        p.scene_id == Some(s),
        s != 0,
    ensures
        after.scene_id == s,
        after.mode@ == "scene"@,
        p.state matches Some(on) ==> after.power == on,
{
}

/// Folds a bulb report into the popover's state.
pub fn adopt_report_popover(
    state: &mut State,
    pilot: &PilotResult,
    readback: Option<(u8, u8, u8)>,
    own_pick: bool,
)
    ensures
        popover_adopted(*old(state), *pilot, readback, own_pick, *final(state)),
{
    if let Some(on) = pilot.state {
        state.power = on;
    }
    if let Some(b) = pilot.brightness_255() {
        state.brightness = if b == 0 {
            1
        } else {
            b
        };
    }
    let kelvin_report = match pilot.temp {
        Some(k) => k > 0,
        None => false,
    };
    if kelvin_report {
        state.kelvin = match pilot.temp {
            Some(k) => k,
            None => state.kelvin,
        };
        state.mode = String::from_str("kelvin");
    } else if let Some((r, g, b)) = readback {
        if !own_pick {
            state.rgb = [r, g, b];
            state.hex = rgb_to_hex(r, g, b);
        }
        state.mode = String::from_str("color");
    }
    if let Some(sid) = pilot.scene_id {
        if sid != 0 {
            state.scene_id = sid;
            state.mode = String::from_str("scene");
        }
    }
}

/// How the studio folds a bulb report into its state (when it is not
/// restoring its saved preset). Power follows the report (absent means off),
/// brightness is at least 1; a non-zero scene id switches to scene mode; a
/// reported color is adopted unless it is the state's own pick and switches
/// to color mode when no scene is reported; a non-zero white temperature is
/// recorded and switches to Kelvin mode only when neither a scene nor a color
/// is reported.
pub open spec fn studio_adopted(
    before: State,
    p: PilotResult,
    readback: Option<(u8, u8, u8)>,
    own_pick: bool,
    after: State,
) -> bool {
    let scene_report = p.scene_id matches Some(s) && s != 0;
    let takes_color = readback is Some && !own_pick;
    let kelvin_report = p.temp matches Some(k) && k > 0;
    &&& after.ip == before.ip
    &&& after.power == (p.state == Some(true))
    &&& after.brightness == (match reported_brightness(p) {
        Some(b) => b,
        None => before.brightness,
    })
    &&& after.scene_id == (if scene_report {
        p.scene_id->0
    } else {
        before.scene_id
    })
    &&& after.rgb == (if takes_color {
        triple_array(readback->0)
    } else {
        before.rgb
    })
    &&& after.hex@ == (if takes_color {
        hex_of_triple(readback->0)
    } else {
        before.hex@
    })
    &&& after.kelvin == (if kelvin_report {
        p.temp->0
    } else {
        before.kelvin
    })
    &&& after.mode@ == (if scene_report {
        "scene"@
    } else if readback is Some {
        "color"@
    } else if kelvin_report {
        "kelvin"@
    } else {
        before.mode@
    })
    &&& after.recent_colors == before.recent_colors
    &&& after.restore_on_reconnect == before.restore_on_reconnect
}

/// The studio takes over a reported scene the same way, and shows the bulb
/// on exactly when the report says it is on.
pub proof fn lemma_studio_takes_reported_scene(
    before: State,
    p: PilotResult,
    readback: Option<(u8, u8, u8)>,
    own_pick: bool,
    after: State,
    s: u32,
)
    requires
        studio_adopted(before, p, readback, own_pick, after),
        p.scene_id == Some(s),
        s != 0,
    ensures
        after.scene_id == s,
        after.mode@ == "scene"@,
        after.power <==> p.state == Some(true),
{
}

/// Folds a bulb report into the studio's state.
pub fn adopt_report_studio(
    state: &mut State,
    pilot: &PilotResult,
    readback: Option<(u8, u8, u8)>,
    own_pick: bool,
)
    ensures
        studio_adopted(*old(state), *pilot, readback, own_pick, *final(state)),
{
    state.power = pilot.is_on();
    if let Some(b) = pilot.brightness_255() {
        state.brightness = if b == 0 {
            1
        } else {
            b
        };
    }
    let scene_id = match pilot.scene_id {
        Some(s) => s,
        None => 0,
    };
    if scene_id != 0 {
        state.scene_id = scene_id;
        state.mode = String::from_str("scene");
    }
    if let Some((r, g, b)) = readback {
        if !own_pick {
            state.rgb = [r, g, b];
            state.hex = rgb_to_hex(r, g, b);
        }
        if scene_id == 0 {
            state.mode = String::from_str("color");
        }
    }
    if let Some(k) = pilot.temp {
        if k > 0 {
            state.kelvin = k;
            if readback.is_none() && scene_id == 0 {
                state.mode = String::from_str("kelvin");
            }
        }
    }
}

/// The commands that re-push a saved preset to a bulb that came back
/// online: its power, then its scene, white temperature or color by mode,
/// then its brightness (at least 1).
pub open spec fn restore_sequence(s: State) -> Seq<Cmd> {
    let by_mode = if s.mode@ == "scene"@ {
        Cmd::Scene(s.scene_id)
    } else if s.mode@ == "kelvin"@ {
        Cmd::Kelvin(s.kelvin)
    } else {
        Cmd::Rgb(s.rgb[0], s.rgb[1], s.rgb[2])
    };
    seq![
        Cmd::Power(s.power),
        by_mode,
        Cmd::Brightness(if s.brightness == 0 {
            1u8
        } else {
            s.brightness
        }),
    ]
}

/// The commands that re-push a saved preset to the bulb.
pub fn restore_commands(state: &State) -> (cmds: Vec<Cmd>)
    ensures
        cmds@ == restore_sequence(*state),
{
    let by_mode = if crate::text::str_is(&state.mode, "scene") {
        Cmd::Scene(state.scene_id)
    } else if crate::text::str_is(&state.mode, "kelvin") {
        Cmd::Kelvin(state.kelvin)
    } else {
        Cmd::Rgb(state.rgb[0], state.rgb[1], state.rgb[2])
    };
    let b = if state.brightness == 0 {
        1
    } else {
        state.brightness
    };
    let v = vec![Cmd::Power(state.power), by_mode, Cmd::Brightness(b)];
    assert(v@ =~= restore_sequence(*state));
    v
}

} // verus!
