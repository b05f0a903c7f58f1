//! The command line: options, the subcommand and its argument.

use vstd::prelude::*;

use crate::state::{spec_validate_ip, validate_ip};
use crate::text::{chars_of, parse_unsigned, parse_unsigned_chars, str_is, string_of};

verus! {

/// A subcommand with its argument.
#[derive(Debug, Clone)]
pub enum Command {
    /// The compact panel popover; `click` when started by a panel click.
    Widget { click: bool },
    Studio,
    On,
    Off,
    Toggle,
    Status,
    Color(String),
    Brightness(String),
    Kelvin(String),
    Scene(String),
    Scenes,
    /// Show the WiZclick modes, or activate one.
    WizClick(Option<u32>),
    Genmon,
}

/// What a command line asks for.
#[derive(Debug, Clone)]
pub enum Cli {
    Help,
    Version,
    /// Run a subcommand against the bulb at `ip`.
    Run { ip: String, command: Command },
}

/// `Command` with its text arguments as character sequences.
pub enum CommandModel {
    Widget(bool),
    Studio,
    On,
    Off,
    Toggle,
    Status,
    Color(Seq<char>),
    Brightness(Seq<char>),
    Kelvin(Seq<char>),
    Scene(Seq<char>),
    Scenes,
    WizClick(Option<u32>),
    Genmon,
}

/// `Cli` with its text as character sequences.
pub enum CliModel {
    Help,
    Version,
    Run(Seq<char>, CommandModel),
}

pub open spec fn command_model(c: Command) -> CommandModel {
    match c {
        Command::Widget { click } => CommandModel::Widget(click),
        Command::Studio => CommandModel::Studio,
        Command::On => CommandModel::On,
        Command::Off => CommandModel::Off,
        Command::Toggle => CommandModel::Toggle,
        Command::Status => CommandModel::Status,
        Command::Color(v) => CommandModel::Color(v@),
        Command::Brightness(v) => CommandModel::Brightness(v@),
        Command::Kelvin(v) => CommandModel::Kelvin(v@),
        Command::Scene(v) => CommandModel::Scene(v@),
        Command::Scenes => CommandModel::Scenes,
        Command::WizClick(m) => CommandModel::WizClick(m),
        Command::Genmon => CommandModel::Genmon,
    }
}

pub open spec fn cli_model(c: Cli) -> CliModel {
    match c {
        Cli::Help => CliModel::Help,
        Cli::Version => CliModel::Version,
        Cli::Run { ip, command } => CliModel::Run(ip@, command_model(command)),
    }
}

/// The subcommand named by the first positional argument (`widget` when
/// there is none), with its argument taken from the second.
pub open spec fn spec_command(click: bool, pos: Seq<Seq<char>>) -> Result<CommandModel, Seq<char>> {
    let name = if pos.len() > 0 {
        pos[0]
    } else {
        "widget"@
    };
    let has_value = pos.len() > 1;
    if name == "widget"@ {
        Ok(CommandModel::Widget(click))
    } else if name == "gui"@ || name == "studio"@ {
        Ok(CommandModel::Studio)
    } else if name == "on"@ {
        Ok(CommandModel::On)
    } else if name == "off"@ {
        Ok(CommandModel::Off)
    } else if name == "toggle"@ {
        Ok(CommandModel::Toggle)
    } else if name == "status"@ {
        Ok(CommandModel::Status)
    } else if name == "color"@ {
        if has_value {
            Ok(CommandModel::Color(pos[1]))
        } else {
            Err("color command requires a value (e.g. red, #ff5500, or 255,128,0)"@)
        }
    } else if name == "brightness"@ {
        if has_value {
            Ok(CommandModel::Brightness(pos[1]))
        } else {
            Err("brightness command requires a value (0-255 or 0%-100%)"@)
        }
    } else if name == "kelvin"@ {
        if has_value {
            Ok(CommandModel::Kelvin(pos[1]))
        } else {
            Err("kelvin command requires a temperature (e.g. 2700, 4000K)"@)
        }
    } else if name == "scene"@ {
        if has_value {
            Ok(CommandModel::Scene(pos[1]))
        } else {
            Err("scene command requires a scene name or ID (e.g. cozy, sunset)"@)
        }
    } else if name == "scenes"@ {
        Ok(CommandModel::Scenes)
    } else if name == "wizclick"@ {
        if has_value {
            match parse_unsigned(pos[1], 0xffff_ffff) {
                Some(m) => Ok(CommandModel::WizClick(Some(m as u32))),
                None => Err("invalid WiZclick mode '"@ + pos[1] + "'"@),
            }
        } else {
            Ok(CommandModel::WizClick(None))
        }
    } else if name == "genmon"@ {
        Ok(CommandModel::Genmon)
    } else {
        Err("unknown command '"@ + name + "'. Run 'wizctl --help' for usage."@)
    }
}

/// The arguments from index `i` on, read with the bulb address `ip`, the
/// `--click` flag `click` and the positional arguments `pos` seen so far:
/// `-h`/`--help` and `-v`/`--version` end the reading, `-i`/`--ip <IP>` and
/// `--ip=<IP>` set a validated address, anything else is positional.
pub open spec fn scan_args(
    args: Seq<Seq<char>>,
    i: int,
    ip: Seq<char>,
    click: bool,
    pos: Seq<Seq<char>>,
) -> Result<CliModel, Seq<char>>
    decreases args.len() - i,
{
    if i < 0 || i >= args.len() {
        match spec_command(click, pos) {
            Ok(c) => Ok(CliModel::Run(ip, c)),
            Err(e) => Err(e),
        }
    } else {
        let a = args[i];
        if a == "-h"@ || a == "--help"@ {
            Ok(CliModel::Help)
        } else if a == "-v"@ || a == "--version"@ {
            Ok(CliModel::Version)
        } else if a == "-i"@ || a == "--ip"@ {
            if i + 1 < args.len() {
                match spec_validate_ip(args[i + 1]) {
                    Ok(v) => scan_args(args, i + 2, v, click, pos),
                    Err(e) => Err(e),
                }
            } else {
                Err("option '--ip' requires an argument"@)
            }
        } else if a == "--click"@ {
            scan_args(args, i + 1, ip, true, pos)
        } else if a.len() >= 5 && a.take(5) == "--ip="@ {
            match spec_validate_ip(a.skip(5)) {
                Ok(v) => scan_args(args, i + 1, v, click, pos),
                Err(e) => Err(e),
            }
        } else {
            scan_args(args, i + 1, ip, click, pos.push(a))
        }
    }
}

/// What the command line `args` (program name excluded) asks for, with
/// `default_ip` as the bulb address unless an option sets one.
pub open spec fn spec_parse_cli(args: Seq<Seq<char>>, default_ip: Seq<char>) -> Result<
    CliModel,
    Seq<char>,
> {
    scan_args(args, 0, default_ip, false, Seq::empty())
}

/// An argument that is no option: it does not start with `-`.
pub open spec fn plain_arg(a: Seq<char>) -> bool {
    a.len() > 0 && a[0] != '-'
}

/// Arguments that are no options are all taken as positional, in order.
proof fn lemma_scan_plain(
    args: Seq<Seq<char>>,
    i: int,
    ip: Seq<char>,
    click: bool,
    pos: Seq<Seq<char>>,
)
    requires
        0 <= i <= args.len(),
        forall|k: int| i <= k < args.len() ==> plain_arg(#[trigger] args[k]),
    ensures
        scan_args(args, i, ip, click, pos) == match spec_command(
            click,
            pos + args.subrange(i, args.len() as int),
        ) {
            Ok(c) => Ok::<CliModel, Seq<char>>(CliModel::Run(ip, c)),
            Err(e) => Err(e),
        },
    decreases args.len() - i,
{
    if i == args.len() {
        assert(pos + args.subrange(i, args.len() as int) =~= pos);
    } else {
        reveal_strlit("-h");
        reveal_strlit("--help");
        reveal_strlit("-v");
        reveal_strlit("--version");
        reveal_strlit("-i");
        reveal_strlit("--ip");
        reveal_strlit("--click");
        reveal_strlit("--ip=");
        let a = args[i];
        assert(plain_arg(a));
        assert(a != "-h"@ && a != "--help"@ && a != "-v"@ && a != "--version"@);
        assert(a != "-i"@ && a != "--ip"@ && a != "--click"@);
        assert(a.len() >= 5 ==> a.take(5)[0] == a[0]);
        assert(a.len() >= 5 ==> a.take(5) != "--ip="@);
        lemma_scan_plain(args, i + 1, ip, click, pos.push(a));
        assert(pos.push(a) + args.subrange(i + 1, args.len() as int) =~= pos + args.subrange(
            i,
            args.len() as int,
        ));
    }
}

/// Each power subcommand does its own thing: with no options, `on` turns the
/// bulb on, `off` turns it off, `toggle` toggles it and `status` reports it,
/// at the default address, whatever follows the name.
pub proof fn lemma_power_subcommands(args: Seq<Seq<char>>, ip: Seq<char>)
    requires
        args.len() >= 1,
        forall|k: int| 0 <= k < args.len() ==> plain_arg(#[trigger] args[k]),
    ensures
        args[0] == "on"@ ==> spec_parse_cli(args, ip) == Ok::<CliModel, Seq<char>>(
            CliModel::Run(ip, CommandModel::On),
        ),
        args[0] == "off"@ ==> spec_parse_cli(args, ip) == Ok::<CliModel, Seq<char>>(
            CliModel::Run(ip, CommandModel::Off),
        ),
        args[0] == "toggle"@ ==> spec_parse_cli(args, ip) == Ok::<CliModel, Seq<char>>(
            CliModel::Run(ip, CommandModel::Toggle),
        ),
        args[0] == "status"@ ==> spec_parse_cli(args, ip) == Ok::<CliModel, Seq<char>>(
            CliModel::Run(ip, CommandModel::Status),
        ),
{
    lemma_scan_plain(args, 0, ip, false, Seq::empty());
    let p = Seq::<Seq<char>>::empty() + args.subrange(0, args.len() as int);
    assert(p =~= args);
    reveal_strlit("widget");
    reveal_strlit("gui");
    reveal_strlit("studio");
    reveal_strlit("on");
    reveal_strlit("off");
    reveal_strlit("toggle");
    reveal_strlit("status");
    let n = args[0];
    if n == "on"@ || n == "off"@ || n == "toggle"@ || n == "status"@ {
        assert(n != "widget"@ && n != "gui"@ && n != "studio"@);
    }
    if n == "off"@ || n == "toggle"@ || n == "status"@ {
        assert(n != "on"@);
    }
    if n == "toggle"@ || n == "status"@ {
        assert(n != "off"@);
    }
    if n == "status"@ {
        assert(n != "toggle"@);
    }
}

fn command_from(click: bool, pos: &Vec<String>) -> (r: Result<Command, String>)
    ensures
        match (r, spec_command(click, pos@.map_values(|s: String| s@))) {
            (Ok(c), Ok(m)) => command_model(c) == m,
            (Err(e), Err(m)) => e@ == m,
            _ => false,
        },
{
    let ghost p = pos@.map_values(|s: String| s@);
    let widget = String::from_str("widget");
    let name: &String = if pos.len() > 0 {
        &pos[0]
    } else {
        &widget
    };
    assert(name@ == (if p.len() > 0 {
        p[0]
    } else {
        "widget"@
    }));
    let value: Option<String> = if pos.len() > 1 {
        Some(pos[1].clone())
    } else {
        None
    };
    assert(pos.len() > 1 ==> (value matches Some(v) && v@ == p[1])) by {
        if pos.len() > 1 {
            assert(p[1] == pos@[1]@);
        }
    }
    if str_is(name, "widget") {
        Ok(Command::Widget { click })
    } else if str_is(name, "gui") || str_is(name, "studio") {
        Ok(Command::Studio)
    } else if str_is(name, "on") {
        Ok(Command::On)
    } else if str_is(name, "off") {
        Ok(Command::Off)
    } else if str_is(name, "toggle") {
        Ok(Command::Toggle)
    } else if str_is(name, "status") {
        Ok(Command::Status)
    } else if str_is(name, "color") {
        match value {
            Some(v) => Ok(Command::Color(v)),
            None => Err(
                String::from_str("color command requires a value (e.g. red, #ff5500, or 255,128,0)"),
            ),
        }
    } else if str_is(name, "brightness") {
        match value {
            Some(v) => Ok(Command::Brightness(v)),
            None => Err(String::from_str("brightness command requires a value (0-255 or 0%-100%)")),
        }
    } else if str_is(name, "kelvin") {
        match value {
            Some(v) => Ok(Command::Kelvin(v)),
            None => Err(String::from_str("kelvin command requires a temperature (e.g. 2700, 4000K)")),
        }
    } else if str_is(name, "scene") {
        match value {
            Some(v) => Ok(Command::Scene(v)),
            None => Err(
                String::from_str("scene command requires a scene name or ID (e.g. cozy, sunset)"),
            ),
        }
    } else if str_is(name, "scenes") {
        Ok(Command::Scenes)
    } else if str_is(name, "wizclick") {
        match value {
            Some(v) => {
                let digits = chars_of(v.as_str());
                match parse_unsigned_chars(&digits, 0xffff_ffff) {
                    Some(m) => Ok(Command::WizClick(Some(m as u32))),
                    None => {
                        let mut e = String::from_str("invalid WiZclick mode '");
                        e.append(v.as_str());
                        e.append("'");
                        Err(e)
                    },
                }
            },
            None => Ok(Command::WizClick(None)),
        }
    } else if str_is(name, "genmon") {
        Ok(Command::Genmon)
    } else {
        let mut e = String::from_str("unknown command '");
        e.append(name.as_str());
        e.append("'. Run 'wizctl --help' for usage.");
        Err(e)
    }
}

/// Whether `a` starts with `--ip=`, and what follows it.
fn ip_assignment(a: &String) -> (r: Option<String>)
    ensures
        match r {
            Some(v) => (a@.len() >= 5 && a@.take(5) == "--ip="@ && v@ == a@.skip(5)),
            None => !(a@.len() >= 5 && a@.take(5) == "--ip="@),
        },
{
    let v = chars_of(a.as_str());
    let prefix = chars_of("--ip=");
    proof {
        reveal_strlit("--ip=");
    }
    assert(prefix.len() == 5);
    if v.len() < 5 {
        return None;
    }
    let mut i: usize = 0;
    while i < 5
        invariant
            i <= 5 <= v.len(),
            prefix@ == "--ip="@,
            prefix.len() == 5,
            v@ == a@,
            forall|j: int| 0 <= j < i ==> v@[j] == prefix@[j],
        decreases 5 - i,
    {
        if v[i] != prefix[i] {
            assert(a@.take(5)[i as int] != "--ip="@[i as int]);
            return None;
        }
        i = i + 1;
    }
    assert(a@.take(5) =~= "--ip="@);
    let mut rest: Vec<char> = Vec::new();
    let mut k: usize = 5;
    while k < v.len()
        invariant
            5 <= k <= v.len(),
            v@ == a@,
            rest@ == v@.subrange(5, k as int),
        decreases v.len() - k,
    {
        rest.push(v[k]);
        k = k + 1;
        assert(rest@ =~= v@.subrange(5, k as int));
    }
    assert(rest@ =~= a@.skip(5));
    Some(string_of(&rest))
}

/// Reads the command line `args` (program name excluded); the bulb address
/// is `default_ip` unless an option sets one. Errors carry the message to
/// print.
pub fn parse_cli(args: &Vec<String>, default_ip: String) -> (r: Result<Cli, String>)
    ensures
        match (r, spec_parse_cli(args@.map_values(|s: String| s@), default_ip@)) {
            (Ok(c), Ok(m)) => cli_model(c) == m,
            (Err(e), Err(m)) => e@ == m,
            _ => false,
        },
{
    let ghost all = args@.map_values(|s: String| s@);
    let mut ip = default_ip;
    let mut click = false;
    let mut pos: Vec<String> = Vec::new();
    let mut i: usize = 0;
    assert(pos@.map_values(|s: String| s@) =~= Seq::<Seq<char>>::empty());
    while i < args.len()
        invariant
            i <= args.len(),
            all == args@.map_values(|s: String| s@),
            scan_args(all, i as int, ip@, click, pos@.map_values(|s: String| s@)) == spec_parse_cli(
                all,
                default_ip@,
            ),
        decreases args.len() - i,
    {
        let a = &args[i];
        assert(all[i as int] == a@);
        if str_is(a, "-h") || str_is(a, "--help") {
            return Ok(Cli::Help);
        } else if str_is(a, "-v") || str_is(a, "--version") {
            return Ok(Cli::Version);
        } else if str_is(a, "-i") || str_is(a, "--ip") {
            if i + 1 < args.len() {
                assert(all[i + 1] == args@[i + 1]@);
                match validate_ip(args[i + 1].as_str()) {
                    Ok(v) => {
                        ip = v;
                        i = i + 2;
                    },
                    Err(e) => {
                        return Err(e);
                    },
                }
            } else {
                return Err(String::from_str("option '--ip' requires an argument"));
            }
        } else if str_is(a, "--click") {
            click = true;
            i = i + 1;
        } else {
            match ip_assignment(a) {
                Some(rest) => {
                    match validate_ip(rest.as_str()) {
                        Ok(v) => {
                            ip = v;
                            i = i + 1;
                        },
                        Err(e) => {
                            return Err(e);
                        },
                    }
                },
                None => {
                    let ghost before = pos@.map_values(|s: String| s@);
                    pos.push(a.clone());
                    assert(pos@.map_values(|s: String| s@) =~= before.push(a@));
                    i = i + 1;
                },
            }
        }
    }
    match command_from(click, &pos) {
        Ok(command) => Ok(Cli::Run { ip, command }),
        Err(e) => Err(e),
    }
}

} // verus!
