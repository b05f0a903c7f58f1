use wizctl::cli::{parse_cli, Cli, Command};

fn args(list: &[&str]) -> Vec<String> {
    list.iter().map(|s| s.to_string()).collect()
}

fn run(list: &[&str]) -> (String, Command) {
    match parse_cli(&args(list), "192.168.0.102".to_string()) {
        Ok(Cli::Run { ip, command }) => (ip, command),
        other => panic!("expected a command, got {other:?}"),
    }
}

#[test]
fn no_arguments_open_the_widget() {
    let (ip, command) = run(&[]);
    assert_eq!(ip, "192.168.0.102");
    assert!(matches!(command, Command::Widget { click: false }));
    let (_, command) = run(&["widget", "--click"]);
    assert!(matches!(command, Command::Widget { click: true }));
}

#[test]
fn options_set_the_address() {
    let (ip, command) = run(&["-i", " 10.0.0.7 ", "status"]);
    assert_eq!(ip, "10.0.0.7");
    assert!(matches!(command, Command::Status));
    let (ip, command) = run(&["color", "--ip=10.0.0.8", "red"]);
    assert_eq!(ip, "10.0.0.8");
    assert!(matches!(command, Command::Color(v) if v == "red"));
}

#[test]
fn help_and_version_win() {
    assert!(matches!(parse_cli(&args(&["on", "--help"]), String::new()), Ok(Cli::Help)));
    assert!(matches!(parse_cli(&args(&["-v", "--ip"]), String::new()), Ok(Cli::Version)));
}

#[test]
fn command_arguments() {
    assert!(matches!(run(&["brightness", "50%"]).1, Command::Brightness(v) if v == "50%"));
    assert!(matches!(run(&["kelvin", "2700"]).1, Command::Kelvin(v) if v == "2700"));
    assert!(matches!(run(&["scene", "cozy"]).1, Command::Scene(v) if v == "cozy"));
    assert!(matches!(run(&["wizclick"]).1, Command::WizClick(None)));
    assert!(matches!(run(&["wizclick", "2"]).1, Command::WizClick(Some(2))));
    assert!(matches!(run(&["gui"]).1, Command::Studio));
    assert!(matches!(run(&["studio"]).1, Command::Studio));
    assert!(matches!(run(&["scenes"]).1, Command::Scenes));
    assert!(matches!(run(&["genmon"]).1, Command::Genmon));
    assert!(matches!(run(&["toggle"]).1, Command::Toggle));
    assert!(matches!(run(&["off"]).1, Command::Off));
}

#[test]
fn command_line_errors() {
    let err = |list: &[&str]| match parse_cli(&args(list), "192.168.0.102".to_string()) {
        Err(e) => e,
        Ok(c) => panic!("expected an error, got {c:?}"),
    };
    assert_eq!(err(&["--ip"]), "option '--ip' requires an argument");
    assert_eq!(err(&["-i", "bogus"]), "Invalid IP address format: 'bogus'");
    assert_eq!(err(&["--ip=224.0.0.1"]), "Multicast IP addresses are not permitted: '224.0.0.1'");
    assert_eq!(err(&["color"]), "color command requires a value (e.g. red, #ff5500, or 255,128,0)");
    assert_eq!(err(&["brightness"]), "brightness command requires a value (0-255 or 0%-100%)");
    assert_eq!(err(&["kelvin"]), "kelvin command requires a temperature (e.g. 2700, 4000K)");
    assert_eq!(err(&["scene"]), "scene command requires a scene name or ID (e.g. cozy, sunset)");
    assert_eq!(err(&["wizclick", "two"]), "invalid WiZclick mode 'two'");
    assert_eq!(err(&["dance"]), "unknown command 'dance'. Run 'wizctl --help' for usage.");
}
