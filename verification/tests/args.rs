use emakiwm::args::{parse_handle, parse_mode, split_command_line, Mode};

fn args(v: &[&str]) -> Vec<String> {
    v.iter().map(|s| s.to_string()).collect()
}

#[test]
fn arguments_choose_what_is_run() {
    assert_eq!(parse_mode(&args(&[])), Mode::Run);
    assert_eq!(parse_mode(&args(&["--verbose"])), Mode::Run);
    assert_eq!(parse_mode(&args(&["--dry-run", "--restore"])), Mode::DryRun);
    assert_eq!(parse_mode(&args(&["--uncloak-all", "--restore"])), Mode::Restore);
    assert_eq!(parse_mode(&args(&["--uncloak-all"])), Mode::UncloakAll);
}

#[test]
fn login_start_is_switched() {
    assert_eq!(parse_mode(&args(&["--autostart", "on"])), Mode::Autostart(Some(true)));
    assert_eq!(parse_mode(&args(&["--autostart", "off"])), Mode::Autostart(Some(false)));
    assert_eq!(parse_mode(&args(&["--autostart", "yes"])), Mode::Autostart(None));
    assert_eq!(parse_mode(&args(&["--autostart"])), Mode::Autostart(None));
}

#[test]
fn one_window_is_cloaked() {
    assert_eq!(parse_mode(&args(&["--cloak", "0x1f"])), Mode::Cloak(Some(31), true));
    assert_eq!(
        parse_mode(&args(&["--cloak", "1F", "off"])),
        Mode::Cloak(Some(31), false)
    );
    assert_eq!(
        parse_mode(&args(&["--cloak", "1F", "on"])),
        Mode::Cloak(Some(31), true)
    );
    assert_eq!(parse_mode(&args(&["--cloak", "window"])), Mode::Cloak(None, true));
    assert_eq!(parse_mode(&args(&["--cloak"])), Mode::Cloak(None, true));
}

#[test]
fn handles_are_hexadecimal() {
    for s in [
        "0", "ff", "FF", "0x10", "0x0x10", "+a", "-a", "7fffffffffffffff", "8000000000000000",
        "-8000000000000000", "-8000000000000001", "00000000000000000000001",
        "100000000000000000000", "", "0x", "+", "-", "+-1", "1g", "g", "0X10", "x10", " 1",
    ] {
        let want = isize::from_str_radix(s.trim_start_matches("0x"), 16).ok();
        assert_eq!(parse_handle(s), want, "{s}");
    }
}

#[test]
fn command_lines_are_split() {
    assert_eq!(split_command_line("  "), None);
    assert_eq!(
        split_command_line("wt"),
        Some(("wt".to_string(), "".to_string()))
    );
    assert_eq!(
        split_command_line(" wt  -p   NixOS\t-d "),
        Some(("wt".to_string(), "-p NixOS -d".to_string()))
    );
}
