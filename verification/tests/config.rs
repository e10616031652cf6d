use emakiwm::config::{
    build_hotkeys, merge_binds, parse_color, parse_key, parse_margin, Bind, Config, RuleEntry,
    Settings, COLOR_DEFAULT, COLOR_NONE, MOD_ALT, MOD_CONTROL, MOD_SHIFT, MOD_WIN,
};
use emakiwm::events::WmEvent;
use emakiwm::filter::RuleAction;
use emakiwm::geometry::Margin;

fn empty() -> Settings {
    Settings {
        gap: None,
        anim_ms: None,
        hide: None,
        border_focused: None,
        border_unfocused: None,
        border_thickness: None,
        unfocused_alpha: None,
        pinned_alpha: None,
        margin: None,
        ws_port: None,
        startup: vec![],
        rules: vec![],
        keybinds: vec![],
    }
}

fn bind(key: &str, command: &str) -> Bind {
    Bind {
        key: key.to_string(),
        command: command.to_string(),
    }
}

fn entry(exe: Option<&str>, title: Option<&str>, action: &str) -> RuleEntry {
    RuleEntry {
        exe: exe.map(str::to_string),
        class: None,
        title: title.map(str::to_string),
        action: action.to_string(),
    }
}

#[test]
fn keys_have_their_codes() {
    let table = [
        ("a", 0x41),
        ("Z", 0x5A),
        ("0", 0x30),
        ("comma", 0xBC),
        ("period", 0xBE),
        ("minus", 0xBD),
        ("slash", 0xBF),
        ("semicolon", 0xBA),
        ("space", 0x20),
        ("enter", 0x0D),
        ("return", 0x0D),
        ("tab", 0x09),
        ("esc", 0x1B),
        ("escape", 0x1B),
        ("backspace", 0x08),
        ("left", 0x25),
        ("up", 0x26),
        ("right", 0x27),
        ("down", 0x28),
        ("pageup", 0x21),
        ("pagedown", 0x22),
        ("home", 0x24),
        ("end", 0x23),
        ("f", 0x46),
        ("f1", 0x70),
        ("f24", 0x87),
        ("f007", 0x76),
    ];
    for (name, code) in table {
        assert_eq!(parse_key(&format!("win+{name}")), Some((MOD_WIN, code)), "{name}");
    }
}

#[test]
fn modifiers_have_two_names() {
    assert_eq!(parse_key("control+a"), Some((MOD_CONTROL, 0x41)));
    assert_eq!(parse_key("super+a"), Some((MOD_WIN, 0x41)));
    assert_eq!(
        parse_key(" alt + shift + a "),
        Some((MOD_ALT | MOD_SHIFT, 0x41))
    );
    assert_eq!(parse_key("alt+alt+a"), Some((MOD_ALT, 0x41)));
}

#[test]
fn other_keys_are_refused() {
    for s in [
        "", "+", "alt+", "alt", "alt+f0", "alt+f25", "alt+f1x", "alt+fx", "alt+f4294967297",
        "Alt+h", "alt+é", "alt++",
    ] {
        assert_eq!(parse_key(s), None, "{s}");
    }
}

#[test]
fn colors_are_turned_round() {
    assert_eq!(parse_color("default"), Some(COLOR_DEFAULT));
    assert_eq!(parse_color("none"), Some(COLOR_NONE));
    assert_eq!(parse_color("#112233"), Some(0x0033_2211));
    assert_eq!(parse_color("#fF00aB"), Some(0x00AB_00FF));
    for s in [
        "", "#", "#12345", "#1234567", "112233", "#11223g", "#+12345", "#-12345", "Default", "#é1234",
    ] {
        assert_eq!(parse_color(s), None, "{s}");
    }
}

#[test]
fn margins_have_short_forms() {
    let m = |v: &[i32]| {
        let m = parse_margin(&Some(v.to_vec()));
        (m.top, m.right, m.bottom, m.left)
    };
    assert_eq!(parse_margin(&None), Margin { top: 0, right: 0, bottom: 0, left: 0 });
    assert_eq!(m(&[]), (0, 0, 0, 0));
    assert_eq!(m(&[5]), (5, 5, 5, 5));
    assert_eq!(m(&[5, 7]), (5, 7, 5, 7));
    assert_eq!(m(&[1, 2, 3, 4]), (1, 2, 3, 4));
    assert_eq!(m(&[1, 2, 3]), (0, 0, 0, 0));
    assert_eq!(m(&[-5, 2000]), (0, 1000, 0, 1000));
}

#[test]
fn settings_that_are_not_given_have_defaults() {
    let c = Config::from_settings(empty());
    assert_eq!(c.gap, 8);
    assert_eq!(c.anim_ms, 180);
    assert!(!c.cloak);
    assert_eq!(c.border_colors(), None);
    assert_eq!(c.border_thickness, 0);
    assert_eq!(c.unfocused_alpha, None);
    assert_eq!(c.pinned_alpha, 255);
    assert_eq!(c.ws_port, None);
    assert!(c.startup.is_empty());
    assert!(c.rules.is_empty());
    assert_eq!(c.hotkeys.len(), 19);
}

#[test]
fn numbers_are_moved_into_bounds() {
    let mut s = empty();
    s.gap = Some(500);
    s.anim_ms = Some(99_999);
    s.border_thickness = Some(99);
    let c = Config::from_settings(s);
    assert_eq!((c.gap, c.anim_ms, c.border_thickness), (200, 2000, 50));
    let mut s = empty();
    s.gap = Some(-1);
    s.anim_ms = Some(0);
    s.border_thickness = Some(-3);
    let c = Config::from_settings(s);
    assert_eq!((c.gap, c.anim_ms, c.border_thickness), (0, 0, 0));
}

#[test]
fn other_settings_are_taken_over() {
    let mut s = empty();
    s.hide = Some("cloak".to_string());
    s.border_focused = Some("#0000ff".to_string());
    s.unfocused_alpha = Some(200);
    s.pinned_alpha = Some(128);
    s.margin = Some(vec![40, 0, 0, 0]);
    s.ws_port = Some(6123);
    s.startup = vec!["zebar".to_string()];
    let c = Config::from_settings(s);
    assert!(c.cloak);
    assert_eq!(c.border_colors(), Some((0x00FF_0000, COLOR_DEFAULT)));
    assert_eq!(c.unfocused_alpha, Some(200));
    assert_eq!(c.pinned_alpha, 128);
    assert_eq!(c.margin.top, 40);
    assert_eq!(c.ws_port, Some(6123));
    assert_eq!(c.startup, vec!["zebar".to_string()]);
}

#[test]
fn unknown_way_of_hiding_is_parking() {
    for (hide, cloak) in [("offscreen", false), ("cloak", true), ("vanish", false)] {
        let mut s = empty();
        s.hide = Some(hide.to_string());
        assert_eq!(Config::from_settings(s).cloak, cloak);
    }
}

#[test]
fn rules_that_are_not_understood_are_left_out() {
    let mut s = empty();
    s.rules = vec![
        entry(Some("^calc"), None, "float"),
        entry(Some("("), None, "float"),
        entry(None, None, "maximise"),
        entry(None, Some("Main"), "manage"),
        entry(None, None, "ignore"),
    ];
    let c = Config::from_settings(s);
    let actions: Vec<RuleAction> = c.rules.iter().map(|r| r.action).collect();
    assert_eq!(
        actions,
        vec![RuleAction::Float, RuleAction::Manage, RuleAction::Ignore]
    );
    assert!(c.rules[0].exe.as_ref().unwrap().is_match("calc.exe"));
    assert!(c.rules[1].title.as_ref().unwrap().is_match("The Main one"));
    assert!(c.rules[2].exe.is_none());
}

fn keys_of(binds: Vec<Bind>) -> Vec<(u32, u32, String)> {
    let mut s = empty();
    s.keybinds = binds;
    Config::from_settings(s)
        .hotkeys
        .iter()
        .map(|h| (h.mods, h.vk, format!("{:?}", h.event)))
        .collect()
}

#[test]
fn bindings_stand_in_the_order_of_their_keys() {
    let keys = merge_binds(&vec![bind("alt+a", "expel"), bind("ctrl+z", "quit")]);
    let mut names: Vec<String> = keys.iter().map(|b| b.key.clone()).collect();
    assert_eq!(names.len(), 21);
    assert_eq!(names[0], "alt+a");
    assert_eq!(names[20], "ctrl+z");
    let sorted = {
        let mut v = names.clone();
        v.sort();
        v
    };
    assert_eq!(names, sorted);
    names.dedup();
    assert_eq!(names.len(), 21);
}

#[test]
fn configured_binding_replaces_the_default() {
    let keys = keys_of(vec![bind("alt+h", "quit")]);
    assert_eq!(keys.len(), 19);
    assert!(keys.contains(&(MOD_ALT, 'H' as u32, "Shutdown".to_string())));
    let keys = keys_of(vec![bind("Alt+Shift+H", "expel"), bind("alt+x", "spawn wt -d")]);
    assert_eq!(keys.len(), 20);
    assert!(keys.contains(&(MOD_ALT | MOD_SHIFT, 'H' as u32, "Expel".to_string())));
    assert!(keys.contains(&(MOD_ALT, 'X' as u32, "Spawn(\"wt -d\")".to_string())));
}

#[test]
fn modifiers_come_in_any_order() {
    let want = Some((MOD_ALT | MOD_CONTROL | MOD_WIN, 0x41));
    for s in [
        "alt+ctrl+win+a",
        "win+ctrl+alt+a",
        "control+super+alt+a",
        "alt+control+alt+win+ctrl+a",
        " super + alt+ctrl + a",
    ] {
        assert_eq!(parse_key(s), want, "{s}");
    }
}

#[test]
fn letters_of_a_key_have_no_case() {
    let plain = keys_of(vec![bind("alt+h", "quit"), bind("ctrl+pageup", "expel")]);
    assert_eq!(keys_of(vec![bind("Alt+H", "quit"), bind("CTRL+PageUp", "expel")]), plain);
}

#[test]
fn last_binding_of_a_key_counts() {
    let keys = keys_of(vec![bind("ALT+H", "expel"), bind("alt+h", "consume")]);
    assert_eq!(keys.len(), 19);
    assert!(keys.contains(&(MOD_ALT, 'H' as u32, "Consume".to_string())));
}

#[test]
fn none_switches_a_key_off() {
    assert_eq!(keys_of(vec![bind("alt+h", "none")]).len(), 18);
    assert_eq!(keys_of(vec![bind("alt+h", "")]).len(), 18);
    assert_eq!(keys_of(vec![bind("h", "quit")]).len(), 19);
    assert_eq!(keys_of(vec![bind("alt+h", "dance")]).len(), 18);
}

#[test]
fn no_hotkey_lacks_a_modifier() {
    let keys = build_hotkeys(&vec![bind("h", "quit"), bind("win+q", "quit")]);
    assert_eq!(keys.len(), 1);
    assert_eq!(keys[0].mods, MOD_WIN);
    assert!(matches!(keys[0].event, WmEvent::Shutdown));
}
