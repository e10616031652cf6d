use emakiwm::config::{default_binds, parse_key, MOD_ALT, MOD_CONTROL, MOD_SHIFT, MOD_WIN};
use emakiwm::events::{
    classify_broadcast, classify_window_event, hook_ranges, hotkey_number, parse_command,
    pressed_hotkey, registered_mods, Hotkey, WmEvent, EVENT_OBJECT_CLOAKED, EVENT_OBJECT_DESTROY,
    EVENT_OBJECT_HIDE, EVENT_OBJECT_SHOW, EVENT_OBJECT_UNCLOAKED, EVENT_SYSTEM_FOREGROUND,
    EVENT_SYSTEM_MINIMIZEEND, EVENT_SYSTEM_MINIMIZESTART, OBJID_WINDOW, WM_DISPLAYCHANGE,
    WM_SETTINGCHANGE,
};

#[test]
fn parse_key_basics() {
    assert_eq!(parse_key("alt+h"), Some((MOD_ALT, 'H' as u32)));
    assert_eq!(
        parse_key("alt+shift+comma"),
        Some((MOD_ALT | MOD_SHIFT, 0xBC))
    );
    assert_eq!(
        parse_key("ctrl+win+f5"),
        Some((MOD_CONTROL | MOD_WIN, 0x74))
    );
    assert_eq!(parse_key("alt+1"), Some((MOD_ALT, '1' as u32)));
}

#[test]
fn parse_key_rejects_invalid() {
    assert_eq!(parse_key("h"), None);
    assert_eq!(parse_key("alt+unknownkey"), None);
    assert_eq!(parse_key("foo+h"), None);
    assert_eq!(parse_key("alt+f99"), None);
}

#[test]
fn default_binds_all_parse() {
    let binds = default_binds();
    assert_eq!(binds.len(), 19);
    for b in &binds {
        let (key, cmd) = (&b.key, &b.command);
        assert!(parse_key(key).is_some(), "key {key} must parse");
        assert!(parse_command(cmd).is_some(), "command {cmd} must parse");
    }
}

#[test]
fn spawn_keeps_full_command_line() {
    match parse_command("spawn wt -p NixOS") {
        Some(WmEvent::Spawn(cmd)) => assert_eq!(cmd, "wt -p NixOS"),
        other => panic!("unexpected: {other:?}"),
    }
}

#[test]
fn spawn_requires_command() {
    assert!(parse_command("spawn").is_none());
    assert!(parse_command("spawn   ").is_none());
}

fn spelled(s: &str) -> String {
    match parse_command(s) {
        Some(e) => format!("{e:?}"),
        None => "none".to_string(),
    }
}

#[test]
fn every_command_is_understood() {
    let table = [
        ("focus left", "Focus(Left)"),
        ("focus right", "Focus(Right)"),
        ("focus down", "Focus(Down)"),
        ("focus up", "Focus(Up)"),
        ("move-column left", "MoveColumn(Left)"),
        ("move-column right", "MoveColumn(Right)"),
        ("move-window down", "MoveToWorkspace(true)"),
        ("move-window up", "MoveToWorkspace(false)"),
        ("workspace down", "SwitchWorkspace(true)"),
        ("workspace up", "SwitchWorkspace(false)"),
        ("scroll left", "Scroll(false)"),
        ("scroll right", "Scroll(true)"),
        ("expel", "Expel"),
        ("consume", "Consume"),
        ("cycle-width", "CycleWidth"),
        ("maximize", "MaximizeColumn"),
        ("fullscreen", "Fullscreen"),
        ("close", "CloseFocused"),
        ("toggle-opacity", "ToggleOpacity"),
        ("reload", "Reload"),
        ("quit", "Shutdown"),
    ];
    for (text, event) in table {
        assert_eq!(spelled(text), event);
    }
}

#[test]
fn other_texts_are_no_commands() {
    for text in [
        "",
        "   ",
        "focus",
        "focus sideways",
        "move-column up",
        "move-window left",
        "expel left",
        "quit now",
        "Quit",
        "spawnwt",
    ] {
        assert_eq!(spelled(text), "none", "{text}");
    }
}

#[test]
fn words_past_the_second_are_left_out() {
    assert_eq!(spelled("  focus   left  now "), "Focus(Left)");
    assert_eq!(spelled("\tquit\r\n"), "Shutdown");
}

#[test]
fn spawn_keeps_inner_spaces() {
    assert_eq!(spelled("spawn   a  b "), "Spawn(\"a  b\")");
}

#[test]
fn window_events_are_classified() {
    let show = |e| classify_window_event(e, OBJID_WINDOW, 0, 7).map(|e| format!("{e:?}"));
    assert_eq!(show(EVENT_OBJECT_SHOW), Some("Appeared(7)".to_string()));
    assert_eq!(show(EVENT_OBJECT_UNCLOAKED), Some("Appeared(7)".to_string()));
    assert_eq!(show(EVENT_OBJECT_DESTROY), Some("Gone(7)".to_string()));
    assert_eq!(show(EVENT_OBJECT_HIDE), Some("Gone(7)".to_string()));
    assert_eq!(show(EVENT_OBJECT_CLOAKED), Some("Cloaked(7)".to_string()));
    assert_eq!(
        show(EVENT_SYSTEM_FOREGROUND),
        Some("Foreground(7)".to_string())
    );
    assert_eq!(
        show(EVENT_SYSTEM_MINIMIZESTART),
        Some("MinimizeStart(7)".to_string())
    );
    assert_eq!(
        show(EVENT_SYSTEM_MINIMIZEEND),
        Some("MinimizeEnd(7)".to_string())
    );
    assert_eq!(show(0x0010), None);
}

#[test]
fn only_windows_themselves_count() {
    assert!(classify_window_event(EVENT_OBJECT_SHOW, -4, 0, 7).is_none());
    assert!(classify_window_event(EVENT_OBJECT_SHOW, OBJID_WINDOW, 1, 7).is_none());
    assert!(classify_window_event(EVENT_OBJECT_SHOW, OBJID_WINDOW, 0, 0).is_none());
}

#[test]
fn all_classified_events_are_hooked() {
    let ranges = hook_ranges();
    assert_eq!(ranges, vec![(0x3, 0x17), (0x8001, 0x8003), (0x8017, 0x8018)]);
    for event in 0..0x9000u32 {
        if classify_window_event(event, OBJID_WINDOW, 0, 1).is_some() {
            assert!(ranges.iter().any(|r| r.0 <= event && event <= r.1));
        }
    }
}

#[test]
fn broadcasts_tell_of_changed_areas() {
    assert!(matches!(
        classify_broadcast(WM_DISPLAYCHANGE),
        Some(WmEvent::WorkAreaChanged)
    ));
    assert!(matches!(
        classify_broadcast(WM_SETTINGCHANGE),
        Some(WmEvent::WorkAreaChanged)
    ));
    assert!(classify_broadcast(0x0010).is_none());
}

#[test]
fn hotkeys_are_found_by_their_number() {
    let keys: Vec<Hotkey> = (0..3u32)
        .map(|i| Hotkey {
            mods: MOD_ALT,
            vk: 0x41 + i,
            event: WmEvent::Expel,
        })
        .collect();
    assert_eq!(hotkey_number(0), 1);
    assert_eq!(pressed_hotkey(&keys, 1).unwrap().vk, 0x41);
    assert_eq!(pressed_hotkey(&keys, 3).unwrap().vk, 0x43);
    assert!(pressed_hotkey(&keys, 0).is_none());
    assert!(pressed_hotkey(&keys, 4).is_none());
    assert_eq!(registered_mods(&keys[0]), 0x4001);
}
