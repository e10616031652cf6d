use emakiwm::filter::{
    decide, Decision, Pattern, Rule, RuleAction, WindowInfo, WS_CAPTION, WS_EX_TOOLWINDOW,
    WS_POPUP, WS_THICKFRAME,
};

fn normal_window() -> WindowInfo {
    WindowInfo {
        is_visible: true,
        style: WS_CAPTION | WS_THICKFRAME,
        ..Default::default()
    }
}

#[test]
fn normal_window_is_managed() {
    assert_eq!(decide(&normal_window(), &[]), Decision::Manage);
}

#[test]
fn invisible_is_ignored() {
    let w = WindowInfo {
        is_visible: false,
        ..normal_window()
    };
    assert!(matches!(decide(&w, &[]), Decision::Ignore(_)));
}

#[test]
fn own_process_is_ignored() {
    let w = WindowInfo {
        is_own_process: true,
        ..normal_window()
    };
    assert!(matches!(decide(&w, &[]), Decision::Ignore(_)));
}

#[test]
fn cloaked_is_ignored() {
    let w = WindowInfo {
        is_cloaked: true,
        ..normal_window()
    };
    assert!(matches!(decide(&w, &[]), Decision::Ignore(_)));
}

#[test]
fn toolwindow_floats() {
    let w = WindowInfo {
        ex_style: WS_EX_TOOLWINDOW,
        ..normal_window()
    };
    assert!(matches!(decide(&w, &[]), Decision::Float(_)));
}

#[test]
fn owned_dialog_floats() {
    let w = WindowInfo {
        has_owner: true,
        ..normal_window()
    };
    assert!(matches!(decide(&w, &[]), Decision::Float(_)));
}

#[test]
fn bare_popup_floats() {
    let w = WindowInfo {
        is_visible: true,
        style: WS_POPUP | WS_THICKFRAME,
        ..Default::default()
    };
    assert!(matches!(decide(&w, &[]), Decision::Float(_)));
}

#[test]
fn popup_with_caption_and_thickframe_is_managed() {

    let w = WindowInfo {
        is_visible: true,
        style: WS_POPUP | WS_CAPTION | WS_THICKFRAME,
        ..Default::default()
    };
    assert_eq!(decide(&w, &[]), Decision::Manage);
}

#[test]
fn non_resizable_floats() {
    let w = WindowInfo {
        is_visible: true,
        style: WS_CAPTION,
        ..Default::default()
    };
    assert_eq!(
        decide(&w, &[]),
        Decision::Float("not resizable (no WS_THICKFRAME)")
    );
}

fn pattern(s: &str) -> Option<Pattern> {
    Pattern::new(s)
}

fn app_window(exe: &str, class: &str, title: &str) -> WindowInfo {
    WindowInfo {
        title: title.to_string(),
        class_name: class.to_string(),
        exe_name: Some(exe.to_string()),
        ..normal_window()
    }
}

#[test]
fn patterns_that_do_not_compile_are_refused() {
    assert!(Pattern::new("(").is_none());
    assert!(Pattern::new("[a-").is_none());
    assert!(Pattern::new("^note(pad)?$").is_some());
}

#[test]
fn patterns_match_anywhere_unless_anchored() {
    let loose = Pattern::new("pad").unwrap();
    assert!(loose.is_match("notepad.exe"));
    assert!(!loose.is_match("calc.exe"));
    let tight = Pattern::new("^calc\\.exe$").unwrap();
    assert!(tight.is_match("calc.exe"));
    assert!(!tight.is_match("mycalc.exe"));
    assert!(tight.clone().is_match("calc.exe"));
}

#[test]
fn every_given_pattern_must_match() {
    let rule = Rule {
        exe: pattern("^calc"),
        class: None,
        title: pattern("Main"),
        action: RuleAction::Float,
    };
    assert!(rule.matches(&app_window("calc.exe", "X", "Main window")));
    assert!(!rule.matches(&app_window("calc.exe", "X", "Other")));
    assert!(!rule.matches(&app_window("edit.exe", "X", "Main window")));
    let unknown = WindowInfo {
        exe_name: None,
        ..app_window("", "X", "Main window")
    };
    assert!(!rule.matches(&unknown));
}

#[test]
fn first_matching_rule_decides() {
    let rules = vec![
        Rule {
            exe: pattern("^calc"),
            class: None,
            title: None,
            action: RuleAction::Ignore,
        },
        Rule {
            exe: None,
            class: pattern("Frame"),
            title: None,
            action: RuleAction::Manage,
        },
        Rule {
            exe: None,
            class: pattern("."),
            title: None,
            action: RuleAction::Float,
        },
    ];
    assert_eq!(
        decide(&app_window("calc.exe", "Frame", ""), &rules),
        Decision::Ignore("rule: ignore")
    );
    assert_eq!(
        decide(&app_window("edit.exe", "Frame", ""), &rules),
        Decision::Manage
    );
    assert_eq!(
        decide(&app_window("edit.exe", "Plain", ""), &rules),
        Decision::Float("rule: float")
    );
}

#[test]
fn rule_can_tile_a_floating_window() {
    let dialog = WindowInfo {
        has_owner: true,
        ..app_window("edit.exe", "Dialog", "")
    };
    assert_eq!(decide(&dialog, &[]), Decision::Float("owned window (dialog)"));
    let rules = vec![Rule {
        exe: None,
        class: pattern("Dialog"),
        title: None,
        action: RuleAction::Manage,
    }];
    assert_eq!(decide(&dialog, &rules), Decision::Manage);
}

#[test]
fn rules_cannot_tile_a_hidden_window() {
    let rules = vec![Rule {
        exe: pattern("."),
        class: None,
        title: None,
        action: RuleAction::Manage,
    }];
    let w = WindowInfo {
        is_cloaked: true,
        ..app_window("edit.exe", "", "")
    };
    assert_eq!(
        decide(&w, &rules),
        Decision::Ignore("cloaked (UWP ghost / other virtual desktop)")
    );
    let w = WindowInfo {
        is_visible: false,
        ..app_window("edit.exe", "", "")
    };
    assert_eq!(decide(&w, &rules), Decision::Ignore("invisible"));
    let w = WindowInfo {
        is_own_process: true,
        ..app_window("edit.exe", "", "")
    };
    assert_eq!(decide(&w, &rules), Decision::Ignore("own process"));
}

#[test]
fn rule_without_patterns_never_applies() {
    let blank = Rule {
        exe: None,
        class: None,
        title: None,
        action: RuleAction::Ignore,
    };
    assert!(!blank.matches(&app_window("edit.exe", "", "")));
    assert_eq!(
        decide(&app_window("edit.exe", "", ""), &[blank]),
        Decision::Manage
    );
}
