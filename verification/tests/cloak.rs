use emakiwm::cloak::{change_tool_style, mend_leftover, CloakPlan, CloakSet, Leftover};
use emakiwm::filter::{Decision, WindowInfo};
use emakiwm::transition::Hide;

/// A window with the state it really has, and what was done to it.
struct Desk {
    set: CloakSet,
    cloaked: bool,
    tool: bool,
    log: Vec<&'static str>,
}

impl Desk {
    fn new() -> Desk {
        Desk {
            set: CloakSet::new(),
            cloaked: false,
            tool: false,
            log: vec![],
        }
    }

    fn bring(&mut self, level: Hide, works: bool) {
        let plan = self.set.begin(7, level);
        if let Some(on) = plan.tool {
            self.tool = on;
            self.log.push(if on { "tool" } else { "no tool" });
        }
        if let Some(on) = plan.cloak {
            self.log.push(if on { "cloak" } else { "uncloak" });
            if works {
                self.cloaked = on;
            }
            if self.set.finish(7, level, works) {
                self.tool = true;
                self.log.push("tool");
            }
        }
        assert_eq!(self.set.contains(7), self.cloaked);
        assert!(!self.tool || self.cloaked);
    }
}

#[test]
fn windows_are_cloaked_before_they_leave_the_lists() {
    let mut d = Desk::new();
    d.bring(Hide::Full, true);
    assert_eq!(d.log, vec!["cloak", "tool"]);
    d.log.clear();
    d.bring(Hide::Show, true);
    assert_eq!(d.log, vec!["no tool", "uncloak"]);
    assert!(!d.set.contains(7));
}

#[test]
fn levels_change_one_by_one() {
    let mut d = Desk::new();
    d.bring(Hide::Render, true);
    d.bring(Hide::Full, true);
    d.bring(Hide::Full, true);
    d.bring(Hide::Render, true);
    d.bring(Hide::Render, true);
    d.bring(Hide::Show, true);
    d.bring(Hide::Show, true);
    assert_eq!(d.log, vec!["cloak", "tool", "no tool", "uncloak"]);
}

#[test]
fn failed_cloaking_leaves_no_record() {
    let mut d = Desk::new();
    d.bring(Hide::Full, false);
    assert_eq!(d.log, vec!["cloak"]);
    assert!(!d.set.contains(7));
}

#[test]
fn failed_uncloaking_waits() {
    let mut d = Desk::new();
    d.bring(Hide::Full, true);
    d.bring(Hide::Show, false);
    assert!(d.set.contains(7));
    assert!(d.set.is_waiting());
    assert_eq!(d.set.pending(), vec![7]);
    d.set.retry(7, true, false);
    assert!(d.set.contains(7));
    d.set.retry(7, true, true);
    assert!(!d.set.contains(7));
    assert!(!d.set.is_waiting());
}

#[test]
fn hiding_again_ends_the_wait() {
    let mut d = Desk::new();
    d.bring(Hide::Render, true);
    d.bring(Hide::Show, false);
    d.bring(Hide::Full, true);
    assert!(!d.set.is_waiting());
    assert!(d.tool);
    d.set.retry(7, true, true);
    assert!(d.set.contains(7));
}

#[test]
fn waiting_ends_with_the_window_or_after_many_failures() {
    let mut d = Desk::new();
    d.bring(Hide::Render, true);
    d.bring(Hide::Show, false);
    d.set.retry(7, false, false);
    assert!(!d.set.contains(7));

    let mut d = Desk::new();
    d.bring(Hide::Render, true);
    d.bring(Hide::Show, false);
    for _ in 0..250 {
        d.set.retry(7, true, false);
        assert!(d.set.contains(7));
    }
    d.set.retry(7, true, false);
    assert!(!d.set.contains(7));
}

#[test]
fn all_windows_are_taken_off_the_record() {
    let mut set = CloakSet::new();
    for h in [3u64, 5, 9] {
        assert_eq!(
            set.begin(h, Hide::Render),
            CloakPlan { tool: None, cloak: Some(true) }
        );
        set.finish(h, Hide::Render, true);
    }
    set.begin(5, Hide::Show);
    set.finish(5, Hide::Show, true);
    assert!(set.contains(3) && !set.contains(5) && set.contains(9));
    assert_eq!(set.drain(), vec![3, 9]);
    assert!(!set.contains(3));
    assert_eq!(set.drain(), Vec::<u64>::new());
}

#[test]
fn tool_bit_is_set_and_taken() {
    assert_eq!(change_tool_style(0x100, true), Some(0x180));
    assert_eq!(change_tool_style(0x180, true), None);
    assert_eq!(change_tool_style(0x180, false), Some(0x100));
    assert_eq!(change_tool_style(0x100, false), None);
}

fn window(exe: Option<&str>, class: &str, cloaked: bool) -> WindowInfo {
    WindowInfo {
        exe_name: exe.map(str::to_string),
        class_name: class.to_string(),
        is_visible: true,
        is_cloaked: cloaked,
        ..WindowInfo::default()
    }
}

#[test]
fn leftover_windows_are_shown() {
    let ignore = Decision::Ignore("cloaked (UWP ghost / other virtual desktop)");
    assert_eq!(
        mend_leftover(&window(Some("a.exe"), "A", true), &ignore),
        Leftover::Uncloak
    );
    assert_eq!(mend_leftover(&window(None, "A", true), &ignore), Leftover::Uncloak);
    assert_eq!(
        mend_leftover(&window(Some("applicationframehost.EXE"), "A", true), &ignore),
        Leftover::Nothing
    );
    assert_eq!(
        mend_leftover(&window(None, "ApplicationFrameWindow", true), &ignore),
        Leftover::Nothing
    );
    assert_eq!(
        mend_leftover(&window(None, "Windows.UI.Core.CoreWindow", true), &ignore),
        Leftover::Nothing
    );
    assert_eq!(
        mend_leftover(&window(None, "A", false), &Decision::Manage),
        Leftover::Mend
    );
    assert_eq!(
        mend_leftover(&window(None, "A", false), &Decision::Float("x")),
        Leftover::Nothing
    );
    let mut hidden = window(None, "A", true);
    hidden.is_visible = false;
    assert_eq!(mend_leftover(&hidden, &ignore), Leftover::Nothing);
}
