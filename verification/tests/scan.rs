use emakiwm::filter::{Decision, WindowInfo};
use emakiwm::geometry::Edges;
use emakiwm::layout::{Rect, Stack};
use emakiwm::monitors::MonitorState;
use emakiwm::scan::{
    exe_name_of, initial_order, monitor_for_handle, report, scan_entry, ReportRow, ScanEntry,
};

fn edges(left: i32, top: i32, right: i32, bottom: i32) -> Edges {
    Edges { left, top, right, bottom }
}

fn found(decision: Decision, elevated: Option<bool>, frame: Option<Edges>) -> ScanEntry {
    ScanEntry {
        hwnd: 7,
        info: WindowInfo::default(),
        decision,
        elevated,
        rect: edges(0, 0, 100, 100),
        frame,
    }
}

#[test]
fn program_names_lose_their_path() {
    assert_eq!(exe_name_of("C:\\Windows\\notepad.exe"), "notepad.exe");
    assert_eq!(exe_name_of("notepad.exe"), "notepad.exe");
    assert_eq!(exe_name_of("C:\\dir\\"), "");
    assert_eq!(exe_name_of(""), "");
    assert_eq!(exe_name_of("a/b\\c/d"), "c/d");
}

#[test]
fn windows_of_own_or_elevated_programs_are_not_adopted() {
    assert!(found(Decision::Manage, Some(false), None).adoptable(false));
    assert!(found(Decision::Manage, None, None).adoptable(false));
    assert!(!found(Decision::Manage, Some(true), None).adoptable(false));
    assert!(!found(Decision::Manage, Some(false), None).adoptable(true));
    assert!(!found(Decision::Float("x"), Some(false), None).adoptable(false));
    assert!(!found(Decision::Ignore("x"), Some(false), None).adoptable(false));
}

#[test]
fn decisions_go_into_the_entry() {
    let e = scan_entry(
        9,
        WindowInfo::default(),
        None,
        edges(0, 0, 10, 10),
        Some(edges(1, 1, 9, 9)),
        &[],
    );
    assert_eq!(e.hwnd, 9);
    assert_eq!(e.decision, Decision::Ignore("invisible"));
    assert_eq!(e.frame_or_rect(), edges(1, 1, 9, 9));
    let e = scan_entry(9, WindowInfo::default(), None, edges(0, 0, 10, 10), None, &[]);
    assert_eq!(e.frame_or_rect(), edges(0, 0, 10, 10));
}

fn monitor(hmonitor: i64) -> MonitorState {
    let r = Rect { x: 0, y: 0, w: 1920, h: 1080 };
    MonitorState {
        hmonitor,
        work: r,
        monitor: r,
        viewport_w: 1904,
        default_width: 948,
        stack: Stack::default(),
    }
}

#[test]
fn monitors_are_found_by_handle() {
    let ms = vec![monitor(11), monitor(22), monitor(22)];
    assert_eq!(monitor_for_handle(&ms, 11), 0);
    assert_eq!(monitor_for_handle(&ms, 22), 1);
    assert_eq!(monitor_for_handle(&ms, 33), 0);
}

#[test]
fn windows_are_taken_in_from_left_to_right() {
    assert_eq!(initial_order(&vec![]), Vec::<usize>::new());
    assert_eq!(
        initial_order(&vec![(1, 0), (0, 50), (0, -3), (1, -9), (0, 50)]),
        vec![2, 1, 4, 3, 0]
    );
}

#[test]
fn report_tells_what_is_tiled() {
    let entries = vec![
        found(Decision::Manage, Some(false), Some(edges(7, 0, 93, 93))),
        found(Decision::Ignore("invisible"), Some(false), None),
        found(Decision::Float("WS_EX_TOOLWINDOW"), Some(true), None),
        found(Decision::Manage, None, None),
    ];
    let (rows, managed) = report(&entries, false);
    assert_eq!(managed, 2);
    assert_eq!(
        rows,
        vec![
            ReportRow {
                index: 0,
                tag: "MANAGE",
                reason: "",
                elevated: "",
                border: Some((7, 0, 7, 7)),
            },
            ReportRow {
                index: 2,
                tag: "FLOAT ",
                reason: "WS_EX_TOOLWINDOW",
                elevated: " elevated=yes(untracked)",
                border: None,
            },
            ReportRow {
                index: 3,
                tag: "MANAGE",
                reason: "",
                elevated: " elevated=unknown(untracked)",
                border: None,
            },
        ]
    );
    let (rows, managed) = report(&entries, true);
    assert_eq!((rows.len(), managed), (4, 2));
    assert_eq!((rows[1].tag, rows[1].reason), ("IGNORE", "invisible"));
}
