//! What a scan of the open windows finds.

use vstd::prelude::*;

use crate::filter::{Decision, Rule, WindowInfo, decide, decision};
use crate::geometry::{border_between, Edges};
use crate::monitors::{monitor_views, MonitorState, MonitorView};
use crate::text::{chars_of, part, string_of};

verus! {

/// One window as a scan found it.
#[derive(Debug)]
pub struct ScanEntry {
    pub hwnd: isize,
    pub info: WindowInfo,
    pub decision: Decision,
    /// Whether its program runs elevated; none where that cannot be told.
    pub elevated: Option<bool>,
    /// The window's rectangle.
    pub rect: Edges,
    /// The rectangle of its visible frame, where known.
    pub frame: Option<Edges>,
}

impl ScanEntry {
    /// The visible frame, or the window itself where the frame is unknown.
    pub open spec fn seen_frame(self) -> Edges {
        match self.frame {
            Some(f) => f,
            None => self.rect,
        }
    }

    /// The window is to be tiled: decided so, not of an elevated program, and
    /// not minimized.
    pub open spec fn is_adoptable(self, iconic: bool) -> bool {
        self.decision is Manage && self.elevated != Some(true) && !iconic
    }

    /// The visible frame, or the window itself where the frame is unknown.
    pub fn frame_or_rect(&self) -> (r: Edges)
        ensures
            r == self.seen_frame(),
    {
        match self.frame {
            Some(f) => f,
            None => self.rect,
        }
    }

    /// The window is to be tiled.
    pub fn adoptable(&self, iconic: bool) -> (r: bool)
        ensures
            r == self.is_adoptable(iconic),
    {
        let managed: bool = match self.decision {
            Decision::Manage => true,
            _ => false,
        };
        let elevated: bool = match self.elevated {
            Some(e) => e,
            None => false,
        };
        managed && !elevated && !iconic
    }
}

/// A scan entry with the decision the rules give.
pub fn scan_entry(
    hwnd: isize,
    info: WindowInfo,
    elevated: Option<bool>,
    rect: Edges,
    frame: Option<Edges>,
    rules: &[Rule],
) -> (r: ScanEntry)
    ensures
        r.hwnd == hwnd,
        r.info == info,
        r.decision == decision(info, rules@),
        r.elevated == elevated,
        r.rect == rect,
        r.frame == frame,
{
    let verdict = decide(&info, rules);
    ScanEntry { hwnd, info, decision: verdict, elevated, rect, frame }
}

// ---------------------------------------------------------------------------
// Program names
// ---------------------------------------------------------------------------

/// What follows the last separator among the first `n` characters.
pub open spec fn after_last(s: Seq<char>, sep: char, n: int) -> int
    decreases n,
{
    if n <= 0 {
        0
    } else if s[n - 1] == sep {
        n
    } else {
        after_last(s, sep, n - 1)
    }
}

/// The file name at the end of a path.
pub open spec fn file_name(path: Seq<char>) -> Seq<char> {
    path.skip(after_last(path, '\\', path.len() as int))
}

/// The file name at the end of a program's path.
pub fn exe_name_of(path: &str) -> (r: String)
    ensures
        r@ == file_name(path@),
{
    let v = chars_of(path);
    let mut i: usize = v.len();
    while i > 0 && v[i - 1] != '\\'
        invariant
            i <= v.len(),
            after_last(v@, '\\', v.len() as int) == after_last(v@, '\\', i as int),
        decreases i,
    {
        i -= 1;
    }
    let name = part(&v, i, v.len());
    assert(name@ =~= path@.skip(i as int));
    string_of(&name)
}

/// A file name holds no separator, and with what is before it makes the path.
pub proof fn law_file_name(path: Seq<char>)
    ensures
        !file_name(path).contains('\\'),
        path == path.take(path.len() - file_name(path).len()) + file_name(path),
{
    lemma_after_last(path, '\\', path.len() as int);
    let k = after_last(path, '\\', path.len() as int);
    assert(path =~= path.take(k) + path.skip(k));
    assert forall|i: int| 0 <= i < path.skip(k).len() implies path.skip(k)[i] != '\\' by {
        assert(path.skip(k)[i] == path[k + i]);
    }
}

proof fn lemma_after_last(s: Seq<char>, sep: char, n: int)
    requires
        0 <= n <= s.len(),
    ensures
        0 <= after_last(s, sep, n) <= n,
        forall|i: int| after_last(s, sep, n) <= i < n ==> #[trigger] s[i] != sep,
    decreases n,
{
    if n > 0 && s[n - 1] != sep {
        lemma_after_last(s, sep, n - 1);
    }
}

// ---------------------------------------------------------------------------
// The windows open at the start
// ---------------------------------------------------------------------------

/// The first monitor from `i` on with this handle, or the end.
pub open spec fn handle_from(ms: Seq<MonitorView>, hmonitor: int, i: int) -> int
    decreases ms.len() - i,
{
    if 0 <= i < ms.len() && ms[i].hmonitor != hmonitor {
        handle_from(ms, hmonitor, i + 1)
    } else {
        i
    }
}

/// The monitor with this handle, or the first one.
pub open spec fn monitor_with(ms: Seq<MonitorView>, hmonitor: int) -> int {
    if handle_from(ms, hmonitor, 0) < ms.len() {
        handle_from(ms, hmonitor, 0)
    } else {
        0
    }
}

/// The monitor with this handle, or the first one.
pub fn monitor_for_handle(monitors: &Vec<MonitorState>, hmonitor: i64) -> (r: usize)
    ensures
        r == monitor_with(monitor_views(monitors@), hmonitor as int),
        monitors.len() > 0 ==> r < monitors.len(),
{
    let ghost views = monitor_views(monitors@);
    let mut i: usize = 0;
    while i < monitors.len()
        invariant
            i <= monitors.len(),
            views == monitor_views(monitors@),
            handle_from(views, hmonitor as int, 0) == handle_from(views, hmonitor as int, i as int),
        decreases monitors.len() - i,
    {
        assert(views[i as int] == monitors@[i as int]@);
        if monitors[i].hmonitor == hmonitor {
            return i;
        }
        i += 1;
    }
    0
}

/// Window `a` is taken in before window `b`: by monitor, then from left to
/// right, then as they were found.
pub open spec fn earlier(keys: Seq<(usize, i32)>, a: usize, b: usize) -> bool {
    let x = keys[a as int];
    let y = keys[b as int];
    x.0 < y.0 || (x.0 == y.0 && (x.1 < y.1 || (x.1 == y.1 && a < b)))
}

/// In what order the windows are taken in that were open at the start, each
/// given by its monitor and its left edge.
pub fn initial_order(keys: &Vec<(usize, i32)>) -> (r: Vec<usize>)
    ensures
        r.len() == keys.len(),
        forall|i: int| 0 <= i < r.len() ==> #[trigger] r@[i] < keys.len(),
        forall|i: int, j: int|
            0 <= i < j < r.len() ==> earlier(keys@, #[trigger] r@[i], #[trigger] r@[j]),
        forall|k: usize| k < keys.len() ==> #[trigger] r@.contains(k),
{
    let mut out: Vec<usize> = Vec::new();
    let mut n: usize = 0;
    while n < keys.len()
        invariant
            n <= keys.len(),
            out.len() == n,
            forall|i: int| 0 <= i < n ==> #[trigger] out@[i] < n,
            forall|i: int, j: int|
                0 <= i < j < n ==> earlier(keys@, #[trigger] out@[i], #[trigger] out@[j]),
            forall|k: usize| k < n ==> #[trigger] out@.contains(k),
        decreases keys.len() - n,
    {
        let mut at: usize = n;
        while at > 0 && (keys[n].0 < keys[out[at - 1]].0 || (keys[n].0 == keys[out[at - 1]].0
            && keys[n].1 < keys[out[at - 1]].1))
            invariant
                at <= n < keys.len(),
                out.len() == n,
                forall|i: int| 0 <= i < n ==> #[trigger] out@[i] < n,
                forall|i: int, j: int|
                    0 <= i < j < n ==> earlier(keys@, #[trigger] out@[i], #[trigger] out@[j]),
                forall|i: int| at <= i < n ==> earlier(keys@, n, #[trigger] out@[i]),
                forall|k: usize| k < n ==> #[trigger] out@.contains(k),
            decreases at,
        {
            at -= 1;
        }
        let ghost before = out@;
        proof {
            if at > 0 {
                assert(earlier(keys@, before[at - 1], n));
            }
            assert forall|i: int| 0 <= i < at implies earlier(keys@, #[trigger] before[i], n) by {
                if i < at - 1 {
                    assert(earlier(keys@, before[i], before[at - 1]));
                }
            }
        }
        out.insert(at, n);
        proof {
            assert(out@ =~= before.insert(at as int, n));
            assert forall|k: usize| k < n + 1 implies #[trigger] out@.contains(k) by {
                if k == n {
                    assert(out@[at as int] == n);
                } else {
                    assert(before.contains(k));
                    let x = choose|x: int| 0 <= x < before.len() && before[x] == k;
                    if x < at {
                        assert(out@[x] == k);
                    } else {
                        assert(out@[x + 1] == k);
                    }
                }
            }
            assert forall|i: int, j: int| 0 <= i < j < n + 1 implies earlier(
                keys@,
                #[trigger] out@[i],
                #[trigger] out@[j],
            ) by {
                let a = if i < at {
                    before[i]
                } else if i == at {
                    n
                } else {
                    before[i - 1]
                };
                let b = if j < at {
                    before[j]
                } else if j == at {
                    n
                } else {
                    before[j - 1]
                };
                assert(out@[i] == a && out@[j] == b);
                if i != at && j != at {
                    let x = if i < at {
                        i
                    } else {
                        i - 1
                    };
                    let y = if j < at {
                        j
                    } else {
                        j - 1
                    };
                    assert(earlier(keys@, before[x], before[y]));
                } else if i == at {
                    assert(earlier(keys@, n, before[j - 1]));
                } else {
                    assert(earlier(keys@, before[i], n));
                }
            }
        }
        n += 1;
    }
    out
}

// ---------------------------------------------------------------------------
// The report of a scan
// ---------------------------------------------------------------------------

/// A window in the report.
#[derive(Debug, Clone, Copy, PartialEq, Eq)]
pub struct ReportRow {
    /// Which of the windows found it is.
    pub index: usize,
    /// What is done with it.
    pub tag: &'static str,
    /// Why; empty where it is tiled.
    pub reason: &'static str,
    /// A note on its program's rights.
    pub elevated: &'static str,
    /// How far it reaches past its frame, where the frame is known.
    pub border: Option<(i64, i64, i64, i64)>,
}

/// The row of a window, none where it is left out of the report.
pub open spec fn row_of(e: ScanEntry, index: usize, verbose: bool) -> Option<ReportRow> {
    let elevated = match e.elevated {
        Some(true) => " elevated=yes(untracked)",
        Some(false) => "",
        None => " elevated=unknown(untracked)",
    };
    let border = match e.frame {
        Some(f) => {
            let d = border_between(e.rect, f);
            Some((d.0 as i64, d.1 as i64, d.2 as i64, d.3 as i64))
        },
        None => None,
    };
    match e.decision {
        Decision::Manage => Some(
            ReportRow { index, tag: "MANAGE", reason: "", elevated, border },
        ),
        Decision::Float(reason) => Some(
            ReportRow { index, tag: "FLOAT ", reason, elevated, border },
        ),
        Decision::Ignore(reason) => if verbose {
            Some(ReportRow { index, tag: "IGNORE", reason, elevated, border })
        } else {
            None
        },
    }
}

/// The rows of the first `n` windows.
pub open spec fn rows(entries: Seq<ScanEntry>, verbose: bool, n: int) -> Seq<ReportRow>
    decreases n,
{
    if n <= 0 {
        Seq::empty()
    } else {
        match row_of(entries[n - 1], (n - 1) as usize, verbose) {
            Some(r) => rows(entries, verbose, n - 1).push(r),
            None => rows(entries, verbose, n - 1),
        }
    }
}

/// How many of the first `n` windows are tiled.
pub open spec fn tiled(entries: Seq<ScanEntry>, n: int) -> int
    decreases n,
{
    if n <= 0 {
        0
    } else if entries[n - 1].decision is Manage {
        tiled(entries, n - 1) + 1
    } else {
        tiled(entries, n - 1)
    }
}

/// The row of a window, none where it is left out of the report.
fn report_row(e: &ScanEntry, index: usize, verbose: bool) -> (r: Option<ReportRow>)
    ensures
        r == row_of(*e, index, verbose),
{
    let elevated: &'static str = match e.elevated {
        Some(true) => " elevated=yes(untracked)",
        Some(false) => "",
        None => " elevated=unknown(untracked)",
    };
    let border: Option<(i64, i64, i64, i64)> = match e.frame {
        Some(f) => Some(
            (
                f.left as i64 - e.rect.left as i64,
                f.top as i64 - e.rect.top as i64,
                e.rect.right as i64 - f.right as i64,
                e.rect.bottom as i64 - f.bottom as i64,
            ),
        ),
        None => None,
    };
    match e.decision {
        Decision::Manage => Some(
            ReportRow { index, tag: "MANAGE", reason: "", elevated, border },
        ),
        Decision::Float(reason) => Some(
            ReportRow { index, tag: "FLOAT ", reason, elevated, border },
        ),
        Decision::Ignore(reason) => if verbose {
            Some(ReportRow { index, tag: "IGNORE", reason, elevated, border })
        } else {
            None
        },
    }
}

/// The report of a scan, and how many windows are tiled. Windows that are left
/// out are in it only where it is verbose.
pub fn report(entries: &Vec<ScanEntry>, verbose: bool) -> (r: (Vec<ReportRow>, usize))
    ensures
        r.0@ == rows(entries@, verbose, entries.len() as int),
        r.1 == tiled(entries@, entries.len() as int),
{
    let mut out: Vec<ReportRow> = Vec::new();
    let mut managed: usize = 0;
    let mut i: usize = 0;
    while i < entries.len()
        invariant
            i <= entries.len(),
            out@ == rows(entries@, verbose, i as int),
            managed == tiled(entries@, i as int),
            managed <= i,
        decreases entries.len() - i,
    {
        if let Some(row) = report_row(&entries[i], i, verbose) {
            out.push(row);
        }
        if let Decision::Manage = entries[i].decision {
            managed += 1;
        }
        i += 1;
    }
    (out, managed)
}

// ---------------------------------------------------------------------------
// Laws
// ---------------------------------------------------------------------------

proof fn lemma_handle_from(ms: Seq<MonitorView>, hmonitor: int, i: int)
    requires
        0 <= i <= ms.len(),
    ensures
        i <= handle_from(ms, hmonitor, i) <= ms.len(),
        handle_from(ms, hmonitor, i) < ms.len() ==> ms[handle_from(
            ms,
            hmonitor,
            i,
        )].hmonitor == hmonitor,
        forall|k: int|
            i <= k < handle_from(ms, hmonitor, i) ==> (#[trigger] ms[k]).hmonitor != hmonitor,
    decreases ms.len() - i,
{
    if i < ms.len() && ms[i].hmonitor != hmonitor {
        lemma_handle_from(ms, hmonitor, i + 1);
    }
}

/// A window is taken in on the monitor with the handle it is found on, the first
/// where there are several, or on the first monitor where there is none.
pub proof fn law_monitor_with_handle(ms: Seq<MonitorView>, hmonitor: int)
    ensures
        ({
            let r = monitor_with(ms, hmonitor);
            if exists|i: int| 0 <= i < ms.len() && (#[trigger] ms[i]).hmonitor == hmonitor {
                &&& 0 <= r < ms.len()
                &&& ms[r].hmonitor == hmonitor
                &&& forall|i: int| 0 <= i < r ==> (#[trigger] ms[i]).hmonitor != hmonitor
            } else {
                r == 0
            }
        }),
{
    lemma_handle_from(ms, hmonitor, 0);
}

/// Windows are taken in monitor by monitor, on each from left to right, and those
/// at one place as they were found.
pub proof fn law_order_of_windows(keys: Seq<(usize, i32)>, a: usize, b: usize)
    requires
        a < keys.len(),
        b < keys.len(),
        earlier(keys, a, b),
    ensures
        keys[a as int].0 <= keys[b as int].0,
        keys[a as int].0 == keys[b as int].0 ==> keys[a as int].1 <= keys[b as int].1,
        keys[a as int] == keys[b as int] ==> a < b,
        !earlier(keys, b, a),
{
}

/// The report has a row for every window but, unless all are asked for, those that
/// are ignored, in the order of the windows.
pub proof fn law_report_rows(entries: Seq<ScanEntry>, verbose: bool, n: int, k: int)
    requires
        0 <= k < n <= entries.len() <= usize::MAX,
    ensures
        ({
            let all = rows(entries, verbose, n);
            let e = entries[k];
            let told = verbose || !(e.decision is Ignore);
            &&& told <==> exists|j: int| 0 <= j < all.len() && (#[trigger] all[j]).index == k
            &&& forall|j: int|
                0 <= j < all.len() && (#[trigger] all[j]).index == k ==> all[j].tag
                    == match e.decision {
                    Decision::Manage => "MANAGE",
                    Decision::Float(_) => "FLOAT ",
                    Decision::Ignore(_) => "IGNORE",
                }
            &&& forall|i: int, j: int|
                0 <= i < j < all.len() ==> (#[trigger] all[i]).index < (#[trigger] all[j]).index
        }),
    decreases n,
{
    lemma_rows_below(entries, verbose, n);
    let all = rows(entries, verbose, n);
    let front = rows(entries, verbose, n - 1);
    lemma_rows_below(entries, verbose, n - 1);
    if k < n - 1 {
        law_report_rows(entries, verbose, n - 1, k);
        if exists|j: int| 0 <= j < front.len() && (#[trigger] front[j]).index == k {
            let j = choose|j: int| 0 <= j < front.len() && (#[trigger] front[j]).index == k;
            assert(all[j].index == k);
        }
        assert forall|j: int| 0 <= j < all.len() && (#[trigger] all[j]).index == k implies j
            < front.len() && front[j] == all[j] by {}
    } else {
        assert forall|j: int| 0 <= j < all.len() && (#[trigger] all[j]).index == k implies j
            == front.len() by {
            if j < front.len() {
                assert(front[j].index < n - 1);
            }
        }
        if verbose || !(entries[k].decision is Ignore) {
            assert(all[front.len() as int].index == k);
        }
    }
}

/// The report counts just the windows that are tiled.
pub proof fn law_report_count(entries: Seq<ScanEntry>, n: int)
    requires
        0 <= n <= entries.len(),
    ensures
        tiled(entries, n) == entries.take(n).filter(
            |e: ScanEntry| e.decision == Decision::Manage,
        ).len(),
    decreases n,
{
    reveal(Seq::filter);
    if n > 0 {
        law_report_count(entries, n - 1);
        assert(entries.take(n).drop_last() =~= entries.take(n - 1));
        assert(entries.take(n).last() == entries[n - 1]);
    } else {
        assert(entries.take(n) =~= Seq::empty());
    }
}

proof fn lemma_rows_below(entries: Seq<ScanEntry>, verbose: bool, n: int)
    requires
        0 <= n <= entries.len() <= usize::MAX,
    ensures
        ({
            let all = rows(entries, verbose, n);
            &&& forall|j: int| 0 <= j < all.len() ==> (#[trigger] all[j]).index < n
            &&& forall|i: int, j: int|
                0 <= i < j < all.len() ==> (#[trigger] all[i]).index < (#[trigger] all[j]).index
        }),
    decreases n,
{
    if n > 0 {
        lemma_rows_below(entries, verbose, n - 1);
    }
}

} // verus!
