//! The state as it is told to clients.

use vstd::prelude::*;

use crate::layout::{Column, ColumnView, Rect, Stack, StackView, Strip, StripView};
use crate::monitors::{MonitorState, MonitorView};
use crate::wm::{Wm, WmView};

verus! {

/// A column as it is told.
#[derive(Debug)]
pub struct ColumnReport {
    pub x: i32,
    pub width: i32,
    pub tiles: Vec<u64>,
}

/// A workspace as it is told.
#[derive(Debug)]
pub struct WorkspaceReport {
    pub offset_x: i32,
    pub columns: Vec<ColumnReport>,
}

/// A monitor as it is told.
#[derive(Debug)]
pub struct MonitorReport {
    pub active_workspace: usize,
    pub workspaces: Vec<WorkspaceReport>,
    pub work: Rect,
}

/// The state as it is told. The workspaces of the active monitor are told twice:
/// on their own, for clients that know of one monitor, and with it.
#[derive(Debug)]
pub struct StateReport {
    pub active_monitor: usize,
    pub active_workspace: usize,
    pub focused: Option<u64>,
    pub fullscreen: Option<u64>,
    pub workspaces: Vec<WorkspaceReport>,
    pub monitors: Vec<MonitorReport>,
}

// ---------------------------------------------------------------------------
// Model
// ---------------------------------------------------------------------------

/// The column is told as it is.
pub open spec fn tells_column(r: ColumnReport, c: ColumnView) -> bool {
    &&& r.x == c.x
    &&& r.width == c.width
    &&& r.tiles@.len() == c.tiles.len()
    &&& forall|i: int| 0 <= i < c.tiles.len() ==> #[trigger] r.tiles@[i] == c.tiles[i].0
}

/// The workspace is told as it is.
pub open spec fn tells_strip(r: WorkspaceReport, s: StripView) -> bool {
    &&& r.offset_x == s.offset_x
    &&& r.columns@.len() == s.columns.len()
    &&& forall|i: int|
        0 <= i < s.columns.len() ==> tells_column(#[trigger] r.columns@[i], s.columns[i])
}

/// The workspaces are told as they are.
pub open spec fn tells_strips(r: Seq<WorkspaceReport>, s: StackView) -> bool {
    &&& r.len() == s.strips.len()
    &&& forall|i: int| 0 <= i < s.strips.len() ==> tells_strip(#[trigger] r[i], s.strips[i])
}

/// The monitor is told as it is.
pub open spec fn tells_monitor(r: MonitorReport, m: MonitorView) -> bool {
    &&& r.active_workspace == m.stack.active
    &&& tells_strips(r.workspaces@, m.stack)
    &&& r.work@ == m.work
}

/// The state is told as it is.
pub open spec fn tells(r: StateReport, w: WmView) -> bool {
    &&& r.active_monitor == w.active_monitor
    &&& r.active_workspace == w.here().stack.active
    &&& match w.focused {
        Some(f) => r.focused == Some(f.0),
        None => r.focused is None,
    }
    &&& r.fullscreen == w.fullscreen
    &&& tells_strips(r.workspaces@, w.here().stack)
    &&& r.monitors@.len() == w.monitors.len()
    &&& forall|i: int|
        0 <= i < w.monitors.len() ==> tells_monitor(#[trigger] r.monitors@[i], w.monitors[i])
}

// ---------------------------------------------------------------------------
// Operations
// ---------------------------------------------------------------------------

/// A column as it is told.
fn report_column(c: &Column) -> (r: ColumnReport)
    ensures
        tells_column(r, c@),
{
    let mut tiles: Vec<u64> = Vec::new();
    let mut i: usize = 0;
    while i < c.tiles.len()
        invariant
            i <= c.tiles.len(),
            tiles.len() == i,
            forall|k: int| 0 <= k < i ==> #[trigger] tiles@[k] == c.tiles@[k].0,
        decreases c.tiles.len() - i,
    {
        tiles.push(c.tiles[i].0);
        i += 1;
    }
    ColumnReport { x: c.x, width: c.width, tiles }
}

/// A workspace as it is told.
fn report_strip(s: &Strip) -> (r: WorkspaceReport)
    ensures
        tells_strip(r, s@),
{
    let mut columns: Vec<ColumnReport> = Vec::new();
    let mut i: usize = 0;
    while i < s.columns.len()
        invariant
            i <= s.columns.len(),
            columns.len() == i,
            forall|k: int| 0 <= k < i ==> tells_column(#[trigger] columns@[k], s@.columns[k]),
        decreases s.columns.len() - i,
    {
        assert(s@.columns[i as int] == s.columns@[i as int]@);
        columns.push(report_column(&s.columns[i]));
        i += 1;
    }
    WorkspaceReport { offset_x: s.offset_x, columns }
}

/// The workspaces of a monitor as they are told.
fn report_strips(s: &Stack) -> (r: Vec<WorkspaceReport>)
    ensures
        tells_strips(r@, s@),
{
    let mut out: Vec<WorkspaceReport> = Vec::new();
    let mut i: usize = 0;
    while i < s.strips.len()
        invariant
            i <= s.strips.len(),
            out.len() == i,
            forall|k: int| 0 <= k < i ==> tells_strip(#[trigger] out@[k], s@.strips[k]),
        decreases s.strips.len() - i,
    {
        assert(s@.strips[i as int] == s.strips@[i as int]@);
        out.push(report_strip(&s.strips[i]));
        i += 1;
    }
    out
}

/// A monitor as it is told.
fn report_monitor(m: &MonitorState) -> (r: MonitorReport)
    ensures
        tells_monitor(r, m@),
{
    MonitorReport {
        active_workspace: m.stack.active,
        workspaces: report_strips(&m.stack),
        work: m.work,
    }
}

impl Wm {
    /// The state as it is told to clients.
    pub fn report(&self) -> (r: StateReport)
        requires
            self@.wf(),
        ensures
            tells(r, self@),
    {
        let mut monitors: Vec<MonitorReport> = Vec::new();
        let mut i: usize = 0;
        while i < self.monitors.len()
            invariant
                i <= self.monitors.len(),
                monitors.len() == i,
                forall|k: int|
                    0 <= k < i ==> tells_monitor(#[trigger] monitors@[k], self@.monitors[k]),
            decreases self.monitors.len() - i,
        {
            assert(self@.monitors[i as int] == self.monitors@[i as int]@);
            monitors.push(report_monitor(&self.monitors[i]));
            i += 1;
        }
        let a: usize = self.active_monitor;
        assert(self@.here() == self.monitors@[a as int]@);
        StateReport {
            active_monitor: a,
            active_workspace: self.monitors[a].stack.active,
            focused: match self.focused {
                Some(f) => Some(f.0),
                None => None,
            },
            fullscreen: self.fullscreen,
            workspaces: report_strips(&self.monitors[a].stack),
            monitors,
        }
    }
}

// ---------------------------------------------------------------------------
// Laws
// ---------------------------------------------------------------------------

/// A report of the state tells the focus, the active monitor and the workspace on
/// show there, and of every monitor its work area and every column of every
/// workspace, with its place, its width and its windows. The workspaces told on
/// their own are those of the active monitor.
pub proof fn law_state_is_told(r: StateReport, w: WmView, i: int, k: int, c: int, t: int)
    requires
        tells(r, w),
        0 <= i < w.monitors.len(),
        0 <= k < w.monitors[i].stack.strips.len(),
        0 <= c < w.monitors[i].stack.strips[k].columns.len(),
        0 <= t < w.monitors[i].stack.strips[k].columns[c].tiles.len(),
    ensures
        ({
            let m = w.monitors[i];
            let s = m.stack.strips[k];
            let told = r.monitors@[i].workspaces@[k];
            &&& r.active_monitor == w.active_monitor
            &&& r.focused == match w.focused {
                Some(f) => Some(f.0),
                None => None,
            }
            &&& r.fullscreen == w.fullscreen
            &&& r.monitors@.len() == w.monitors.len()
            &&& r.monitors@[i].work@ == m.work
            &&& r.monitors@[i].active_workspace == m.stack.active
            &&& r.monitors@[i].workspaces@.len() == m.stack.strips.len()
            &&& told.offset_x == s.offset_x
            &&& told.columns@.len() == s.columns.len()
            &&& told.columns@[c].x == s.columns[c].x
            &&& told.columns@[c].width == s.columns[c].width
            &&& told.columns@[c].tiles@.len() == s.columns[c].tiles.len()
            &&& told.columns@[c].tiles@[t] == s.columns[c].tiles[t].0
            &&& i == w.active_monitor ==> {
                &&& r.active_workspace == m.stack.active
                &&& r.workspaces@.len() == m.stack.strips.len()
                &&& r.workspaces@[k].offset_x == s.offset_x
                &&& r.workspaces@[k].columns@.len() == s.columns.len()
                &&& r.workspaces@[k].columns@[c].x == s.columns[c].x
                &&& r.workspaces@[k].columns@[c].width == s.columns[c].width
                &&& r.workspaces@[k].columns@[c].tiles@.len() == s.columns[c].tiles.len()
                &&& r.workspaces@[k].columns@[c].tiles@[t] == s.columns[c].tiles[t].0
            }
        }),
{
    let m = w.monitors[i];
    assert(tells_monitor(r.monitors@[i], m));
    assert(tells_strip(r.monitors@[i].workspaces@[k], m.stack.strips[k]));
    assert(tells_column(
        r.monitors@[i].workspaces@[k].columns@[c],
        m.stack.strips[k].columns[c],
    ));
    if i == w.active_monitor {
        assert(tells_strip(r.workspaces@[k], m.stack.strips[k]));
        assert(tells_column(r.workspaces@[k].columns@[c], m.stack.strips[k].columns[c]));
    }
}

} // verus!
