//! The window manager's state and what each event does to it.
//!
//! A handler changes the state and says what is to be done to the real windows
//! as a list of [`Action`]s.

use std::collections::HashMap;
use vstd::prelude::*;

use crate::arith::in_i32;
use crate::displays::{lemma_update_monitor, monitors_apart};
use crate::geometry::{
    Border, Edges, border_between, clamp_into_work, frame_border, onto, to_rect,
};
use crate::layout::{Rect, RectView, WindowId};
use crate::monitors::{MonitorState, MonitorView, managed, monitor_views, monitors_sound};
use crate::restore::{can_place, fits_i32};
use crate::scan::ScanEntry;
use crate::tiling::lemma_taken_in;

verus! {

/// The state of the window manager.
pub struct Wm {
    pub monitors: Vec<MonitorState>,
    pub active_monitor: usize,
    pub focused: Option<WindowId>,
    /// The window the focus left when it last followed to another monitor, and
    /// when that was.
    pub cross_follow: Option<(WindowId, u64)>,
    /// The window the focus was handed to when a window closed, and when that
    /// was.
    pub focus_guard: Option<(WindowId, u64)>,
    /// Where windows stand on screen.
    pub visual: HashMap<u64, Rect>,
    /// How far windows reach past their frames.
    pub borders: HashMap<u64, Border>,
    pub fullscreen: Option<u64>,
    /// The window with the focused frame colour.
    pub bordered: Option<u64>,
    /// Windows of pinned opacity.
    pub pinned: Vec<u64>,
    /// Where windows were last sent.
    pub last_targets: Vec<(u64, Rect)>,
}

/// Something to do to the real windows.
#[derive(Debug)]
pub enum Action {
    /// Bring the window to the foreground.
    Focus(u64),
    /// Keep the rectangle to put the window back to, if none is kept yet.
    Remember(u64, Edges),
    /// Drop the kept rectangle.
    Forget(u64),
    /// Write the kept rectangles out.
    Persist,
    /// Set the frame colour.
    Color(u64, u32),
    /// Make a window opaque that was left dimmed.
    Heal(u64),
    /// End the window's hiding.
    Show(u64),
    /// End the window's dimming.
    Undim(u64),
    /// End all hiding.
    ShowAll,
    /// End all dimming.
    UndimAll,
    /// Ask the window to close.
    Close(u64),
    /// Start a program.
    Spawn(String),
}

/// How long a window that lost the focus to another monitor may go and take the
/// focus back, in milliseconds.
pub const ROLLBACK_MS: u64 = 800;

/// How long the focus handed on stays defended, in milliseconds.
pub const GUARD_MS: u64 = 500;

// ---------------------------------------------------------------------------
// Model
// ---------------------------------------------------------------------------

/// The state as mathematical values.
#[verifier::ext_equal]
pub struct WmView {
    pub monitors: Seq<MonitorView>,
    pub active_monitor: int,
    pub focused: Option<WindowId>,
    pub cross_follow: Option<(WindowId, u64)>,
    pub focus_guard: Option<(WindowId, u64)>,
    pub visual: Map<u64, Rect>,
    pub borders: Map<u64, Border>,
    pub fullscreen: Option<u64>,
    pub bordered: Option<u64>,
    pub pinned: Seq<u64>,
    pub last_targets: Seq<(u64, Rect)>,
}

impl View for Wm {
    type V = WmView;

    open spec fn view(&self) -> WmView {
        WmView {
            monitors: monitor_views(self.monitors@),
            active_monitor: self.active_monitor as int,
            focused: self.focused,
            cross_follow: self.cross_follow,
            focus_guard: self.focus_guard,
            visual: self.visual@,
            borders: self.borders@,
            fullscreen: self.fullscreen,
            bordered: self.bordered,
            pinned: self.pinned@,
            last_targets: self.last_targets@,
        }
    }
}

/// Milliseconds since `then`.
pub open spec fn elapsed(now: u64, then: u64) -> int {
    if now >= then {
        now - then
    } else {
        0
    }
}

/// What the visible frame of a found window looks like on this work area: its
/// rectangle, its border, and the place to put the window back to all fit
/// coordinates.
pub open spec fn entry_fits(e: ScanEntry, work: RectView) -> bool {
    let back = onto(e.rect.rect(), work);
    let d = border_between(e.rect, e.seen_frame());
    &&& e.rect.rect().fits()
    &&& e.seen_frame().rect().fits()
    &&& back.fits()
    &&& in_i32(back.right())
    &&& in_i32(back.bottom())
    &&& in_i32(d.0)
    &&& in_i32(d.1)
    &&& in_i32(d.2)
    &&& in_i32(d.3)
}

/// A rectangle between edges, in coordinates.
pub open spec fn edges_rect(e: Edges) -> Rect {
    Rect {
        x: e.left,
        y: e.top,
        w: (e.right - e.left) as i32,
        h: (e.bottom - e.top) as i32,
    }
}

/// The edges of a rectangle, in coordinates.
pub open spec fn rect_edges(r: RectView) -> Edges {
    Edges {
        left: r.x as i32,
        top: r.y as i32,
        right: r.right() as i32,
        bottom: r.bottom() as i32,
    }
}

/// How far the found window reaches past its frame.
pub open spec fn entry_border(e: ScanEntry) -> Border {
    let d = border_between(e.rect, e.seen_frame());
    Border { left: d.0 as i32, top: d.1 as i32, right: d.2 as i32, bottom: d.3 as i32 }
}

/// What taking a window in asks for: where to put it back to, and to make it
/// opaque.
pub open spec fn adopt_actions(e: ScanEntry, h: u64, work: RectView) -> Seq<Action> {
    seq![Action::Remember(h, rect_edges(onto(e.rect.rect(), work))), Action::Heal(h)]
}

/// The frame colour a new window gets, where frames are coloured.
pub open spec fn entry_color(h: u64, colors: Option<(u32, u32)>) -> Seq<Action> {
    match colors {
        Some(c) => seq![Action::Color(h, c.1)],
        None => Seq::empty(),
    }
}

impl WmView {
    /// The state's shape: there is a monitor, the active one is among them, no
    /// window is tiled twice, every stack is in shape, and the focus is on a
    /// tiled window or nowhere.
    pub open spec fn wf(self) -> bool {
        &&& 0 <= self.active_monitor < self.monitors.len()
        &&& monitors_sound(self.monitors)
        &&& (self.focused matches Some(f) ==> managed(self.monitors, f))
    }

    /// The active monitor.
    pub open spec fn here(self) -> MonitorView {
        self.monitors[self.active_monitor]
    }

    /// The state with monitor `i` replaced.
    pub open spec fn with_monitor(self, i: int, m: MonitorView) -> WmView {
        WmView { monitors: self.monitors.update(i, m), ..self }
    }

    /// The state with the active monitor replaced.
    pub open spec fn with_here(self, m: MonitorView) -> WmView {
        self.with_monitor(self.active_monitor, m)
    }

    /// Monitor `mi` takes the found window in right of the anchor.
    pub open spec fn adopted(
        self,
        mi: int,
        e: ScanEntry,
        h: u64,
        anchor: Option<WindowId>,
        gap: int,
    ) -> WmView {
        WmView {
            visual: self.visual.insert(h, edges_rect(e.seen_frame())),
            borders: self.borders.insert(h, entry_border(e)),
            ..self.with_monitor(mi, self.monitors[mi].taken_in(anchor, WindowId(h), gap))
        }
    }

    /// Taking the found window in on monitor `mi`, right of the anchor, stays
    /// within coordinates.
    pub open spec fn adopt_fits(
        self,
        mi: int,
        e: ScanEntry,
        anchor: Option<WindowId>,
        gap: int,
    ) -> bool {
        &&& entry_fits(e, self.monitors[mi].work)
        &&& self.monitors[mi].take_in_fits(anchor, gap)
    }

    /// The focused window, if the active monitor holds it.
    pub open spec fn focused_here(self) -> Option<WindowId> {
        match self.focused {
            Some(f) => if self.here().stack.contains(f) {
                Some(f)
            } else {
                None
            },
            None => None,
        }
    }
}

// ---------------------------------------------------------------------------
// Lemmas
// ---------------------------------------------------------------------------

/// Replacing a monitor by one with the same windows keeps the shape.
pub proof fn lemma_same_windows(w: WmView, i: int, m: MonitorView)
    requires
        w.wf(),
        0 <= i < w.monitors.len(),
        m.stack.sound(),
        forall|x: WindowId| #[trigger] m.stack.contains(x) == w.monitors[i].stack.contains(x),
    ensures
        w.with_monitor(i, m).wf(),
        forall|x: WindowId| #[trigger]
            managed(w.with_monitor(i, m).monitors, x) == managed(w.monitors, x),
{
    let next = w.monitors.update(i, m);
    lemma_update_monitor(w.monitors, i, m);
    assert forall|k: int| 0 <= k < next.len() implies (#[trigger] next[k]).stack.sound() by {
        assert(w.monitors[k].stack.sound());
    }
    assert forall|x: WindowId| #[trigger] managed(next, x) == managed(w.monitors, x) by {
        if w.monitors[i].stack.contains(x) {
            assert(managed(w.monitors, x));
        }
    }
    assert(monitors_sound(next)) by {
        assert(monitors_apart(next));
    }
}

/// The state with the window added is in shape, and manages just it more.
pub proof fn lemma_adopted(
    w: WmView,
    mi: int,
    e: ScanEntry,
    h: u64,
    anchor: Option<WindowId>,
    gap: int,
)
    requires
        w.wf(),
        0 <= mi < w.monitors.len(),
        !managed(w.monitors, WindowId(h)),
    ensures
        w.adopted(mi, e, h, anchor, gap).wf(),
        w.adopted(mi, e, h, anchor, gap).monitors[mi].shown().contains(WindowId(h)),
        forall|x: WindowId| #[trigger]
            managed(w.adopted(mi, e, h, anchor, gap).monitors, x) <==> managed(w.monitors, x) || x
                == WindowId(h),
{
    let id = WindowId(h);
    let m = w.monitors[mi];
    assert(!m.stack.contains(id));
    lemma_taken_in(m, anchor, id, gap);
    let t = m.taken_in(anchor, id, gap);
    assert forall|x: WindowId| #[trigger] t.stack.contains(x) implies m.stack.contains(x)
        || !managed(w.monitors, x) by {}
    lemma_update_monitor(w.monitors, mi, t);
    let next = w.monitors.update(mi, t);
    assert forall|k: int| 0 <= k < next.len() implies (#[trigger] next[k]).stack.sound() by {
        assert(w.monitors[k].stack.sound());
    }
    assert forall|x: WindowId| #[trigger] managed(next, x) <==> managed(w.monitors, x) || x == id by {
        if m.stack.contains(x) {
            assert(managed(w.monitors, x));
        }
    }
    assert(monitors_sound(next)) by {
        assert(monitors_apart(next));
    }
}

// ---------------------------------------------------------------------------
// Taking windows in
// ---------------------------------------------------------------------------

/// Tests whether a found window's rectangles fit coordinates on this work area.
pub fn can_adopt(e: &ScanEntry, work: Rect) -> (r: bool)
    ensures
        r == entry_fits(*e, work@),
{
    let f = e.frame_or_rect();
    let w: i64 = f.right as i64 - f.left as i64;
    let h: i64 = f.bottom as i64 - f.top as i64;
    let left: i64 = f.left as i64 - e.rect.left as i64;
    let top: i64 = f.top as i64 - e.rect.top as i64;
    let right: i64 = e.rect.right as i64 - f.right as i64;
    let bottom: i64 = e.rect.bottom as i64 - f.bottom as i64;
    can_place(e.rect, work) && fits_i32(w) && fits_i32(h) && fits_i32(left) && fits_i32(top)
        && fits_i32(right) && fits_i32(bottom)
}

impl Wm {
    /// No windows yet, the first monitor active.
    pub fn new(monitors: Vec<MonitorState>) -> (r: Wm)
        requires
            monitors.len() > 0,
            monitors_sound(monitor_views(monitors@)),
        ensures
            r@ == (WmView {
                monitors: monitor_views(monitors@),
                active_monitor: 0,
                focused: None,
                cross_follow: None,
                focus_guard: None,
                visual: Map::empty(),
                borders: Map::empty(),
                fullscreen: None,
                bordered: None,
                pinned: Seq::empty(),
                last_targets: Seq::empty(),
            }),
            r@.wf(),
    {
        broadcast use vstd::std_specs::hash::group_hash_axioms;

        Wm {
            monitors,
            active_monitor: 0,
            focused: None,
            cross_follow: None,
            focus_guard: None,
            visual: HashMap::new(),
            borders: HashMap::new(),
            fullscreen: None,
            bordered: None,
            pinned: Vec::new(),
            last_targets: Vec::new(),
        }
    }

    /// Tests whether a window that was open when the window manager started can
    /// be taken in on monitor `mi` within coordinates.
    pub fn can_adopt_initial(&self, mi: usize, e: &ScanEntry, gap: i32) -> (r: bool)
        requires
            self@.wf(),
            mi < self.monitors.len(),
        ensures
            r == self@.adopt_fits(mi as int, *e, None, gap as int),
    {
        assert(self@.monitors[mi as int] == self.monitors@[mi as int]@);
        assert(self@.monitors[mi as int].stack.sound());
        can_adopt(e, self.monitors[mi].work) && self.monitors[mi].can_take_in(None, gap)
    }

    /// Takes the found window in on monitor `mi`, right of the anchor.
    pub(crate) fn adopt(
        &mut self,
        mi: usize,
        e: &ScanEntry,
        h: u64,
        anchor: Option<WindowId>,
        gap: i32,
    ) -> (acts: Vec<Action>)
        requires
            mi < old(self).monitors.len(),
            old(self)@.monitors[mi as int].stack.wf(),
            old(self)@.adopt_fits(mi as int, *e, anchor, gap as int),
        ensures
            final(self)@ == old(self)@.adopted(mi as int, *e, h, anchor, gap as int),
            acts@ == adopt_actions(*e, h, old(self)@.monitors[mi as int].work),
    {
        broadcast use vstd::std_specs::hash::group_hash_axioms;

        let ghost before = self@;
        let ghost old_monitors = self.monitors@;
        assert(before.monitors[mi as int] == old_monitors[mi as int]@);
        let mut acts: Vec<Action> = Vec::new();
        let back = clamp_into_work(e.rect, self.monitors[mi].work);
        assert(back == rect_edges(onto(e.rect.rect(), self.monitors@[mi as int].work@)));
        acts.push(Action::Remember(h, back));
        let frame = e.frame_or_rect();
        let border = frame_border(e.rect, frame);
        assert(border == entry_border(*e));
        self.borders.insert(h, border);
        acts.push(Action::Heal(h));
        let seen = to_rect(frame);
        assert(seen == edges_rect(e.seen_frame()));
        self.visual.insert(h, seen);
        self.monitors[mi].take_in(anchor, WindowId(h), gap);
        proof {
            let want = before.adopted(mi as int, *e, h, anchor, gap as int);
            assert forall|k: int| 0 <= k < old_monitors.len() implies #[trigger] self@.monitors[k]
                == want.monitors[k] by {
                if k != mi {
                    assert(self.monitors@[k] == old_monitors[k]);
                }
            }
            assert(self@.monitors =~= want.monitors);
            assert(acts@ =~= adopt_actions(*e, h, before.monitors[mi as int].work));
        }
        acts
    }

    /// Takes a window in that was open when the window manager started, at the
    /// end of its monitor's workspace.
    pub fn adopt_initial(
        &mut self,
        mi: usize,
        e: &ScanEntry,
        h: u64,
        colors: Option<(u32, u32)>,
        gap: i32,
    ) -> (acts: Vec<Action>)
        requires
            old(self)@.wf(),
            mi < old(self).monitors.len(),
            !managed(old(self)@.monitors, WindowId(h)),
            old(self)@.adopt_fits(mi as int, *e, None, gap as int),
        ensures
            final(self)@ == old(self)@.adopted(mi as int, *e, h, None, gap as int),
            final(self)@.wf(),
            acts@ == adopt_actions(*e, h, old(self)@.monitors[mi as int].work) + entry_color(
                h,
                colors,
            ),
    {
        let ghost before = self@;
        proof {
            assert(before.monitors[mi as int].stack.sound());
            lemma_adopted(before, mi as int, *e, h, None, gap as int);
        }
        let mut acts = self.adopt(mi, e, h, None, gap);
        if let Some(c) = colors {
            acts.push(Action::Color(h, c.1));
        }
        assert(acts@ =~= adopt_actions(*e, h, before.monitors[mi as int].work) + entry_color(
            h,
            colors,
        ));
        acts
    }
}

} // verus!
