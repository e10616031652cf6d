//! Windows that appear, go, or come to the foreground.

use vstd::prelude::*;

use crate::displays::{lemma_update_monitor, monitors_apart};
use crate::layout::{StripView, WindowId, lemma_strip_index};
use crate::layout_laws::{law_tiles_stay, lemma_same_tiles};
use crate::monitors::{
    MonitorState, lemma_monitor_of, managed, monitor_index_of, monitor_of, monitors_sound,
};
use crate::scan::ScanEntry;
use crate::tiling::{
    is_window, lemma_return_to, lemma_settled_on, lemma_showing, lemma_taken_in,
    lemma_taken_out,
};
use crate::transition::is_some_of;
use crate::wm::{
    Action, GUARD_MS, ROLLBACK_MS, Wm, WmView, adopt_actions, can_adopt, elapsed, entry_color,
    lemma_adopted, lemma_same_windows,
};

verus! {

// ---------------------------------------------------------------------------
// Model
// ---------------------------------------------------------------------------

/// The list without a handle.
pub open spec fn without_handle(s: Seq<u64>, h: u64) -> Seq<u64> {
    s.filter(|x: u64| x != h)
}

impl WmView {
    /// The state at the start, with the focus on the foreground window where it
    /// is tiled.
    pub open spec fn started(self, fg: WindowId) -> WmView {
        match monitor_of(self.monitors, fg) {
            Some(mi) => {
                let m = self.monitors[mi];
                WmView {
                    active_monitor: mi,
                    focused: Some(fg),
                    ..self.with_monitor(
                        mi,
                        m.with_shown(
                            StripView { last_focused: Some(fg), ..m.shown().set_active(fg) },
                        ),
                    )
                }
            },
            None => self,
        }
    }

    /// A window appeared: one that is to be tiled goes right of the focused
    /// window on the active monitor and gets the focus.
    pub open spec fn appeared(self, e: ScanEntry, h: u64, iconic: bool, gap: int) -> WmView {
        let id = WindowId(h);
        if managed(self.monitors, id) || !e.is_adoptable(iconic) {
            self
        } else {
            let w = self.adopted(self.active_monitor, e, h, self.focused_here(), gap);
            WmView { focused: Some(id), ..w.with_here(w.here().settled_on(id)) }
        }
    }

    /// Taking in the window that appeared stays within coordinates.
    pub open spec fn appear_fits(self, e: ScanEntry, h: u64, iconic: bool, gap: int) -> bool {
        let id = WindowId(h);
        let anchor = self.focused_here();
        managed(self.monitors, id) || !e.is_adoptable(iconic) || {
            &&& self.adopt_fits(self.active_monitor, e, anchor, gap)
            &&& self.here().taken_in(anchor, id, gap).settle_fits(id)
        }
    }

    /// What a window that appeared asks for.
    pub open spec fn appeared_actions(
        self,
        e: ScanEntry,
        h: u64,
        iconic: bool,
        colors: Option<(u32, u32)>,
    ) -> Seq<Action> {
        if managed(self.monitors, WindowId(h)) || !e.is_adoptable(iconic) {
            Seq::empty()
        } else {
            adopt_actions(e, h, self.here().work) + seq![Action::Focus(h), Action::Persist]
                + entry_color(h, colors)
        }
    }

    /// The focus followed away from `id` to another monitor a moment ago.
    pub open spec fn follows_from(self, id: WindowId) -> bool {
        self.cross_follow matches Some((p, _)) && p == id
    }

    /// The window that goes had the focus, or had it until the focus followed a
    /// fallback to another monitor a moment ago.
    pub open spec fn loses_focus(self, id: WindowId, now: u64) -> bool {
        ||| self.focused == Some(id)
        ||| self.cross_follow matches Some((p, t)) && p == id && elapsed(now, t) < ROLLBACK_MS
    }

    /// Who gets the focus on the window's monitor when it goes with the focus.
    pub open spec fn heir(self, id: WindowId, gap: int) -> Option<WindowId> {
        match monitor_of(self.monitors, id) {
            Some(mi) => {
                let m = self.monitors[mi];
                let s = m.stack.strips[m.stack.strip_index_of(id).unwrap()];
                let shown = m.taken_out(id, gap).shown();
                match s.successor(id, m.viewport_w, gap) {
                    Some(f) => if shown.contains(f) {
                        Some(f)
                    } else {
                        shown.return_to()
                    },
                    None => shown.return_to(),
                }
            },
            None => None,
        }
    }

    /// A window went: its column closes up, and where it had the focus the
    /// focus stays on its monitor.
    pub open spec fn gone(self, h: u64, now: u64, gap: int) -> WmView {
        let id = WindowId(h);
        match monitor_of(self.monitors, id) {
            None => self,
            Some(mi) => {
                let w = WmView {
                    cross_follow: if self.follows_from(id) {
                        None
                    } else {
                        self.cross_follow
                    },
                    visual: self.visual.remove(h),
                    borders: self.borders.remove(h),
                    pinned: without_handle(self.pinned, h),
                    fullscreen: if self.fullscreen == Some(h) {
                        None
                    } else {
                        self.fullscreen
                    },
                    ..self.with_monitor(mi, self.monitors[mi].taken_out(id, gap))
                };
                match self.heir(id, gap) {
                    Some(f) => if self.loses_focus(id, now) {
                        WmView {
                            active_monitor: mi,
                            focused: Some(f),
                            focus_guard: Some((f, now)),
                            ..w.with_monitor(mi, w.monitors[mi].settled_on(f))
                        }
                    } else {
                        w
                    },
                    None => WmView {
                        focused: if self.focused == Some(id) {
                            None
                        } else {
                            self.focused
                        },
                        ..w
                    },
                }
            },
        }
    }

    /// Letting the window go stays within coordinates.
    pub open spec fn go_fits(self, h: u64, now: u64, gap: int) -> bool {
        let id = WindowId(h);
        match monitor_of(self.monitors, id) {
            None => true,
            Some(mi) => {
                &&& self.monitors[mi].take_out_fits(id, gap)
                &&& self.loses_focus(id, now) ==> (self.heir(id, gap) matches Some(f)
                    ==> self.monitors[mi].taken_out(id, gap).settle_fits(f))
            },
        }
    }

    /// What a window that went asks for; `alive` says whether it still exists,
    /// hidden.
    pub open spec fn gone_actions(self, h: u64, now: u64, alive: bool, gap: int) -> Seq<Action> {
        let id = WindowId(h);
        if !managed(self.monitors, id) {
            Seq::empty()
        } else {
            let focus = match self.heir(id, gap) {
                Some(f) => if self.loses_focus(id, now) {
                    seq![Action::Focus(f.0)]
                } else {
                    Seq::empty()
                },
                None => Seq::empty(),
            };
            let forget = if alive {
                Seq::empty()
            } else {
                seq![Action::Forget(h)]
            };
            focus + seq![Action::Show(h), Action::Undim(h)] + forget + seq![Action::Persist]
        }
    }

    /// The window is tiled on a monitor that is not active.
    pub open spec fn is_elsewhere(self, id: WindowId) -> bool {
        monitor_of(self.monitors, id) matches Some(mi) && mi != self.active_monitor
    }

    /// The focus handed on is still defended against `id`.
    pub open spec fn is_guarded(self, id: WindowId, now: u64) -> bool {
        self.focus_guard matches Some((f, t)) && elapsed(now, t) < GUARD_MS && id != f
    }

    /// The focus does not follow the window in the foreground.
    pub open spec fn stays(self, id: WindowId, now: u64, orphaned: bool) -> bool {
        self.is_elsewhere(id) && (self.is_guarded(id, now) || (self.focused is Some && orphaned))
    }

    /// Following the window in the foreground stays within coordinates.
    pub open spec fn foreground_fits(self, id: WindowId, now: u64, orphaned: bool) -> bool {
        self.stays(id, now, orphaned) || (monitor_of(self.monitors, id) matches Some(mi)
            ==> self.monitors[mi].showing(id).settle_fits(id))
    }

    /// A window came to the foreground. The focus follows it, to its workspace
    /// and monitor, unless that is the system's fallback for a window that just
    /// went: `orphaned` says that the focused window is gone or minimized.
    pub open spec fn foreground(self, id: WindowId, now: u64, orphaned: bool) -> WmView {
        let w = WmView {
            focus_guard: if self.is_guarded(id, now) {
                self.focus_guard
            } else {
                None
            },
            ..self
        };
        if self.stays(id, now, orphaned) {
            w
        } else {
            match monitor_of(self.monitors, id) {
                Some(mi) => WmView {
                    cross_follow: if mi != self.active_monitor {
                        match self.focused {
                            Some(f) => Some((f, now)),
                            None => None,
                        }
                    } else {
                        self.cross_follow
                    },
                    active_monitor: mi,
                    focused: Some(id),
                    ..w.with_monitor(mi, w.monitors[mi].showing(id).settled_on(id))
                },
                None => w,
            }
        }
    }

    /// What a window in the foreground asks for: the focus handed on is claimed
    /// again.
    pub open spec fn foreground_actions(self, id: WindowId, now: u64) -> Seq<Action> {
        if self.is_elsewhere(id) && self.is_guarded(id, now) {
            seq![Action::Focus(self.focus_guard.unwrap().0.0)]
        } else {
            Seq::empty()
        }
    }
}

// ---------------------------------------------------------------------------
// Operations
// ---------------------------------------------------------------------------

/// Milliseconds since `then`.
fn since(now: u64, then: u64) -> (r: u64)
    ensures
        r == elapsed(now, then),
{
    if now >= then {
        now - then
    } else {
        0
    }
}

/// The list without a handle.
fn drop_handle(v: &Vec<u64>, h: u64) -> (r: Vec<u64>)
    ensures
        r@ == without_handle(v@, h),
{
    let mut out: Vec<u64> = Vec::new();
    let mut i: usize = 0;
    proof {
        reveal(Seq::filter);
        assert(v@.take(0) =~= Seq::empty());
    }
    while i < v.len()
        invariant
            i <= v.len(),
            out@ == without_handle(v@.take(i as int), h),
        decreases v.len() - i,
    {
        proof {
            reveal(Seq::filter);
            assert(v@.take(i + 1).drop_last() =~= v@.take(i as int));
        }
        if v[i] != h {
            out.push(v[i]);
        }
        i += 1;
    }
    assert(v@.take(i as int) =~= v@);
    out
}

impl MonitorState {
    /// Who gets the focus on the strip on show: the successor, if it is there,
    /// else the one the focus returns to.
    fn heir_of(&self, succ: Option<WindowId>) -> (r: Option<WindowId>)
        requires
            self.stack.active < self.stack.strips.len(),
        ensures
            r == match succ {
                Some(f) => if self@.shown().contains(f) {
                    Some(f)
                } else {
                    self@.shown().return_to()
                },
                None => self@.shown().return_to(),
            },
    {
        let a: usize = self.stack.active;
        assert(self@.shown() == self.stack.strips@[a as int]@);
        match succ {
            Some(f) => if self.stack.strips[a].contains(f) {
                Some(f)
            } else {
                self.stack.strips[a].return_to()
            },
            None => self.stack.strips[a].return_to(),
        }
    }
}

impl Wm {
    /// Puts the focus on the foreground window at the start, where it is tiled.
    pub fn start_focus(&mut self, fg: WindowId)
        requires
            old(self)@.wf(),
        ensures
            final(self)@ == old(self)@.started(fg),
            final(self)@.wf(),
    {
        let ghost before = self@;
        let ghost old_monitors = self.monitors@;
        proof {
            lemma_monitor_of(before.monitors, fg);
        }
        if let Some(mi) = monitor_index_of(fg, &self.monitors) {
            proof {
                assert(before.monitors[mi as int] == old_monitors[mi as int]@);
                let m = before.monitors[mi as int];
                let t = StripView { last_focused: Some(fg), ..m.shown().set_active(fg) };
                assert(m.stack.sound());
                law_tiles_stay(m.shown(), fg, 0, 0, true);
                lemma_same_tiles(t, m.shown());
                crate::tiling::lemma_shown_same(m, t);
                lemma_same_windows(before, mi as int, m.with_shown(t));
                assert(m.stack.strips[m.stack.active] == old_monitors[mi as int].stack.strips@[m.stack.active]@);
                assert(m.stack.contains(fg));
                assert(managed(before.monitors, fg));
            }
            self.active_monitor = mi;
            self.focused = Some(fg);
            let a: usize = self.monitors[mi].stack.active;
            self.monitors[mi].stack.strips[a].set_active(fg);
            self.monitors[mi].stack.strips[a].last_focused = Some(fg);
            proof {
                let want = before.started(fg);
                let strips = old_monitors[mi as int].stack.strips@;
                assert forall|k: int| 0 <= k < strips.len() implies #[trigger] self.monitors@[mi as int]@.stack.strips[k]
                    == want.monitors[mi as int].stack.strips[k] by {
                    if k != a {
                        assert(self.monitors@[mi as int].stack.strips@[k] == strips[k]);
                    }
                }
                assert(self.monitors@[mi as int]@.stack.strips
                    =~= want.monitors[mi as int].stack.strips);
                assert forall|k: int| 0 <= k < old_monitors.len() implies #[trigger] self@.monitors[k]
                    == want.monitors[k] by {
                    if k != mi {
                        assert(self.monitors@[k] == old_monitors[k]);
                    }
                }
                assert(self@.monitors =~= want.monitors);
            }
        }
    }

    /// The window is tiled.
    pub fn is_managed(&self, h: u64) -> (r: bool)
        ensures
            r == managed(self@.monitors, WindowId(h)),
    {
        proof {
            lemma_monitor_of(self@.monitors, WindowId(h));
        }
        monitor_index_of(WindowId(h), &self.monitors).is_some()
    }

    /// The focused window, if the active monitor holds it.
    pub(crate) fn focus_here(&self) -> (r: Option<WindowId>)
        requires
            self@.wf(),
        ensures
            r == self@.focused_here(),
    {
        assert(self@.here() == self.monitors@[self.active_monitor as int]@);
        match self.focused {
            Some(f) => if self.monitors[self.active_monitor].stack.contains(f) {
                Some(f)
            } else {
                None
            },
            None => None,
        }
    }

    /// Tests whether taking in the window that appeared stays within
    /// coordinates.
    pub fn can_appear(&self, e: &ScanEntry, h: u64, iconic: bool, gap: i32) -> (r: bool)
        requires
            self@.wf(),
        ensures
            r == self@.appear_fits(*e, h, iconic, gap as int),
    {
        if self.is_managed(h) || !e.adoptable(iconic) {
            return true;
        }
        let mi: usize = self.active_monitor;
        let anchor = self.focus_here();
        proof {
            let m = self@.monitors[mi as int];
            assert(m == self.monitors@[mi as int]@);
            assert(m.stack.sound());
            assert(!m.stack.contains(WindowId(h)));
            lemma_taken_in(m, anchor, WindowId(h), gap as int);
        }
        if !can_adopt(e, self.monitors[mi].work) || !self.monitors[mi].can_take_in(anchor, gap) {
            return false;
        }
        let mut m = self.monitors[mi].copied();
        m.take_in(anchor, WindowId(h), gap);
        m.can_settle(WindowId(h))
    }

    /// Takes in a window that appeared.
    pub fn on_appeared(
        &mut self,
        e: &ScanEntry,
        h: u64,
        iconic: bool,
        colors: Option<(u32, u32)>,
        gap: i32,
    ) -> (acts: Vec<Action>)
        requires
            old(self)@.wf(),
            old(self)@.appear_fits(*e, h, iconic, gap as int),
        ensures
            final(self)@ == old(self)@.appeared(*e, h, iconic, gap as int),
            final(self)@.wf(),
            acts@ == old(self)@.appeared_actions(*e, h, iconic, colors),
    {
        let ghost before = self@;
        let id = WindowId(h);
        if self.is_managed(h) || !e.adoptable(iconic) {
            return Vec::new();
        }
        let mi: usize = self.active_monitor;
        assert(before.monitors[mi as int].stack.sound());
        let anchor = self.focus_here();
        let ghost w = before.adopted(mi as int, *e, h, anchor, gap as int);
        proof {
            lemma_adopted(before, mi as int, *e, h, anchor, gap as int);
            lemma_settled_on(w.here(), id);
            lemma_same_windows(w, mi as int, w.here().settled_on(id));
        }
        let mut acts = self.adopt(mi, e, h, anchor, gap);
        let ghost mid = self.monitors@;
        assert(self@ == w);
        assert(w.monitors[mi as int] == mid[mi as int]@);
        self.focused = Some(id);
        self.monitors[mi].settle_on(id);
        acts.push(Action::Focus(h));
        acts.push(Action::Persist);
        if let Some(c) = colors {
            acts.push(Action::Color(h, c.1));
        }
        proof {
            let want = before.appeared(*e, h, iconic, gap as int);
            assert forall|k: int| 0 <= k < mid.len() implies #[trigger] self@.monitors[k]
                == want.monitors[k] by {
                if k != mi {
                    assert(self.monitors@[k] == mid[k]);
                }
            }
            assert(self@.monitors =~= want.monitors);
            assert(acts@ =~= before.appeared_actions(*e, h, iconic, colors));
        }
        acts
    }

    /// The window that goes had the focus, or had it a moment ago.
    fn is_losing_focus(&self, id: WindowId, now: u64) -> (r: bool)
        ensures
            r == self@.loses_focus(id, now),
    {
        let rollback: bool = match self.cross_follow {
            Some((p, t)) => p == id && since(now, t) < ROLLBACK_MS,
            None => false,
        };
        is_window(self.focused, id) || rollback
    }

    /// Tests whether letting the window go stays within coordinates.
    pub fn can_go(&self, h: u64, now: u64, gap: i32) -> (r: bool)
        requires
            self@.wf(),
        ensures
            r == self@.go_fits(h, now, gap as int),
    {
        let id = WindowId(h);
        proof {
            lemma_monitor_of(self@.monitors, id);
        }
        let mi: usize = match monitor_index_of(id, &self.monitors) {
            Some(mi) => mi,
            None => {
                return true;
            },
        };
        proof {
            let m = self@.monitors[mi as int];
            assert(m == self.monitors@[mi as int]@);
            assert(m.stack.sound());
            lemma_strip_index(m.stack, id);
            lemma_taken_out(m, id, gap as int);
        }
        if !self.monitors[mi].can_take_out(id, gap) {
            return false;
        }
        if !self.is_losing_focus(id, now) {
            return true;
        }
        let mut m = self.monitors[mi].copied();
        let succ = m.take_out(id, gap);
        match m.heir_of(succ) {
            Some(f) => m.can_settle(f),
            None => true,
        }
    }

    /// Lets a window go that was closed, hidden or minimized. `alive` says
    /// whether it still exists.
    pub fn on_gone(&mut self, h: u64, now: u64, alive: bool, gap: i32) -> (acts: Vec<Action>)
        requires
            old(self)@.wf(),
            old(self)@.go_fits(h, now, gap as int),
        ensures
            final(self)@ == old(self)@.gone(h, now, gap as int),
            final(self)@.wf(),
            acts@ == old(self)@.gone_actions(h, now, alive, gap as int),
    {
        broadcast use vstd::std_specs::hash::group_hash_axioms;

        let ghost before = self@;
        let ghost old_monitors = self.monitors@;
        let id = WindowId(h);
        let mut acts: Vec<Action> = Vec::new();
        proof {
            lemma_monitor_of(before.monitors, id);
        }
        let mi: usize = match monitor_index_of(id, &self.monitors) {
            Some(mi) => mi,
            None => {
                return acts;
            },
        };
        let ghost m = before.monitors[mi as int];
        proof {
            assert(m == old_monitors[mi as int]@);
            assert(m.stack.sound());
            lemma_strip_index(m.stack, id);
            law_gone_keeps(before, h, now, gap as int);
        }
        let was_focused: bool = self.is_losing_focus(id, now);
        let follows: bool = match self.cross_follow {
            Some((p, _)) => p == id,
            None => false,
        };
        if follows {
            self.cross_follow = None;
        }
        let succ = self.monitors[mi].take_out(id, gap);
        let ghost out = m.taken_out(id, gap as int);
        let ghost mid = self.monitors@;
        proof {
            assert(mid[mi as int]@ == out);
            lemma_taken_out(m, id, gap as int);
        }
        let heir = self.monitors[mi].heir_of(succ);
        assert(heir == before.heir(id, gap as int));
        if was_focused {
            if let Some(f) = heir {
                self.active_monitor = mi;
                self.focused = Some(f);
                self.monitors[mi].settle_on(f);
                acts.push(Action::Focus(f.0));
                self.focus_guard = Some((f, now));
            }
        }
        self.visual.remove(&h);
        self.borders.remove(&h);
        acts.push(Action::Show(h));
        acts.push(Action::Undim(h));
        let pins = drop_handle(&self.pinned, h);
        self.pinned = pins;
        if is_some_of(self.fullscreen, h) {
            self.fullscreen = None;
        }
        if is_window(self.focused, id) {
            self.focused = None;
        }
        if !alive {
            acts.push(Action::Forget(h));
        }
        acts.push(Action::Persist);
        proof {
            let want = before.gone(h, now, gap as int);
            assert forall|k: int| 0 <= k < old_monitors.len() implies #[trigger] self@.monitors[k]
                == want.monitors[k] by {
                if k != mi {
                    assert(self.monitors@[k] == old_monitors[k]);
                }
            }
            assert(self@.monitors =~= want.monitors);
            lemma_heir(before, id, gap as int);
            assert(acts@ =~= before.gone_actions(h, now, alive, gap as int));
        }
        acts
    }

    /// The window is tiled on a monitor that is not active.
    fn is_off_here(&self, id: WindowId) -> (r: bool)
        ensures
            r == self@.is_elsewhere(id),
    {
        match monitor_index_of(id, &self.monitors) {
            Some(mi) => mi != self.active_monitor,
            None => false,
        }
    }

    /// The focus handed on is still defended against `id`.
    fn is_defended(&self, id: WindowId, now: u64) -> (r: bool)
        ensures
            r == self@.is_guarded(id, now),
    {
        match self.focus_guard {
            Some((f, t)) => since(now, t) < GUARD_MS && id != f,
            None => false,
        }
    }

    /// Tests whether following the window in the foreground stays within
    /// coordinates.
    pub fn can_follow(&self, h: u64, now: u64, orphaned: bool) -> (r: bool)
        requires
            self@.wf(),
        ensures
            r == self@.foreground_fits(WindowId(h), now, orphaned),
    {
        let id = WindowId(h);
        proof {
            lemma_monitor_of(self@.monitors, id);
        }
        if self.is_off_here(id) && (self.is_defended(id, now) || (self.focused.is_some()
            && orphaned)) {
            return true;
        }
        match monitor_index_of(id, &self.monitors) {
            Some(mi) => {
                proof {
                    let m = self@.monitors[mi as int];
                    assert(m == self.monitors@[mi as int]@);
                    assert(m.stack.sound());
                    lemma_showing(m, id);
                }
                let mut m = self.monitors[mi].copied();
                m.show(id);
                m.can_settle(id)
            },
            None => true,
        }
    }

    /// Follows a window that came to the foreground. `orphaned` says that the
    /// focused window is gone or minimized.
    pub fn on_foreground(&mut self, h: u64, now: u64, orphaned: bool) -> (acts: Vec<Action>)
        requires
            old(self)@.wf(),
            old(self)@.foreground_fits(WindowId(h), now, orphaned),
        ensures
            final(self)@ == old(self)@.foreground(WindowId(h), now, orphaned),
            final(self)@.wf(),
            acts@ == old(self)@.foreground_actions(WindowId(h), now),
    {
        let ghost before = self@;
        let ghost old_monitors = self.monitors@;
        let id = WindowId(h);
        let mut acts: Vec<Action> = Vec::new();
        proof {
            lemma_monitor_of(before.monitors, id);
            law_foreground_keeps(before, id, now, orphaned);
        }
        let found = monitor_index_of(id, &self.monitors);
        let elsewhere: bool = self.is_off_here(id);
        let guarded: bool = self.is_defended(id, now);
        if guarded {
            if elsewhere {
                if let Some((f, _)) = self.focus_guard {
                    acts.push(Action::Focus(f.0));
                }
            }
        } else {
            self.focus_guard = None;
        }
        assert(acts@ =~= before.foreground_actions(id, now));
        if elsewhere && (guarded || (self.focused.is_some() && orphaned)) {
            return acts;
        }
        if let Some(mi) = found {
            if elsewhere {
                self.cross_follow = match self.focused {
                    Some(f) => Some((f, now)),
                    None => None,
                };
            }
            let ghost m = before.monitors[mi as int];
            proof {
                assert(m == old_monitors[mi as int]@);
                assert(m.stack.sound());
                lemma_showing(m, id);
                lemma_strip_index(m.stack, id);
            }
            self.active_monitor = mi;
            self.focused = Some(id);
            self.monitors[mi].show(id);
            assert(self.monitors@[mi as int]@ == m.showing(id));
            self.monitors[mi].settle_on(id);
            proof {
                let want = before.foreground(id, now, orphaned);
                assert forall|k: int| 0 <= k < old_monitors.len() implies #[trigger] self@.monitors[k]
                    == want.monitors[k] by {
                    if k != mi {
                        assert(self.monitors@[k] == old_monitors[k]);
                    }
                }
                assert(self@.monitors =~= want.monitors);
            }
        }
        acts
    }
}

/// A window in the foreground moves no window, and where the focus follows it,
/// its workspace shows on the active monitor.
pub proof fn law_foreground_keeps(w: WmView, id: WindowId, now: u64, orphaned: bool)
    requires
        w.wf(),
    ensures
        ({
            let after = w.foreground(id, now, orphaned);
            &&& after.wf()
            &&& forall|x: WindowId| #[trigger] managed(after.monitors, x) == managed(w.monitors, x)
            &&& after.focused != w.focused ==> after.focused == Some(id)
                && after.here().shown().contains(id)
        }),
{
    lemma_monitor_of(w.monitors, id);
    let after = w.foreground(id, now, orphaned);
    if let Some(mi) = monitor_of(w.monitors, id) {
        let m = w.monitors[mi];
        assert(m.stack.sound());
        lemma_showing(m, id);
        lemma_settled_on(m.showing(id), id);
        let last = m.showing(id).settled_on(id);
        assert forall|x: WindowId| #[trigger] last.stack.contains(x) == m.stack.contains(x) by {
            assert(m.showing(id).stack.contains(x) == m.stack.contains(x));
        }
        lemma_same_windows(w, mi, last);
        crate::tiling::lemma_settle_tiles(m.showing(id).shown(), id, m.viewport_w);
        lemma_same_tiles(last.shown(), m.showing(id).shown());
        assert(last.shown().contains(id));
        assert(managed(w.monitors, id));
        assert(managed(w.with_monitor(mi, last).monitors, id));
    }
}

/// The heir is on the strip then shown, and is another window.
pub proof fn lemma_heir(w: WmView, id: WindowId, gap: int)
    requires
        w.wf(),
        managed(w.monitors, id),
    ensures
        ({
            let mi = monitor_of(w.monitors, id).unwrap();
            let out = w.monitors[mi].taken_out(id, gap);
            &&& 0 <= mi < w.monitors.len()
            &&& w.heir(id, gap) matches Some(f) ==> out.shown().contains(f) && out.stack.contains(f)
                && f != id && managed(w.monitors, f)
            &&& w.heir(id, gap) is None ==> out.shown().columns.len() == 0
        }),
{
    lemma_monitor_of(w.monitors, id);
    let mi = monitor_of(w.monitors, id).unwrap();
    let m = w.monitors[mi];
    assert(m.stack.sound());
    lemma_taken_out(m, id, gap);
    let out = m.taken_out(id, gap);
    lemma_return_to(out.shown());
    assert(out.stack.strips[out.stack.active].sound());
    if let Some(f) = w.heir(id, gap) {
        assert(out.shown().contains(f));
        assert(out.stack.strips[out.stack.active].contains(f));
        assert(out.stack.contains(f));
        assert(m.stack.contains(f));
        assert(managed(w.monitors, f));
    }
}

/// A window that appears is taken in if it is to be tiled and is not yet: then it
/// has the focus, on the active monitor. No window is lost, no other is taken
/// in, and the state keeps its shape.
pub proof fn law_appeared_keeps(w: WmView, e: ScanEntry, h: u64, iconic: bool, gap: int)
    requires
        w.wf(),
    ensures
        ({
            let id = WindowId(h);
            let after = w.appeared(e, h, iconic, gap);
            let taken = !managed(w.monitors, id) && e.is_adoptable(iconic);
            &&& after.wf()
            &&& forall|x: WindowId| #[trigger]
                managed(after.monitors, x) <==> managed(w.monitors, x) || (taken && x == id)
            &&& after.active_monitor == w.active_monitor
            &&& taken ==> after.focused == Some(id) && after.here().shown().contains(id)
            &&& !taken ==> after == w
        }),
{
    let id = WindowId(h);
    if !managed(w.monitors, id) && e.is_adoptable(iconic) {
        let mi = w.active_monitor;
        let anchor = w.focused_here();
        let t = w.adopted(mi, e, h, anchor, gap);
        lemma_adopted(w, mi, e, h, anchor, gap);
        lemma_settled_on(t.here(), id);
        lemma_same_windows(t, mi, t.here().settled_on(id));
        let after = w.appeared(e, h, iconic, gap);
        assert(managed(after.monitors, id));
        crate::tiling::lemma_settle_tiles(t.here().shown(), id, t.here().viewport_w);
        crate::layout_laws::lemma_same_tiles(
            t.here().shown().settle(id, t.here().viewport_w),
            t.here().shown(),
        );
    }
}

/// A window that goes is no longer managed, no other window is lost, and the
/// state keeps its shape. A focus it had stays on its monitor while a window is
/// left on the workspace then shown.
pub proof fn law_gone_keeps(w: WmView, h: u64, now: u64, gap: int)
    requires
        w.wf(),
    ensures
        ({
            let id = WindowId(h);
            let after = w.gone(h, now, gap);
            &&& after.wf()
            &&& forall|x: WindowId| #[trigger]
                managed(after.monitors, x) <==> managed(w.monitors, x) && x != id
            &&& managed(w.monitors, id) && w.loses_focus(id, now) ==> match w.heir(id, gap) {
                Some(f) => after.focused == Some(f) && monitor_of(after.monitors, f) == Some(
                    after.active_monitor,
                ) && monitor_of(w.monitors, id) == Some(after.active_monitor),
                None => after.monitors[monitor_of(
                    w.monitors,
                    id,
                ).unwrap()].shown().columns.len() == 0,
            }
        }),
{
    let id = WindowId(h);
    lemma_monitor_of(w.monitors, id);
    let after = w.gone(h, now, gap);
    if let Some(mi) = monitor_of(w.monitors, id) {
        let m = w.monitors[mi];
        assert(m.stack.sound());
        lemma_taken_out(m, id, gap);
        lemma_heir(w, id, gap);
        let out = m.taken_out(id, gap);
        let last = after.monitors[mi];
        match w.heir(id, gap) {
            Some(f) => {
                lemma_settled_on(out, f);
            },
            None => {},
        }
        assert(last.stack.sound());
        assert forall|x: WindowId| #[trigger] last.stack.contains(x) <==> m.stack.contains(x) && x
            != id by {
            assert(out.stack.contains(x) <==> m.stack.contains(x) && x != id);
            if let Some(f) = w.heir(id, gap) {
                assert(out.settled_on(f).stack.contains(x) == out.stack.contains(x));
            }
        }
        assert(after.monitors =~= w.monitors.update(mi, last));
        lemma_update_monitor(w.monitors, mi, last);
        assert forall|k: int| 0 <= k < after.monitors.len() implies (
        #[trigger] after.monitors[k]).stack.sound() by {
            assert(w.monitors[k].stack.sound());
        }
        assert(monitors_sound(after.monitors)) by {
            assert(monitors_apart(after.monitors));
        }
        assert forall|x: WindowId| #[trigger] managed(after.monitors, x) <==> managed(
            w.monitors,
            x,
        ) && x != id by {
            if m.stack.contains(x) {
                assert(managed(w.monitors, x));
            }
            if x == id {
                assert(m.stack.contains(id));
            }
        }
        if let Some(f) = w.heir(id, gap) {
            assert(last.stack.contains(f));
            lemma_monitor_of(after.monitors, f);
            assert(managed(after.monitors, f));
            let j = monitor_of(after.monitors, f).unwrap();
            assert(after.monitors[j].stack.contains(f) && after.monitors[mi].stack.contains(f));
            assert(j == mi);
        }
    } else {
        assert forall|x: WindowId| #[trigger] managed(after.monitors, x) <==> managed(
            w.monitors,
            x,
        ) && x != id by {}
    }
}

} // verus!
