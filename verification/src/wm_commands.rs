//! Commands on the focused window and its monitor.

use vstd::prelude::*;

use crate::layout::{
    ColumnView, FocusDir, StackView, Strip, StripView, WindowId, lemma_column_index,
    repacking_fits, stepped,
};
use crate::layout_laws::{
    law_consume_keeps, law_expel_keeps, law_move_column_keeps, law_move_window_keeps, law_switch,
    law_tiles_stay, lemma_neighbor_contained, lemma_same_tiles,
};
use crate::monitors::{MonitorState, MonitorView, managed, monitor_views};
use crate::tiling::{
    lemma_return_to, lemma_settle_tiles, lemma_settled_on, lemma_shown_same, lemma_stack_replace,
};
use crate::transition::{OPAQUE, is_some_of, opacity};
use crate::wm::{Action, Wm, WmView, lemma_same_windows};

verus! {

// ---------------------------------------------------------------------------
// Model
// ---------------------------------------------------------------------------

/// A command that rearranges or resizes columns of the strip on show.
pub enum Rework {
    Move(FocusDir),
    Expel,
    Consume,
    CycleWidth,
    Maximize,
}

impl Rework {
    /// The columns the command makes of the strip's, for the focused window.
    pub open spec fn columns(self, s: StripView, id: WindowId, viewport_w: int) -> Option<
        Seq<ColumnView>,
    > {
        match self {
            Rework::Move(dir) => s.swapped(id, dir),
            Rework::Expel => s.split(id),
            Rework::Consume => s.merged(id),
            Rework::CycleWidth => s.cycled(id, viewport_w),
            Rework::Maximize => s.maximized(id, viewport_w),
        }
    }

    /// What the command makes of the strip, for the focused window.
    pub open spec fn step(self, s: StripView, id: WindowId, viewport_w: int, gap: int) -> Option<
        StripView,
    > {
        s.repacked(self.columns(s, id, viewport_w), gap)
    }

    /// There is room for a new column or tile, and the width can be measured,
    /// as far as the command needs it.
    pub open spec fn ready(self, s: StripView, id: WindowId, viewport_w: int) -> bool {
        match self {
            Rework::Expel => s.columns.len() < usize::MAX,
            Rework::Consume => s.can_merge(id),
            Rework::CycleWidth => s.cycle_fits(id, viewport_w),
            _ => true,
        }
    }

    /// The command stays within coordinates.
    pub open spec fn fits(self, s: StripView, id: WindowId, viewport_w: int, gap: int) -> bool {
        &&& self.ready(s, id, viewport_w)
        &&& repacking_fits(self.columns(s, id, viewport_w), gap)
        &&& self.follows() ==> (self.step(s, id, viewport_w, gap) matches Some(t)
            ==> t.ensure_visible_fits(id, viewport_w))
    }

    /// Whether the window is brought into view afterwards.
    pub open spec fn follows(self) -> bool {
        !(self is Consume)
    }
}

/// The handle pinned, or no longer where it was; the last pin fills the gap.
pub open spec fn pin_toggled(pinned: Seq<u64>, h: u64) -> Seq<u64> {
    if pinned.contains(h) {
        let i = pinned.index_of_first(h).unwrap();
        pinned.update(i, pinned.last()).drop_last()
    } else {
        pinned.push(h)
    }
}

impl WmView {
    /// The workspace below or above on the active monitor, with the focus where
    /// it was there last.
    pub open spec fn switched(self, down: bool) -> WmView {
        let m = self.here();
        let stack = m.stack.switch(down);
        if stack.active == m.stack.active {
            self
        } else {
            let n = MonitorView { stack, ..m };
            match n.shown().return_to() {
                Some(f) => WmView {
                    focused: Some(f),
                    ..self.with_here(n.with_shown(n.shown().set_active(f)))
                },
                None => WmView { focused: None, ..self.with_here(n) },
            }
        }
    }

    /// What switching asks for.
    pub open spec fn switched_actions(self, down: bool) -> Seq<Action> {
        let m = self.here();
        let stack = m.stack.switch(down);
        if stack.active == m.stack.active {
            Seq::empty()
        } else {
            match (MonitorView { stack, ..m }).shown().return_to() {
                Some(f) => seq![Action::Focus(f.0)],
                None => Seq::empty(),
            }
        }
    }

    /// Where a focus move goes: to the neighbour, or to the first column where
    /// the focus is not on the strip on show.
    pub open spec fn focus_target(self, dir: FocusDir) -> Option<WindowId> {
        let s = self.here().shown();
        match self.focused {
            Some(f) => if s.contains(f) {
                s.neighbor(f, dir)
            } else {
                s.first_active()
            },
            None => s.first_active(),
        }
    }

    /// The focus moved. At the top and bottom of a column it goes on to the
    /// next workspace; sideways it stops.
    pub open spec fn refocused(self, dir: FocusDir) -> WmView {
        match self.focus_target(dir) {
            Some(t) => WmView { focused: Some(t), ..self.with_here(self.here().settled_on(t)) },
            None => match dir {
                FocusDir::Down => self.switched(true),
                FocusDir::Up => self.switched(false),
                _ => self,
            },
        }
    }

    /// Moving the focus stays within coordinates.
    pub open spec fn refocus_fits(self, dir: FocusDir) -> bool {
        self.focus_target(dir) matches Some(t) ==> self.here().settle_fits(t)
    }

    /// What a focus move asks for.
    pub open spec fn refocused_actions(self, dir: FocusDir) -> Seq<Action> {
        match self.focus_target(dir) {
            Some(t) => seq![Action::Focus(t.0)],
            None => match dir {
                FocusDir::Down => self.switched_actions(true),
                FocusDir::Up => self.switched_actions(false),
                _ => Seq::empty(),
            },
        }
    }

    /// The strip on show reworked for the focused window.
    pub open spec fn reworked(self, what: Rework, gap: int) -> WmView {
        match self.focused {
            Some(f) => {
                let m = self.here();
                match what.step(m.shown(), f, m.viewport_w, gap) {
                    Some(t) => self.with_here(
                        m.with_shown(
                            if what.follows() {
                                t.ensure_visible(f, m.viewport_w)
                            } else {
                                t
                            },
                        ),
                    ),
                    None => self,
                }
            },
            None => self,
        }
    }

    /// Reworking the strip on show stays within coordinates.
    pub open spec fn rework_fits(self, what: Rework, gap: int) -> bool {
        self.focused matches Some(f) ==> what.fits(
            self.here().shown(),
            f,
            self.here().viewport_w,
            gap,
        )
    }

    /// Sending the focused window to another workspace stays within
    /// coordinates.
    pub open spec fn send_fits(self, down: bool, gap: int) -> bool {
        self.focused matches Some(f) ==> {
            let m = self.here();
            &&& m.has_room()
            &&& m.stack.move_fits(f, down, m.default_width, m.viewport_w, gap)
            &&& m.stack.move_window(f, down, m.default_width, m.viewport_w, gap) matches Some(stack)
                ==> (MonitorView { stack, ..m }).settle_fits(f)
        }
    }

    /// Scrolling stays within coordinates.
    pub open spec fn scroll_fits(self) -> bool {
        self.here().shown().clamp_fits(self.here().viewport_w)
    }

    /// The focused window on the workspace below or above.
    pub open spec fn sent_to_workspace(self, down: bool, gap: int) -> WmView {
        match self.focused {
            Some(f) => {
                let m = self.here();
                match m.stack.move_window(f, down, m.default_width, m.viewport_w, gap) {
                    Some(stack) => self.with_here((MonitorView { stack, ..m }).marked_on(f)),
                    None => self,
                }
            },
            None => self,
        }
    }

    /// The viewport of the strip on show scrolled.
    pub open spec fn scrolled(self, forward: bool) -> WmView {
        let m = self.here();
        self.with_here(m.with_shown(m.shown().scroll_columnwise(forward, m.viewport_w)))
    }

    /// The focused window fullscreen, or no longer.
    pub open spec fn fullscreen_toggled(self) -> WmView {
        match self.focused {
            Some(f) => WmView {
                fullscreen: if self.fullscreen == Some(f.0) {
                    None
                } else {
                    Some(f.0)
                },
                ..self
            },
            None => self,
        }
    }

    /// The focused window's opacity pinned, or no longer.
    pub open spec fn opacity_toggled(self) -> WmView {
        match self.focused {
            Some(f) => WmView { pinned: pin_toggled(self.pinned, f.0), ..self },
            None => self,
        }
    }

    /// What toggling the pin asks for: a window no longer pinned has the focus,
    /// so its dimming ends.
    pub open spec fn opacity_actions(self) -> Seq<Action> {
        match self.focused {
            Some(f) => if self.pinned.contains(f.0) {
                seq![Action::Undim(f.0)]
            } else {
                Seq::empty()
            },
            None => Seq::empty(),
        }
    }

    /// What closing asks for.
    pub open spec fn close_actions(self) -> Seq<Action> {
        match self.focused {
            Some(f) => seq![Action::Close(f.0)],
            None => Seq::empty(),
        }
    }
}

// ---------------------------------------------------------------------------
// Laws
// ---------------------------------------------------------------------------

/// Switching moves no window; the focus is on the workspace then shown.
pub proof fn law_switched_keeps(w: WmView, down: bool)
    requires
        w.wf(),
    ensures
        ({
            let after = w.switched(down);
            &&& after.wf()
            &&& forall|x: WindowId| #[trigger] managed(after.monitors, x) == managed(w.monitors, x)
            &&& after != w ==> match after.focused {
                Some(f) => after.here().shown().contains(f),
                None => after.here().shown().columns.len() == 0,
            }
        }),
{
    let m = w.here();
    assert(m.stack.sound());
    law_switch(m.stack, down);
    let stack = m.stack.switch(down);
    if stack.active != m.stack.active {
        let n = MonitorView { stack, ..m };
        assert(stack.apart()) by {
            assert(m.stack.apart());
        }
        assert(stack.strips_sound()) by {
            assert(m.stack.strips_sound());
        }
        assert(n.stack.sound());
        let s = n.shown();
        assert(n.stack.strips[n.stack.active].sound());
        lemma_return_to(s);
        assert forall|x: WindowId| #[trigger] n.stack.contains(x) == m.stack.contains(x) by {
            lemma_same_strips(n.stack, m.stack, x);
        }
        match s.return_to() {
            Some(f) => {
                law_tiles_stay(s, f, 0, 0, true);
                lemma_shown_same(n, s.set_active(f));
                lemma_same_tiles(s.set_active(f), s);
                let last = n.with_shown(s.set_active(f));
                assert forall|x: WindowId| #[trigger] last.stack.contains(x) == m.stack.contains(x) by {
                    assert(n.stack.contains(x) == m.stack.contains(x));
                }
                lemma_same_windows(w, w.active_monitor, last);
                assert(n.stack.strips[n.stack.active].contains(f));
                assert(n.stack.contains(f));
                assert(m.stack.contains(f));
                assert(managed(w.monitors, f));
                assert(managed(w.with_here(last).monitors, f));
            },
            None => {
                lemma_same_windows(w, w.active_monitor, n);
            },
        }
    }
}

/// Stacks of the same strips hold the same windows.
pub proof fn lemma_same_strips(a: StackView, b: StackView, x: WindowId)
    requires
        a.strips == b.strips,
    ensures
        a.contains(x) == b.contains(x),
{
    if a.contains(x) {
        let k = choose|k: int| 0 <= k < a.strips.len() && (#[trigger] a.strips[k]).contains(x);
        assert(b.strips[k].contains(x));
    }
    if b.contains(x) {
        let k = choose|k: int| 0 <= k < b.strips.len() && (#[trigger] b.strips[k]).contains(x);
        assert(a.strips[k].contains(x));
    }
}

/// A focus move moves no window; where it has a target the focus ends there, on
/// the workspace on show.
pub proof fn law_refocused_keeps(w: WmView, dir: FocusDir)
    requires
        w.wf(),
    ensures
        ({
            let after = w.refocused(dir);
            &&& after.wf()
            &&& forall|x: WindowId| #[trigger] managed(after.monitors, x) == managed(w.monitors, x)
            &&& w.focus_target(dir) matches Some(t) ==> after.focused == Some(t)
                && after.here().shown().contains(t)
        }),
{
    let m = w.here();
    assert(m.stack.sound());
    match w.focus_target(dir) {
        Some(t) => {
            let s = m.shown();
            lemma_return_to(s);
            if let Some(f) = w.focused {
                lemma_neighbor_contained(s, f, dir);
            }
            assert(s.contains(t));
            lemma_settled_on(m, t);
            lemma_same_windows(w, w.active_monitor, m.settled_on(t));
            lemma_settle_tiles(s, t, m.viewport_w);
            lemma_same_tiles(s.settle(t, m.viewport_w), s);
            assert(m.stack.strips[m.stack.active].contains(t));
            assert(m.stack.contains(t));
            assert(managed(w.monitors, t));
            assert(managed(w.with_here(m.settled_on(t)).monitors, t));
        },
        None => {
            law_switched_keeps(w, true);
            law_switched_keeps(w, false);
        },
    }
}

/// Reworking the strip on show loses no window.
pub proof fn law_reworked_keeps(w: WmView, what: Rework, gap: int)
    requires
        w.wf(),
    ensures
        w.reworked(what, gap).wf(),
        w.reworked(what, gap).focused == w.focused,
        forall|x: WindowId| #[trigger]
            managed(w.reworked(what, gap).monitors, x) == managed(w.monitors, x),
{
    if let Some(f) = w.focused {
        let m = w.here();
        let s = m.shown();
        assert(m.stack.sound());
        assert(m.stack.strips[m.stack.active].sound());
        lemma_column_index(s, f);
        if let Some(t) = what.step(s, f, m.viewport_w, gap) {
            assert(t.sound() && t.columns.len() > 0 && s.columns.len() > 0 && forall|x: WindowId|
                #[trigger] t.contains(x) == s.contains(x)) by {
                match what {
                    Rework::Move(dir) => {
                        law_move_column_keeps(s, f, dir, gap);
                    },
                    Rework::Expel => {
                        law_expel_keeps(s, f, gap);
                    },
                    Rework::Consume => {
                        law_consume_keeps(s, f, gap);
                    },
                    Rework::CycleWidth => {
                        law_tiles_stay(s, f, m.viewport_w, gap, true);
                        lemma_same_tiles(t, s);
                    },
                    Rework::Maximize => {
                        law_tiles_stay(s, f, m.viewport_w, gap, true);
                        lemma_same_tiles(t, s);
                    },
                }
            }
            law_tiles_stay(t, f, m.viewport_w, gap, true);
            let last = if what.follows() {
                t.ensure_visible(f, m.viewport_w)
            } else {
                t
            };
            lemma_same_tiles(t.ensure_visible(f, m.viewport_w), t);
            assert forall|x: WindowId| #[trigger] last.contains(x) == s.contains(x) by {
                assert(t.contains(x) == s.contains(x));
                assert(t.ensure_visible(f, m.viewport_w).contains(x) == t.contains(x));
            }
            lemma_stack_replace(m.stack, m.stack.active, last, m.stack.active);
            lemma_same_windows(w, w.active_monitor, m.with_shown(last));
        }
    }
}

/// Sending a window to another workspace loses none, and shows it there.
pub proof fn law_sent_to_workspace_keeps(w: WmView, down: bool, gap: int)
    requires
        w.wf(),
    ensures
        ({
            let after = w.sent_to_workspace(down, gap);
            &&& after.wf()
            &&& after.focused == w.focused
            &&& forall|x: WindowId| #[trigger] managed(after.monitors, x) == managed(w.monitors, x)
            &&& after != w ==> after.here().shown().contains(w.focused.unwrap())
        }),
{
    if let Some(f) = w.focused {
        let m = w.here();
        assert(m.stack.sound());
        law_move_window_keeps(m.stack, f, down, m.default_width, m.viewport_w, gap);
        if let Some(stack) = m.stack.move_window(f, down, m.default_width, m.viewport_w, gap) {
            let n = MonitorView { stack, ..m };
            lemma_settled_on(n, f);
            let last = n.marked_on(f);
            assert forall|x: WindowId| #[trigger] last.stack.contains(x) == m.stack.contains(x) by {
                assert(n.stack.contains(x) == m.stack.contains(x));
            }
            lemma_same_windows(w, w.active_monitor, last);
            lemma_settle_tiles(n.shown(), f, n.viewport_w);
            lemma_same_tiles(last.shown(), n.shown());
            assert(n.shown().contains(f));
        }
    }
}

/// Scrolling moves no window and no focus.
pub proof fn law_scrolled_keeps(w: WmView, forward: bool)
    requires
        w.wf(),
    ensures
        w.scrolled(forward).wf(),
        w.scrolled(forward).focused == w.focused,
        forall|x: WindowId| #[trigger]
            managed(w.scrolled(forward).monitors, x) == managed(w.monitors, x),
{
    let m = w.here();
    assert(m.stack.sound());
    law_tiles_stay(m.shown(), WindowId(0), m.viewport_w, 0, forward);
    lemma_shown_same(m, m.shown().scroll_columnwise(forward, m.viewport_w));
    lemma_same_windows(
        w,
        w.active_monitor,
        m.with_shown(m.shown().scroll_columnwise(forward, m.viewport_w)),
    );
}

/// Toggling fullscreen twice changes nothing, if no other window was
/// fullscreen.
pub proof fn law_fullscreen_twice(w: WmView)
    requires
        w.fullscreen matches Some(h) ==> w.focused == Some(WindowId(h)),
    ensures
        w.fullscreen_toggled().fullscreen_toggled() == w,
{
}

/// Toggling a pin pins or unpins just that window.
pub proof fn law_pin_toggles(pinned: Seq<u64>, h: u64)
    requires
        pinned.no_duplicates(),
    ensures
        pin_toggled(pinned, h).no_duplicates(),
        forall|x: u64| #[trigger]
            pin_toggled(pinned, h).contains(x) <==> if x == h {
                !pinned.contains(h)
            } else {
                pinned.contains(x)
            },
{
    let after = pin_toggled(pinned, h);
    if pinned.contains(h) {
        pinned.index_of_first_ensures(h);
        let i = pinned.index_of_first(h).unwrap();
        let n = pinned.len() as int;
        assert forall|x: u64| #[trigger] after.contains(x) <==> pinned.contains(x) && x != h by {
            if after.contains(x) {
                let k = after.index_of(x);
                if k == i {
                    assert(pinned[n - 1] == x);
                } else {
                    assert(pinned[k] == x);
                }
            }
            if pinned.contains(x) && x != h {
                let k = pinned.index_of(x);
                if k == n - 1 {
                    assert(after[i] == x);
                } else {
                    assert(after[k] == x);
                }
            }
        }
    } else {
        assert forall|x: u64| #[trigger] after.contains(x) <==> pinned.contains(x) || x == h by {
            if pinned.contains(x) {
                let k = pinned.index_of(x);
                assert(after[k] == x);
            }
            if x == h {
                assert(after[pinned.len() as int] == x);
            }
            if after.contains(x) {
                let k = after.index_of(x);
                if k < pinned.len() {
                    assert(pinned[k] == x);
                }
            }
        }
        assert forall|a: int, b: int|
            0 <= a < after.len() && 0 <= b < after.len() && a != b implies after[a] != after[b] by {
            if a == pinned.len() {
                assert(pinned.contains(pinned[b]));
            } else if b == pinned.len() {
                assert(pinned.contains(pinned[a]));
            }
        }
    }
}

/// A pin holds the pinned opacity whatever has the focus. Toggled off, it leaves
/// the window, which has the focus, opaque: its dimming is ended and nothing
/// dims it again.
pub proof fn law_pin_toggles_opacity(
    w: WmView,
    f: WindowId,
    pinned_alpha: u8,
    unfocused_alpha: Option<u8>,
)
    requires
        w.focused == Some(f),
        w.pinned.no_duplicates(),
    ensures
        ({
            let after = w.opacity_toggled().pinned;
            if w.pinned.contains(f.0) {
                &&& w.opacity_actions() == seq![Action::Undim(f.0)]
                &&& opacity(
                    f.0,
                    after,
                    Some(f.0),
                    w.fullscreen,
                    pinned_alpha,
                    unfocused_alpha,
                ) == OPAQUE
            } else {
                forall|focused: Option<u64>, fullscreen: Option<u64>| #[trigger]
                    opacity(
                        f.0,
                        after,
                        focused,
                        fullscreen,
                        pinned_alpha,
                        unfocused_alpha,
                    ) == pinned_alpha
            }
        }),
{
    law_pin_toggles(w.pinned, f.0);
}

// ---------------------------------------------------------------------------
// Operations
// ---------------------------------------------------------------------------

/// The monitors after one of them changed.
pub proof fn lemma_monitor_changed(
    before: Seq<MonitorState>,
    after: Seq<MonitorState>,
    i: int,
)
    requires
        0 <= i < before.len(),
        after == before.update(i, after[i]),
    ensures
        monitor_views(after) == monitor_views(before).update(i, after[i]@),
{
    assert(monitor_views(after) =~= monitor_views(before).update(i, after[i]@));
}

impl Wm {
    /// Shows the workspace below or above.
    pub fn switch_workspace(&mut self, down: bool) -> (acts: Vec<Action>)
        requires
            old(self)@.wf(),
        ensures
            final(self)@ == old(self)@.switched(down),
            final(self)@.wf(),
            acts@ == old(self)@.switched_actions(down),
    {
        let ghost before = self@;
        let ghost old_monitors = self.monitors@;
        let mi: usize = self.active_monitor;
        let ghost m = before.here();
        let mut acts: Vec<Action> = Vec::new();
        proof {
            law_switched_keeps(before, down);
            assert(m == old_monitors[mi as int]@);
            assert(m.stack.sound());
            law_switch(m.stack, down);
        }
        assert(old_monitors[mi as int].stack.strips.len() <= usize::MAX);
        let changed: bool = self.monitors[mi].stack.switch(down);
        proof {
            lemma_monitor_changed(old_monitors, self.monitors@, mi as int);
        }
        if !changed {
            assert(self.monitors@[mi as int]@ == m);
            assert(self@.monitors =~= before.monitors);
            return acts;
        }
        let ghost n = self.monitors@[mi as int]@;
        let ghost mid = self.monitors@;
        assert(n == MonitorView { stack: m.stack.switch(down), ..m });
        let a: usize = self.monitors[mi].stack.active;
        assert(n.shown() == mid[mi as int].stack.strips@[a as int]@);
        let f = self.monitors[mi].stack.strips[a].return_to();
        self.focused = f;
        if let Some(f) = f {
            self.monitors[mi].stack.strips[a].set_active(f);
            proof {
                let strips = mid[mi as int].stack.strips@;
                let want = n.with_shown(n.shown().set_active(f));
                assert forall|k: int| 0 <= k < strips.len() implies #[trigger] self.monitors@[mi as int]@.stack.strips[k]
                    == want.stack.strips[k] by {
                    if k != a {
                        assert(self.monitors@[mi as int].stack.strips@[k] == strips[k]);
                    }
                }
                assert(self.monitors@[mi as int]@.stack.strips =~= want.stack.strips);
                lemma_monitor_changed(mid, self.monitors@, mi as int);
            }
            acts.push(Action::Focus(f.0));
        }
        proof {
            assert(self@.monitors =~= before.switched(down).monitors);
            assert(acts@ =~= before.switched_actions(down));
        }
        acts
    }

    /// Where a focus move goes.
    fn find_focus(&self, dir: FocusDir) -> (r: Option<WindowId>)
        requires
            self@.wf(),
        ensures
            r == self@.focus_target(dir),
    {
        let m = &self.monitors[self.active_monitor];
        proof {
            assert(self@.here() == m@);
            assert(m@.stack.sound());
            assert(m@.shown() == m.stack.strips@[m.stack.active as int]@);
        }
        let s = &m.stack.strips[m.stack.active];
        match self.focused {
            Some(f) => if s.contains(f) {
                s.neighbor(f, dir)
            } else {
                s.first_active()
            },
            None => s.first_active(),
        }
    }

    /// Tests whether moving the focus stays within coordinates.
    pub fn can_refocus(&self, dir: FocusDir) -> (r: bool)
        requires
            self@.wf(),
        ensures
            r == self@.refocus_fits(dir),
    {
        assert(self@.here() == self.monitors@[self.active_monitor as int]@);
        assert(self@.here().stack.sound());
        match self.find_focus(dir) {
            Some(t) => self.monitors[self.active_monitor].can_settle(t),
            None => true,
        }
    }

    /// Moves the focus.
    pub fn focus(&mut self, dir: FocusDir) -> (acts: Vec<Action>)
        requires
            old(self)@.wf(),
            old(self)@.refocus_fits(dir),
        ensures
            final(self)@ == old(self)@.refocused(dir),
            final(self)@.wf(),
            acts@ == old(self)@.refocused_actions(dir),
    {
        let ghost before = self@;
        let ghost old_monitors = self.monitors@;
        let mi: usize = self.active_monitor;
        let ghost m = before.here();
        proof {
            law_refocused_keeps(before, dir);
            assert(m == old_monitors[mi as int]@);
            assert(m.stack.sound());
        }
        match self.find_focus(dir) {
            Some(t) => {
                self.focused = Some(t);
                self.monitors[mi].settle_on(t);
                proof {
                    lemma_monitor_changed(old_monitors, self.monitors@, mi as int);
                }
                let mut acts: Vec<Action> = Vec::new();
                acts.push(Action::Focus(t.0));
                assert(acts@ =~= before.refocused_actions(dir));
                acts
            },
            None => match dir {
                FocusDir::Down => self.switch_workspace(true),
                FocusDir::Up => self.switch_workspace(false),
                _ => Vec::new(),
            },
        }
    }

    /// Ends a rework of the strip on show: the focused window is brought into
    /// view where the strip changed and the rework asks for it.
    fn follow(
        &mut self,
        f: WindowId,
        Ghost(what): Ghost<Rework>,
        done: bool,
        look: bool,
        gap: i32,
        Ghost(before): Ghost<Wm>,
    )
        requires
            before@.wf(),
            before.focused == Some(f),
            before@.rework_fits(what, gap as int),
            look == what.follows(),
            ({
                let m = before@.here();
                let a = m.stack.active;
                let mi = before.active_monitor as int;
                let old_m = before.monitors@[mi];
                let new_m = old(self).monitors@[mi];
                &&& old(self).monitors@ == before.monitors@.update(mi, new_m)
                &&& new_m == MonitorState { stack: new_m.stack, ..old_m }
                &&& new_m.stack.active == old_m.stack.active
                &&& new_m.stack.strips@ == old_m.stack.strips@.update(a, new_m.stack.strips@[a])
                &&& stepped(
                    m.shown(),
                    what.step(m.shown(), f, m.viewport_w, gap as int),
                    new_m.stack.strips@[a]@,
                    done,
                )
            }),
            *old(self) == (Wm { monitors: old(self).monitors, ..before }),
        ensures
            final(self)@ == before@.reworked(what, gap as int),
            final(self)@.wf(),
    {
        let ghost w = before@;
        let ghost mi = before.active_monitor as int;
        let ghost m = w.here();
        let ghost mid = self.monitors@;
        let i: usize = self.active_monitor;
        proof {
            law_reworked_keeps(w, what, gap as int);
            assert(m == before.monitors@[mi]@);
            assert(m.stack.sound());
            assert(m.stack.strips[m.stack.active]
                == before.monitors@[mi].stack.strips@[m.stack.active]@);
        }
        let a: usize = self.monitors[i].stack.active;
        let viewport_w: i32 = self.monitors[i].viewport_w;
        if done && look {
            let _ = self.monitors[i].stack.strips[a].ensure_visible(f, viewport_w);
        }
        proof {
            let want = w.reworked(what, gap as int);
            let strips = before.monitors@[mi].stack.strips@;
            assert forall|k: int| 0 <= k < strips.len() implies #[trigger] self.monitors@[mi]@.stack.strips[k]
                == want.monitors[mi].stack.strips[k] by {
                if k != a {
                    assert(self.monitors@[mi].stack.strips@[k] == strips[k]);
                }
            }
            assert(self.monitors@[mi]@.stack.strips =~= want.monitors[mi].stack.strips);
            assert forall|k: int| 0 <= k < mid.len() implies #[trigger] self@.monitors[k]
                == want.monitors[k] by {
                if k != mi {
                    assert(self.monitors@[k] == before.monitors@[k]);
                }
            }
            assert(self@.monitors =~= want.monitors);
        }
    }

    /// Trades the focused column with its neighbour.
    pub fn move_column(&mut self, dir: FocusDir, gap: i32)
        requires
            old(self)@.wf(),
            old(self)@.rework_fits(Rework::Move(dir), gap as int),
        ensures
            final(self)@ == old(self)@.reworked(Rework::Move(dir), gap as int),
            final(self)@.wf(),
    {
        let ghost before = *self;
        if let Some(f) = self.focused {
            let mi: usize = self.active_monitor;
            let a: usize = self.monitors[mi].stack.active;
            let ghost what = Rework::Move(dir);
            proof {
                lemma_shown_strip(before);
            }
            let done: bool = self.monitors[mi].stack.strips[a].move_column(f, dir, gap);
            self.follow(f, Ghost(what), done, true, gap, Ghost(before));
        }
    }

    /// Pushes the focused tile out into a column of its own.
    pub fn expel(&mut self, gap: i32)
        requires
            old(self)@.wf(),
            old(self)@.rework_fits(Rework::Expel, gap as int),
        ensures
            final(self)@ == old(self)@.reworked(Rework::Expel, gap as int),
            final(self)@.wf(),
    {
        let ghost before = *self;
        if let Some(f) = self.focused {
            let mi: usize = self.active_monitor;
            let a: usize = self.monitors[mi].stack.active;
            let ghost what = Rework::Expel;
            proof {
                lemma_shown_strip(before);
            }
            let done: bool = self.monitors[mi].stack.strips[a].expel(f, gap);
            self.follow(f, Ghost(what), done, true, gap, Ghost(before));
        }
    }

    /// Takes the next column's tile in below the focused one.
    pub fn consume(&mut self, gap: i32)
        requires
            old(self)@.wf(),
            old(self)@.rework_fits(Rework::Consume, gap as int),
        ensures
            final(self)@ == old(self)@.reworked(Rework::Consume, gap as int),
            final(self)@.wf(),
    {
        let ghost before = *self;
        if let Some(f) = self.focused {
            let mi: usize = self.active_monitor;
            let a: usize = self.monitors[mi].stack.active;
            let ghost what = Rework::Consume;
            proof {
                lemma_shown_strip(before);
            }
            let done: bool = self.monitors[mi].stack.strips[a].consume_right(f, gap);
            self.follow(f, Ghost(what), done, false, gap, Ghost(before));
        }
    }

    /// The next preset width for the focused column.
    pub fn cycle_width(&mut self, gap: i32)
        requires
            old(self)@.wf(),
            old(self)@.rework_fits(Rework::CycleWidth, gap as int),
        ensures
            final(self)@ == old(self)@.reworked(Rework::CycleWidth, gap as int),
            final(self)@.wf(),
    {
        let ghost before = *self;
        if let Some(f) = self.focused {
            let mi: usize = self.active_monitor;
            let a: usize = self.monitors[mi].stack.active;
            let viewport_w: i32 = self.monitors[mi].viewport_w;
            let ghost what = Rework::CycleWidth;
            proof {
                lemma_shown_strip(before);
            }
            let done: bool = self.monitors[mi].stack.strips[a].cycle_width(f, viewport_w, gap);
            self.follow(f, Ghost(what), done, true, gap, Ghost(before));
        }
    }

    /// Full viewport width for the focused column, or back.
    pub fn maximize(&mut self, gap: i32)
        requires
            old(self)@.wf(),
            old(self)@.rework_fits(Rework::Maximize, gap as int),
        ensures
            final(self)@ == old(self)@.reworked(Rework::Maximize, gap as int),
            final(self)@.wf(),
    {
        let ghost before = *self;
        if let Some(f) = self.focused {
            let mi: usize = self.active_monitor;
            let a: usize = self.monitors[mi].stack.active;
            let viewport_w: i32 = self.monitors[mi].viewport_w;
            let ghost what = Rework::Maximize;
            proof {
                lemma_shown_strip(before);
            }
            let done: bool = self.monitors[mi].stack.strips[a].toggle_maximize(f, viewport_w, gap);
            self.follow(f, Ghost(what), done, true, gap, Ghost(before));
        }
    }

    /// Tests whether a rework of the strip on show stays within coordinates.
    pub fn can_rework(&self, what: &Rework, gap: i32) -> (r: bool)
        requires
            self@.wf(),
        ensures
            r == self@.rework_fits(*what, gap as int),
    {
        proof {
            lemma_shown_strip(*self);
        }
        match self.focused {
            Some(f) => {
                let m = &self.monitors[self.active_monitor];
                m.stack.strips[m.stack.active].can_rework(what, f, m.viewport_w, gap)
            },
            None => true,
        }
    }

    /// Tests whether moving the focused window to the workspace below or above
    /// stays within coordinates.
    pub fn can_send(&self, down: bool, gap: i32) -> (r: bool)
        requires
            self@.wf(),
        ensures
            r == self@.send_fits(down, gap as int),
    {
        match self.focused {
            Some(f) => {
                let m = &self.monitors[self.active_monitor];
                proof {
                    assert(self@.here() == m@);
                    assert(m@.stack.sound());
                    law_move_window_keeps(
                        m@.stack,
                        f,
                        down,
                        m@.default_width,
                        m@.viewport_w,
                        gap as int,
                    );
                }
                if m.stack.strips.len() == usize::MAX || !m.stack.can_move(
                    f,
                    down,
                    m.default_width,
                    m.viewport_w,
                    gap,
                ) {
                    return false;
                }
                let mut t = m.copied();
                let moved: bool = t.stack.move_window(
                    f,
                    down,
                    m.default_width,
                    m.viewport_w,
                    gap,
                );
                !moved || t.can_settle(f)
            },
            None => true,
        }
    }

    /// Moves the focused window to the workspace below or above.
    pub fn move_to_workspace(&mut self, down: bool, gap: i32)
        requires
            old(self)@.wf(),
            old(self)@.send_fits(down, gap as int),
        ensures
            final(self)@ == old(self)@.sent_to_workspace(down, gap as int),
            final(self)@.wf(),
    {
        let ghost before = self@;
        let ghost old_monitors = self.monitors@;
        if let Some(f) = self.focused {
            let mi: usize = self.active_monitor;
            let ghost m = before.here();
            proof {
                law_sent_to_workspace_keeps(before, down, gap as int);
                assert(m == old_monitors[mi as int]@);
                assert(m.stack.sound());
                law_move_window_keeps(
                    m.stack,
                    f,
                    down,
                    m.default_width,
                    m.viewport_w,
                    gap as int,
                );
            }
            let viewport_w: i32 = self.monitors[mi].viewport_w;
            let width: i32 = self.monitors[mi].default_width;
            let moved: bool = self.monitors[mi].stack.move_window(f, down, width, viewport_w, gap);
            let ghost mid = self.monitors@;
            proof {
                lemma_monitor_changed(old_monitors, mid, mi as int);
            }
            if moved {
                assert(mid[mi as int]@.stack.sound());
                self.monitors[mi].mark_on(f);
                proof {
                    lemma_monitor_changed(mid, self.monitors@, mi as int);
                }
            } else {
                assert(mid[mi as int]@ == m);
            }
            assert(self@.monitors =~= before.sent_to_workspace(down, gap as int).monitors);
        }
    }

    /// Tests whether scrolling stays within coordinates.
    pub fn can_scroll(&self) -> (r: bool)
        requires
            self@.wf(),
        ensures
            r == self@.scroll_fits(),
    {
        proof {
            lemma_shown_strip(*self);
        }
        let m = &self.monitors[self.active_monitor];
        m.stack.strips[m.stack.active].can_clamp(m.viewport_w)
    }

    /// Scrolls the viewport right or left.
    pub fn scroll(&mut self, forward: bool)
        requires
            old(self)@.wf(),
            old(self)@.scroll_fits(),
        ensures
            final(self)@ == old(self)@.scrolled(forward),
            final(self)@.wf(),
    {
        let ghost before = self@;
        let ghost old_monitors = self.monitors@;
        let mi: usize = self.active_monitor;
        let ghost m = before.here();
        proof {
            law_scrolled_keeps(before, forward);
            assert(m == old_monitors[mi as int]@);
            assert(m.stack.sound());
        }
        let a: usize = self.monitors[mi].stack.active;
        assert(m.shown() == old_monitors[mi as int].stack.strips@[a as int]@);
        let viewport_w: i32 = self.monitors[mi].viewport_w;
        self.monitors[mi].stack.strips[a].scroll_columnwise(forward, viewport_w);
        proof {
            let strips = old_monitors[mi as int].stack.strips@;
            let want = before.scrolled(forward);
            assert forall|k: int| 0 <= k < strips.len() implies #[trigger] self.monitors@[mi as int]@.stack.strips[k]
                == want.monitors[mi as int].stack.strips[k] by {
                if k != a {
                    assert(self.monitors@[mi as int].stack.strips@[k] == strips[k]);
                }
            }
            assert(self.monitors@[mi as int]@.stack.strips
                =~= want.monitors[mi as int].stack.strips);
            lemma_monitor_changed(old_monitors, self.monitors@, mi as int);
            assert(self@.monitors =~= want.monitors);
        }
    }

    /// Makes the focused window fullscreen, or no longer.
    pub fn toggle_fullscreen(&mut self)
        ensures
            final(self)@ == old(self)@.fullscreen_toggled(),
    {
        if let Some(f) = self.focused {
            self.fullscreen = if is_some_of(self.fullscreen, f.0) {
                None
            } else {
                Some(f.0)
            };
        }
    }

    /// Pins the focused window's opacity, or no longer.
    pub fn toggle_opacity(&mut self) -> (acts: Vec<Action>)
        ensures
            final(self)@ == old(self)@.opacity_toggled(),
            acts@ == old(self)@.opacity_actions(),
    {
        let mut acts: Vec<Action> = Vec::new();
        if let Some(f) = self.focused {
            let ghost pins = self.pinned@;
            proof {
                pins.index_of_first_ensures(f.0);
            }
            let mut i: usize = 0;
            while i < self.pinned.len()
                invariant
                    i <= self.pinned.len(),
                    acts@ == Seq::<Action>::empty(),
                    self@ == old(self)@,
                    pins == self.pinned@,
                    self.focused == Some(f),
                    forall|j: int| 0 <= j < i ==> pins[j] != f.0,
                    match pins.index_of_first(f.0) {
                        Some(k) => pins.contains(f.0) && 0 <= k < pins.len() && pins[k] == f.0
                            && forall|j: int| 0 <= j < k ==> pins[j] != f.0,
                        None => !pins.contains(f.0),
                    },
                decreases self.pinned.len() - i,
            {
                if self.pinned[i] == f.0 {
                    let _ = self.pinned.swap_remove(i);
                    assert(self.pinned@ =~= pin_toggled(pins, f.0));
                    acts.push(Action::Undim(f.0));
                    assert(acts@ =~= old(self)@.opacity_actions());
                    return acts;
                }
                i += 1;
            }
            self.pinned.push(f.0);
        }
        assert(acts@ =~= old(self)@.opacity_actions());
        acts
    }

    /// Asks the focused window to close.
    pub fn close_focused(&self) -> (acts: Vec<Action>)
        ensures
            acts@ == self@.close_actions(),
    {
        let mut acts: Vec<Action> = Vec::new();
        if let Some(f) = self.focused {
            acts.push(Action::Close(f.0));
        }
        assert(acts@ =~= self@.close_actions());
        acts
    }
}

impl Strip {
    /// The command stays within coordinates.
    fn can_rework(&self, what: &Rework, id: WindowId, viewport_w: i32, gap: i32) -> (r: bool)
        ensures
            r == what.fits(self@, id, viewport_w as int, gap as int),
    {
        let mut t = self.copied();
        let done: bool = match what {
            Rework::Move(dir) => t.swap_column(id, *dir),
            Rework::Expel => {
                if t.columns.len() == usize::MAX {
                    return false;
                }
                t.split_column(id)
            },
            Rework::Consume => {
                if !t.has_room_to_merge(id) {
                    return false;
                }
                t.merge_column(id)
            },
            Rework::CycleWidth => {
                if !t.can_cycle(id, viewport_w) {
                    return false;
                }
                t.cycle_column(id, viewport_w)
            },
            Rework::Maximize => t.maximize_column(id, viewport_w),
        };
        if !done {
            return true;
        }
        if !t.can_pack(gap) {
            return false;
        }
        if matches!(what, Rework::Consume) {
            return true;
        }
        t.relayout(gap);
        assert(Some(t@) == what.step(self@, id, viewport_w as int, gap as int));
        t.can_follow(id, viewport_w)
    }
}

/// The strip on show of the active monitor.
proof fn lemma_shown_strip(w: Wm)
    requires
        w@.wf(),
    ensures
        ({
            let m = w.monitors@[w.active_monitor as int];
            &&& w@.here() == m@
            &&& m@.stack.sound()
            &&& m.stack.active < m.stack.strips.len()
            &&& w@.here().shown() == m.stack.strips@[m.stack.active as int]@
            &&& w@.here().shown().sound()
        }),
{
    let m = w.monitors@[w.active_monitor as int];
    assert(w@.here() == m@);
    assert(m@.stack.sound());
    assert(m@.stack.strips[m.stack.active as int].sound());
}

} // verus!
