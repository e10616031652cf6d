//! Moves between monitors, and changes of monitors and configuration.

use vstd::prelude::*;

use crate::displays::{
    Display, can_rearrange, can_refit, law_rearranged_keeps_windows, law_refit_keeps_windows,
    lemma_update_monitor, monitors_apart, rearrange_fits, rearrange_monitors, rearranged,
    refit_fits, refit_monitors, refitted,
};
use crate::layout::{StripView, WindowId};
use crate::layout_laws::{
    held, law_insert_adds, law_normalize, lemma_same_tiles, lemma_update_apart, strips_apart,
};
use crate::monitors::{
    MonitorState, MonitorView, lemma_monitor_of, managed, monitor_index_of, monitor_of,
    monitor_views, monitors_sound, stack_windows, windows_of,
};
use crate::tiling::{
    lemma_return_to, lemma_settle_tiles, lemma_settled_on, lemma_taken_out,
};
use crate::transition::BORDER_DEFAULT;
use crate::wm::{Action, Wm, WmView, lemma_same_windows};
use crate::wm_commands::lemma_monitor_changed;

verus! {

// ---------------------------------------------------------------------------
// Model
// ---------------------------------------------------------------------------

/// The next or previous of `n` monitors, going round.
pub open spec fn beside(i: int, n: int, forward: bool) -> int {
    if forward {
        if i + 1 == n {
            0
        } else {
            i + 1
        }
    } else if i == 0 {
        n - 1
    } else {
        i - 1
    }
}

impl MonitorView {
    /// The strip on show with `id` in a new column right of the window focused
    /// last, and remembered as that.
    pub open spec fn receiving(self, id: WindowId, gap: int) -> StripView {
        let s = self.shown();
        StripView {
            last_focused: Some(id),
            ..s.insert_column_after(s.last_focused, id, self.default_width, gap)
        }
    }

    /// The monitor with `id` arrived from another one.
    pub open spec fn received(self, id: WindowId, gap: int) -> MonitorView {
        self.with_shown(self.receiving(id, gap)).in_shape()
    }
}

/// The frame colours for windows without the focus.
pub open spec fn recolored_upto(ms: Seq<MonitorView>, color: u32, k: int) -> Seq<Action>
    decreases k,
{
    if k <= 0 {
        Seq::empty()
    } else {
        recolored_upto(ms, color, k - 1) + stack_windows(ms[k - 1].stack).map_values(
            |id: WindowId| Action::Color(id.0, color),
        )
    }
}

impl WmView {
    /// The next or previous monitor active, with the focus where it was there
    /// last.
    pub open spec fn monitor_focused(self, forward: bool) -> WmView {
        let n = self.monitors.len() as int;
        if n <= 1 {
            self
        } else {
            let to = beside(self.active_monitor, n, forward);
            let m = self.monitors[to];
            match m.shown().return_to() {
                Some(f) => WmView {
                    active_monitor: to,
                    focused: Some(f),
                    ..self.with_monitor(to, m.marked_on(f))
                },
                None => WmView { active_monitor: to, focused: None, ..self },
            }
        }
    }

    /// Focusing another monitor stays within coordinates.
    pub open spec fn focus_monitor_fits(self, forward: bool) -> bool {
        let n = self.monitors.len() as int;
        n > 1 ==> {
            let m = self.monitors[beside(self.active_monitor, n, forward)];
            m.shown().return_to() matches Some(f) ==> m.settle_fits(f)
        }
    }

    /// What focusing another monitor asks for.
    pub open spec fn monitor_focused_actions(self, forward: bool) -> Seq<Action> {
        let n = self.monitors.len() as int;
        if n <= 1 {
            Seq::empty()
        } else {
            match self.monitors[beside(self.active_monitor, n, forward)].shown().return_to() {
                Some(f) => seq![Action::Focus(f.0)],
                None => Seq::empty(),
            }
        }
    }

    /// The focused window on the next or previous monitor.
    pub open spec fn sent_to_monitor(self, forward: bool, gap: int) -> WmView {
        let n = self.monitors.len() as int;
        match self.focused {
            Some(f) => match monitor_of(self.monitors, f) {
                Some(src) => if n <= 1 {
                    self
                } else {
                    let dst = beside(src, n, forward);
                    WmView {
                        active_monitor: dst,
                        ..self.with_monitor(src, self.monitors[src].taken_out(f, gap)).with_monitor(
                            dst,
                            self.monitors[dst].received(f, gap).marked_on(f),
                        )
                    }
                },
                None => self,
            },
            None => self,
        }
    }

    /// Sending the focused window to another monitor stays within coordinates.
    pub open spec fn send_away_fits(self, forward: bool, gap: int) -> bool {
        let n = self.monitors.len() as int;
        self.focused matches Some(f) ==> (monitor_of(self.monitors, f) matches Some(src) ==> n > 1
            ==> {
            let to = self.monitors[beside(src, n, forward)];
            &&& self.monitors[src].take_out_fits(f, gap)
            &&& to.take_in_fits(to.shown().last_focused, gap)
            &&& to.received(f, gap).settle_fits(f)
        })
    }

    /// What sending the focused window away asks for.
    pub open spec fn sent_to_monitor_actions(self) -> Seq<Action> {
        match self.focused {
            Some(f) => if managed(self.monitors, f) && self.monitors.len() > 1 {
                seq![Action::Focus(f.0)]
            } else {
                Seq::empty()
            },
            None => Seq::empty(),
        }
    }

    /// The state under a configuration read anew.
    pub open spec fn reloaded(self, displays: Seq<Display>, gap: int) -> WmView {
        WmView {
            monitors: self.monitors.map_values(|m: MonitorView| refitted(m, displays, gap)),
            bordered: None,
            ..self
        }
    }

    /// What a configuration read anew asks for: windows no longer to be hidden
    /// or dimmed are shown, and all frames are coloured anew.
    pub open spec fn reloaded_actions(
        self,
        displays: Seq<Display>,
        cloak: bool,
        colors: Option<(u32, u32)>,
        gap: int,
    ) -> Seq<Action> {
        let show = if cloak {
            Seq::empty()
        } else {
            seq![Action::ShowAll]
        };
        let color = match colors {
            Some(c) => c.1,
            None => BORDER_DEFAULT,
        };
        show + seq![Action::UndimAll] + recolored_upto(
            self.reloaded(displays, gap).monitors,
            color,
            self.monitors.len() as int,
        )
    }

    /// The state after monitors came or went.
    pub open spec fn replugged(self, displays: Seq<Display>, gap: int) -> WmView {
        let ms = rearranged(self.monitors, self.active_monitor, displays, gap);
        WmView {
            monitors: ms,
            active_monitor: crate::arith::lesser(self.active_monitor, ms.len() - 1),
            ..self
        }
    }
}

// ---------------------------------------------------------------------------
// Laws
// ---------------------------------------------------------------------------

/// Focusing another monitor moves no window.
pub proof fn law_monitor_focused_keeps(w: WmView, forward: bool)
    requires
        w.wf(),
    ensures
        ({
            let after = w.monitor_focused(forward);
            &&& after.wf()
            &&& forall|x: WindowId| #[trigger] managed(after.monitors, x) == managed(w.monitors, x)
            &&& w.monitors.len() > 1 ==> after.active_monitor != w.active_monitor
            &&& w.monitors.len() > 1 ==> match after.focused {
                Some(f) => after.here().shown().contains(f),
                None => after.here().shown().columns.len() == 0,
            }
        }),
{
    let n = w.monitors.len() as int;
    if n > 1 {
        let to = beside(w.active_monitor, n, forward);
        let m = w.monitors[to];
        assert(m.stack.sound());
        lemma_return_to(m.shown());
        assert(m.stack.strips[m.stack.active].sound());
        if let Some(f) = m.shown().return_to() {
            lemma_settled_on(m, f);
            lemma_same_windows(w, to, m.marked_on(f));
            assert(m.stack.strips[m.stack.active].contains(f));
            assert(m.stack.contains(f));
            assert(managed(w.monitors, f));
            assert(managed(w.with_monitor(to, m.marked_on(f)).monitors, f));
            lemma_settle_tiles(m.shown(), f, m.viewport_w);
            lemma_same_tiles(m.marked_on(f).shown(), m.shown());
        }
    }
}

/// A window received adds just it, on the strip on show.
proof fn lemma_received(m: MonitorView, id: WindowId, gap: int)
    requires
        m.stack.sound(),
        !m.stack.contains(id),
    ensures
        m.received(id, gap).stack.sound(),
        m.received(id, gap).shown().contains(id),
        forall|x: WindowId| #[trigger]
            m.received(id, gap).stack.contains(x) <==> m.stack.contains(x) || x == id,
{
    let a = m.stack.active;
    let s = m.shown();
    let grown = s.insert_column_after(s.last_focused, id, m.default_width, gap);
    let t = m.receiving(id, gap);
    law_insert_adds(s, s.last_focused, id, m.default_width, gap);
    assert(m.stack.strips[a].sound());
    assert(!s.contains(id)) by {
        if s.contains(id) {
            assert(m.stack.strips[a].contains(id));
        }
    }
    lemma_same_tiles(t, grown);
    assert(strips_apart(m.stack.strips));
    assert forall|x: WindowId| #[trigger] t.contains(x) implies m.stack.strips[a].contains(x)
        || !held(m.stack.strips, x) by {
        assert(t.contains(x) == grown.contains(x));
        assert(m.stack.contains(x) == held(m.stack.strips, x));
    }
    lemma_update_apart(m.stack.strips, a, t);
    let mid = m.with_shown(t).stack;
    assert(mid.apart());
    assert forall|j: int| 0 <= j < mid.strips.len() implies (#[trigger] mid.strips[j]).sound() by {
        assert(m.stack.strips[j].sound());
    }
    law_normalize(mid);
    assert(mid.shown() == t);
    assert(t.contains(id)) by {
        assert(t.contains(id) == grown.contains(id));
    }
    let out = m.received(id, gap).stack;
    assert forall|x: WindowId| #[trigger] out.contains(x) <==> m.stack.contains(x) || x == id by {
        assert(out.contains(x) == mid.contains(x));
        assert(mid.contains(x) == held(mid.strips, x));
        assert(m.stack.contains(x) == held(m.stack.strips, x));
        assert(t.contains(x) == grown.contains(x));
        if s.contains(x) {
            assert(m.stack.strips[a].contains(x));
        }
    }
}

/// Sending a window to another monitor loses none and tiles none twice; the
/// window shows there, with the focus.
pub proof fn law_sent_to_monitor_keeps(w: WmView, forward: bool, gap: int)
    requires
        w.wf(),
    ensures
        ({
            let after = w.sent_to_monitor(forward, gap);
            &&& after.wf()
            &&& after.focused == w.focused
            &&& forall|x: WindowId| #[trigger] managed(after.monitors, x) == managed(w.monitors, x)
            &&& w.focused matches Some(f) ==> w.monitors.len() > 1 ==> {
                &&& after.here().shown().contains(f)
                &&& after.active_monitor != monitor_of(w.monitors, f).unwrap()
            }
        }),
{
    let n = w.monitors.len() as int;
    if let Some(f) = w.focused {
        lemma_monitor_of(w.monitors, f);
        if n > 1 {
            let src = monitor_of(w.monitors, f).unwrap();
            let dst = beside(src, n, forward);
            let a = w.monitors[src];
            let b = w.monitors[dst];
            assert(a.stack.sound() && b.stack.sound());
            lemma_taken_out(a, f, gap);
            let out = a.taken_out(f, gap);
            assert(a.stack.contains(f));
            assert(!b.stack.contains(f)) by {
                if b.stack.contains(f) {
                    assert(src == dst);
                }
            }
            lemma_received(b, f, gap);
            let got = b.received(f, gap);
            lemma_settled_on(got, f);
            let last = got.marked_on(f);
            assert forall|x: WindowId| #[trigger] out.stack.contains(x) implies a.stack.contains(x)
                || !managed(w.monitors, x) by {}
            lemma_update_monitor(w.monitors, src, out);
            let one = w.monitors.update(src, out);
            assert(!managed(one, f));
            assert(one[dst] == b);
            assert forall|x: WindowId| #[trigger] last.stack.contains(x) implies one[dst].stack.contains(
                x,
            ) || !managed(one, x) by {
                assert(last.stack.contains(x) == got.stack.contains(x));
            }
            lemma_update_monitor(one, dst, last);
            let two = one.update(dst, last);
            let after = w.sent_to_monitor(forward, gap);
            assert(after.monitors == two);
            assert forall|k: int| 0 <= k < two.len() implies (#[trigger] two[k]).stack.sound() by {
                assert(w.monitors[k].stack.sound());
            }
            assert(monitors_sound(two)) by {
                assert(monitors_apart(two));
            }
            assert forall|x: WindowId| #[trigger] managed(two, x) == managed(w.monitors, x) by {
                assert(last.stack.contains(x) == got.stack.contains(x));
                if a.stack.contains(x) {
                    assert(managed(w.monitors, x));
                }
                if b.stack.contains(x) {
                    assert(managed(w.monitors, x));
                }
            }
            lemma_settle_tiles(got.shown(), f, got.viewport_w);
            lemma_same_tiles(last.shown(), got.shown());
            assert(managed(two, f));
        }
    }
}

/// Reading the configuration anew keeps every window tiled.
pub proof fn law_reloaded_keeps(w: WmView, displays: Seq<Display>, gap: int)
    requires
        w.wf(),
    ensures
        w.reloaded(displays, gap).wf(),
        forall|x: WindowId| #[trigger]
            managed(w.reloaded(displays, gap).monitors, x) == managed(w.monitors, x),
{
    law_refit_keeps_windows(w.monitors, displays, gap);
}

/// When monitors come or go, every window stays tiled, once.
pub proof fn law_replugged_keeps(w: WmView, displays: Seq<Display>, gap: int)
    requires
        w.wf(),
        displays.len() > 0,
    ensures
        w.replugged(displays, gap).wf(),
        forall|x: WindowId| #[trigger]
            managed(w.replugged(displays, gap).monitors, x) == managed(w.monitors, x),
{
    law_rearranged_keeps_windows(w.monitors, w.active_monitor, displays, gap);
}

// ---------------------------------------------------------------------------
// Operations
// ---------------------------------------------------------------------------

/// The next or previous of `n` monitors, going round.
fn monitor_beside(i: usize, n: usize, forward: bool) -> (r: usize)
    requires
        i < n,
    ensures
        r == beside(i as int, n as int, forward),
        r < n,
{
    if forward {
        if i + 1 == n {
            0
        } else {
            i + 1
        }
    } else if i == 0 {
        n - 1
    } else {
        i - 1
    }
}

impl MonitorState {
    /// Takes in `id` arrived from another monitor.
    fn receive(&mut self, id: WindowId, gap: i32)
        requires
            old(self)@.take_in_fits(old(self)@.shown().last_focused, gap as int),
            old(self).stack.active < old(self).stack.strips.len(),
        ensures
            final(self)@ == old(self)@.received(id, gap as int),
    {
        let ghost before = self@;
        let ghost strips = self.stack.strips@;
        let a: usize = self.stack.active;
        let width: i32 = self.default_width;
        let ghost t = before.receiving(id, gap as int);
        assert(before.stack.strips[a as int] == strips[a as int]@);
        let anchor = self.stack.strips[a].last_focused;
        self.stack.strips[a].insert_column_after(anchor, id, width, gap);
        self.stack.strips[a].last_focused = Some(id);
        proof {
            let want = before.with_shown(t);
            assert forall|k: int| 0 <= k < strips.len() implies #[trigger] self@.stack.strips[k]
                == want.stack.strips[k] by {
                if k != a {
                    assert(self.stack.strips@[k] == strips[k]);
                }
            }
            assert(self@.stack.strips =~= want.stack.strips);
        }
        self.stack.normalize();
    }
}

impl Wm {
    /// Tests whether focusing another monitor stays within coordinates.
    pub fn can_focus_monitor(&self, forward: bool) -> (r: bool)
        requires
            self@.wf(),
        ensures
            r == self@.focus_monitor_fits(forward),
    {
        let n: usize = self.monitors.len();
        if n <= 1 {
            return true;
        }
        let m = &self.monitors[monitor_beside(self.active_monitor, n, forward)];
        proof {
            let to = self@.monitors[beside(self.active_monitor as int, n as int, forward)];
            assert(to == m@);
            assert(to.stack.sound());
            assert(to.shown() == m.stack.strips@[m.stack.active as int]@);
        }
        match m.stack.strips[m.stack.active].return_to() {
            Some(f) => m.can_settle(f),
            None => true,
        }
    }

    /// Moves the focus to the next or previous monitor.
    pub fn focus_monitor(&mut self, forward: bool) -> (acts: Vec<Action>)
        requires
            old(self)@.wf(),
            old(self)@.focus_monitor_fits(forward),
        ensures
            final(self)@ == old(self)@.monitor_focused(forward),
            final(self)@.wf(),
            acts@ == old(self)@.monitor_focused_actions(forward),
    {
        let ghost before = self@;
        let ghost old_monitors = self.monitors@;
        let mut acts: Vec<Action> = Vec::new();
        proof {
            law_monitor_focused_keeps(before, forward);
        }
        let n: usize = self.monitors.len();
        if n <= 1 {
            return acts;
        }
        let to: usize = monitor_beside(self.active_monitor, n, forward);
        let ghost m = before.monitors[to as int];
        proof {
            assert(m == old_monitors[to as int]@);
            assert(m.stack.sound());
        }
        self.active_monitor = to;
        let a: usize = self.monitors[to].stack.active;
        assert(m.shown() == old_monitors[to as int].stack.strips@[a as int]@);
        let f = self.monitors[to].stack.strips[a].return_to();
        self.focused = f;
        if let Some(f) = f {
            self.monitors[to].mark_on(f);
            acts.push(Action::Focus(f.0));
            proof {
                lemma_monitor_changed(old_monitors, self.monitors@, to as int);
            }
        }
        assert(acts@ =~= before.monitor_focused_actions(forward));
        acts
    }

    /// Tests whether moving the focused window to another monitor stays within
    /// coordinates.
    pub fn can_send_away(&self, forward: bool, gap: i32) -> (r: bool)
        requires
            self@.wf(),
        ensures
            r == self@.send_away_fits(forward, gap as int),
    {
        if let Some(f) = self.focused {
            proof {
                lemma_monitor_of(self@.monitors, f);
            }
            if let Some(src) = monitor_index_of(f, &self.monitors) {
                let n: usize = self.monitors.len();
                if n > 1 {
                    let to = &self.monitors[monitor_beside(src, n, forward)];
                    proof {
                        let dst = beside(src as int, n as int, forward);
                        let b = self@.monitors[dst];
                        assert(self@.monitors[src as int] == self.monitors@[src as int]@);
                        assert(b == to@);
                        assert(b.stack.sound());
                        assert(b.shown() == to.stack.strips@[to.stack.active as int]@);
                        assert(!b.stack.contains(f)) by {
                            if b.stack.contains(f) {
                                assert(self@.monitors[src as int].stack.contains(f));
                            }
                        }
                        lemma_received(b, f, gap as int);
                    }
                    let anchor = to.stack.strips[to.stack.active].last_focused;
                    if !self.monitors[src].can_take_out(f, gap) || !to.can_take_in(anchor, gap) {
                        return false;
                    }
                    let mut t = to.copied();
                    t.receive(f, gap);
                    return t.can_settle(f);
                }
            }
        }
        true
    }

    /// Moves the focused window to the next or previous monitor.
    pub fn move_to_monitor(&mut self, forward: bool, gap: i32) -> (acts: Vec<Action>)
        requires
            old(self)@.wf(),
            old(self)@.send_away_fits(forward, gap as int),
        ensures
            final(self)@ == old(self)@.sent_to_monitor(forward, gap as int),
            final(self)@.wf(),
            acts@ == old(self)@.sent_to_monitor_actions(),
    {
        let ghost before = self@;
        let ghost old_monitors = self.monitors@;
        let mut acts: Vec<Action> = Vec::new();
        proof {
            law_sent_to_monitor_keeps(before, forward, gap as int);
        }
        if let Some(f) = self.focused {
            proof {
                lemma_monitor_of(before.monitors, f);
            }
            if let Some(src) = monitor_index_of(f, &self.monitors) {
                let n: usize = self.monitors.len();
                if n > 1 {
                    let dst: usize = monitor_beside(src, n, forward);
                    let ghost a = before.monitors[src as int];
                    let ghost b = before.monitors[dst as int];
                    proof {
                        assert(a == old_monitors[src as int]@);
                        assert(b == old_monitors[dst as int]@);
                        assert(a.stack.sound() && b.stack.sound());
                        assert(!b.stack.contains(f)) by {
                            if b.stack.contains(f) {
                                assert(a.stack.contains(f));
                            }
                        }
                        lemma_received(b, f, gap as int);
                    }
                    let _ = self.monitors[src].take_out(f, gap);
                    let ghost one = self.monitors@;
                    proof {
                        lemma_monitor_changed(old_monitors, one, src as int);
                        assert(one[dst as int] == old_monitors[dst as int]);
                    }
                    self.monitors[dst].receive(f, gap);
                    let ghost two = self.monitors@;
                    assert(two[dst as int]@ == b.received(f, gap as int));
                    assert(two[dst as int]@.stack.sound());
                    self.active_monitor = dst;
                    self.monitors[dst].mark_on(f);
                    acts.push(Action::Focus(f.0));
                    proof {
                        assert(self.monitors@ == one.update(dst as int, self.monitors@[dst as int]));
                        lemma_monitor_changed(one, self.monitors@, dst as int);
                        assert(self@.monitors =~= before.sent_to_monitor(
                            forward,
                            gap as int,
                        ).monitors);
                    }
                }
            }
        }
        assert(acts@ =~= before.sent_to_monitor_actions());
        acts
    }

    /// Tests whether laying out anew under the displays stays within
    /// coordinates.
    pub fn can_reload(&self, displays: &Vec<Display>, gap: i32) -> (r: bool)
        ensures
            r == refit_fits(self@.monitors, displays@, gap as int),
    {
        can_refit(&self.monitors, displays, gap)
    }

    /// Takes on a configuration read anew, with the monitors measured for it.
    pub fn reload(
        &mut self,
        displays: &Vec<Display>,
        cloak: bool,
        colors: Option<(u32, u32)>,
        gap: i32,
    ) -> (acts: Vec<Action>)
        requires
            old(self)@.wf(),
            refit_fits(old(self)@.monitors, displays@, gap as int),
        ensures
            final(self)@ == old(self)@.reloaded(displays@, gap as int),
            final(self)@.wf(),
            acts@ == old(self)@.reloaded_actions(displays@, cloak, colors, gap as int),
    {
        let ghost before = self@;
        let mut acts: Vec<Action> = Vec::new();
        proof {
            law_reloaded_keeps(before, displays@, gap as int);
        }
        refit_monitors(&mut self.monitors, displays, gap);
        self.bordered = None;
        if !cloak {
            acts.push(Action::ShowAll);
        }
        acts.push(Action::UndimAll);
        let color: u32 = match colors {
            Some(c) => c.1,
            None => BORDER_DEFAULT,
        };
        let ghost ms = monitor_views(self.monitors@);
        let ghost head = acts@;
        let mut i: usize = 0;
        assert(head + recolored_upto(ms, color, 0) =~= head);
        while i < self.monitors.len()
            invariant
                i <= self.monitors.len(),
                ms == monitor_views(self.monitors@),
                acts@ == head + recolored_upto(ms, color, i as int),
                self@ == before.reloaded(displays@, gap as int),
            decreases self.monitors.len() - i,
        {
            assert(ms[i as int] == self.monitors@[i as int]@);
            let windows = windows_of(&self.monitors[i].stack);
            let ghost part = acts@;
            let ghost these = stack_windows(ms[i as int].stack).map_values(
                |id: WindowId| Action::Color(id.0, color),
            );
            let mut w: usize = 0;
            assert(part + these.take(0) =~= part);
            while w < windows.len()
                invariant
                    w <= windows.len(),
                    windows@.len() == these.len(),
                    forall|k: int|
                        0 <= k < these.len() ==> #[trigger] these[k] == Action::Color(
                            windows@[k].0,
                            color,
                        ),
                    acts@ == part + these.take(w as int),
                decreases windows.len() - w,
            {
                acts.push(Action::Color(windows[w].0, color));
                proof {
                    assert(part + these.take(w + 1) =~= (part + these.take(w as int)).push(
                        these[w as int],
                    ));
                }
                w += 1;
            }
            proof {
                assert(these.take(w as int) =~= these);
                assert(acts@ =~= head + recolored_upto(ms, color, i + 1));
            }
            i += 1;
        }
        assert(acts@ =~= before.reloaded_actions(displays@, cloak, colors, gap as int));
        acts
    }

    /// Tests whether following a change of monitors stays within coordinates.
    pub fn can_replug(&self, displays: &Vec<Display>, gap: i32) -> (r: bool)
        requires
            self@.wf(),
            displays.len() > 0,
        ensures
            r == rearrange_fits(
                self@.monitors,
                self@.active_monitor,
                displays@,
                gap as int,
            ),
    {
        can_rearrange(&self.monitors, self.active_monitor, displays, gap)
    }

    /// Follows monitors that came or went, or whose work areas changed.
    pub fn work_area_changed(&mut self, displays: &Vec<Display>, gap: i32)
        requires
            old(self)@.wf(),
            displays.len() > 0,
            rearrange_fits(
                old(self)@.monitors,
                old(self)@.active_monitor,
                displays@,
                gap as int,
            ),
        ensures
            final(self)@ == old(self)@.replugged(displays@, gap as int),
            final(self)@.wf(),
    {
        let ghost before = self@;
        proof {
            law_replugged_keeps(before, displays@, gap as int);
        }
        let at: usize = rearrange_monitors(&mut self.monitors, self.active_monitor, displays, gap);
        self.active_monitor = at;
    }
}

} // verus!
