//! Steps on the workspaces of one monitor.

use vstd::prelude::*;

use crate::arith::lesser;
use crate::layout::{
    StackView, Strip, StripView, WindowId, lemma_column_index, lemma_column_index_is,
    lemma_strip_index,
};
use crate::layout_laws::{
    held, law_insert_adds, law_normalize, law_remove_takes, law_tiles_stay, lemma_active_contained,
    lemma_same_tiles, lemma_update_apart, same_tiles, strips_apart,
};
use crate::monitors::{MonitorState, MonitorView};

verus! {

// ---------------------------------------------------------------------------
// Model
// ---------------------------------------------------------------------------

impl StripView {
    /// The strip with its focus on `id`, remembered and in view.
    pub open spec fn settle(self, id: WindowId, viewport_w: int) -> StripView {
        StripView { last_focused: Some(id), ..self.set_active(id) }.ensure_visible(id, viewport_w)
    }

    /// The strip with `id` remembered in its column and in view.
    pub open spec fn mark(self, id: WindowId, viewport_w: int) -> StripView {
        self.set_active(id).ensure_visible(id, viewport_w)
    }

    /// The tile the first column's focus would land on.
    pub open spec fn first_active(self) -> Option<WindowId> {
        if self.columns.len() == 0 {
            None
        } else {
            self.columns[0].active()
        }
    }

    /// Where the focus returns to: the window focused last, if still there,
    /// else the first column's.
    pub open spec fn return_to(self) -> Option<WindowId> {
        match self.last_focused {
            Some(f) => if self.contains(f) {
                Some(f)
            } else {
                self.first_active()
            },
            None => self.first_active(),
        }
    }

    /// The strip with `id` gone, the viewport on its content and no memory of
    /// `id`.
    pub open spec fn cleared(self, id: WindowId, viewport_w: int, gap: int) -> StripView {
        let cut = self.remove_window(id, gap).clamp_offset(viewport_w);
        StripView {
            last_focused: if cut.last_focused == Some(id) {
                None
            } else {
                cut.last_focused
            },
            ..cut
        }
    }

    /// Who follows in the focus when `id` goes: the column that takes its
    /// place, or the one before it at the end.
    pub open spec fn successor(self, id: WindowId, viewport_w: int, gap: int) -> Option<WindowId> {
        let rest = self.cleared(id, viewport_w, gap);
        match self.column_index_of(id) {
            Some(i) => if rest.columns.len() == 0 {
                None
            } else {
                rest.columns[lesser(i, rest.columns.len() - 1)].active()
            },
            None => None,
        }
    }
}

impl MonitorView {
    /// The strip on show.
    pub open spec fn shown(self) -> StripView {
        self.stack.shown()
    }

    /// The monitor with strip `k` replaced.
    pub open spec fn with_strip(self, k: int, t: StripView) -> MonitorView {
        MonitorView {
            stack: StackView { strips: self.stack.strips.update(k, t), ..self.stack },
            ..self
        }
    }

    /// The monitor with the strip on show replaced.
    pub open spec fn with_shown(self, t: StripView) -> MonitorView {
        self.with_strip(self.stack.active, t)
    }

    /// The monitor with its stack brought into shape.
    pub open spec fn in_shape(self) -> MonitorView {
        MonitorView { stack: self.stack.normalize(), ..self }
    }

    /// The monitor with its focus on `id` of the strip on show.
    pub open spec fn settled_on(self, id: WindowId) -> MonitorView {
        self.with_shown(self.shown().settle(id, self.viewport_w))
    }

    /// The monitor with `id` of the strip on show remembered and in view.
    pub open spec fn marked_on(self, id: WindowId) -> MonitorView {
        self.with_shown(self.shown().mark(id, self.viewport_w))
    }

    /// The monitor with `id` in a new column of the strip on show, right of the
    /// anchor.
    pub open spec fn taken_in(self, anchor: Option<WindowId>, id: WindowId, gap: int) -> MonitorView {
        self.with_shown(
            self.shown().insert_column_after(anchor, id, self.default_width, gap),
        ).in_shape()
    }

    /// The monitor without `id`.
    pub open spec fn taken_out(self, id: WindowId, gap: int) -> MonitorView {
        match self.stack.strip_index_of(id) {
            Some(k) => self.with_strip(
                k,
                self.stack.strips[k].cleared(id, self.viewport_w, gap),
            ).in_shape(),
            None => self,
        }
    }

    /// The monitor showing the workspace with `id`.
    pub open spec fn showing(self, id: WindowId) -> MonitorView {
        match self.stack.strip_index_of(id) {
            Some(k) => MonitorView { stack: StackView { active: k, ..self.stack }, ..self },
            None => self,
        }
    }
}

impl MonitorView {
    /// The viewport can follow the column of `id` on the strip on show.
    pub open spec fn settle_fits(self, id: WindowId) -> bool {
        self.shown().ensure_visible_fits(id, self.viewport_w)
    }

    /// The stack can get one more strip.
    pub open spec fn has_room(self) -> bool {
        self.stack.strips.len() < usize::MAX
    }

    /// A new column right of the anchor fits the strip on show.
    pub open spec fn take_in_fits(self, anchor: Option<WindowId>, gap: int) -> bool {
        &&& self.has_room()
        &&& self.shown().insert_fits(anchor, self.default_width, gap)
    }

    /// Taking `id` out stays within coordinates.
    pub open spec fn take_out_fits(self, id: WindowId, gap: int) -> bool {
        match self.stack.strip_index_of(id) {
            Some(k) => {
                &&& self.has_room()
                &&& self.stack.strips[k].remove_fits(id, gap)
                &&& self.stack.strips[k].remove_window(id, gap).clamp_fits(self.viewport_w)
            },
            None => true,
        }
    }
}

// ---------------------------------------------------------------------------
// Soundness
// ---------------------------------------------------------------------------

/// Replacing a strip by a sound one with the same windows keeps a stack sound.
pub proof fn lemma_stack_replace(s: StackView, k: int, t: StripView, active: int)
    requires
        s.sound(),
        0 <= k < s.strips.len(),
        0 <= active < s.strips.len(),
        t.sound(),
        (t.columns.len() > 0) == (s.strips[k].columns.len() > 0),
        forall|x: WindowId| #[trigger] t.contains(x) == s.strips[k].contains(x),
    ensures
        (StackView { strips: s.strips.update(k, t), active }).sound(),
        forall|x: WindowId| #[trigger]
            (StackView { strips: s.strips.update(k, t), active }).contains(x) == s.contains(x),
{
    let n = StackView { strips: s.strips.update(k, t), active };
    assert(strips_apart(s.strips));
    lemma_update_apart(s.strips, k, t);
    assert forall|x: WindowId| #[trigger] n.contains(x) == s.contains(x) by {
        assert(n.contains(x) == held(n.strips, x));
        assert(s.contains(x) == held(s.strips, x));
        if s.strips[k].contains(x) {
            assert(held(s.strips, x));
        }
    }
    assert(n.strips.last() == n.strips[n.strips.len() - 1]);
    assert(s.strips.last() == s.strips[s.strips.len() - 1]);
    assert forall|j: int| 0 <= j < n.strips.len() - 1 implies (
    #[trigger] n.strips[j]).columns.len() > 0 by {
        assert(s.strips[j].columns.len() > 0);
    }
    assert forall|j: int| 0 <= j < n.strips.len() implies (#[trigger] n.strips[j]).sound() by {
        assert(s.strips[j].sound());
    }
}

/// Focusing and remembering leaves every tile in its column.
pub proof fn lemma_settle_tiles(s: StripView, id: WindowId, viewport_w: int)
    ensures
        same_tiles(s.settle(id, viewport_w), s),
        same_tiles(s.mark(id, viewport_w), s),
{
    law_tiles_stay(s, id, viewport_w, 0, true);
    law_tiles_stay(s.set_active(id), id, viewport_w, 0, true);
    let a = StripView { last_focused: Some(id), ..s.set_active(id) };
    law_tiles_stay(a, id, viewport_w, 0, true);
    lemma_column_index(s, id);
}

/// A monitor whose strip on show kept its tiles is as sound as before.
pub proof fn lemma_shown_same(m: MonitorView, t: StripView)
    requires
        m.stack.sound(),
        same_tiles(t, m.shown()),
    ensures
        m.with_shown(t).stack.sound(),
        forall|x: WindowId| #[trigger] m.with_shown(t).stack.contains(x) == m.stack.contains(x),
{
    lemma_same_tiles(t, m.shown());
    assert(m.stack.strips[m.stack.active].sound());
    lemma_stack_replace(m.stack, m.stack.active, t, m.stack.active);
}

/// Focusing keeps a monitor sound.
pub proof fn lemma_settled_on(m: MonitorView, id: WindowId)
    requires
        m.stack.sound(),
    ensures
        m.settled_on(id).stack.sound(),
        m.marked_on(id).stack.sound(),
        forall|x: WindowId| #[trigger] m.settled_on(id).stack.contains(x) == m.stack.contains(x),
        forall|x: WindowId| #[trigger] m.marked_on(id).stack.contains(x) == m.stack.contains(x),
{
    lemma_settle_tiles(m.shown(), id, m.viewport_w);
    lemma_shown_same(m, m.shown().settle(id, m.viewport_w));
    lemma_shown_same(m, m.shown().mark(id, m.viewport_w));
}

/// Taking a new window in adds just it, on the strip on show.
pub proof fn lemma_taken_in(m: MonitorView, anchor: Option<WindowId>, id: WindowId, gap: int)
    requires
        m.stack.sound(),
        !m.stack.contains(id),
    ensures
        m.taken_in(anchor, id, gap).stack.sound(),
        m.taken_in(anchor, id, gap).shown().contains(id),
        m.taken_in(anchor, id, gap).shown() == m.shown().insert_column_after(
            anchor,
            id,
            m.default_width,
            gap,
        ),
        forall|x: WindowId| #[trigger]
            m.taken_in(anchor, id, gap).stack.contains(x) <==> m.stack.contains(x) || x == id,
{
    let a = m.stack.active;
    let shown = m.shown();
    let grown = shown.insert_column_after(anchor, id, m.default_width, gap);
    law_insert_adds(shown, anchor, id, m.default_width, gap);
    assert(m.stack.strips[a].sound());
    assert(!shown.contains(id)) by {
        if shown.contains(id) {
            assert(m.stack.strips[a].contains(id));
        }
    }
    assert(strips_apart(m.stack.strips));
    assert forall|x: WindowId| #[trigger] grown.contains(x) implies m.stack.strips[a].contains(x)
        || !held(m.stack.strips, x) by {
        assert(m.stack.contains(x) == held(m.stack.strips, x));
    }
    lemma_update_apart(m.stack.strips, a, grown);
    let mid = m.with_shown(grown).stack;
    assert(mid.apart());
    assert forall|j: int| 0 <= j < mid.strips.len() implies (#[trigger] mid.strips[j]).sound() by {
        assert(m.stack.strips[j].sound());
    }
    law_normalize(mid);
    assert(mid.shown() == grown);
    let out = m.taken_in(anchor, id, gap).stack;
    assert forall|x: WindowId| #[trigger] out.contains(x) <==> m.stack.contains(x) || x == id by {
        assert(out.contains(x) == mid.contains(x));
        assert(mid.contains(x) == held(mid.strips, x));
        assert(m.stack.contains(x) == held(m.stack.strips, x));
        if shown.contains(x) {
            assert(m.stack.strips[a].contains(x));
        }
    }
}

/// Taking a window out removes just it.
pub proof fn lemma_taken_out(m: MonitorView, id: WindowId, gap: int)
    requires
        m.stack.sound(),
    ensures
        m.taken_out(id, gap).stack.sound(),
        forall|x: WindowId| #[trigger]
            m.taken_out(id, gap).stack.contains(x) <==> m.stack.contains(x) && x != id,
{
    lemma_strip_index(m.stack, id);
    if let Some(k) = m.stack.strip_index_of(id) {
        let s = m.stack.strips[k];
        let cut = s.remove_window(id, gap);
        let t = s.cleared(id, m.viewport_w, gap);
        assert(s.sound());
        law_remove_takes(s, id, gap);
        law_tiles_stay(cut, id, m.viewport_w, gap, true);
        lemma_same_tiles(t, cut);
        assert(cut.sound());
        assert(strips_apart(m.stack.strips));
        assert forall|x: WindowId| #[trigger] t.contains(x) implies m.stack.strips[k].contains(x)
            || !held(m.stack.strips, x) by {
            assert(cut.contains(x) == t.contains(x));
        }
        lemma_update_apart(m.stack.strips, k, t);
        let mid = m.with_strip(k, t).stack;
        assert(mid.apart());
        assert forall|j: int| 0 <= j < mid.strips.len() implies (#[trigger] mid.strips[j]).sound() by {
            assert(m.stack.strips[j].sound());
        }
        law_normalize(mid);
        let out = m.taken_out(id, gap).stack;
        assert forall|x: WindowId| #[trigger] out.contains(x) <==> m.stack.contains(x) && x != id by {
            assert(out.contains(x) == mid.contains(x));
            assert(mid.contains(x) == held(mid.strips, x));
            assert(m.stack.contains(x) == held(m.stack.strips, x));
            assert(t.contains(x) == cut.contains(x));
            if s.contains(x) {
                assert(m.stack.strips[k].contains(x));
            }
            if x == id {
                assert(m.stack.strips[k].contains(id));
            }
        }
    } else {
        assert forall|x: WindowId| #[trigger]
            m.taken_out(id, gap).stack.contains(x) <==> m.stack.contains(x) && x != id by {}
    }
}

/// Showing a window's workspace keeps a monitor sound and shows the window.
pub proof fn lemma_showing(m: MonitorView, id: WindowId)
    requires
        m.stack.sound(),
    ensures
        m.showing(id).stack.sound(),
        m.stack.contains(id) ==> m.showing(id).shown().contains(id),
        forall|x: WindowId| #[trigger] m.showing(id).stack.contains(x) == m.stack.contains(x),
{
    lemma_strip_index(m.stack, id);
    let n = m.showing(id).stack;
    assert(n.strips == m.stack.strips);
    assert(n.apart()) by {
        assert(m.stack.apart());
    }
    assert(n.strips_sound()) by {
        assert(m.stack.strips_sound());
    }
    assert forall|x: WindowId| #[trigger] n.contains(x) == m.stack.contains(x) by {
        if n.contains(x) {
            let k = choose|k: int| 0 <= k < n.strips.len() && (#[trigger] n.strips[k]).contains(x);
            assert(m.stack.strips[k].contains(x));
        }
        if m.stack.contains(x) {
            let k = choose|k: int|
                0 <= k < m.stack.strips.len() && (#[trigger] m.stack.strips[k]).contains(x);
            assert(n.strips[k].contains(x));
        }
    }
}

/// The window the focus returns to is on the strip, and there is one where
/// there is any window.
pub proof fn lemma_return_to(s: StripView)
    ensures
        s.return_to() matches Some(f) ==> s.contains(f),
        s.first_active() matches Some(f) ==> s.contains(f),
        s.columns.len() > 0 && s.columns_filled() ==> s.return_to() is Some,
{
    if s.columns.len() > 0 {
        lemma_active_contained(s, 0);
        if s.columns_filled() {
            assert(s.columns[0].tiles.len() > 0);
        }
    }
}

/// Remembering `id` changes nothing about following its column.
pub proof fn lemma_marked_fits(s: StripView, id: WindowId, viewport_w: int)
    ensures
        s.set_active(id).ensure_visible_fits(id, viewport_w) == s.ensure_visible_fits(
            id,
            viewport_w,
        ),
        (StripView { last_focused: Some(id), ..s.set_active(id) }).ensure_visible_fits(
            id,
            viewport_w,
        ) == s.ensure_visible_fits(id, viewport_w),
{
    let a = s.set_active(id);
    let b = StripView { last_focused: Some(id), ..a };
    law_tiles_stay(s, id, viewport_w, 0, true);
    lemma_column_index(s, id);
    lemma_column_index(a, id);
    lemma_column_index(b, id);
    lemma_same_tiles(a, s);
    lemma_same_tiles(b, s);
    if let Some(i) = s.column_index_of(id) {
        assert forall|j: int| 0 <= j < i implies !(#[trigger] a.columns[j]).tiles.contains(id) by {
            assert(!s.columns[j].tiles.contains(id));
        }
        assert(a.is_column_of(id, i));
        assert(b.is_column_of(id, i));
        lemma_column_index_is(a, id, i);
        lemma_column_index_is(b, id, i);
    }
}

// ---------------------------------------------------------------------------
// Operations
// ---------------------------------------------------------------------------

impl Strip {
    /// The tile the first column's focus would land on.
    pub fn first_active(&self) -> (r: Option<WindowId>)
        ensures
            r == self@.first_active(),
    {
        if self.columns.len() == 0 {
            None
        } else {
            assert(self@.columns[0] == self.columns@[0]@);
            self.columns[0].active()
        }
    }

    /// Where the focus returns to.
    pub fn return_to(&self) -> (r: Option<WindowId>)
        ensures
            r == self@.return_to(),
    {
        match self.last_focused {
            Some(f) => if self.contains(f) {
                Some(f)
            } else {
                self.first_active()
            },
            None => self.first_active(),
        }
    }
}

/// The option holds just this window.
pub fn is_window(o: Option<WindowId>, id: WindowId) -> (b: bool)
    ensures
        b == (o == Some(id)),
{
    match o {
        Some(x) => x == id,
        None => false,
    }
}

impl MonitorState {
    /// A copy of the monitor, to try a step on.
    pub fn copied(&self) -> (r: MonitorState)
        ensures
            r@ == self@,
    {
        MonitorState {
            hmonitor: self.hmonitor,
            work: self.work,
            monitor: self.monitor,
            viewport_w: self.viewport_w,
            default_width: self.default_width,
            stack: self.stack.copied(),
        }
    }

    /// The viewport can follow the column of `id` on the strip on show.
    pub(crate) fn can_settle(&self, id: WindowId) -> (r: bool)
        requires
            self.stack.active < self.stack.strips.len(),
        ensures
            r == self@.settle_fits(id),
    {
        assert(self@.shown() == self.stack.strips@[self.stack.active as int]@);
        self.stack.strips[self.stack.active].can_follow(id, self.viewport_w)
    }

    /// A new column right of the anchor fits the strip on show.
    pub(crate) fn can_take_in(&self, anchor: Option<WindowId>, gap: i32) -> (r: bool)
        requires
            self.stack.active < self.stack.strips.len(),
        ensures
            r == self@.take_in_fits(anchor, gap as int),
    {
        assert(self@.shown() == self.stack.strips@[self.stack.active as int]@);
        self.stack.strips.len() < usize::MAX && self.stack.strips[self.stack.active].can_insert(
            anchor,
            self.default_width,
            gap,
        )
    }

    /// `id` can be taken out.
    pub(crate) fn can_take_out(&self, id: WindowId, gap: i32) -> (r: bool)
        ensures
            r == self@.take_out_fits(id, gap as int),
    {
        match self.stack.strip_index_of(id) {
            None => true,
            Some(k) => {
                assert(self@.stack.strips[k as int] == self.stack.strips@[k as int]@);
                if self.stack.strips.len() == usize::MAX || !self.stack.strips[k].can_remove(
                    id,
                    gap,
                ) {
                    return false;
                }
                let mut cut = self.stack.strips[k].copied();
                let _ = cut.remove_window(id, gap);
                cut.can_clamp(self.viewport_w)
            },
        }
    }

    /// Puts the focus on `id` of the strip on show.
    pub(crate) fn settle_on(&mut self, id: WindowId)
        requires
            old(self)@.settle_fits(id),
            old(self).stack.active < old(self).stack.strips.len(),
        ensures
            final(self)@ == old(self)@.settled_on(id),
    {
        let ghost before = self@;
        let ghost strips = self.stack.strips@;
        let a: usize = self.stack.active;
        let viewport_w: i32 = self.viewport_w;
        proof {
            assert(before.stack.strips[a as int] == strips[a as int]@);
            lemma_marked_fits(before.shown(), id, viewport_w as int);
        }
        self.stack.strips[a].set_active(id);
        self.stack.strips[a].last_focused = Some(id);
        let _ = self.stack.strips[a].ensure_visible(id, viewport_w);
        proof {
            let want = before.settled_on(id);
            assert forall|k: int| 0 <= k < strips.len() implies #[trigger] self@.stack.strips[k]
                == want.stack.strips[k] by {
                if k != a {
                    assert(self.stack.strips@[k] == strips[k]);
                }
            }
            assert(self@.stack.strips =~= want.stack.strips);
        }
    }

    /// Remembers `id` of the strip on show and brings it into view.
    pub(crate) fn mark_on(&mut self, id: WindowId)
        requires
            old(self)@.settle_fits(id),
            old(self).stack.active < old(self).stack.strips.len(),
        ensures
            final(self)@ == old(self)@.marked_on(id),
    {
        let ghost before = self@;
        let ghost strips = self.stack.strips@;
        let a: usize = self.stack.active;
        let viewport_w: i32 = self.viewport_w;
        proof {
            assert(before.stack.strips[a as int] == strips[a as int]@);
            lemma_marked_fits(before.shown(), id, viewport_w as int);
        }
        self.stack.strips[a].set_active(id);
        let _ = self.stack.strips[a].ensure_visible(id, viewport_w);
        proof {
            let want = before.marked_on(id);
            assert forall|k: int| 0 <= k < strips.len() implies #[trigger] self@.stack.strips[k]
                == want.stack.strips[k] by {
                if k != a {
                    assert(self.stack.strips@[k] == strips[k]);
                }
            }
            assert(self@.stack.strips =~= want.stack.strips);
        }
    }

    /// Takes `id` in, in a new column of the strip on show right of the anchor.
    pub(crate) fn take_in(&mut self, anchor: Option<WindowId>, id: WindowId, gap: i32)
        requires
            old(self)@.take_in_fits(anchor, gap as int),
            old(self).stack.active < old(self).stack.strips.len(),
        ensures
            final(self)@ == old(self)@.taken_in(anchor, id, gap as int),
    {
        let ghost before = self@;
        let ghost strips = self.stack.strips@;
        let a: usize = self.stack.active;
        let width: i32 = self.default_width;
        assert(before.stack.strips[a as int] == strips[a as int]@);
        self.stack.strips[a].insert_column_after(anchor, id, width, gap);
        proof {
            let want = before.with_shown(
                before.shown().insert_column_after(anchor, id, before.default_width, gap as int),
            );
            assert forall|k: int| 0 <= k < strips.len() implies #[trigger] self@.stack.strips[k]
                == want.stack.strips[k] by {
                if k != a {
                    assert(self.stack.strips@[k] == strips[k]);
                }
            }
            assert(self@.stack.strips =~= want.stack.strips);
        }
        self.stack.normalize();
    }

    /// Takes `id` out and says who follows in the focus.
    pub(crate) fn take_out(&mut self, id: WindowId, gap: i32) -> (r: Option<WindowId>)
        requires
            old(self)@.take_out_fits(id, gap as int),
        ensures
            final(self)@ == old(self)@.taken_out(id, gap as int),
            r == match old(self)@.stack.strip_index_of(id) {
                Some(k) => old(self)@.stack.strips[k].successor(
                    id,
                    old(self)@.viewport_w,
                    gap as int,
                ),
                None => None,
            },
    {
        let ghost before = self@;
        let ghost strips = self.stack.strips@;
        let viewport_w: i32 = self.viewport_w;
        let k: usize = match self.stack.strip_index_of(id) {
            Some(k) => k,
            None => {
                return None;
            },
        };
        let ghost s = before.stack.strips[k as int];
        let ghost t = s.cleared(id, viewport_w as int, gap as int);
        assert(s == strips[k as int]@);
        let hint = self.stack.strips[k].column_index_of(id);
        let _ = self.stack.strips[k].remove_window(id, gap);
        self.stack.strips[k].clamp_offset(viewport_w);
        if is_window(self.stack.strips[k].last_focused, id) {
            self.stack.strips[k].last_focused = None;
        }
        let ghost now = self.stack.strips@[k as int]@;
        assert(now == t);
        let n: usize = self.stack.strips[k].columns.len();
        let succ: Option<WindowId> = match hint {
            Some(i) => if n == 0 {
                None
            } else {
                let at: usize = if i <= n - 1 {
                    i
                } else {
                    n - 1
                };
                assert(t.columns[at as int] == self.stack.strips@[k as int].columns@[at as int]@);
                self.stack.strips[k].columns[at].active()
            },
            None => None,
        };
        proof {
            let want = before.with_strip(k as int, t);
            assert forall|j: int| 0 <= j < strips.len() implies #[trigger] self@.stack.strips[j]
                == want.stack.strips[j] by {
                if j != k {
                    assert(self.stack.strips@[j] == strips[j]);
                }
            }
            assert(self@.stack.strips =~= want.stack.strips);
        }
        self.stack.normalize();
        succ
    }

    /// Shows the workspace with `id`.
    pub(crate) fn show(&mut self, id: WindowId)
        ensures
            final(self)@ == old(self)@.showing(id),
    {
        if let Some(k) = self.stack.strip_index_of(id) {
            self.stack.active = k;
        }
    }
}

} // verus!
