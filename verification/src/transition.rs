//! From where windows stand to where they are to stand: what jumps, what
//! slides, what is hidden, dimmed and framed on the way.

use std::collections::HashMap;
use vstd::prelude::*;

use crate::focus_laws::lemma_strip_at;
use crate::geometry::{can_near, clamp_near, intersects, law_near_stays_outside, near};
use crate::layout::{Rect, RectView, WindowId};
use crate::monitors::{MonitorState, MonitorView, monitor_views, rect_views};

verus! {

/// How one window is to move on screen.
#[derive(Debug, Clone, Copy, PartialEq, Eq, Structural)]
pub struct AnimEntry {
    pub hwnd: u64,
    pub from: Rect,
    pub to: Rect,
}

/// What a change of targets does: windows that jump and windows that slide.
#[derive(Debug)]
pub struct Transition {
    pub snaps: Vec<(u64, Rect)>,
    pub entries: Vec<AnimEntry>,
}

/// How far a window is hidden when hiding stops its drawing.
#[derive(Debug, Clone, Copy, PartialEq, Eq, Structural)]
pub enum Hide {
    /// Drawn.
    Show,
    /// Not drawn, still among the open windows: on the workspace on show,
    /// outside the viewport.
    Render,
    /// Not drawn and not listed: on another workspace.
    Full,
}

/// A frame to draw around a window.
#[derive(Debug, Clone, Copy, PartialEq, Eq, Structural)]
pub struct Item {
    pub owner: u64,
    pub rect: Rect,
    pub color: u32,
}

/// The colour that stands for the system's own frame.
pub const BORDER_DEFAULT: u32 = 0xFFFF_FFFF;

/// Colours from here on are markers, not colours.
pub const FIRST_MARKER_COLOR: u32 = 0xFFFF_FFFE;

/// The opacity of a window that is not dimmed.
pub const OPAQUE: u8 = 255;

// ---------------------------------------------------------------------------
// Model
// ---------------------------------------------------------------------------

/// How a window gets to its target.
pub enum Move {
    /// It is there.
    Rest,
    /// At once.
    Snap,
    /// Sliding between two rectangles.
    Slide(RectView, RectView),
}

/// Where a window stands on screen: as far as known, else at its target.
pub open spec fn current(visual: Map<u64, Rect>, h: u64, to: Rect) -> Rect {
    if visual.contains_key(h) {
        visual[h]
    } else {
        to
    }
}

/// The rectangle touches a monitor other than `mi`.
pub open spec fn crosses_other(r: RectView, mi: int, ms: Seq<MonitorView>) -> bool {
    exists|j: int| 0 <= j < ms.len() && j != mi && r.meets((#[trigger] ms[j]).monitor)
}

/// An end of a slide: the rectangle itself on its own monitor, else just
/// outside it.
pub open spec fn slide_end(r: RectView, own: RectView) -> RectView {
    if r.meets(own) {
        r
    } else {
        near(r, own)
    }
}

/// How the window gets from where it stands to `to`. A move that shows on
/// neither end of its own monitor jumps; so does one that would show on another
/// monitor and cannot be hidden.
pub open spec fn move_of(
    h: u64,
    to: Rect,
    visual: Map<u64, Rect>,
    own_map: Map<u64, usize>,
    ms: Seq<MonitorView>,
    cloak: bool,
) -> Move {
    let from = current(visual, h, to);
    if from == to {
        Move::Rest
    } else if !own_map.contains_key(h) {
        Move::Slide(from@, to@)
    } else {
        let mi = own_map[h] as int;
        let own = ms[mi].work;
        let a = slide_end(from@, own);
        let b = slide_end(to@, own);
        if !from@.meets(own) && !to@.meets(own) {
            Move::Snap
        } else if !cloak && ((!from@.meets(own) && crosses_other(a, mi, ms)) || (!to@.meets(own)
            && crosses_other(b, mi, ms))) {
            Move::Snap
        } else {
            Move::Slide(a, b)
        }
    }
}

/// A slide as mathematical values.
pub open spec fn entry_view(e: AnimEntry) -> (u64, RectView, RectView) {
    (e.hwnd, e.from@, e.to@)
}

/// The models of a list of slides.
pub open spec fn entry_views(s: Seq<AnimEntry>) -> Seq<(u64, RectView, RectView)> {
    s.map_values(|e: AnimEntry| entry_view(e))
}

/// The windows among the first `k` targets that jump.
pub open spec fn snaps_upto(
    targets: Seq<(u64, Rect)>,
    visual: Map<u64, Rect>,
    own_map: Map<u64, usize>,
    ms: Seq<MonitorView>,
    cloak: bool,
    k: int,
) -> Seq<(u64, Rect)>
    decreases k,
{
    if k <= 0 {
        Seq::empty()
    } else {
        let front = snaps_upto(targets, visual, own_map, ms, cloak, k - 1);
        let (h, to) = targets[k - 1];
        match move_of(h, to, visual, own_map, ms, cloak) {
            Move::Snap => front.push((h, to)),
            _ => front,
        }
    }
}

/// The windows among the first `k` targets that slide.
pub open spec fn slides_upto(
    targets: Seq<(u64, Rect)>,
    visual: Map<u64, Rect>,
    own_map: Map<u64, usize>,
    ms: Seq<MonitorView>,
    cloak: bool,
    k: int,
) -> Seq<(u64, RectView, RectView)>
    decreases k,
{
    if k <= 0 {
        Seq::empty()
    } else {
        let front = slides_upto(targets, visual, own_map, ms, cloak, k - 1);
        let (h, to) = targets[k - 1];
        match move_of(h, to, visual, own_map, ms, cloak) {
            Move::Slide(a, b) => front.push((h, a, b)),
            _ => front,
        }
    }
}

/// Windows now known to stand at these rectangles.
pub open spec fn moved(visual: Map<u64, Rect>, rects: Seq<(u64, Rect)>) -> Map<u64, Rect>
    decreases rects.len(),
{
    if rects.len() == 0 {
        visual
    } else {
        moved(visual, rects.drop_last()).insert(rects.last().0, rects.last().1)
    }
}

/// Every known owner is a monitor there is.
pub open spec fn owners_exist(own_map: Map<u64, usize>, n: int) -> bool {
    forall|h: u64| #[trigger] own_map.contains_key(h) ==> own_map[h] < n
}

/// The ends of a move that may slide fit coordinates.
pub open spec fn move_fits(
    h: u64,
    to: RectView,
    visual: Map<u64, Rect>,
    own_map: Map<u64, usize>,
    ms: Seq<MonitorView>,
) -> bool {
    visual.contains_key(h) && own_map.contains_key(h) ==> {
        let from = visual[h]@;
        let own = ms[own_map[h] as int].work;
        from != to && (from.meets(own) || to.meets(own)) ==> slide_end(from, own).fits()
            && slide_end(to, own).fits()
    }
}

/// The ends of every slide fit coordinates.
pub open spec fn slides_fit(
    targets: Seq<(u64, RectView)>,
    visual: Map<u64, Rect>,
    own_map: Map<u64, usize>,
    ms: Seq<MonitorView>,
) -> bool {
    forall|k: int|
        0 <= k < targets.len() ==> move_fits(
            (#[trigger] targets[k]).0,
            targets[k].1,
            visual,
            own_map,
            ms,
        )
}

/// How far the window is to be hidden when it stands at `r`.
pub open spec fn hiding(h: u64, r: RectView, own_map: Map<u64, usize>, ms: Seq<MonitorView>) -> Hide {
    if !own_map.contains_key(h) {
        Hide::Show
    } else {
        let m = ms[own_map[h] as int];
        if r.meets(m.work) {
            Hide::Show
        } else if m.stack.strip_index_of(WindowId(h)) == Some(m.stack.active) {
            Hide::Render
        } else {
            Hide::Full
        }
    }
}

/// While windows slide, nothing is taken off the list of open windows.
pub open spec fn hiding_midway(level: Hide) -> Hide {
    match level {
        Hide::Full => Hide::Render,
        l => l,
    }
}

/// The targets at which the window is not known to stand.
pub open spec fn unsettled_upto(
    targets: Seq<(u64, Rect)>,
    visual: Map<u64, Rect>,
    k: int,
) -> Seq<(u64, Rect)>
    decreases k,
{
    if k <= 0 {
        Seq::empty()
    } else {
        let front = unsettled_upto(targets, visual, k - 1);
        let (h, to) = targets[k - 1];
        if visual.contains_key(h) && visual[h] == to {
            front
        } else {
            front.push((h, to))
        }
    }
}

/// The opacity a window is to have: a pinned one its own, the focused and the
/// fullscreen one full, the others dimmed.
pub open spec fn opacity(
    h: u64,
    pinned: Seq<u64>,
    focused: Option<u64>,
    fullscreen: Option<u64>,
    pinned_alpha: u8,
    unfocused_alpha: Option<u8>,
) -> u8 {
    if pinned.contains(h) {
        pinned_alpha
    } else if focused == Some(h) || fullscreen == Some(h) {
        OPAQUE
    } else {
        match unfocused_alpha {
            Some(a) => a,
            None => OPAQUE,
        }
    }
}

/// The frame to draw around a target's window, where one is to be drawn: not
/// around a fullscreen window, not off its monitor, not in a marker colour.
pub open spec fn framed(
    h: u64,
    visual: Map<u64, Rect>,
    own_map: Map<u64, usize>,
    ms: Seq<MonitorView>,
    focused: Option<u64>,
    fullscreen: Option<u64>,
    colors: (u32, u32),
) -> Option<Item> {
    let color = if focused == Some(h) {
        colors.0
    } else {
        colors.1
    };
    if fullscreen == Some(h) || !visual.contains_key(h) || color >= FIRST_MARKER_COLOR {
        None
    } else {
        let r = visual[h];
        let visible = if own_map.contains_key(h) {
            r@.meets(ms[own_map[h] as int].work)
        } else {
            exists|j: int| 0 <= j < ms.len() && r@.meets((#[trigger] ms[j]).work)
        };
        if visible {
            Some(Item { owner: h, rect: r, color })
        } else {
            None
        }
    }
}

/// The frames around the first `k` targets' windows.
pub open spec fn frames_upto(
    targets: Seq<(u64, Rect)>,
    visual: Map<u64, Rect>,
    own_map: Map<u64, usize>,
    ms: Seq<MonitorView>,
    focused: Option<u64>,
    fullscreen: Option<u64>,
    colors: (u32, u32),
    k: int,
) -> Seq<Item>
    decreases k,
{
    if k <= 0 {
        Seq::empty()
    } else {
        let front = frames_upto(
            targets,
            visual,
            own_map,
            ms,
            focused,
            fullscreen,
            colors,
            k - 1,
        );
        match framed(targets[k - 1].0, visual, own_map, ms, focused, fullscreen, colors) {
            Some(item) => front.push(item),
            None => front,
        }
    }
}

// ---------------------------------------------------------------------------
// Operations
// ---------------------------------------------------------------------------

/// The rectangle touches the work area of some monitor.
pub fn intersects_any(r: Rect, monitors: &Vec<MonitorState>) -> (b: bool)
    ensures
        b == exists|j: int|
            0 <= j < monitors.len() && r@.meets((#[trigger] monitor_views(monitors@)[j]).work),
{
    let ghost ms = monitor_views(monitors@);
    let mut j: usize = 0;
    while j < monitors.len()
        invariant
            j <= monitors.len(),
            ms == monitor_views(monitors@),
            forall|k: int| 0 <= k < j ==> !r@.meets((#[trigger] ms[k]).work),
        decreases monitors.len() - j,
    {
        assert(ms[j as int] == monitors@[j as int]@);
        if intersects(r, monitors[j].work) {
            return true;
        }
        j += 1;
    }
    false
}

/// The rectangle touches a monitor other than `mi`.
fn touches_other(r: Rect, mi: usize, monitors: &Vec<MonitorState>) -> (b: bool)
    ensures
        b == crosses_other(r@, mi as int, monitor_views(monitors@)),
{
    let ghost ms = monitor_views(monitors@);
    let mut j: usize = 0;
    while j < monitors.len()
        invariant
            j <= monitors.len(),
            ms == monitor_views(monitors@),
            forall|k: int| 0 <= k < j && k != mi ==> !r@.meets((#[trigger] ms[k]).monitor),
        decreases monitors.len() - j,
    {
        assert(ms[j as int] == monitors@[j as int]@);
        if j != mi && intersects(r, monitors[j].monitor) {
            return true;
        }
        j += 1;
    }
    false
}

/// Records where windows now stand.
pub fn note_rects(visual: &mut HashMap<u64, Rect>, rects: &Vec<(u64, Rect)>)
    ensures
        final(visual)@ == moved(old(visual)@, rects@),
{
    broadcast use vstd::std_specs::hash::group_hash_axioms;

    let mut k: usize = 0;
    assert(rects@.take(0) =~= Seq::empty());
    while k < rects.len()
        invariant
            k <= rects.len(),
            visual@ == moved(old(visual)@, rects@.take(k as int)),
        decreases rects.len() - k,
    {
        proof {
            assert(rects@.take(k + 1).drop_last() =~= rects@.take(k as int));
        }
        let (h, r) = rects[k];
        visual.insert(h, r);
        k += 1;
    }
    proof {
        assert(rects@.take(k as int) =~= rects@);
    }
}

/// Starts the way from where the windows stand to their targets. Moves that
/// would not show on their own monitor, or would show on another, jump; the
/// ends of a slide that lie off its monitor are moved close to it.
pub fn start_transition(
    visual: &mut HashMap<u64, Rect>,
    targets: &Vec<(u64, Rect)>,
    own_map: &HashMap<u64, usize>,
    monitors: &Vec<MonitorState>,
    cloak: bool,
) -> (r: Transition)
    requires
        owners_exist(own_map@, monitors.len() as int),
        slides_fit(rect_views(targets@), old(visual)@, own_map@, monitor_views(monitors@)),
    ensures
        r.snaps@ == snaps_upto(
            targets@,
            old(visual)@,
            own_map@,
            monitor_views(monitors@),
            cloak,
            targets.len() as int,
        ),
        entry_views(r.entries@) == slides_upto(
            targets@,
            old(visual)@,
            own_map@,
            monitor_views(monitors@),
            cloak,
            targets.len() as int,
        ),
        final(visual)@ == moved(old(visual)@, r.snaps@),
{
    broadcast use vstd::std_specs::hash::group_hash_axioms;

    let ghost ms = monitor_views(monitors@);
    let ghost seen = visual@;
    let mut snaps: Vec<(u64, Rect)> = Vec::new();
    let mut entries: Vec<AnimEntry> = Vec::new();
    let mut k: usize = 0;
    assert(entry_views(entries@) =~= Seq::empty());
    while k < targets.len()
        invariant
            k <= targets.len(),
            ms == monitor_views(monitors@),
            seen == old(visual)@,
            visual@ == seen,
            owners_exist(own_map@, monitors.len() as int),
            slides_fit(rect_views(targets@), seen, own_map@, ms),
            snaps@ == snaps_upto(targets@, seen, own_map@, ms, cloak, k as int),
            entry_views(entries@) == slides_upto(targets@, seen, own_map@, ms, cloak, k as int),
        decreases targets.len() - k,
    {
        let (hwnd, to) = targets[k];
        let from = match visual.get(&hwnd) {
            Some(r) => *r,
            None => to,
        };
        assert(from == current(seen, hwnd, to));
        if from != to {
            let ghost before = entries@;
            match own_map.get(&hwnd) {
                None => {
                    entries.push(AnimEntry { hwnd, from, to });
                    assert(entry_views(entries@) =~= entry_views(before).push((hwnd, from@, to@)));
                },
                Some(mi) => {
                    let mi: usize = *mi;
                    assert(own_map@.contains_key(hwnd));
                    let own = monitors[mi].work;
                    assert(ms[mi as int].work == own@);
                    assert(rect_views(targets@)[k as int] == (hwnd, to@));
                    assert(move_fits(hwnd, to@, seen, own_map@, ms));
                    let vis_from: bool = intersects(from, own);
                    let vis_to: bool = intersects(to, own);
                    if !vis_from && !vis_to {
                        snaps.push((hwnd, to));
                    } else {
                        let a = if vis_from {
                            from
                        } else {
                            clamp_near(from, own)
                        };
                        let b = if vis_to {
                            to
                        } else {
                            clamp_near(to, own)
                        };
                        if !cloak && ((!vis_from && touches_other(a, mi, monitors)) || (!vis_to
                            && touches_other(b, mi, monitors))) {
                            snaps.push((hwnd, to));
                        } else {
                            entries.push(AnimEntry { hwnd, from: a, to: b });
                            assert(entry_views(entries@) =~= entry_views(before).push(
                                (hwnd, a@, b@),
                            ));
                        }
                    }
                },
            }
        }
        k += 1;
    }
    note_rects(visual, &snaps);
    Transition { snaps, entries }
}

/// Tests whether the ends of every slide fit coordinates.
pub fn can_slide(
    visual: &HashMap<u64, Rect>,
    targets: &Vec<(u64, Rect)>,
    own_map: &HashMap<u64, usize>,
    monitors: &Vec<MonitorState>,
) -> (r: bool)
    requires
        owners_exist(own_map@, monitors.len() as int),
    ensures
        r == slides_fit(rect_views(targets@), visual@, own_map@, monitor_views(monitors@)),
{
    broadcast use vstd::std_specs::hash::group_hash_axioms;

    let ghost ms = monitor_views(monitors@);
    let ghost views = rect_views(targets@);
    let mut k: usize = 0;
    while k < targets.len()
        invariant
            k <= targets.len(),
            ms == monitor_views(monitors@),
            views == rect_views(targets@),
            owners_exist(own_map@, monitors.len() as int),
            forall|j: int|
                0 <= j < k ==> move_fits(
                    (#[trigger] views[j]).0,
                    views[j].1,
                    visual@,
                    own_map@,
                    ms,
                ),
        decreases targets.len() - k,
    {
        let (hwnd, to) = targets[k];
        assert(views[k as int] == (hwnd, to@));
        if let Some(from) = visual.get(&hwnd) {
            if let Some(mi) = own_map.get(&hwnd) {
                let from: Rect = *from;
                let mi: usize = *mi;
                assert(own_map@.contains_key(hwnd));
                let own = monitors[mi].work;
                assert(ms[mi as int].work == own@);
                if from != to {
                    let vis_from: bool = intersects(from, own);
                    let vis_to: bool = intersects(to, own);
                    if (vis_from || vis_to) && !((vis_from || can_near(from, own)) && (vis_to
                        || can_near(to, own))) {
                        assert(!move_fits(hwnd, to@, visual@, own_map@, ms));
                        return false;
                    }
                }
            }
        }
        k += 1;
    }
    true
}

/// How far the window is to be hidden when it stands at `r`.
pub fn hide_level(
    h: u64,
    r: Rect,
    own_map: &HashMap<u64, usize>,
    monitors: &Vec<MonitorState>,
) -> (level: Hide)
    requires
        owners_exist(own_map@, monitors.len() as int),
    ensures
        level == hiding(h, r@, own_map@, monitor_views(monitors@)),
{
    broadcast use vstd::std_specs::hash::group_hash_axioms;

    let ghost ms = monitor_views(monitors@);
    match own_map.get(&h) {
        None => Hide::Show,
        Some(mi) => {
            let mi: usize = *mi;
            assert(own_map@.contains_key(h));
            let m = &monitors[mi];
            assert(ms[mi as int] == m@);
            if intersects(r, m.work) {
                return Hide::Show;
            }
            match m.stack.strip_index_of(WindowId(h)) {
                Some(si) => if si == m.stack.active {
                    Hide::Render
                } else {
                    Hide::Full
                },
                None => Hide::Full,
            }
        },
    }
}

/// How far each window of a frame is to be hidden while windows slide.
pub fn frame_levels(
    frame: &Vec<(u64, Rect)>,
    own_map: &HashMap<u64, usize>,
    monitors: &Vec<MonitorState>,
    midway: bool,
) -> (r: Vec<(u64, Hide)>)
    requires
        owners_exist(own_map@, monitors.len() as int),
    ensures
        r@ == frame@.map_values(
            |p: (u64, Rect)|
                {
                    let level = hiding(p.0, p.1@, own_map@, monitor_views(monitors@));
                    (
                        p.0,
                        if midway {
                            hiding_midway(level)
                        } else {
                            level
                        },
                    )
                },
        ),
{
    let mut out: Vec<(u64, Hide)> = Vec::new();
    let mut k: usize = 0;
    while k < frame.len()
        invariant
            k <= frame.len(),
            out.len() == k,
            owners_exist(own_map@, monitors.len() as int),
            forall|j: int|
                0 <= j < k ==> #[trigger] out@[j] == {
                    let level = hiding(
                        frame@[j].0,
                        frame@[j].1@,
                        own_map@,
                        monitor_views(monitors@),
                    );
                    (
                        frame@[j].0,
                        if midway {
                            hiding_midway(level)
                        } else {
                            level
                        },
                    )
                },
        decreases frame.len() - k,
    {
        let (h, r) = frame[k];
        let level = hide_level(h, r, own_map, monitors);
        let level = if midway {
            match level {
                Hide::Full => Hide::Render,
                l => l,
            }
        } else {
            level
        };
        out.push((h, level));
        k += 1;
    }
    out
}

/// The targets at which the window is not known to stand: what is left to set
/// once the slides are over.
pub fn settles(targets: &Vec<(u64, Rect)>, visual: &HashMap<u64, Rect>) -> (r: Vec<(u64, Rect)>)
    ensures
        r@ == unsettled_upto(targets@, visual@, targets.len() as int),
{
    broadcast use vstd::std_specs::hash::group_hash_axioms;

    let mut out: Vec<(u64, Rect)> = Vec::new();
    let mut k: usize = 0;
    while k < targets.len()
        invariant
            k <= targets.len(),
            out@ == unsettled_upto(targets@, visual@, k as int),
        decreases targets.len() - k,
    {
        let (h, to) = targets[k];
        let there: bool = match visual.get(&h) {
            Some(r) => *r == to,
            None => false,
        };
        if !there {
            out.push((h, to));
        }
        k += 1;
    }
    out
}

/// The window is among the pinned ones.
pub fn is_pinned(pinned: &Vec<u64>, h: u64) -> (b: bool)
    ensures
        b == pinned@.contains(h),
{
    let mut k: usize = 0;
    while k < pinned.len()
        invariant
            k <= pinned.len(),
            forall|j: int| 0 <= j < k ==> pinned@[j] != h,
        decreases pinned.len() - k,
    {
        if pinned[k] == h {
            assert(pinned@[k as int] == h);
            return true;
        }
        k += 1;
    }
    false
}

/// The opacity each target's window is to have. Nothing where no window is
/// pinned and those without the focus are not dimmed either.
pub fn opacities(
    targets: &Vec<(u64, Rect)>,
    pinned: &Vec<u64>,
    focused: Option<u64>,
    fullscreen: Option<u64>,
    pinned_alpha: u8,
    unfocused_alpha: Option<u8>,
) -> (r: Vec<(u64, u8)>)
    ensures
        r@ == if unfocused_alpha is None && pinned@.len() == 0 {
            Seq::empty()
        } else {
            targets@.map_values(
                |p: (u64, Rect)|
                    (
                        p.0,
                        opacity(p.0, pinned@, focused, fullscreen, pinned_alpha, unfocused_alpha),
                    ),
            )
        },
{
    let mut out: Vec<(u64, u8)> = Vec::new();
    if unfocused_alpha.is_none() && pinned.len() == 0 {
        return out;
    }
    let mut k: usize = 0;
    while k < targets.len()
        invariant
            k <= targets.len(),
            out.len() == k,
            forall|j: int|
                0 <= j < k ==> #[trigger] out@[j] == (
                    targets@[j].0,
                    opacity(
                        targets@[j].0,
                        pinned@,
                        focused,
                        fullscreen,
                        pinned_alpha,
                        unfocused_alpha,
                    ),
                ),
        decreases targets.len() - k,
    {
        let (h, _) = targets[k];
        let alpha: u8 = if is_pinned(pinned, h) {
            pinned_alpha
        } else if is_some_of(focused, h) || is_some_of(fullscreen, h) {
            OPAQUE
        } else {
            match unfocused_alpha {
                Some(a) => a,
                None => OPAQUE,
            }
        };
        out.push((h, alpha));
        k += 1;
    }
    out
}

/// The option holds just this handle.
pub fn is_some_of(o: Option<u64>, h: u64) -> (b: bool)
    ensures
        b == (o == Some(h)),
{
    match o {
        Some(x) => x == h,
        None => false,
    }
}

/// The frames to draw.
pub fn border_items(
    targets: &Vec<(u64, Rect)>,
    visual: &HashMap<u64, Rect>,
    own_map: &HashMap<u64, usize>,
    monitors: &Vec<MonitorState>,
    focused: Option<u64>,
    fullscreen: Option<u64>,
    colors: (u32, u32),
) -> (r: Vec<Item>)
    requires
        owners_exist(own_map@, monitors.len() as int),
    ensures
        r@ == frames_upto(
            targets@,
            visual@,
            own_map@,
            monitor_views(monitors@),
            focused,
            fullscreen,
            colors,
            targets.len() as int,
        ),
{
    broadcast use vstd::std_specs::hash::group_hash_axioms;

    let ghost ms = monitor_views(monitors@);
    let mut out: Vec<Item> = Vec::new();
    let mut k: usize = 0;
    while k < targets.len()
        invariant
            k <= targets.len(),
            ms == monitor_views(monitors@),
            owners_exist(own_map@, monitors.len() as int),
            out@ == frames_upto(
                targets@,
                visual@,
                own_map@,
                ms,
                focused,
                fullscreen,
                colors,
                k as int,
            ),
        decreases targets.len() - k,
    {
        let (h, _) = targets[k];
        let color: u32 = if is_some_of(focused, h) {
            colors.0
        } else {
            colors.1
        };
        if !is_some_of(fullscreen, h) {
            if let Some(r) = visual.get(&h) {
                let r = *r;
                let visible: bool = match own_map.get(&h) {
                    Some(mi) => {
                        let mi: usize = *mi;
                        assert(own_map@.contains_key(h));
                        assert(ms[mi as int] == monitors@[mi as int]@);
                        intersects(r, monitors[mi].work)
                    },
                    None => intersects_any(r, monitors),
                };
                if visible && color < FIRST_MARKER_COLOR {
                    out.push(Item { owner: h, rect: r, color });
                }
            }
        }
        k += 1;
    }
    out
}

// ---------------------------------------------------------------------------
// Laws
// ---------------------------------------------------------------------------

/// Every target is reached: a window that is elsewhere jumps there or slides,
/// and one that is there rests.
pub proof fn law_targets_reached(
    targets: Seq<(u64, Rect)>,
    visual: Map<u64, Rect>,
    own_map: Map<u64, usize>,
    ms: Seq<MonitorView>,
    cloak: bool,
    k: int,
)
    requires
        0 <= k < targets.len(),
    ensures
        ({
            let (h, to) = targets[k];
            let n = targets.len() as int;
            match move_of(h, to, visual, own_map, ms, cloak) {
                Move::Rest => current(visual, h, to) == to,
                Move::Snap => current(visual, h, to) != to && snaps_upto(
                    targets,
                    visual,
                    own_map,
                    ms,
                    cloak,
                    n,
                ).contains((h, to)),
                Move::Slide(a, b) => current(visual, h, to) != to && slides_upto(
                    targets,
                    visual,
                    own_map,
                    ms,
                    cloak,
                    n,
                ).contains((h, a, b)),
            }
        }),
{
    lemma_moves_listed(targets, visual, own_map, ms, cloak, k, targets.len() as int);
}

proof fn lemma_moves_listed(
    targets: Seq<(u64, Rect)>,
    visual: Map<u64, Rect>,
    own_map: Map<u64, usize>,
    ms: Seq<MonitorView>,
    cloak: bool,
    k: int,
    n: int,
)
    requires
        0 <= k < n <= targets.len(),
    ensures
        ({
            let (h, to) = targets[k];
            match move_of(h, to, visual, own_map, ms, cloak) {
                Move::Rest => true,
                Move::Snap => snaps_upto(targets, visual, own_map, ms, cloak, n).contains((h, to)),
                Move::Slide(a, b) => slides_upto(targets, visual, own_map, ms, cloak, n).contains(
                    (h, a, b),
                ),
            }
        }),
    decreases n,
{
    let (h, to) = targets[k];
    let snaps = snaps_upto(targets, visual, own_map, ms, cloak, n);
    let slides = slides_upto(targets, visual, own_map, ms, cloak, n);
    let snaps0 = snaps_upto(targets, visual, own_map, ms, cloak, n - 1);
    let slides0 = slides_upto(targets, visual, own_map, ms, cloak, n - 1);
    if k < n - 1 {
        lemma_moves_listed(targets, visual, own_map, ms, cloak, k, n - 1);
        match move_of(h, to, visual, own_map, ms, cloak) {
            Move::Rest => {},
            Move::Snap => {
                let j = snaps0.index_of((h, to));
                assert(snaps[j] == (h, to));
            },
            Move::Slide(a, b) => {
                let j = slides0.index_of((h, a, b));
                assert(slides[j] == (h, a, b));
            },
        }
    } else {
        match move_of(h, to, visual, own_map, ms, cloak) {
            Move::Rest => {},
            Move::Snap => {
                assert(snaps[snaps.len() - 1] == (h, to));
            },
            Move::Slide(a, b) => {
                assert(slides[slides.len() - 1] == (h, a, b));
            },
        }
    }
}

/// A slide starts and ends at the real rectangles where those show on the
/// window's monitor. Where they do not, it starts or ends off that monitor, and
/// on no other one unless windows can be hidden on the way.
pub proof fn law_slide_ends(
    h: u64,
    to: Rect,
    visual: Map<u64, Rect>,
    own_map: Map<u64, usize>,
    ms: Seq<MonitorView>,
    cloak: bool,
)
    requires
        own_map.contains_key(h),
    ensures
        move_of(h, to, visual, own_map, ms, cloak) matches Move::Slide(a, b) ==> {
            let from = current(visual, h, to)@;
            let mi = own_map[h] as int;
            let own = ms[mi].work;
            &&& from.meets(own) || to@.meets(own)
            &&& from.meets(own) ==> a == from
            &&& to@.meets(own) ==> b == to@
            &&& !from.meets(own) ==> !a.meets(own) && (!cloak ==> !crosses_other(a, mi, ms))
            &&& !to@.meets(own) ==> !b.meets(own) && (!cloak ==> !crosses_other(b, mi, ms))
            &&& a.w == from.w && a.h == from.h && b.w == to.w && b.h == to.h
        },
{
    let from = current(visual, h, to)@;
    let own = ms[own_map[h] as int].work;
    if !from.meets(own) {
        law_near_stays_outside(from, own);
    }
    if !to@.meets(own) {
        law_near_stays_outside(to@, own);
    }
}

/// After the windows are set at the targets left over, every target is where
/// its window is known to stand.
pub proof fn law_settled(targets: Seq<(u64, Rect)>, visual: Map<u64, Rect>, k: int)
    requires
        0 <= k < targets.len(),
        forall|i: int, j: int|
            0 <= i < targets.len() && 0 <= j < targets.len() && (#[trigger] targets[i]).0 == (
            #[trigger] targets[j]).0 ==> i == j,
    ensures
        ({
            let after = moved(
                visual,
                unsettled_upto(targets, visual, targets.len() as int),
            );
            after.contains_key(targets[k].0) && after[targets[k].0] == targets[k].1
        }),
{
    lemma_settled_upto(targets, visual, targets.len() as int, k);
}

proof fn lemma_settled_upto(targets: Seq<(u64, Rect)>, visual: Map<u64, Rect>, n: int, k: int)
    requires
        0 <= n <= targets.len(),
        0 <= k < targets.len(),
        forall|i: int, j: int|
            0 <= i < targets.len() && 0 <= j < targets.len() && (#[trigger] targets[i]).0 == (
            #[trigger] targets[j]).0 ==> i == j,
    ensures
        ({
            let after = moved(visual, unsettled_upto(targets, visual, n));
            let h = targets[k].0;
            if k < n {
                after.contains_key(h) && after[h] == targets[k].1
            } else {
                after.contains_key(h) == visual.contains_key(h) && (visual.contains_key(h)
                    ==> after[h] == visual[h])
            }
        }),
    decreases n,
{
    if n > 0 {
        lemma_settled_upto(targets, visual, n - 1, k);
        let front = unsettled_upto(targets, visual, n - 1);
        let all = unsettled_upto(targets, visual, n);
        let (h, to) = targets[n - 1];
        if !(visual.contains_key(h) && visual[h] == to) {
            assert(all.drop_last() =~= front);
            assert(all.last() == (h, to));
        }
        if k != n - 1 {
            assert(targets[k].0 != targets[n - 1].0);
        }
    }
}

/// No window has two targets.
pub open spec fn one_each(targets: Seq<(u64, Rect)>) -> bool {
    forall|i: int, j: int|
        0 <= i < targets.len() && 0 <= j < targets.len() && (#[trigger] targets[i]).0 == (
        #[trigger] targets[j]).0 ==> i == j
}

proof fn lemma_snaps_from(
    targets: Seq<(u64, Rect)>,
    visual: Map<u64, Rect>,
    own_map: Map<u64, usize>,
    ms: Seq<MonitorView>,
    cloak: bool,
    upto: int,
    n: int,
) -> (k: int)
    requires
        0 <= upto <= targets.len(),
        0 <= n < snaps_upto(targets, visual, own_map, ms, cloak, upto).len(),
    ensures
        0 <= k < upto,
        snaps_upto(targets, visual, own_map, ms, cloak, upto)[n] == targets[k],
        move_of(targets[k].0, targets[k].1, visual, own_map, ms, cloak) is Snap,
    decreases upto,
{
    if upto <= 0 {
        0
    } else {
        let front = snaps_upto(targets, visual, own_map, ms, cloak, upto - 1);
        if n < front.len() {
            lemma_snaps_from(targets, visual, own_map, ms, cloak, upto - 1, n)
        } else {
            upto - 1
        }
    }
}

proof fn lemma_slides_from(
    targets: Seq<(u64, Rect)>,
    visual: Map<u64, Rect>,
    own_map: Map<u64, usize>,
    ms: Seq<MonitorView>,
    cloak: bool,
    upto: int,
    n: int,
) -> (k: int)
    requires
        0 <= upto <= targets.len(),
        0 <= n < slides_upto(targets, visual, own_map, ms, cloak, upto).len(),
    ensures
        0 <= k < upto,
        ({
            let e = slides_upto(targets, visual, own_map, ms, cloak, upto)[n];
            &&& e.0 == targets[k].0
            &&& move_of(targets[k].0, targets[k].1, visual, own_map, ms, cloak) == Move::Slide(
                e.1,
                e.2,
            )
        }),
    decreases upto,
{
    if upto <= 0 {
        0
    } else {
        let front = slides_upto(targets, visual, own_map, ms, cloak, upto - 1);
        if n < front.len() {
            lemma_slides_from(targets, visual, own_map, ms, cloak, upto - 1, n)
        } else {
            upto - 1
        }
    }
}

/// An end of the slide that lies off the work area of monitor `mi`, brought near to
/// it, shows on another monitor.
pub open spec fn strays(from: RectView, to: RectView, mi: int, ms: Seq<MonitorView>) -> bool {
    let own = ms[mi].work;
    exists|j: int|
        #![trigger ms[j]]
        0 <= j < ms.len() && j != mi && ((!from.meets(own) && near(from, own).meets(
            ms[j].monitor,
        )) || (!to.meets(own) && near(to, own).meets(ms[j].monitor)))
}

/// A window that is not at its target slides there where any of the way can be
/// seen: where it stands or is to stand on its own monitor's work area, one of
/// the two being enough. It jumps where neither is, and where windows cannot be
/// hidden and an end of the slide off the work area would show on another
/// monitor. A window at its target does neither.
pub proof fn law_what_slides_and_what_jumps(
    targets: Seq<(u64, Rect)>,
    visual: Map<u64, Rect>,
    own_map: Map<u64, usize>,
    ms: Seq<MonitorView>,
    cloak: bool,
    k: int,
)
    requires
        one_each(targets),
        0 <= k < targets.len(),
    ensures
        ({
            let (h, to) = targets[k];
            let n = targets.len() as int;
            let snaps = snaps_upto(targets, visual, own_map, ms, cloak, n);
            let slides = slides_upto(targets, visual, own_map, ms, cloak, n);
            let moves = visual.contains_key(h) && visual[h] != to;
            let from = visual[h]@;
            let mi = own_map[h] as int;
            let own = ms[mi].work;
            let seen = from.meets(own) || to@.meets(own);
            let slid = moves && (own_map.contains_key(h) ==> seen && (cloak || !strays(
                from,
                to@,
                mi,
                ms,
            )));
            &&& slid <==> exists|e: int| 0 <= e < slides.len() && (#[trigger] slides[e]).0 == h
            &&& moves && !slid <==> exists|e: int|
                0 <= e < snaps.len() && (#[trigger] snaps[e]).0 == h
            &&& forall|e: int|
                0 <= e < slides.len() && (#[trigger] slides[e]).0 == h ==> if own_map.contains_key(
                    h,
                ) {
                    &&& slides[e].1 == if from.meets(own) {
                        from
                    } else {
                        near(from, own)
                    }
                    &&& slides[e].2 == if to@.meets(own) {
                        to@
                    } else {
                        near(to@, own)
                    }
                } else {
                    slides[e].1 == from && slides[e].2 == to@
                }
            &&& forall|e: int|
                0 <= e < snaps.len() && (#[trigger] snaps[e]).0 == h ==> snaps[e].1 == to
        }),
{
    let (h, to) = targets[k];
    let n = targets.len() as int;
    let snaps = snaps_upto(targets, visual, own_map, ms, cloak, n);
    let slides = slides_upto(targets, visual, own_map, ms, cloak, n);
    let mv = move_of(h, to, visual, own_map, ms, cloak);
    law_targets_reached(targets, visual, own_map, ms, cloak, k);
    assert forall|e: int| 0 <= e < slides.len() && (#[trigger] slides[e]).0 == h implies mv
        == Move::Slide(slides[e].1, slides[e].2) by {
        let j = lemma_slides_from(targets, visual, own_map, ms, cloak, n, e);
        assert(targets[j].0 == targets[k].0);
    }
    assert forall|e: int| 0 <= e < snaps.len() && (#[trigger] snaps[e]).0 == h implies mv is Snap
        && snaps[e].1 == to by {
        let j = lemma_snaps_from(targets, visual, own_map, ms, cloak, n, e);
        assert(targets[j].0 == targets[k].0);
    }
    match mv {
        Move::Rest => {},
        Move::Snap => {
            let e = snaps.index_of((h, to));
            assert(snaps[e].0 == h);
        },
        Move::Slide(a, b) => {
            let e = slides.index_of((h, a, b));
            assert(slides[e].0 == h);
        },
    }
    if own_map.contains_key(h) {
        let mi = own_map[h] as int;
        let own = ms[mi].work;
        let a = near(visual[h]@, own);
        let b = near(to@, own);
        if crosses_other(a, mi, ms) {
            let j = choose|j: int|
                0 <= j < ms.len() && j != mi && a.meets((#[trigger] ms[j]).monitor);
            assert(a.meets(ms[j].monitor));
        }
        if crosses_other(b, mi, ms) {
            let j = choose|j: int|
                0 <= j < ms.len() && j != mi && b.meets((#[trigger] ms[j]).monitor);
            assert(b.meets(ms[j].monitor));
        }
    }
}

/// A window noted at a rectangle is known to stand there; what is known of the
/// others stays.
pub proof fn law_noted(visual: Map<u64, Rect>, rects: Seq<(u64, Rect)>, h: u64)
    requires
        one_each(rects),
    ensures
        ({
            let after = moved(visual, rects);
            &&& forall|k: int|
                0 <= k < rects.len() && (#[trigger] rects[k]).0 == h ==> after.contains_key(h)
                    && after[h] == rects[k].1
            &&& (forall|k: int| 0 <= k < rects.len() ==> (#[trigger] rects[k]).0 != h) ==> {
                &&& after.contains_key(h) == visual.contains_key(h)
                &&& visual.contains_key(h) ==> after[h] == visual[h]
            }
        }),
    decreases rects.len(),
{
    if rects.len() > 0 {
        let front = rects.drop_last();
        let last = rects.len() - 1;
        assert forall|i: int, j: int|
            0 <= i < front.len() && 0 <= j < front.len() && (#[trigger] front[i]).0 == (
            #[trigger] front[j]).0 implies i == j by {
            assert(rects[i].0 == rects[j].0);
        }
        law_noted(visual, front, h);
        let after = moved(visual, rects);
        if rects[last].0 == h {
            assert forall|k: int| 0 <= k < rects.len() && (#[trigger] rects[k]).0 == h implies k
                == last by {
                assert(rects[k].0 == rects[last].0);
            }
        } else {
            assert forall|k: int| 0 <= k < rects.len() && (#[trigger] rects[k]).0 == h implies k
                < last && front[k] == rects[k] by {}
            if forall|k: int| 0 <= k < rects.len() ==> (#[trigger] rects[k]).0 != h {
                assert forall|k: int| 0 <= k < front.len() implies (#[trigger] front[k]).0
                    != h by {
                    assert(rects[k].0 != h);
                }
            }
        }
    }
}

/// A managed window is drawn exactly where it touches its own monitor's work
/// area. One that is not drawn stays among the open windows while it is on the
/// workspace on show; on another workspace it is taken off that list, but not
/// while windows still slide.
pub proof fn law_hiding(h: u64, r: RectView, own_map: Map<u64, usize>, ms: Seq<MonitorView>, k: int)
    requires
        own_map.contains_key(h),
        ({
            let st = ms[own_map[h] as int].stack;
            &&& st.sound()
            &&& 0 <= k < st.strips.len()
            &&& st.strips[k].contains(WindowId(h))
        }),
    ensures
        ({
            let m = ms[own_map[h] as int];
            let level = hiding(h, r, own_map, ms);
            &&& level is Show <==> r.meets(m.work)
            &&& level is Render <==> !r.meets(m.work) && k == m.stack.active
            &&& level is Full <==> !r.meets(m.work) && k != m.stack.active
            &&& hiding_midway(level) is Show <==> level is Show
            &&& !(hiding_midway(level) is Full)
        }),
{
    lemma_strip_at(ms[own_map[h] as int].stack, k, WindowId(h));
}

/// A window that no monitor holds is never hidden.
pub proof fn law_unmanaged_windows_show(
    h: u64,
    r: RectView,
    own_map: Map<u64, usize>,
    ms: Seq<MonitorView>,
)
    requires
        !own_map.contains_key(h),
    ensures
        hiding(h, r, own_map, ms) is Show,
        hiding_midway(hiding(h, r, own_map, ms)) is Show,
{
}

/// A pinned window has the pinned opacity whatever has the focus. Of the others
/// the focused and the fullscreen one are opaque, and the rest dimmed as far as
/// that is asked for.
pub proof fn law_opacity(
    h: u64,
    pinned: Seq<u64>,
    focused: Option<u64>,
    fullscreen: Option<u64>,
    pinned_alpha: u8,
    unfocused_alpha: Option<u8>,
)
    ensures
        ({
            let a = opacity(h, pinned, focused, fullscreen, pinned_alpha, unfocused_alpha);
            &&& (exists|i: int| 0 <= i < pinned.len() && pinned[i] == h) ==> a == pinned_alpha
            &&& (forall|i: int| 0 <= i < pinned.len() ==> pinned[i] != h) ==> {
                &&& focused == Some(h) || fullscreen == Some(h) ==> a == 255
                &&& focused != Some(h) && fullscreen != Some(h) ==> match unfocused_alpha {
                    Some(u) => a == u,
                    None => a == 255,
                }
            }
        }),
{
}

proof fn lemma_frames_from(
    targets: Seq<(u64, Rect)>,
    visual: Map<u64, Rect>,
    own_map: Map<u64, usize>,
    ms: Seq<MonitorView>,
    focused: Option<u64>,
    fullscreen: Option<u64>,
    colors: (u32, u32),
    upto: int,
    n: int,
) -> (k: int)
    requires
        0 <= upto <= targets.len(),
        0 <= n < frames_upto(
            targets,
            visual,
            own_map,
            ms,
            focused,
            fullscreen,
            colors,
            upto,
        ).len(),
    ensures
        0 <= k < upto,
        framed(targets[k].0, visual, own_map, ms, focused, fullscreen, colors) == Some(
            frames_upto(targets, visual, own_map, ms, focused, fullscreen, colors, upto)[n],
        ),
    decreases upto,
{
    if upto <= 0 {
        0
    } else {
        let front = frames_upto(
            targets,
            visual,
            own_map,
            ms,
            focused,
            fullscreen,
            colors,
            upto - 1,
        );
        if n < front.len() {
            lemma_frames_from(
                targets,
                visual,
                own_map,
                ms,
                focused,
                fullscreen,
                colors,
                upto - 1,
                n,
            )
        } else {
            upto - 1
        }
    }
}

proof fn lemma_frames_hold(
    targets: Seq<(u64, Rect)>,
    visual: Map<u64, Rect>,
    own_map: Map<u64, usize>,
    ms: Seq<MonitorView>,
    focused: Option<u64>,
    fullscreen: Option<u64>,
    colors: (u32, u32),
    upto: int,
    k: int,
)
    requires
        0 <= k < upto <= targets.len(),
    ensures
        framed(targets[k].0, visual, own_map, ms, focused, fullscreen, colors) matches Some(
            item,
        ) ==> frames_upto(
            targets,
            visual,
            own_map,
            ms,
            focused,
            fullscreen,
            colors,
            upto,
        ).contains(item),
    decreases upto,
{
    let all = frames_upto(targets, visual, own_map, ms, focused, fullscreen, colors, upto);
    let front = frames_upto(targets, visual, own_map, ms, focused, fullscreen, colors, upto - 1);
    if let Some(item) = framed(targets[k].0, visual, own_map, ms, focused, fullscreen, colors) {
        if k < upto - 1 {
            lemma_frames_hold(
                targets,
                visual,
                own_map,
                ms,
                focused,
                fullscreen,
                colors,
                upto - 1,
                k,
            );
            assert(all[front.index_of(item)] == item);
        } else {
            assert(all[front.len() as int] == item);
        }
    }
}

/// A frame is drawn around every window that stands on its own monitor's work
/// area but the fullscreen one, where the window stands, in the first colour for
/// the focused window and the second for the others; a colour that is only a
/// marker draws none.
pub proof fn law_which_windows_are_framed(
    targets: Seq<(u64, Rect)>,
    visual: Map<u64, Rect>,
    own_map: Map<u64, usize>,
    ms: Seq<MonitorView>,
    focused: Option<u64>,
    fullscreen: Option<u64>,
    colors: (u32, u32),
    k: int,
)
    requires
        0 <= k < targets.len(),
        own_map.contains_key(targets[k].0),
    ensures
        ({
            let h = targets[k].0;
            let items = frames_upto(
                targets,
                visual,
                own_map,
                ms,
                focused,
                fullscreen,
                colors,
                targets.len() as int,
            );
            let color = if focused == Some(h) {
                colors.0
            } else {
                colors.1
            };
            let drawn = fullscreen != Some(h) && visual.contains_key(h) && visual[h]@.meets(
                ms[own_map[h] as int].work,
            ) && color < 0xFFFF_FFFE;
            &&& drawn ==> items.contains(Item { owner: h, rect: visual[h], color })
            &&& forall|n: int|
                0 <= n < items.len() && (#[trigger] items[n]).owner == h ==> drawn
                    && items[n].rect == visual[h] && items[n].color == color
        }),
{
    let h = targets[k].0;
    let n = targets.len() as int;
    let items = frames_upto(targets, visual, own_map, ms, focused, fullscreen, colors, n);
    lemma_frames_hold(targets, visual, own_map, ms, focused, fullscreen, colors, n, k);
    assert forall|e: int| 0 <= e < items.len() && (#[trigger] items[e]).owner == h implies framed(
        h,
        visual,
        own_map,
        ms,
        focused,
        fullscreen,
        colors,
    ) == Some(items[e]) by {
        let j = lemma_frames_from(
            targets,
            visual,
            own_map,
            ms,
            focused,
            fullscreen,
            colors,
            n,
            e,
        );
    }
}

/// Once the slides are over, just the windows not known to stand at their targets
/// are left to be set there.
pub proof fn law_what_is_left_to_set(targets: Seq<(u64, Rect)>, visual: Map<u64, Rect>, k: int)
    requires
        one_each(targets),
        0 <= k < targets.len(),
    ensures
        ({
            let (h, to) = targets[k];
            let left = unsettled_upto(targets, visual, targets.len() as int);
            &&& left.contains((h, to)) <==> !(visual.contains_key(h) && visual[h] == to)
            &&& forall|e: int| 0 <= e < left.len() ==> targets.contains(#[trigger] left[e])
        }),
{
    lemma_left_from(targets, visual, targets.len() as int, k);
}

proof fn lemma_left_from(targets: Seq<(u64, Rect)>, visual: Map<u64, Rect>, n: int, k: int)
    requires
        one_each(targets),
        0 <= n <= targets.len(),
        0 <= k < targets.len(),
    ensures
        ({
            let left = unsettled_upto(targets, visual, n);
            &&& left.contains(targets[k]) <==> k < n && !(visual.contains_key(targets[k].0)
                && visual[targets[k].0] == targets[k].1)
            &&& forall|e: int| 0 <= e < left.len() ==> targets.contains(#[trigger] left[e])
        }),
    decreases n,
{
    if n > 0 {
        lemma_left_from(targets, visual, n - 1, k);
        let front = unsettled_upto(targets, visual, n - 1);
        let all = unsettled_upto(targets, visual, n);
        if front.contains(targets[k]) {
            assert(all[front.index_of(targets[k])] == targets[k]);
        }
        assert(targets.contains(targets[n - 1]));
        if all.contains(targets[k]) {
            let e = all.index_of(targets[k]);
            if e < front.len() {
                assert(front[e] == targets[k]);
            } else {
                assert(targets[k].0 == targets[n - 1].0);
            }
        }
        if k == n - 1 && all.len() > front.len() {
            assert(all[front.len() as int] == targets[k]);
        }
    }
}

} // verus!
