//! Between events: where windows are sent, and what each frame shows.

use std::collections::HashMap;
use vstd::prelude::*;

use crate::focus_laws::lemma_strip_at;
use crate::geometry::{Border, expand, expanded, near};
use crate::layout::{Rect, RectView, WindowId};
use crate::monitors::{
    MonitorView, can_target, law_owner_is_monitor, lemma_monitor_of, managed, monitor_of,
    monitors_sound, own_monitor_map, rect_views, targets, targets_all, targets_fit,
};
use crate::restore::fits_i32;
use crate::target_laws::{
    law_each_window_has_one_target, law_fullscreen_window_covers_monitor,
    law_visible_windows_stand_in_place, stands_along, target_windows,
};
use crate::transition::{
    Hide, Item, Transition, border_items, can_slide, entry_views, frame_levels, frames_upto, hiding,
    hiding_midway, law_hiding, law_what_slides_and_what_jumps, law_which_windows_are_framed, moved,
    note_rects, one_each, opacities, opacity, owners_exist, settles, slides_fit, slides_upto,
    snaps_upto, start_transition, strays, unsettled_upto,
};
use crate::wm::{Action, Wm, WmView};

verus! {

// ---------------------------------------------------------------------------
// Model
// ---------------------------------------------------------------------------

/// Which monitor holds each managed window.
pub open spec fn owners(ms: Seq<MonitorView>) -> Map<u64, usize> {
    Map::new(
        |h: u64| managed(ms, WindowId(h)),
        |h: u64| monitor_of(ms, WindowId(h)).unwrap() as usize,
    )
}

impl WmView {
    /// Where every window is to stand now.
    pub open spec fn wanted(self, gap: int) -> Seq<(u64, RectView)> {
        targets(self.monitors, self.fullscreen, gap)
    }

    /// Sending the windows to where they are to stand now stays within
    /// coordinates.
    pub open spec fn refresh_fits(self, gap: int) -> bool {
        let to = self.wanted(gap);
        &&& targets_fit(self.monitors, self.fullscreen, gap)
        &&& to == rect_views(self.last_targets) || slides_fit(
            to,
            self.visual,
            owners(self.monitors),
            self.monitors,
        )
    }

    /// What jumps and what slides on the way to these targets.
    pub open spec fn sending(self, to: Seq<(u64, Rect)>, cloak: bool) -> (
        Seq<(u64, Rect)>,
        Seq<(u64, RectView, RectView)>,
    ) {
        let own = owners(self.monitors);
        let n = to.len() as int;
        (
            snaps_upto(to, self.visual, own, self.monitors, cloak, n),
            slides_upto(to, self.visual, own, self.monitors, cloak, n),
        )
    }

    /// The handle of the focused window.
    pub open spec fn focused_handle(self) -> Option<u64> {
        match self.focused {
            Some(f) => Some(f.0),
            None => None,
        }
    }

    /// How far each window of a frame of a slide is to be hidden; nothing where
    /// windows are not hidden by stopping their drawing.
    pub open spec fn levels_midway(self, frame: Seq<(u64, Rect)>, cloak: bool) -> Seq<(u64, Hide)> {
        if cloak {
            frame.map_values(
                |p: (u64, Rect)|
                    (
                        p.0,
                        hiding_midway(hiding(p.0, p.1@, owners(self.monitors), self.monitors)),
                    ),
            )
        } else {
            Seq::empty()
        }
    }

    /// How far each window is to be hidden at rest.
    pub open spec fn levels_at_rest(self) -> Seq<(u64, Hide)> {
        self.last_targets.map_values(
            |p: (u64, Rect)| (p.0, hiding(p.0, p.1@, owners(self.monitors), self.monitors)),
        )
    }

    /// The opacity each window is to have; nothing where none is dimmed or pinned.
    pub open spec fn alphas(self, pinned_alpha: u8, unfocused_alpha: Option<u8>) -> Seq<(u64, u8)> {
        if unfocused_alpha is None && self.pinned.len() == 0 {
            Seq::empty()
        } else {
            self.last_targets.map_values(
                |p: (u64, Rect)|
                    (
                        p.0,
                        opacity(
                            p.0,
                            self.pinned,
                            self.focused_handle(),
                            self.fullscreen,
                            pinned_alpha,
                            unfocused_alpha,
                        ),
                    ),
            )
        }
    }

    /// The frames to draw; none where frames are not drawn or not coloured.
    pub open spec fn drawn(self, thickness: i32, colors: Option<(u32, u32)>) -> Seq<Item> {
        match colors {
            Some(c) => if thickness > 0 {
                frames_upto(
                    self.last_targets,
                    self.visual,
                    owners(self.monitors),
                    self.monitors,
                    self.focused_handle(),
                    self.fullscreen,
                    c,
                    self.last_targets.len() as int,
                )
            } else {
                Seq::empty()
            },
            None => Seq::empty(),
        }
    }

    /// The windows' frame colours follow the focus.
    pub open spec fn recolored(self, colors: Option<(u32, u32)>) -> WmView {
        match colors {
            Some(_) => WmView {
                bordered: match self.focused {
                    Some(f) => Some(f.0),
                    None => None,
                },
                ..self
            },
            None => self,
        }
    }

    /// What colouring asks for: the frame that lost the focus, then the one
    /// that has it.
    pub open spec fn recolored_actions(self, colors: Option<(u32, u32)>) -> Seq<Action> {
        match colors {
            Some((with, without)) => {
                let now = match self.focused {
                    Some(f) => Some(f.0),
                    None => None,
                };
                if now == self.bordered {
                    Seq::empty()
                } else {
                    let lost = match self.bordered {
                        Some(h) => seq![Action::Color(h, without)],
                        None => Seq::empty(),
                    };
                    let got = match now {
                        Some(h) => seq![Action::Color(h, with)],
                        None => Seq::empty(),
                    };
                    lost + got
                }
            },
            None => Seq::empty(),
        }
    }
}

// ---------------------------------------------------------------------------
// Operations
// ---------------------------------------------------------------------------

/// The two lists of rectangles are the same.
fn same_rects(a: &Vec<(u64, Rect)>, b: &Vec<(u64, Rect)>) -> (r: bool)
    ensures
        r == (a@ == b@),
        r == (rect_views(a@) == rect_views(b@)),
{
    if a.len() != b.len() {
        assert(rect_views(a@).len() != rect_views(b@).len());
        return false;
    }
    let mut i: usize = 0;
    while i < a.len()
        invariant
            i <= a.len(),
            a.len() == b.len(),
            forall|j: int| 0 <= j < i ==> a@[j] == b@[j],
        decreases a.len() - i,
    {
        let (ha, ra) = a[i];
        let (hb, rb) = b[i];
        if ha != hb || ra != rb {
            assert(a@[i as int] != b@[i as int]);
            assert(rect_views(a@)[i as int] != rect_views(b@)[i as int]);
            return false;
        }
        i += 1;
    }
    assert(a@ =~= b@);
    true
}

/// How far a window reaches past its frame, where that is known.
pub open spec fn border_of(borders: Map<u64, Border>, h: u64) -> Border {
    if borders.contains_key(h) {
        borders[h]
    } else {
        Border { left: 0, top: 0, right: 0, bottom: 0 }
    }
}

impl Wm {
    /// The rectangle to give a window so that its frame stands where it is sent.
    /// None where it would not fit coordinates.
    pub fn window_rect(&self, h: u64, frame: Rect) -> (r: Option<Rect>)
        ensures
            match r {
                Some(out) => out@ == expanded(frame@, border_of(self@.borders, h)),
                None => !expanded(frame@, border_of(self@.borders, h)).fits(),
            },
    {
        broadcast use vstd::std_specs::hash::group_hash_axioms;

        let b: Border = match self.borders.get(&h) {
            Some(b) => *b,
            None => Border { left: 0, top: 0, right: 0, bottom: 0 },
        };
        assert(b == border_of(self@.borders, h));
        let x: i64 = frame.x as i64 - b.left as i64;
        let y: i64 = frame.y as i64 - b.top as i64;
        let w: i64 = frame.w as i64 + b.left as i64 + b.right as i64;
        let hh: i64 = frame.h as i64 + b.top as i64 + b.bottom as i64;
        if fits_i32(x) && fits_i32(y) && fits_i32(w) && fits_i32(hh) {
            Some(expand(frame, b))
        } else {
            None
        }
    }

    /// Which monitor holds each managed window.
    pub fn owner_map(&self) -> (map: HashMap<u64, usize>)
        requires
            self@.wf(),
        ensures
            map@ == owners(self@.monitors),
            owners_exist(map@, self@.monitors.len() as int),
    {
        let map = own_monitor_map(&self.monitors);
        proof {
            let ms = self@.monitors;
            assert forall|h: u64| #[trigger] map@.contains_key(h) == owners(ms).contains_key(h) by {
                assert(WindowId(h).0 == h);
            }
            assert forall|h: u64| map@.contains_key(h) implies #[trigger] map@[h] == owners(ms)[h]
                && map@[h] < ms.len() by {
                let id = WindowId(h);
                assert(id.0 == h);
                law_owner_is_monitor(map@, ms, id);
                lemma_monitor_of(ms, id);
            }
            assert(map@ =~= owners(ms));
        }
        map
    }

    /// Tests whether sending the windows to where they are to stand now stays
    /// within coordinates.
    pub fn can_refresh(&self, gap: i32) -> (r: bool)
        requires
            self@.wf(),
        ensures
            r == self@.refresh_fits(gap as int),
    {
        if !can_target(&self.monitors, self.fullscreen, gap) {
            return false;
        }
        let to = targets_all(&self.monitors, self.fullscreen, gap);
        if same_rects(&to, &self.last_targets) {
            return true;
        }
        let own = self.owner_map();
        can_slide(&self.visual, &to, &own, &self.monitors)
    }

    /// Sends the windows to where they are to stand now. Nothing where they
    /// were sent there already, so that a slide under way goes on undisturbed.
    pub fn refresh(&mut self, cloak: bool, gap: i32) -> (r: Option<Transition>)
        requires
            old(self)@.wf(),
            old(self)@.refresh_fits(gap as int),
        ensures
            rect_views(final(self)@.last_targets) == old(self)@.wanted(gap as int),
            final(self)@ == (WmView {
                last_targets: final(self)@.last_targets,
                visual: final(self)@.visual,
                ..old(self)@
            }),
            match r {
                None => final(self)@ == old(self)@,
                Some(t) => {
                    &&& rect_views(old(self)@.last_targets) != old(self)@.wanted(gap as int)
                    &&& (t.snaps@, entry_views(t.entries@)) == old(self)@.sending(
                        final(self)@.last_targets,
                        cloak,
                    )
                    &&& final(self)@.visual == moved(old(self)@.visual, t.snaps@)
                },
            },
    {
        let to = targets_all(&self.monitors, self.fullscreen, gap);
        if same_rects(&to, &self.last_targets) {
            return None;
        }
        let own = self.owner_map();
        let t = start_transition(&mut self.visual, &to, &own, &self.monitors, cloak);
        self.last_targets = to;
        Some(t)
    }

    /// Colours the frames after the focus moved.
    pub fn recolor(&mut self, colors: Option<(u32, u32)>) -> (acts: Vec<Action>)
        ensures
            final(self)@ == old(self)@.recolored(colors),
            acts@ == old(self)@.recolored_actions(colors),
    {
        let ghost before = self@;
        let mut acts: Vec<Action> = Vec::new();
        if let Some((with, without)) = colors {
            let now: Option<u64> = match self.focused {
                Some(f) => Some(f.0),
                None => None,
            };
            let same: bool = match (now, self.bordered) {
                (Some(a), Some(b)) => a == b,
                (None, None) => true,
                _ => false,
            };
            if !same {
                if let Some(h) = self.bordered {
                    acts.push(Action::Color(h, without));
                }
                if let Some(h) = now {
                    acts.push(Action::Color(h, with));
                }
                self.bordered = now;
            }
        }
        assert(acts@ =~= before.recolored_actions(colors));
        acts
    }

    /// Records a frame of a slide, and says how far each window of it is to be
    /// hidden where hiding stops drawing.
    pub fn on_frame(&mut self, frame: &Vec<(u64, Rect)>, cloak: bool) -> (r: Vec<(u64, Hide)>)
        requires
            old(self)@.wf(),
        ensures
            final(self)@ == (WmView { visual: moved(old(self)@.visual, frame@), ..old(self)@ }),
            r@ == old(self)@.levels_midway(frame@, cloak),
    {
        let ghost before = self@;
        let levels: Vec<(u64, Hide)> = if cloak {
            let own = self.owner_map();
            frame_levels(frame, &own, &self.monitors, true)
        } else {
            Vec::new()
        };
        note_rects(&mut self.visual, frame);
        proof {
            assert(levels@ =~= before.levels_midway(frame@, cloak));
        }
        levels
    }

    /// Ends a slide: the windows not yet at their targets are set there.
    pub fn on_slide_end(&mut self) -> (r: Vec<(u64, Rect)>)
        ensures
            r@ == unsettled_upto(
                old(self)@.last_targets,
                old(self)@.visual,
                old(self)@.last_targets.len() as int,
            ),
            final(self)@ == (WmView { visual: moved(old(self)@.visual, r@), ..old(self)@ }),
    {
        let left = settles(&self.last_targets, &self.visual);
        note_rects(&mut self.visual, &left);
        left
    }

    /// How far each window is to be hidden at rest.
    pub fn rest_levels(&self) -> (r: Vec<(u64, Hide)>)
        requires
            self@.wf(),
        ensures
            r@ == self@.levels_at_rest(),
    {
        let own = self.owner_map();
        let out = frame_levels(&self.last_targets, &own, &self.monitors, false);
        assert(out@ =~= self@.levels_at_rest());
        out
    }

    /// The opacity each window is to have.
    pub fn window_opacities(&self, pinned_alpha: u8, unfocused_alpha: Option<u8>) -> (r: Vec<
        (u64, u8),
    >)
        ensures
            r@ == self@.alphas(pinned_alpha, unfocused_alpha),
    {
        let focused: Option<u64> = match self.focused {
            Some(f) => Some(f.0),
            None => None,
        };
        let out = opacities(
            &self.last_targets,
            &self.pinned,
            focused,
            self.fullscreen,
            pinned_alpha,
            unfocused_alpha,
        );
        assert(out@ =~= self@.alphas(pinned_alpha, unfocused_alpha));
        out
    }

    /// The frames to draw; none where frames are not drawn or not coloured.
    pub fn window_frames(&self, thickness: i32, colors: Option<(u32, u32)>) -> (r: Vec<Item>)
        requires
            self@.wf(),
        ensures
            r@ == self@.drawn(thickness, colors),
    {
        let focused: Option<u64> = match self.focused {
            Some(f) => Some(f.0),
            None => None,
        };
        match colors {
            Some(c) => if thickness > 0 {
                let own = self.owner_map();
                border_items(
                    &self.last_targets,
                    &self.visual,
                    &own,
                    &self.monitors,
                    focused,
                    self.fullscreen,
                    c,
                )
            } else {
                Vec::new()
            },
            None => Vec::new(),
        }
    }
}

// ---------------------------------------------------------------------------
// Laws
// ---------------------------------------------------------------------------

/// Each managed window is owned by the monitor that holds it, and no other window
/// is owned.
pub proof fn law_owner_holds_window(ms: Seq<MonitorView>, h: u64, i: int)
    requires
        monitors_sound(ms),
        ms.len() <= usize::MAX,
        0 <= i < ms.len(),
    ensures
        ms[i].stack.contains(WindowId(h)) ==> owners(ms).contains_key(h) && owners(ms)[h] == i,
        owners(ms).contains_key(h) ==> ms[owners(ms)[h] as int].stack.contains(WindowId(h)),
{
    let id = WindowId(h);
    lemma_monitor_of(ms, id);
    if ms[i].stack.contains(id) {
        let k = monitor_of(ms, id).unwrap();
        assert(ms[k].stack.contains(id) && ms[i].stack.contains(id));
    }
}

/// Where frames are coloured, a focus that moved takes its colour along: the
/// frame that had it gets the colour of those without, the one that has it now
/// the other. Nothing is coloured where the focus stayed.
pub proof fn law_colours_follow_focus(w: WmView, with: u32, without: u32)
    ensures
        ({
            let now = match w.focused {
                Some(f) => Some(f.0),
                None => None,
            };
            let acts = w.recolored_actions(Some((with, without)));
            &&& w.recolored(Some((with, without))) == (WmView { bordered: now, ..w })
            &&& acts == match (w.bordered, now) {
                (Some(a), Some(b)) => if a == b {
                    Seq::empty()
                } else {
                    seq![Action::Color(a, without), Action::Color(b, with)]
                },
                (Some(a), None) => seq![Action::Color(a, without)],
                (None, Some(b)) => seq![Action::Color(b, with)],
                (None, None) => Seq::empty(),
            }
            &&& w.recolored(None) == w
            &&& w.recolored_actions(None) == Seq::<Action>::empty()
        }),
{
    let acts = w.recolored_actions(Some((with, without)));
    match (w.bordered, w.focused) {
        (Some(a), Some(b)) => {
            if a != b.0 {
                assert(acts =~= seq![Action::Color(a, without), Action::Color(b.0, with)]);
            }
        },
        (Some(a), None) => {
            assert(acts =~= seq![Action::Color(a, without)]);
        },
        (None, Some(b)) => {
            assert(acts =~= seq![Action::Color(b.0, with)]);
        },
        (None, None) => {},
    }
}

/// A window whose border is known reaches past its frame by it; one whose border
/// is not known is taken to be its frame.
pub proof fn law_border_of_window(borders: Map<u64, Border>, h: u64, frame: RectView)
    ensures
        borders.contains_key(h) ==> {
            let r = expanded(frame, border_of(borders, h));
            &&& r.x == frame.x - borders[h].left
            &&& r.y == frame.y - borders[h].top
            &&& r.x + r.w == frame.x + frame.w + borders[h].right
            &&& r.y + r.h == frame.y + frame.h + borders[h].bottom
        },
        !borders.contains_key(h) ==> expanded(frame, border_of(borders, h)) == frame,
{
}

/// While windows slide, where hiding stops drawing, each window of the frame is
/// drawn exactly where it touches the work area of the monitor that holds it, and
/// none is taken off the list of open windows. Else nothing is hidden so.
pub proof fn law_levels_midway(w: WmView, frame: Seq<(u64, Rect)>, i: int, mi: int, k: int)
    requires
        w.wf(),
        w.monitors.len() <= usize::MAX,
        0 <= i < frame.len(),
        0 <= mi < w.monitors.len(),
        0 <= k < w.monitors[mi].stack.strips.len(),
        w.monitors[mi].stack.strips[k].contains(WindowId(frame[i].0)),
    ensures
        ({
            let levels = w.levels_midway(frame, true);
            &&& levels.len() == frame.len()
            &&& levels[i].0 == frame[i].0
            &&& levels[i].1 is Show <==> frame[i].1@.meets(w.monitors[mi].work)
            &&& levels[i].1 is Render <==> !frame[i].1@.meets(w.monitors[mi].work)
            &&& w.levels_midway(frame, false) == Seq::<(u64, Hide)>::empty()
        }),
{
    let h = frame[i].0;
    assert(w.monitors[mi].stack.sound());
    lemma_strip_at(w.monitors[mi].stack, k, WindowId(h));
    law_owner_holds_window(w.monitors, h, mi);
    law_hiding(h, frame[i].1@, owners(w.monitors), w.monitors, k);
}

/// At rest each window is drawn exactly where it is sent to the work area of the
/// monitor that holds it. One that is not is still among the open windows where
/// its workspace is on show, and taken off that list where it is not.
pub proof fn law_levels_at_rest(w: WmView, i: int, mi: int, k: int)
    requires
        w.wf(),
        w.monitors.len() <= usize::MAX,
        0 <= i < w.last_targets.len(),
        0 <= mi < w.monitors.len(),
        0 <= k < w.monitors[mi].stack.strips.len(),
        w.monitors[mi].stack.strips[k].contains(WindowId(w.last_targets[i].0)),
    ensures
        ({
            let m = w.monitors[mi];
            let (h, to) = w.last_targets[i];
            let level = w.levels_at_rest()[i];
            &&& w.levels_at_rest().len() == w.last_targets.len()
            &&& level.0 == h
            &&& level.1 is Show <==> to@.meets(m.work)
            &&& level.1 is Render <==> !to@.meets(m.work) && k == m.stack.active
            &&& level.1 is Full <==> !to@.meets(m.work) && k != m.stack.active
        }),
{
    let (h, to) = w.last_targets[i];
    assert(w.monitors[mi].stack.sound());
    lemma_strip_at(w.monitors[mi].stack, k, WindowId(h));
    law_owner_holds_window(w.monitors, h, mi);
    law_hiding(h, to@, owners(w.monitors), w.monitors, k);
}

/// Each window sent somewhere has its opacity: the pinned one where it is pinned,
/// full where it has the focus or is fullscreen, and else that of windows without
/// the focus. Nothing is set where none is pinned or dimmed.
pub proof fn law_alphas(w: WmView, pinned_alpha: u8, unfocused_alpha: Option<u8>, i: int)
    requires
        0 <= i < w.last_targets.len(),
    ensures
        ({
            let all = w.alphas(pinned_alpha, unfocused_alpha);
            let h = w.last_targets[i].0;
            if unfocused_alpha is None && w.pinned.len() == 0 {
                all == Seq::<(u64, u8)>::empty()
            } else {
                &&& all.len() == w.last_targets.len()
                &&& all[i].0 == h
                &&& all[i].1 == if w.pinned.contains(h) {
                    pinned_alpha
                } else if w.focused == Some(WindowId(h)) || w.fullscreen == Some(h) {
                    255u8
                } else {
                    match unfocused_alpha {
                        Some(a) => a,
                        None => 255u8,
                    }
                }
            }
        }),
{
}

/// Frames are drawn where they have a thickness and colours: around every window
/// that stands on the work area of the monitor that holds it but the fullscreen
/// one, the focused one in its own colour.
pub proof fn law_drawn_frames(w: WmView, thickness: i32, colors: (u32, u32), i: int, mi: int)
    requires
        w.wf(),
        w.monitors.len() <= usize::MAX,
        0 <= i < w.last_targets.len(),
        0 <= mi < w.monitors.len(),
        w.monitors[mi].stack.contains(WindowId(w.last_targets[i].0)),
    ensures
        ({
            let h = w.last_targets[i].0;
            let items = w.drawn(thickness, Some(colors));
            let color = if w.focused == Some(WindowId(h)) {
                colors.0
            } else {
                colors.1
            };
            let shown = thickness > 0 && w.fullscreen != Some(h) && w.visual.contains_key(h)
                && w.visual[h]@.meets(w.monitors[mi].work) && color < 0xFFFF_FFFE;
            &&& shown ==> items.contains(Item { owner: h, rect: w.visual[h], color })
            &&& forall|n: int|
                0 <= n < items.len() && (#[trigger] items[n]).owner == h ==> shown && items[n].rect
                    == w.visual[h] && items[n].color == color
            &&& w.drawn(thickness, None) == Seq::<Item>::empty()
        }),
{
    let h = w.last_targets[i].0;
    law_owner_holds_window(w.monitors, h, mi);
    law_which_windows_are_framed(
        w.last_targets,
        w.visual,
        owners(w.monitors),
        w.monitors,
        w.focused_handle(),
        w.fullscreen,
        colors,
        i,
    );
}

/// Sent to its target, a window that stands elsewhere slides there wherever it can
/// be seen at either end on the work area of the monitor that holds it, whatever
/// workspace or monitor it came from; only where windows cannot be hidden by
/// stopping their drawing does it jump if an end off that area would show on
/// another monitor. Where it is seen at neither end it jumps, and at its target it
/// rests.
pub proof fn law_windows_seen_slide(
    w: WmView,
    to: Seq<(u64, Rect)>,
    cloak: bool,
    k: int,
    mi: int,
)
    requires
        w.wf(),
        w.monitors.len() <= usize::MAX,
        one_each(to),
        0 <= k < to.len(),
        0 <= mi < w.monitors.len(),
        w.monitors[mi].stack.contains(WindowId(to[k].0)),
        w.visual.contains_key(to[k].0),
    ensures
        ({
            let (h, there) = to[k];
            let here = w.visual[h];
            let own = w.monitors[mi].work;
            let (snaps, slides) = w.sending(to, cloak);
            let seen = here@.meets(own) || there@.meets(own);
            let slid = here != there && seen && (cloak || !strays(here@, there@, mi, w.monitors));
            &&& slid <==> exists|e: int| 0 <= e < slides.len() && (#[trigger] slides[e]).0 == h
            &&& here != there && !slid <==> exists|e: int|
                0 <= e < snaps.len() && (#[trigger] snaps[e]).0 == h
            &&& forall|e: int|
                0 <= e < slides.len() && (#[trigger] slides[e]).0 == h ==> {
                    &&& here@.meets(own) ==> slides[e].1 == here@
                    &&& there@.meets(own) ==> slides[e].2 == there@
                    &&& !here@.meets(own) ==> slides[e].1 == near(here@, own)
                    &&& !there@.meets(own) ==> slides[e].2 == near(there@, own)
                }
            &&& forall|e: int|
                0 <= e < snaps.len() && (#[trigger] snaps[e]).0 == h ==> snaps[e].1 == there
        }),
{
    law_owner_holds_window(w.monitors, to[k].0, mi);
    law_what_slides_and_what_jumps(to, w.visual, owners(w.monitors), w.monitors, cloak, k);
    let (h, there) = to[k];
    let here = w.visual[h];
    let own = w.monitors[mi].work;
    let (snaps, slides) = w.sending(to, cloak);
    assert(owners(w.monitors)[h] as int == mi);
    let seen = here@.meets(own) || there@.meets(own);
    let slid = here != there && seen && (cloak || !strays(here@, there@, mi, w.monitors));
    assert(slid <==> exists|e: int| 0 <= e < slides.len() && (#[trigger] slides[e]).0 == h);
    assert(here != there && !slid <==> exists|e: int|
        0 <= e < snaps.len() && (#[trigger] snaps[e]).0 == h);
}

/// Of the windows of a workspace on show, the fullscreen one is wanted on the whole
/// of its monitor, and any other whose column shows at its place on the strip, with
/// its column's width.
pub proof fn law_wanted_places(w: WmView, gap: int, mi: int, c: int, i: int, at: int)
    requires
        w.wf(),
        0 <= mi < w.monitors.len(),
        ({
            let s = w.monitors[mi].stack.strips[w.monitors[mi].stack.active];
            &&& 0 <= c < s.columns.len()
            &&& 0 <= i < s.columns[c].tiles.len()
            &&& 0 <= at < w.wanted(gap).len()
            &&& w.wanted(gap)[at].0 == s.columns[c].tiles[i].0
        }),
    ensures
        ({
            let m = w.monitors[mi];
            let s = m.stack.strips[m.stack.active];
            let col = s.columns[c];
            let r = w.wanted(gap)[at].1;
            &&& w.fullscreen == Some(col.tiles[i].0) ==> r == m.monitor
            &&& w.fullscreen != Some(col.tiles[i].0) && col.x < s.offset_x + (m.work.w - 2 * gap)
                && col.x + col.width > s.offset_x ==> {
                &&& r.x == m.work.x + gap + col.x - s.offset_x
                &&& r.w == col.width
                &&& stands_along(s, m.work, gap, c, i, 0, r)
            }
        }),
{
    let m = w.monitors[mi];
    let s = m.stack.strips[m.stack.active];
    let col = s.columns[c];
    let h = col.tiles[i].0;
    if w.fullscreen == Some(h) {
        law_fullscreen_window_covers_monitor(w.monitors, gap, mi, c, i, h, at);
    } else if col.x < s.offset_x + (m.work.w - 2 * gap) && col.x + col.width > s.offset_x {
        law_visible_windows_stand_in_place(w.monitors, w.fullscreen, gap, mi, c, i, at);
    }
}

/// Every managed window is wanted at one place, and no other window at any.
pub proof fn law_wanted_once(w: WmView, gap: int, id: WindowId)
    requires
        w.wf(),
    ensures
        target_windows(w.wanted(gap)).no_duplicates(),
        target_windows(w.wanted(gap)).contains(id) <==> managed(w.monitors, id),
{
    law_each_window_has_one_target(w.monitors, w.fullscreen, gap, id);
}

} // verus!
