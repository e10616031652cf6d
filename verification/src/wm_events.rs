//! From events to handlers.

use vstd::prelude::*;

use crate::events::WmEvent;
use crate::layout::WindowId;
use crate::monitors::managed;
use crate::wm::{Action, Wm, WmView};
use crate::wm_commands::{
    Rework, law_refocused_keeps, law_reworked_keeps, law_scrolled_keeps,
    law_sent_to_workspace_keeps, law_switched_keeps,
};
use crate::wm_monitors::{law_monitor_focused_keeps, law_sent_to_monitor_keeps};

verus! {

/// The window an event says may have appeared.
pub open spec fn arrival(ev: WmEvent) -> Option<isize> {
    match ev {
        WmEvent::Appeared(h) => Some(h),
        WmEvent::MinimizeEnd(h) => Some(h),
        _ => None,
    }
}

/// The window an event says has gone. One that is no longer drawn counts as
/// gone unless it was hidden by the window manager (`by_us`) or is drawn after
/// all.
pub open spec fn departure(ev: WmEvent, by_us: bool, cloaked: bool) -> Option<isize> {
    match ev {
        WmEvent::Gone(h) => Some(h),
        WmEvent::MinimizeStart(h) => Some(h),
        WmEvent::Cloaked(h) => if by_us || !cloaked {
            None
        } else {
            Some(h)
        },
        _ => None,
    }
}

impl WmView {
    /// What a command does and asks for; nothing for an event that needs to
    /// know more of the windows or monitors.
    pub open spec fn commanded(self, ev: WmEvent, gap: int) -> Option<(WmView, Seq<Action>)> {
        match ev {
            WmEvent::Focus(dir) => Some((self.refocused(dir), self.refocused_actions(dir))),
            WmEvent::MoveColumn(dir) => Some(
                (self.reworked(Rework::Move(dir), gap), Seq::empty()),
            ),
            WmEvent::Expel => Some((self.reworked(Rework::Expel, gap), Seq::empty())),
            WmEvent::Consume => Some((self.reworked(Rework::Consume, gap), Seq::empty())),
            WmEvent::MoveToWorkspace(down) => Some(
                (self.sent_to_workspace(down, gap), Seq::empty()),
            ),
            WmEvent::SwitchWorkspace(down) => Some(
                (self.switched(down), self.switched_actions(down)),
            ),
            WmEvent::CycleWidth => Some((self.reworked(Rework::CycleWidth, gap), Seq::empty())),
            WmEvent::MaximizeColumn => Some((self.reworked(Rework::Maximize, gap), Seq::empty())),
            WmEvent::Fullscreen => Some((self.fullscreen_toggled(), Seq::empty())),
            WmEvent::Scroll(forward) => Some((self.scrolled(forward), Seq::empty())),
            WmEvent::CloseFocused => Some((self, self.close_actions())),
            WmEvent::Spawn(cmd) => Some((self, seq![Action::Spawn(cmd)])),
            WmEvent::ToggleOpacity => Some((self.opacity_toggled(), self.opacity_actions())),
            WmEvent::FocusMonitor(forward) => Some(
                (self.monitor_focused(forward), self.monitor_focused_actions(forward)),
            ),
            WmEvent::MoveToMonitor(forward) => Some(
                (self.sent_to_monitor(forward, gap), self.sent_to_monitor_actions()),
            ),
            _ => None,
        }
    }

    /// Carrying out the command stays within coordinates.
    pub open spec fn command_fits(self, ev: WmEvent, gap: int) -> bool {
        match ev {
            WmEvent::Focus(dir) => self.refocus_fits(dir),
            WmEvent::MoveColumn(dir) => self.rework_fits(Rework::Move(dir), gap),
            WmEvent::Expel => self.rework_fits(Rework::Expel, gap),
            WmEvent::Consume => self.rework_fits(Rework::Consume, gap),
            WmEvent::MoveToWorkspace(down) => self.send_fits(down, gap),
            WmEvent::CycleWidth => self.rework_fits(Rework::CycleWidth, gap),
            WmEvent::MaximizeColumn => self.rework_fits(Rework::Maximize, gap),
            WmEvent::Scroll(_) => self.scroll_fits(),
            WmEvent::FocusMonitor(forward) => self.focus_monitor_fits(forward),
            WmEvent::MoveToMonitor(forward) => self.send_away_fits(forward, gap),
            _ => true,
        }
    }
}

/// No command loses a window or tiles one twice, and every command keeps the
/// state's shape.
pub proof fn law_commands_keep(w: WmView, ev: WmEvent, gap: int)
    requires
        w.wf(),
    ensures
        w.commanded(ev, gap) matches Some((after, _)) ==> {
            &&& after.wf()
            &&& forall|x: WindowId| #[trigger] managed(after.monitors, x) == managed(w.monitors, x)
        },
{
    match ev {
        WmEvent::Focus(dir) => {
            law_refocused_keeps(w, dir);
        },
        WmEvent::MoveColumn(dir) => {
            law_reworked_keeps(w, Rework::Move(dir), gap);
        },
        WmEvent::Expel => {
            law_reworked_keeps(w, Rework::Expel, gap);
        },
        WmEvent::Consume => {
            law_reworked_keeps(w, Rework::Consume, gap);
        },
        WmEvent::MoveToWorkspace(down) => {
            law_sent_to_workspace_keeps(w, down, gap);
        },
        WmEvent::SwitchWorkspace(down) => {
            law_switched_keeps(w, down);
        },
        WmEvent::CycleWidth => {
            law_reworked_keeps(w, Rework::CycleWidth, gap);
        },
        WmEvent::MaximizeColumn => {
            law_reworked_keeps(w, Rework::Maximize, gap);
        },
        WmEvent::Scroll(forward) => {
            law_scrolled_keeps(w, forward);
        },
        WmEvent::FocusMonitor(forward) => {
            law_monitor_focused_keeps(w, forward);
        },
        WmEvent::MoveToMonitor(forward) => {
            law_sent_to_monitor_keeps(w, forward, gap);
        },
        _ => {},
    }
}

/// The window an event says may have appeared.
pub fn arriving(ev: &WmEvent) -> (r: Option<isize>)
    ensures
        r == arrival(*ev),
{
    match ev {
        WmEvent::Appeared(h) => Some(*h),
        WmEvent::MinimizeEnd(h) => Some(*h),
        _ => None,
    }
}

/// The window an event says has gone.
pub fn leaving(ev: &WmEvent, by_us: bool, cloaked: bool) -> (r: Option<isize>)
    ensures
        r == departure(*ev, by_us, cloaked),
{
    match ev {
        WmEvent::Gone(h) => Some(*h),
        WmEvent::MinimizeStart(h) => Some(*h),
        WmEvent::Cloaked(h) => if by_us || !cloaked {
            None
        } else {
            Some(*h)
        },
        _ => None,
    }
}

impl Wm {
    /// Tests whether carrying out the command stays within coordinates.
    pub fn can_command(&self, ev: &WmEvent, gap: i32) -> (r: bool)
        requires
            self@.wf(),
        ensures
            r == self@.command_fits(*ev, gap as int),
    {
        match ev {
            WmEvent::Focus(dir) => self.can_refocus(*dir),
            WmEvent::MoveColumn(dir) => self.can_rework(&Rework::Move(*dir), gap),
            WmEvent::Expel => self.can_rework(&Rework::Expel, gap),
            WmEvent::Consume => self.can_rework(&Rework::Consume, gap),
            WmEvent::MoveToWorkspace(down) => self.can_send(*down, gap),
            WmEvent::CycleWidth => self.can_rework(&Rework::CycleWidth, gap),
            WmEvent::MaximizeColumn => self.can_rework(&Rework::Maximize, gap),
            WmEvent::Scroll(_) => self.can_scroll(),
            WmEvent::FocusMonitor(forward) => self.can_focus_monitor(*forward),
            WmEvent::MoveToMonitor(forward) => self.can_send_away(*forward, gap),
            _ => true,
        }
    }

    /// Carries out a command and says what it asks for. Nothing, and no change,
    /// for an event that needs to know more of the windows or monitors.
    pub fn on_command(&mut self, ev: &WmEvent, gap: i32) -> (r: Option<Vec<Action>>)
        requires
            old(self)@.wf(),
            old(self)@.command_fits(*ev, gap as int),
        ensures
            match old(self)@.commanded(*ev, gap as int) {
                Some((after, acts)) => r matches Some(v) && v@ == acts && final(self)@ == after,
                None => r is None && final(self)@ == old(self)@,
            },
            final(self)@.wf(),
    {
        let none: Vec<Action> = Vec::new();
        assert(none@ =~= Seq::empty());
        match ev {
            WmEvent::Focus(dir) => Some(self.focus(*dir)),
            WmEvent::MoveColumn(dir) => {
                self.move_column(*dir, gap);
                Some(none)
            },
            WmEvent::Expel => {
                self.expel(gap);
                Some(none)
            },
            WmEvent::Consume => {
                self.consume(gap);
                Some(none)
            },
            WmEvent::MoveToWorkspace(down) => {
                self.move_to_workspace(*down, gap);
                Some(none)
            },
            WmEvent::SwitchWorkspace(down) => Some(self.switch_workspace(*down)),
            WmEvent::CycleWidth => {
                self.cycle_width(gap);
                Some(none)
            },
            WmEvent::MaximizeColumn => {
                self.maximize(gap);
                Some(none)
            },
            WmEvent::Fullscreen => {
                self.toggle_fullscreen();
                Some(none)
            },
            WmEvent::Scroll(forward) => {
                self.scroll(*forward);
                Some(none)
            },
            WmEvent::CloseFocused => Some(self.close_focused()),
            WmEvent::Spawn(cmd) => {
                let mut acts: Vec<Action> = Vec::new();
                acts.push(Action::Spawn(cmd.clone()));
                assert(acts@ =~= seq![Action::Spawn(*cmd)]);
                Some(acts)
            },
            WmEvent::ToggleOpacity => Some(self.toggle_opacity()),
            WmEvent::FocusMonitor(forward) => Some(self.focus_monitor(*forward)),
            WmEvent::MoveToMonitor(forward) => Some(self.move_to_monitor(*forward, gap)),
            _ => None,
        }
    }
}

/// A window appears when it is shown or no longer minimized. It goes when it is
/// closed, hidden or minimized, and when it is no longer drawn, unless the window
/// manager hid it or it is drawn after all. No other event is either.
pub proof fn law_coming_and_going(ev: WmEvent, by_us: bool, cloaked: bool)
    ensures
        arrival(ev) is Some <==> ev is Appeared || ev is MinimizeEnd,
        departure(ev, by_us, cloaked) is Some <==> ev is Gone || ev is MinimizeStart || (
        ev is Cloaked && cloaked && !by_us),
        ev matches WmEvent::Appeared(h) ==> arrival(ev) == Some(h),
        ev matches WmEvent::MinimizeEnd(h) ==> arrival(ev) == Some(h),
        ev matches WmEvent::Gone(h) ==> departure(ev, by_us, cloaked) == Some(h),
        ev matches WmEvent::MinimizeStart(h) ==> departure(ev, by_us, cloaked) == Some(h),
        ev matches WmEvent::Cloaked(h) ==> cloaked && !by_us ==> departure(ev, by_us, cloaked)
            == Some(h),
{
}

} // verus!
