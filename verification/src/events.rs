//! What the window manager is told, and the command language.

use std::sync::mpsc::Sender;
use vstd::prelude::*;

use crate::layout::FocusDir;
use crate::text::{
    chars_of, is_text, part, split_whitespace, starts, starts_with, string_of, texts, trim, trimmed,
    words,
};

verus! {

/// `std::sync::mpsc::Sender`, a channel that answers go through; carried along
/// unopened.
#[verifier::external_type_specification]
#[verifier::external_body]
#[verifier::reject_recursive_types(T)]
pub struct ExSender<T>(Sender<T>);

/// `Sender::clone` of std gives another end of the channel; nothing is said of
/// it.
pub assume_specification<T>[ <Sender<T> as Clone>::clone ](s: &Sender<T>) -> (r: Sender<T>);

/// An event of the window system, or a command.
#[derive(Debug, Clone)]
pub enum WmEvent {
    /// A window may have appeared.
    Appeared(isize),
    /// A window has gone.
    Gone(isize),
    /// A window is no longer drawn by the system.
    Cloaked(isize),
    /// A window came to the foreground.
    Foreground(isize),
    MinimizeStart(isize),
    MinimizeEnd(isize),
    /// Move the focus.
    Focus(FocusDir),
    /// Trade the focused column with its neighbour.
    MoveColumn(FocusDir),
    /// Push the focused tile out into a column of its own.
    Expel,
    /// Take the next column's tile in below the focused one.
    Consume,
    /// Move the focused window to the workspace below (`true`) or above.
    MoveToWorkspace(bool),
    /// Show the workspace below (`true`) or above.
    SwitchWorkspace(bool),
    /// The next preset width.
    CycleWidth,
    /// Full viewport width and back.
    MaximizeColumn,
    /// The whole monitor and back.
    Fullscreen,
    /// Scroll right (`true`) or left.
    Scroll(bool),
    CloseFocused,
    /// Start a program by its command line.
    Spawn(String),
    /// Pin the focused window's opacity and back.
    ToggleOpacity,
    /// Move the focus to the next (`true`) or previous monitor.
    FocusMonitor(bool),
    /// Move the focused window to the next (`true`) or previous monitor.
    MoveToMonitor(bool),
    /// Read the configuration again.
    Reload,
    /// Monitors or work areas changed.
    WorkAreaChanged,
    /// Send the state once.
    Query(Sender<String>),
    /// Send the state now and whenever it changes.
    Subscribe(Sender<String>),
    Shutdown,
}

/// A key combination and what it does.
#[derive(Debug, Clone)]
pub struct Hotkey {
    /// Modifier bits.
    pub mods: u32,
    /// Virtual key code.
    pub vk: u32,
    pub event: WmEvent,
}

/// System event codes.
pub const EVENT_SYSTEM_FOREGROUND: u32 = 0x0003;

pub const EVENT_SYSTEM_MINIMIZESTART: u32 = 0x0016;

pub const EVENT_SYSTEM_MINIMIZEEND: u32 = 0x0017;

pub const EVENT_OBJECT_DESTROY: u32 = 0x8001;

pub const EVENT_OBJECT_SHOW: u32 = 0x8002;

pub const EVENT_OBJECT_HIDE: u32 = 0x8003;

pub const EVENT_OBJECT_CLOAKED: u32 = 0x8017;

pub const EVENT_OBJECT_UNCLOAKED: u32 = 0x8018;

/// The object code of a window itself.
pub const OBJID_WINDOW: i32 = 0;

/// Messages that tell of changed monitors or work areas.
pub const WM_DISPLAYCHANGE: u32 = 0x007E;

pub const WM_SETTINGCHANGE: u32 = 0x001A;

/// A held key does not repeat its hotkey.
pub const MOD_NOREPEAT: u32 = 0x4000;

// ---------------------------------------------------------------------------
// Model
// ---------------------------------------------------------------------------

/// A command as mathematical values.
pub enum CommandView {
    Focus(FocusDir),
    MoveColumn(FocusDir),
    Expel,
    Consume,
    MoveToWorkspace(bool),
    SwitchWorkspace(bool),
    CycleWidth,
    MaximizeColumn,
    Fullscreen,
    Scroll(bool),
    CloseFocused,
    Spawn(Seq<char>),
    ToggleOpacity,
    Reload,
    Shutdown,
}

/// The command an event stands for, where the command language has it.
pub open spec fn command_of(ev: WmEvent) -> Option<CommandView> {
    match ev {
        WmEvent::Focus(d) => Some(CommandView::Focus(d)),
        WmEvent::MoveColumn(d) => Some(CommandView::MoveColumn(d)),
        WmEvent::Expel => Some(CommandView::Expel),
        WmEvent::Consume => Some(CommandView::Consume),
        WmEvent::MoveToWorkspace(b) => Some(CommandView::MoveToWorkspace(b)),
        WmEvent::SwitchWorkspace(b) => Some(CommandView::SwitchWorkspace(b)),
        WmEvent::CycleWidth => Some(CommandView::CycleWidth),
        WmEvent::MaximizeColumn => Some(CommandView::MaximizeColumn),
        WmEvent::Fullscreen => Some(CommandView::Fullscreen),
        WmEvent::Scroll(b) => Some(CommandView::Scroll(b)),
        WmEvent::CloseFocused => Some(CommandView::CloseFocused),
        WmEvent::Spawn(c) => Some(CommandView::Spawn(c@)),
        WmEvent::ToggleOpacity => Some(CommandView::ToggleOpacity),
        WmEvent::Reload => Some(CommandView::Reload),
        WmEvent::Shutdown => Some(CommandView::Shutdown),
        _ => None,
    }
}

/// The command of a head word and its argument, an absent argument being empty.
pub open spec fn worded_command(head: Seq<char>, arg: Seq<char>) -> Option<CommandView> {
    if head == "focus"@ && arg == "left"@ {
        Some(CommandView::Focus(FocusDir::Left))
    } else if head == "focus"@ && arg == "right"@ {
        Some(CommandView::Focus(FocusDir::Right))
    } else if head == "focus"@ && arg == "down"@ {
        Some(CommandView::Focus(FocusDir::Down))
    } else if head == "focus"@ && arg == "up"@ {
        Some(CommandView::Focus(FocusDir::Up))
    } else if head == "move-column"@ && arg == "left"@ {
        Some(CommandView::MoveColumn(FocusDir::Left))
    } else if head == "move-column"@ && arg == "right"@ {
        Some(CommandView::MoveColumn(FocusDir::Right))
    } else if head == "move-window"@ && arg == "down"@ {
        Some(CommandView::MoveToWorkspace(true))
    } else if head == "move-window"@ && arg == "up"@ {
        Some(CommandView::MoveToWorkspace(false))
    } else if head == "workspace"@ && arg == "down"@ {
        Some(CommandView::SwitchWorkspace(true))
    } else if head == "workspace"@ && arg == "up"@ {
        Some(CommandView::SwitchWorkspace(false))
    } else if head == "scroll"@ && arg == "left"@ {
        Some(CommandView::Scroll(false))
    } else if head == "scroll"@ && arg == "right"@ {
        Some(CommandView::Scroll(true))
    } else if arg.len() != 0 {
        None
    } else if head == "expel"@ {
        Some(CommandView::Expel)
    } else if head == "consume"@ {
        Some(CommandView::Consume)
    } else if head == "cycle-width"@ {
        Some(CommandView::CycleWidth)
    } else if head == "maximize"@ {
        Some(CommandView::MaximizeColumn)
    } else if head == "fullscreen"@ {
        Some(CommandView::Fullscreen)
    } else if head == "close"@ {
        Some(CommandView::CloseFocused)
    } else if head == "toggle-opacity"@ {
        Some(CommandView::ToggleOpacity)
    } else if head == "reload"@ {
        Some(CommandView::Reload)
    } else if head == "quit"@ {
        Some(CommandView::Shutdown)
    } else {
        None
    }
}

/// The command a text spells. After `spawn ` the whole rest is one command
/// line, which must not be blank; else the first two words count.
pub open spec fn command(s: Seq<char>) -> Option<CommandView> {
    if starts(s, "spawn "@) {
        let line = trimmed(s.skip("spawn "@.len() as int));
        if line.len() == 0 {
            None
        } else {
            Some(CommandView::Spawn(line))
        }
    } else {
        let w = words(s);
        if w.len() == 0 {
            None
        } else {
            worded_command(
                w[0],
                if w.len() > 1 {
                    w[1]
                } else {
                    Seq::empty()
                },
            )
        }
    }
}

/// The event a system event of a window stands for. Only events of top-level
/// windows themselves count.
pub open spec fn window_event(
    event: u32,
    id_object: i32,
    id_child: i32,
    h: isize,
) -> Option<WmEvent> {
    if id_object != OBJID_WINDOW || id_child != 0 || h == 0 {
        None
    } else if event == EVENT_OBJECT_SHOW || event == EVENT_OBJECT_UNCLOAKED {
        Some(WmEvent::Appeared(h))
    } else if event == EVENT_OBJECT_DESTROY || event == EVENT_OBJECT_HIDE {
        Some(WmEvent::Gone(h))
    } else if event == EVENT_OBJECT_CLOAKED {
        Some(WmEvent::Cloaked(h))
    } else if event == EVENT_SYSTEM_FOREGROUND {
        Some(WmEvent::Foreground(h))
    } else if event == EVENT_SYSTEM_MINIMIZESTART {
        Some(WmEvent::MinimizeStart(h))
    } else if event == EVENT_SYSTEM_MINIMIZEEND {
        Some(WmEvent::MinimizeEnd(h))
    } else {
        None
    }
}

/// The ranges of system events to listen to, from the first to the last of each.
pub open spec fn hooked() -> Seq<(u32, u32)> {
    seq![
        (EVENT_SYSTEM_FOREGROUND, EVENT_SYSTEM_MINIMIZEEND),
        (EVENT_OBJECT_DESTROY, EVENT_OBJECT_HIDE),
        (EVENT_OBJECT_CLOAKED, EVENT_OBJECT_UNCLOAKED),
    ]
}

// ---------------------------------------------------------------------------
// Operations
// ---------------------------------------------------------------------------

/// The command of a head word and its argument.
fn command_of_words(head: &Vec<char>, arg: &Vec<char>) -> (r: Option<WmEvent>)
    ensures
        match r {
            Some(e) => command_of(e) == worded_command(head@, arg@) && command_of(e) is Some,
            None => worded_command(head@, arg@) is None,
        },
{
    if is_text(head, "focus") && is_text(arg, "left") {
        return Some(WmEvent::Focus(FocusDir::Left));
    }
    if is_text(head, "focus") && is_text(arg, "right") {
        return Some(WmEvent::Focus(FocusDir::Right));
    }
    if is_text(head, "focus") && is_text(arg, "down") {
        return Some(WmEvent::Focus(FocusDir::Down));
    }
    if is_text(head, "focus") && is_text(arg, "up") {
        return Some(WmEvent::Focus(FocusDir::Up));
    }
    if is_text(head, "move-column") && is_text(arg, "left") {
        return Some(WmEvent::MoveColumn(FocusDir::Left));
    }
    if is_text(head, "move-column") && is_text(arg, "right") {
        return Some(WmEvent::MoveColumn(FocusDir::Right));
    }
    if is_text(head, "move-window") && is_text(arg, "down") {
        return Some(WmEvent::MoveToWorkspace(true));
    }
    if is_text(head, "move-window") && is_text(arg, "up") {
        return Some(WmEvent::MoveToWorkspace(false));
    }
    if is_text(head, "workspace") && is_text(arg, "down") {
        return Some(WmEvent::SwitchWorkspace(true));
    }
    if is_text(head, "workspace") && is_text(arg, "up") {
        return Some(WmEvent::SwitchWorkspace(false));
    }
    if is_text(head, "scroll") && is_text(arg, "left") {
        return Some(WmEvent::Scroll(false));
    }
    if is_text(head, "scroll") && is_text(arg, "right") {
        return Some(WmEvent::Scroll(true));
    }
    if arg.len() != 0 {
        return None;
    }
    if is_text(head, "expel") {
        return Some(WmEvent::Expel);
    }
    if is_text(head, "consume") {
        return Some(WmEvent::Consume);
    }
    if is_text(head, "cycle-width") {
        return Some(WmEvent::CycleWidth);
    }
    if is_text(head, "maximize") {
        return Some(WmEvent::MaximizeColumn);
    }
    if is_text(head, "fullscreen") {
        return Some(WmEvent::Fullscreen);
    }
    if is_text(head, "close") {
        return Some(WmEvent::CloseFocused);
    }
    if is_text(head, "toggle-opacity") {
        return Some(WmEvent::ToggleOpacity);
    }
    if is_text(head, "reload") {
        return Some(WmEvent::Reload);
    }
    if is_text(head, "quit") {
        return Some(WmEvent::Shutdown);
    }
    None
}

/// The command a text spells, for key bindings, the command line and the pipe
/// alike.
pub fn parse_command(s: &str) -> (r: Option<WmEvent>)
    ensures
        match r {
            Some(e) => command_of(e) == command(s@) && command(s@) is Some,
            None => command(s@) is None,
        },
{
    let v = chars_of(s);
    if starts_with(&v, "spawn ") {
        let head = chars_of("spawn ");
        let rest = part(&v, head.len(), v.len());
        assert(rest@ =~= s@.skip("spawn "@.len() as int));
        let line = trim(&rest);
        if line.len() == 0 {
            return None;
        }
        return Some(WmEvent::Spawn(string_of(&line)));
    }
    let w = split_whitespace(&v);
    let ghost views = texts(w@);
    if w.len() == 0 {
        return None;
    }
    assert(views[0] == w@[0]@);
    if w.len() > 1 {
        assert(views[1] == w@[1]@);
        command_of_words(&w[0], &w[1])
    } else {
        let none: Vec<char> = Vec::new();
        command_of_words(&w[0], &none)
    }
}

/// The event a system event of a window stands for, `h` being zero where the
/// event names no window.
pub fn classify_window_event(event: u32, id_object: i32, id_child: i32, h: isize) -> (r: Option<
    WmEvent,
>)
    ensures
        r == window_event(event, id_object, id_child, h),
{
    if id_object != OBJID_WINDOW || id_child != 0 || h == 0 {
        return None;
    }
    if event == EVENT_OBJECT_SHOW || event == EVENT_OBJECT_UNCLOAKED {
        Some(WmEvent::Appeared(h))
    } else if event == EVENT_OBJECT_DESTROY || event == EVENT_OBJECT_HIDE {
        Some(WmEvent::Gone(h))
    } else if event == EVENT_OBJECT_CLOAKED {
        Some(WmEvent::Cloaked(h))
    } else if event == EVENT_SYSTEM_FOREGROUND {
        Some(WmEvent::Foreground(h))
    } else if event == EVENT_SYSTEM_MINIMIZESTART {
        Some(WmEvent::MinimizeStart(h))
    } else if event == EVENT_SYSTEM_MINIMIZEEND {
        Some(WmEvent::MinimizeEnd(h))
    } else {
        None
    }
}

/// The ranges of system events to listen to.
pub fn hook_ranges() -> (r: Vec<(u32, u32)>)
    ensures
        r@ == hooked(),
{
    let mut v: Vec<(u32, u32)> = Vec::new();
    v.push((EVENT_SYSTEM_FOREGROUND, EVENT_SYSTEM_MINIMIZEEND));
    v.push((EVENT_OBJECT_DESTROY, EVENT_OBJECT_HIDE));
    v.push((EVENT_OBJECT_CLOAKED, EVENT_OBJECT_UNCLOAKED));
    assert(v@ =~= hooked());
    v
}

/// The event a broadcast message stands for.
pub fn classify_broadcast(msg: u32) -> (r: Option<WmEvent>)
    ensures
        r == if msg == WM_DISPLAYCHANGE || msg == WM_SETTINGCHANGE {
            Some(WmEvent::WorkAreaChanged)
        } else {
            None
        },
{
    if msg == WM_DISPLAYCHANGE || msg == WM_SETTINGCHANGE {
        Some(WmEvent::WorkAreaChanged)
    } else {
        None
    }
}

/// The number a hotkey is registered under.
pub fn hotkey_number(index: usize) -> (r: i32)
    requires
        index < i32::MAX,
    ensures
        r == index + 1,
{
    (index + 1) as i32
}

/// The hotkey registered under a number.
pub fn pressed_hotkey(hotkeys: &Vec<Hotkey>, pressed: usize) -> (r: Option<&Hotkey>)
    ensures
        match r {
            Some(h) => 1 <= pressed <= hotkeys.len() && *h == hotkeys@[pressed - 1],
            None => pressed == 0 || pressed > hotkeys.len(),
        },
{
    if pressed == 0 || pressed > hotkeys.len() {
        None
    } else {
        Some(&hotkeys[pressed - 1])
    }
}

/// The modifier bits a hotkey is registered with.
pub fn registered_mods(hotkey: &Hotkey) -> (r: u32)
    ensures
        r == hotkey.mods | MOD_NOREPEAT,
{
    hotkey.mods | MOD_NOREPEAT
}

// ---------------------------------------------------------------------------
// Laws
// ---------------------------------------------------------------------------

/// Every system event that stands for something is listened to.
pub proof fn law_events_are_hooked(event: u32, id_object: i32, id_child: i32, h: isize)
    requires
        window_event(event, id_object, id_child, h) is Some,
    ensures
        exists|i: int|
            0 <= i < hooked().len() && (#[trigger] hooked()[i]).0 <= event <= hooked()[i].1,
{
    let s = hooked();
    assert(s[0].0 <= event <= s[0].1 || s[1].0 <= event <= s[1].1 || s[2].0 <= event <= s[2].1);
}

/// A command to start a program keeps its whole line, but for spaces at its ends.
pub proof fn law_spawn_keeps_line(line: Seq<char>)
    requires
        trimmed(line).len() > 0,
    ensures
        command("spawn "@ + line) == Some(CommandView::Spawn(trimmed(line))),
{
    let s = "spawn "@ + line;
    assert(s.take("spawn "@.len() as int) =~= "spawn "@);
    assert(s.skip("spawn "@.len() as int) =~= line);
}

} // verus!
