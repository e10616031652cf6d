//! The icon in the notification area.

use vstd::prelude::*;

use crate::events::WmEvent;

verus! {

/// The message the icon sends.
pub const WM_TRAY: u32 = 0x8002;

/// The right mouse button was released.
pub const WM_RBUTTONUP: u32 = 0x0205;

/// Entries of the icon's menu.
pub const MENU_RELOAD: usize = 1;

pub const MENU_QUIT: usize = 2;

/// What is done about a message of the notification area.
#[derive(Debug, Clone, Copy, PartialEq, Eq, Structural)]
pub enum TrayReaction {
    Nothing,
    /// The menu is shown.
    Menu,
    /// The icon is put up again, as the notification area is new.
    Register,
}

/// The message is one of the notification area, `taskbar` being the number of
/// the message that tells of a new one, where it is known.
pub fn is_tray_message(msg: u32, taskbar: Option<u32>) -> (r: bool)
    ensures
        r == (msg == WM_TRAY || taskbar == Some(msg)),
{
    msg == WM_TRAY || match taskbar {
        Some(id) => id == msg,
        None => false,
    }
}

/// What is done about a message of the notification area; the low half of its
/// parameter tells what the mouse did.
pub fn tray_reaction(msg: u32, lparam: u64) -> (r: TrayReaction)
    ensures
        r == if msg != WM_TRAY {
            TrayReaction::Register
        } else if lparam % 0x1_0000 == WM_RBUTTONUP {
            TrayReaction::Menu
        } else {
            TrayReaction::Nothing
        },
{
    if msg != WM_TRAY {
        TrayReaction::Register
    } else if lparam % 0x1_0000 == WM_RBUTTONUP as u64 {
        TrayReaction::Menu
    } else {
        TrayReaction::Nothing
    }
}

/// What an entry of the menu asks for.
pub fn menu_event(entry: usize) -> (r: Option<WmEvent>)
    ensures
        r == if entry == MENU_RELOAD {
            Some(WmEvent::Reload)
        } else if entry == MENU_QUIT {
            Some(WmEvent::Shutdown)
        } else {
            None
        },
{
    if entry == MENU_RELOAD {
        Some(WmEvent::Reload)
    } else if entry == MENU_QUIT {
        Some(WmEvent::Shutdown)
    } else {
        None
    }
}

} // verus!
