//! Scrolling tiling window manager logic.

pub mod args;
pub mod arith;
pub mod base64;
pub mod cloak;
pub mod command_laws;
pub mod config;
pub mod displays;
pub mod events;
pub mod filter;
pub mod fitting;
pub mod focus_laws;
pub mod frames;
pub mod geometry;
pub mod ipc;
pub mod json;
pub mod layout;
pub mod layout_laws;
pub mod monitor_laws;
pub mod monitors;
pub mod opacity;
pub mod registry;
pub mod restore;
pub mod room_laws;
pub mod scan;
pub mod setup;
pub mod sha1;
pub mod size_laws;
pub mod state;
pub mod target_laws;
pub mod text;
pub mod tiling;
pub mod transition;
pub mod tray;
pub mod window_laws;
pub mod wm;
pub mod wm_commands;
pub mod wm_events;
pub mod wm_frame;
pub mod wm_monitors;
pub mod wm_windows;
pub mod ws;
