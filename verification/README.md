# emakiwm

A scrolling tiling window manager for Windows in the manner of niri. Windows
stand in columns on a horizontal strip, endless but for the range of pixel
coordinates; each monitor shows a part of one strip and has a stack of them, its
workspaces.

The library under `src/` holds everything that decides and computes, with
contracts that Verus proves. The program under `app/` talks to Windows.

## Layout of the library

| Modules | What they hold |
| --- | --- |
| `layout`, `layout_laws` | strips, columns and workspaces, and what holds of them |
| `geometry`, `arith` | rectangles and coordinates |
| `monitors`, `displays` | monitors, where windows go, and monitors that come and go |
| `fitting`, `tiling` | whether a step fits coordinates, and steps on one monitor |
| `transition`, `frames`, `opacity`, `cloak` | sliding, frames, dimming and hiding |
| `wm`, `wm_windows`, `wm_commands`, `wm_monitors`, `wm_frame`, `wm_events`, `target_laws`, `size_laws` | the state of the window manager and its steps |
| `filter`, `scan` | which windows are tiled |
| `config`, `events` | settings, hotkeys, commands and events |
| `ipc`, `json`, `ws`, `sha1`, `base64`, `state` | the pipe and WebSocket interfaces and the reported state |
| `restore` | putting windows back |
| `registry`, `setup`, `args`, `tray` | installation, command lines and the tray icon |
| `text` | strings |

## How it works together

`Wm` is the whole state. Each event or command has a method that states exactly
what becomes of the state and which actions on real windows follow; the program
performs the actions. A step that computes coordinates needs them to fit, and a
method named `can_...` tells beforehand whether they do. `Wm::refresh` sends windows to their new targets and says
which of them slide. Public proof functions named `law_...` state what holds
across operations: that packing is kept, that no window is lost or tiled twice,
that parked windows lie on no monitor, that moves can be undone.

What is taken from outside without proof is declared beside its use: regular
expressions (`filter`), JSON (`restore`), lossy text decoding (`ws`, `registry`),
lower case (`config`), appending to a string (`text`) and channel ends
(`events`).
