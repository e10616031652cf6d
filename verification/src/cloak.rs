//! Which windows are cloaked, and in what order cloaking is done and undone.
//!
//! A cloaked window is not drawn but stays in the lists of open windows; the
//! tool window style takes it out of the lists too. The shell forgets a tool
//! window, so a window is cloaked before it gets the style and loses the style
//! before it is uncloaked. Uncloaking may fail for a while; until it succeeds
//! the window stays on record.

use vstd::prelude::*;

use crate::filter::{Decision, WindowInfo, WS_EX_TOOLWINDOW};
use crate::text::{chars_of, eq_ignore_ascii_case, is_text, same_ignoring_case};
use crate::transition::Hide;

verus! {

/// Uncloaking is given up after more failures than this.
pub const MAX_ATTEMPTS: u32 = 250;

/// The flag of an alpha that is in force.
pub const LWA_ALPHA: u32 = 0x2;

/// A window that this program has cloaked.
#[derive(Debug, Clone, Copy, PartialEq, Eq, Structural)]
pub struct CloakEntry {
    pub hwnd: u64,
    /// It has the tool window style.
    pub tool: bool,
    /// It is to be uncloaked, which has failed so far.
    pub pending: bool,
    /// How often uncloaking it again has failed.
    pub attempts: u32,
}

/// The windows that this program has cloaked.
#[derive(Debug)]
pub struct CloakSet {
    entries: Vec<CloakEntry>,
}

/// What is done first to bring a window to a level: the tool window style is
/// set or taken, then the window is cloaked or uncloaked.
#[derive(Debug, Clone, Copy, PartialEq, Eq, Structural)]
pub struct CloakPlan {
    pub tool: Option<bool>,
    pub cloak: Option<bool>,
}

/// What is done about a window that another run may have left hidden.
#[derive(Debug, Clone, Copy, PartialEq, Eq, Structural)]
pub enum Leftover {
    Nothing,
    /// It is uncloaked, and its opacity is mended.
    Uncloak,
    /// Its opacity is mended.
    Mend,
}

// ---------------------------------------------------------------------------
// Model
// ---------------------------------------------------------------------------

/// Where the first entry of the window from `i` on stands, or the end.
pub open spec fn entry_from(s: Seq<CloakEntry>, h: u64, i: int) -> int
    decreases s.len() - i,
{
    if 0 <= i < s.len() && s[i].hwnd != h {
        entry_from(s, h, i + 1)
    } else {
        i
    }
}

/// Where the entry of the window stands, or the end.
pub open spec fn entry_of(s: Seq<CloakEntry>, h: u64) -> int {
    entry_from(s, h, 0)
}

/// The window is on record.
pub open spec fn on_record(s: Seq<CloakEntry>, h: u64) -> bool {
    exists|i: int| 0 <= i < s.len() && (#[trigger] s[i]).hwnd == h
}

/// No window is on record twice; a window that waits to be uncloaked no longer
/// has the tool window style; and none has failed too often.
pub open spec fn orderly(s: Seq<CloakEntry>) -> bool {
    &&& forall|i: int, j: int|
        0 <= i < s.len() && 0 <= j < s.len() && i != j ==> (#[trigger] s[i]).hwnd != (
        #[trigger] s[j]).hwnd
    &&& forall|i: int|
        0 <= i < s.len() ==> {
            &&& (#[trigger] s[i]).pending ==> !s[i].tool
            &&& s[i].attempts <= MAX_ATTEMPTS
        }
}

/// What is done first to bring a window to a level.
pub open spec fn plan(s: Seq<CloakEntry>, h: u64, level: Hide) -> CloakPlan {
    let i = entry_of(s, h);
    if i < s.len() {
        match level {
            Hide::Show => CloakPlan {
                tool: if s[i].tool {
                    Some(false)
                } else {
                    None
                },
                cloak: Some(false),
            },
            Hide::Render => CloakPlan {
                tool: if s[i].tool {
                    Some(false)
                } else {
                    None
                },
                cloak: None,
            },
            Hide::Full => CloakPlan {
                tool: if s[i].tool {
                    None
                } else {
                    Some(true)
                },
                cloak: None,
            },
        }
    } else {
        match level {
            Hide::Show => CloakPlan { tool: None, cloak: None },
            _ => CloakPlan { tool: None, cloak: Some(true) },
        }
    }
}

/// The record once the plan is made.
pub open spec fn begun(s: Seq<CloakEntry>, h: u64, level: Hide) -> Seq<CloakEntry> {
    let i = entry_of(s, h);
    if i < s.len() {
        match level {
            Hide::Show => s.update(i, CloakEntry { tool: false, ..s[i] }),
            Hide::Render => s.update(i, CloakEntry { tool: false, pending: false, ..s[i] }),
            Hide::Full => s.update(i, CloakEntry { tool: true, pending: false, ..s[i] }),
        }
    } else {
        s
    }
}

/// The record once the window was cloaked or uncloaked as planned, or that
/// failed.
pub open spec fn finished(s: Seq<CloakEntry>, h: u64, level: Hide, done: bool) -> Seq<CloakEntry> {
    let i = entry_of(s, h);
    match level {
        Hide::Show => if i < s.len() {
            if done {
                s.remove(i)
            } else {
                s.update(i, CloakEntry { tool: false, pending: true, ..s[i] })
            }
        } else {
            s
        },
        _ => if i < s.len() || !done {
            s
        } else {
            s.push(
                CloakEntry { hwnd: h, tool: level is Full, pending: false, attempts: 0 },
            )
        },
    }
}

/// The tool window style is set once a window out of the lists was cloaked.
pub open spec fn marked_after(s: Seq<CloakEntry>, h: u64, level: Hide, done: bool) -> bool {
    level is Full && done && entry_of(s, h) >= s.len()
}

/// The record once a waiting window was tried again: it goes where the window
/// is gone, was uncloaked, or has failed too often.
pub open spec fn retried(s: Seq<CloakEntry>, h: u64, alive: bool, done: bool) -> Seq<CloakEntry> {
    let i = entry_of(s, h);
    if i >= s.len() || !s[i].pending {
        s
    } else if !alive || done || s[i].attempts >= MAX_ATTEMPTS {
        s.remove(i)
    } else {
        s.update(i, CloakEntry { attempts: (s[i].attempts + 1) as u32, ..s[i] })
    }
}

/// The windows among the first `n` that wait to be uncloaked.
pub open spec fn waiting(s: Seq<CloakEntry>, n: int) -> Seq<u64>
    decreases n,
{
    if n <= 0 {
        Seq::empty()
    } else if s[n - 1].pending {
        waiting(s, n - 1).push(s[n - 1].hwnd)
    } else {
        waiting(s, n - 1)
    }
}

/// The window's style with the tool window bit set or taken.
pub open spec fn tool_style(ex: u64, on: bool) -> u64 {
    if on {
        ex | (WS_EX_TOOLWINDOW as u64)
    } else {
        ex & !(WS_EX_TOOLWINDOW as u64)
    }
}

/// The window hosts an application of the system that keeps it cloaked itself.
pub open spec fn hosts_app(w: WindowInfo) -> bool {
    ||| w.exe_name matches Some(exe) && same_ignoring_case(exe@, "ApplicationFrameHost.exe"@)
    ||| w.class_name@ == "Windows.UI.Core.CoreWindow"@
    ||| w.class_name@ == "ApplicationFrameWindow"@
}

/// What is done about a window that another run may have left hidden.
pub open spec fn leftover(w: WindowInfo, d: Decision) -> Leftover {
    if !w.is_visible {
        Leftover::Nothing
    } else if w.is_cloaked {
        if hosts_app(w) {
            Leftover::Nothing
        } else {
            Leftover::Uncloak
        }
    } else if d is Manage {
        Leftover::Mend
    } else {
        Leftover::Nothing
    }
}

impl View for CloakSet {
    type V = Seq<CloakEntry>;

    closed spec fn view(&self) -> Seq<CloakEntry> {
        self.entries@
    }
}

// ---------------------------------------------------------------------------
// Operations
// ---------------------------------------------------------------------------

proof fn lemma_entry_from(s: Seq<CloakEntry>, h: u64, i: int)
    requires
        0 <= i <= s.len(),
    ensures
        i <= entry_from(s, h, i) <= s.len(),
        entry_from(s, h, i) < s.len() ==> s[entry_from(s, h, i)].hwnd == h,
        forall|k: int| i <= k < entry_from(s, h, i) ==> (#[trigger] s[k]).hwnd != h,
    decreases s.len() - i,
{
    if i < s.len() && s[i].hwnd != h {
        lemma_entry_from(s, h, i + 1);
    }
}

proof fn lemma_entry_at(s: Seq<CloakEntry>, h: u64, i: int)
    requires
        orderly(s),
        0 <= i < s.len(),
        s[i].hwnd == h,
    ensures
        entry_of(s, h) == i,
{
    lemma_entry_from(s, h, 0);
    let k = entry_of(s, h);
    if k < s.len() && k != i {
        assert(s[k].hwnd != s[i].hwnd);
    }
}

impl CloakSet {
    /// No window is cloaked.
    pub fn new() -> (r: CloakSet)
        ensures
            r@ == Seq::<CloakEntry>::empty(),
            orderly(r@),
    {
        CloakSet { entries: Vec::new() }
    }

    /// Where the entry of the window stands, or the end.
    fn position(&self, h: u64) -> (r: usize)
        ensures
            r == entry_of(self@, h),
            r <= self@.len(),
            self@.len() == self.entries.len(),
            r < self@.len() ==> self@[r as int].hwnd == h,
    {
        let mut i: usize = 0;
        while i < self.entries.len()
            invariant
                i <= self.entries.len(),
                entry_of(self.entries@, h) == entry_from(self.entries@, h, i as int),
            decreases self.entries.len() - i,
        {
            if self.entries[i].hwnd == h {
                return i;
            }
            i += 1;
        }
        i
    }

    /// This program has cloaked the window.
    pub fn contains(&self, h: u64) -> (r: bool)
        ensures
            r == on_record(self@, h),
    {
        let i: usize = self.position(h);
        proof {
            lemma_entry_from(self@, h, 0);
        }
        i < self.entries.len()
    }

    /// Starts to bring a window to a level: what is done first. Where that
    /// cloaks or uncloaks the window, `finish` is told how it went.
    pub fn begin(&mut self, h: u64, level: Hide) -> (r: CloakPlan)
        requires
            orderly(old(self)@),
        ensures
            r == plan(old(self)@, h, level),
            final(self)@ == begun(old(self)@, h, level),
            orderly(final(self)@),
    {
        let i: usize = self.position(h);
        let ghost s = self@;
        if i == self.entries.len() {
            return match level {
                Hide::Show => CloakPlan { tool: None, cloak: None },
                Hide::Render => CloakPlan { tool: None, cloak: Some(true) },
                Hide::Full => CloakPlan { tool: None, cloak: Some(true) },
            };
        }
        let e = self.entries[i];
        assert(e == s[i as int]);
        match level {
            Hide::Show => {
                self.entries[i] = CloakEntry { tool: false, ..e };
                CloakPlan {
                    tool: if e.tool {
                        Some(false)
                    } else {
                        None
                    },
                    cloak: Some(false),
                }
            },
            Hide::Render => {
                self.entries[i] = CloakEntry { tool: false, pending: false, ..e };
                CloakPlan {
                    tool: if e.tool {
                        Some(false)
                    } else {
                        None
                    },
                    cloak: None,
                }
            },
            Hide::Full => {
                self.entries[i] = CloakEntry { tool: true, pending: false, ..e };
                CloakPlan {
                    tool: if e.tool {
                        None
                    } else {
                        Some(true)
                    },
                    cloak: None,
                }
            },
        }
    }

    /// Takes note of a window that was cloaked or uncloaked as planned, or of
    /// the failure. The tool window style is now set where the result is true.
    pub fn finish(&mut self, h: u64, level: Hide, done: bool) -> (r: bool)
        requires
            orderly(old(self)@),
        ensures
            r == marked_after(old(self)@, h, level, done),
            final(self)@ == finished(old(self)@, h, level, done),
            orderly(final(self)@),
    {
        let i: usize = self.position(h);
        let ghost s = self@;
        proof {
            lemma_entry_from(s, h, 0);
        }
        match level {
            Hide::Show => {
                if i < self.entries.len() {
                    if done {
                        self.entries.remove(i);
                        assert(self@ =~= s.remove(i as int));
                        proof {
                            lemma_remove_orderly(s, i as int);
                        }
                    } else {
                        let e = self.entries[i];
                        self.entries[i] = CloakEntry { tool: false, pending: true, ..e };
                    }
                }
                false
            },
            Hide::Render => {
                if i == self.entries.len() && done {
                    self.entries.push(
                        CloakEntry { hwnd: h, tool: false, pending: false, attempts: 0 },
                    );
                }
                false
            },
            Hide::Full => {
                if i == self.entries.len() && done {
                    self.entries.push(
                        CloakEntry { hwnd: h, tool: true, pending: false, attempts: 0 },
                    );
                    true
                } else {
                    false
                }
            },
        }
    }

    /// The windows that wait to be uncloaked.
    pub fn pending(&self) -> (r: Vec<u64>)
        ensures
            r@ == waiting(self@, self@.len() as int),
    {
        let mut out: Vec<u64> = Vec::new();
        let mut i: usize = 0;
        while i < self.entries.len()
            invariant
                i <= self.entries.len(),
                out@ == waiting(self.entries@, i as int),
            decreases self.entries.len() - i,
        {
            if self.entries[i].pending {
                out.push(self.entries[i].hwnd);
            }
            i += 1;
        }
        out
    }

    /// Takes note of a waiting window that was tried again: whether the window
    /// is still there, and whether it was uncloaked.
    pub fn retry(&mut self, h: u64, alive: bool, done: bool)
        requires
            orderly(old(self)@),
        ensures
            final(self)@ == retried(old(self)@, h, alive, done),
            orderly(final(self)@),
    {
        let i: usize = self.position(h);
        let ghost s = self@;
        if i == self.entries.len() {
            return ;
        }
        let e = self.entries[i];
        assert(e == s[i as int]);
        if !e.pending {
            return ;
        }
        if !alive || done || e.attempts >= MAX_ATTEMPTS {
            self.entries.remove(i);
            assert(self@ =~= s.remove(i as int));
            proof {
                lemma_remove_orderly(s, i as int);
            }
        } else {
            self.entries[i] = CloakEntry { attempts: e.attempts + 1, ..e };
        }
    }

    /// Some window waits to be uncloaked.
    pub fn is_waiting(&self) -> (r: bool)
        ensures
            r == exists|i: int| 0 <= i < self@.len() && (#[trigger] self@[i]).pending,
    {
        let mut i: usize = 0;
        while i < self.entries.len()
            invariant
                i <= self.entries.len(),
                forall|k: int| 0 <= k < i ==> !(#[trigger] self@[k]).pending,
            decreases self.entries.len() - i,
        {
            if self.entries[i].pending {
                assert(self@[i as int].pending);
                return true;
            }
            i += 1;
        }
        false
    }

    /// Takes all windows off the record; each of them is to be shown.
    pub fn drain(&mut self) -> (r: Vec<u64>)
        ensures
            r@ == old(self)@.map_values(|e: CloakEntry| e.hwnd),
            final(self)@ == Seq::<CloakEntry>::empty(),
            orderly(final(self)@),
    {
        let ghost s = self@;
        let mut all: Vec<CloakEntry> = Vec::new();
        std::mem::swap(&mut all, &mut self.entries);
        let mut out: Vec<u64> = Vec::new();
        let mut i: usize = 0;
        while i < all.len()
            invariant
                i <= all.len(),
                all@ == s,
                out.len() == i,
                forall|k: int| 0 <= k < i ==> #[trigger] out@[k] == s[k].hwnd,
            decreases all.len() - i,
        {
            out.push(all[i].hwnd);
            i += 1;
        }
        assert(out@ =~= s.map_values(|e: CloakEntry| e.hwnd));
        out
    }
}

proof fn lemma_remove_orderly(s: Seq<CloakEntry>, i: int)
    requires
        orderly(s),
        0 <= i < s.len(),
    ensures
        orderly(s.remove(i)),
        entry_of(s.remove(i), s[i].hwnd) == s.len() - 1,
        !on_record(s.remove(i), s[i].hwnd),
{
    let t = s.remove(i);
    assert forall|a: int| 0 <= a < t.len() implies (#[trigger] t[a]).hwnd != s[i].hwnd by {
        let x = if a < i {
            a
        } else {
            a + 1
        };
        assert(t[a] == s[x]);
        assert(s[x].hwnd != s[i].hwnd);
    }
    assert forall|a: int, b: int|
        0 <= a < t.len() && 0 <= b < t.len() && a != b implies (#[trigger] t[a]).hwnd != (
    #[trigger] t[b]).hwnd by {
        let x = if a < i {
            a
        } else {
            a + 1
        };
        let y = if b < i {
            b
        } else {
            b + 1
        };
        assert(t[a] == s[x]);
        assert(t[b] == s[y]);
        assert(s[x].hwnd != s[y].hwnd);
    }
    assert forall|a: int| 0 <= a < t.len() implies {
        &&& (#[trigger] t[a]).pending ==> !t[a].tool
        &&& t[a].attempts <= MAX_ATTEMPTS
    } by {
        let x = if a < i {
            a
        } else {
            a + 1
        };
        assert(t[a] == s[x]);
    }
    lemma_entry_from(t, s[i].hwnd, 0);
}

/// The style to give a window to set or take the tool window bit; none where it
/// has it so already.
pub fn change_tool_style(ex: u64, on: bool) -> (r: Option<u64>)
    ensures
        r == if tool_style(ex, on) == ex {
            None
        } else {
            Some(tool_style(ex, on))
        },
{
    let new: u64 = if on {
        ex | (WS_EX_TOOLWINDOW as u64)
    } else {
        ex & !(WS_EX_TOOLWINDOW as u64)
    };
    if new != ex {
        Some(new)
    } else {
        None
    }
}

/// The window hosts an application of the system that keeps it cloaked itself.
fn is_app_host(w: &WindowInfo) -> (r: bool)
    ensures
        r == hosts_app(*w),
{
    let host: bool = match &w.exe_name {
        Some(exe) => eq_ignore_ascii_case(
            &chars_of(exe.as_str()),
            &chars_of("ApplicationFrameHost.exe"),
        ),
        None => false,
    };
    let class = chars_of(w.class_name.as_str());
    host || is_text(&class, "Windows.UI.Core.CoreWindow") || is_text(
        &class,
        "ApplicationFrameWindow",
    )
}

/// What is done about a window that another run may have left hidden.
pub fn mend_leftover(w: &WindowInfo, d: &Decision) -> (r: Leftover)
    ensures
        r == leftover(*w, *d),
{
    if !w.is_visible {
        Leftover::Nothing
    } else if w.is_cloaked {
        if is_app_host(w) {
            Leftover::Nothing
        } else {
            Leftover::Uncloak
        }
    } else {
        match d {
            Decision::Manage => Leftover::Mend,
            _ => Leftover::Nothing,
        }
    }
}

// ---------------------------------------------------------------------------
// Laws
// ---------------------------------------------------------------------------

/// How a window really is.
pub struct Reality {
    pub cloaked: bool,
    pub tool: bool,
}

/// The window with the tool window style set or taken, where that is planned.
pub open spec fn after_tool(w: Reality, tool: Option<bool>) -> Reality {
    match tool {
        Some(on) => Reality { tool: on, ..w },
        None => w,
    }
}

/// The window cloaked or uncloaked, where that is planned and succeeds.
pub open spec fn after_cloak(w: Reality, cloak: Option<bool>, done: bool) -> Reality {
    match cloak {
        Some(on) => if done {
            Reality { cloaked: on, ..w }
        } else {
            w
        },
        None => w,
    }
}

/// The record is true of the window: it has an entry as long as it is cloaked,
/// with the style it has.
pub open spec fn true_of(s: Seq<CloakEntry>, h: u64, w: Reality) -> bool {
    let i = entry_of(s, h);
    &&& w.cloaked == (i < s.len())
    &&& w.tool == (i < s.len() && s[i].tool)
}

/// The record once a window was brought to a level, as far as that succeeded.
pub open spec fn brought(s: Seq<CloakEntry>, h: u64, level: Hide, done: bool) -> Seq<CloakEntry> {
    if plan(s, h, level).cloak is Some {
        finished(begun(s, h, level), h, level, done)
    } else {
        begun(s, h, level)
    }
}

/// Bringing a window to a level keeps the record true of it, whether or not
/// cloaking succeeds: a window is on record exactly as long as it is cloaked. At
/// no moment does a window that is not cloaked have the tool window style. Where
/// all succeeds the window ends at its level.
pub proof fn law_record_is_true(
    s: Seq<CloakEntry>,
    h: u64,
    level: Hide,
    done: bool,
    w: Reality,
)
    requires
        orderly(s),
        true_of(s, h, w),
    ensures
        ({
            let p = plan(s, h, level);
            let first = after_tool(w, p.tool);
            let second = after_cloak(first, p.cloak, done);
            let mid = begun(s, h, level);
            let last = if p.cloak is Some && marked_after(mid, h, level, done) {
                after_tool(second, Some(true))
            } else {
                second
            };
            &&& true_of(brought(s, h, level, done), h, last)
            &&& orderly(brought(s, h, level, done))
            &&& first.tool ==> first.cloaked
            &&& second.tool ==> second.cloaked
            &&& last.tool ==> last.cloaked
            &&& done ==> last.cloaked == !(level is Show)
            &&& done ==> last.tool == (level is Full)
        }),
{
    lemma_entry_from(s, h, 0);
    let i = entry_of(s, h);
    let mid = begun(s, h, level);
    if i < s.len() {
        lemma_entry_at(s, h, i);
        assert(orderly(mid));
        lemma_entry_at(mid, h, i);
        let end = finished(mid, h, level, done);
        if level is Show {
            if done {
                lemma_remove_orderly(mid, i);
            } else {
                assert(orderly(end));
                lemma_entry_at(end, h, i);
            }
        }
    } else {
        let end = finished(mid, h, level, done);
        if !(level is Show) && done {
            assert(end[i].hwnd == h);
            assert(orderly(end)) by {
                assert forall|a: int, b: int|
                    0 <= a < end.len() && 0 <= b < end.len() && a != b implies (
                #[trigger] end[a]).hwnd != (#[trigger] end[b]).hwnd by {}
            }
            lemma_entry_at(end, h, i);
        }
    }
}

/// Bringing a window to a level leaves the record of every other window as it
/// was.
pub proof fn law_others_stay(
    s: Seq<CloakEntry>,
    h: u64,
    level: Hide,
    done: bool,
    e: CloakEntry,
)
    requires
        orderly(s),
        e.hwnd != h,
    ensures
        brought(s, h, level, done).contains(e) == s.contains(e),
{
    lemma_entry_from(s, h, 0);
    let i = entry_of(s, h);
    let mid = begun(s, h, level);
    if i < s.len() {
        assert(orderly(mid));
        lemma_entry_at(mid, h, i);
    }
    let end = brought(s, h, level, done);
    if s.contains(e) {
        let k = choose|k: int| 0 <= k < s.len() && s[k] == e;
        assert(mid[k] == e);
        if end.len() < mid.len() && k > i {
            assert(end[k - 1] == e);
        } else {
            assert(end[k] == e);
        }
    }
    if end.contains(e) {
        let k = choose|k: int| 0 <= k < end.len() && end[k] == e;
        if end.len() < mid.len() && k >= i {
            assert(s[k + 1] == e);
        } else if k < s.len() {
            assert(s[k] == e);
        }
    }
}

/// A window that waits to be uncloaked stays on record until it was uncloaked,
/// is gone, or has failed too often.
pub proof fn law_waits_until_uncloaked(s: Seq<CloakEntry>, h: u64, alive: bool, done: bool)
    requires
        orderly(s),
        on_record(s, h),
        s[entry_of(s, h)].pending,
    ensures
        on_record(retried(s, h, alive, done), h) == (alive && !done && s[entry_of(s, h)].attempts
            < MAX_ATTEMPTS),
        orderly(retried(s, h, alive, done)),
{
    lemma_entry_from(s, h, 0);
    let k = choose|k: int| 0 <= k < s.len() && (#[trigger] s[k]).hwnd == h;
    lemma_entry_at(s, h, k);
    let t = retried(s, h, alive, done);
    if alive && !done && s[k].attempts < MAX_ATTEMPTS {
        assert(t[k].hwnd == h);
    } else {
        lemma_remove_orderly(s, k);
    }
}

/// The windows that wait are just those on record that are to be uncloaked.
pub proof fn law_waiting_windows(s: Seq<CloakEntry>, n: int, h: u64)
    requires
        0 <= n <= s.len(),
    ensures
        waiting(s, n).contains(h) <==> exists|i: int|
            0 <= i < n && (#[trigger] s[i]).pending && s[i].hwnd == h,
    decreases n,
{
    if n > 0 {
        law_waiting_windows(s, n - 1, h);
        let front = waiting(s, n - 1);
        let all = waiting(s, n);
        if front.contains(h) {
            assert(all[front.index_of(h)] == h);
        }
        if s[n - 1].pending && s[n - 1].hwnd == h {
            assert(all[front.len() as int] == h);
        }
        if all.contains(h) {
            let k = all.index_of(h);
            if k < front.len() {
                assert(front[k] == h);
            } else {
                assert(s[n - 1].pending && s[n - 1].hwnd == h);
            }
        }
        if exists|i: int| 0 <= i < n && (#[trigger] s[i]).pending && s[i].hwnd == h {
            let i = choose|i: int| 0 <= i < n && (#[trigger] s[i]).pending && s[i].hwnd == h;
            if i < n - 1 {
                assert(s[i].pending && s[i].hwnd == h);
            }
        }
    }
}

/// A window waits to be uncloaked from when that failed until it succeeds or the
/// window is hidden again.
pub proof fn law_when_windows_wait(s: Seq<CloakEntry>, h: u64, level: Hide, done: bool)
    requires
        orderly(s),
        on_record(s, h),
    ensures
        ({
            let after = brought(s, h, level, done);
            let i = entry_of(after, h);
            match level {
                Hide::Show => if done {
                    !on_record(after, h)
                } else {
                    on_record(after, h) && after[i].hwnd == h && after[i].pending
                },
                _ => on_record(after, h) && after[i].hwnd == h && !after[i].pending,
            }
        }),
{
    lemma_entry_from(s, h, 0);
    let i = entry_of(s, h);
    let mid = begun(s, h, level);
    assert(orderly(mid)) by {
        assert forall|a: int, b: int| 0 <= a < mid.len() && 0 <= b < mid.len() && a != b implies (
        #[trigger] mid[a]).hwnd != (#[trigger] mid[b]).hwnd by {
            assert(s[a].hwnd != s[b].hwnd);
        }
        assert forall|a: int| 0 <= a < mid.len() implies {
            &&& (#[trigger] mid[a]).pending ==> !mid[a].tool
            &&& mid[a].attempts <= MAX_ATTEMPTS
        } by {
            assert(s[a].pending ==> !s[a].tool);
        }
    }
    assert(mid[i].hwnd == h);
    lemma_entry_at(mid, h, i);
    let after = brought(s, h, level, done);
    if level is Show && done {
        lemma_remove_orderly(mid, i);
    } else {
        assert(after[i].hwnd == h);
        lemma_entry_from(after, h, 0);
        let k = entry_of(after, h);
        if k < i {
            assert(s[k].hwnd != s[i].hwnd);
        }
    }
}

/// A window that another run left cloaked is uncloaked, unless the system keeps it
/// so itself; one that is drawn and to be tiled has its opacity mended; invisible
/// windows and all others are left alone.
pub proof fn law_leftovers(w: WindowInfo, d: Decision)
    ensures
        !w.is_visible ==> leftover(w, d) is Nothing,
        w.is_visible && w.is_cloaked ==> {
            let host = (w.exe_name matches Some(exe) && same_ignoring_case(
                exe@,
                "ApplicationFrameHost.exe"@,
            )) || w.class_name@ == "Windows.UI.Core.CoreWindow"@ || w.class_name@
                == "ApplicationFrameWindow"@;
            if host {
                leftover(w, d) is Nothing
            } else {
                leftover(w, d) is Uncloak
            }
        },
        w.is_visible && !w.is_cloaked ==> if d == Decision::Manage {
            leftover(w, d) is Mend
        } else {
            leftover(w, d) is Nothing
        },
{
}

} // verus!
