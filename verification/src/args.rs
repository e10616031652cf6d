//! What the window manager's arguments ask for.

use vstd::prelude::*;

use crate::config::{hex_digit, hexadecimal};
use crate::setup::{argument_behind, behind, flagged, has_flag, law_flagged};
use crate::text::{
    chars_of, is_text, join, joined, part, split_whitespace, starts, starts_with, string_of,
    strings, texts, words,
};

verus! {

/// What the arguments ask for.
#[derive(Debug, Clone, Copy, PartialEq, Eq, Structural)]
pub enum Mode {
    /// Tell what would be tiled.
    DryRun,
    /// Put windows back to where a run that was killed found them.
    Restore,
    /// Show windows that were left cloaked.
    UncloakAll,
    /// Start at login or no longer; none where neither was said.
    Autostart(Option<bool>),
    /// Cloak or uncloak one window; none where its handle is not understood.
    Cloak(Option<isize>, bool),
    Run,
}

// ---------------------------------------------------------------------------
// Model
// ---------------------------------------------------------------------------

/// The text without `0x` at its start, however often it stands there.
pub open spec fn without_prefix(s: Seq<char>) -> Seq<char>
    decreases s.len(),
{
    if s.len() >= 2 && starts(s, "0x"@) {
        without_prefix(s.skip(2))
    } else {
        s
    }
}

/// The number of hexadecimal digits with a sign or none, where there is at least
/// one digit and the number fits a handle.
pub open spec fn signed_hexadecimal(t: Seq<char>) -> Option<isize> {
    let from: int = if t.len() > 0 && (t[0] == '-' || t[0] == '+') {
        1
    } else {
        0
    };
    if t.len() <= from {
        None
    } else {
        match hexadecimal(t, from, t.len() as int) {
            Some(v) => {
                let n = if t[0] == '-' {
                    -v
                } else {
                    v
                };
                if isize::MIN <= n <= isize::MAX {
                    Some(n as isize)
                } else {
                    None
                }
            },
            None => None,
        }
    }
}

/// The handle that a text gives.
pub open spec fn handle(s: Seq<char>) -> Option<isize> {
    signed_hexadecimal(without_prefix(s))
}

/// What is said of starting at login.
pub open spec fn switch_of(arg: Option<Seq<char>>) -> Option<bool> {
    match arg {
        Some(s) => if s == "on"@ {
            Some(true)
        } else if s == "off"@ {
            Some(false)
        } else {
            None
        },
        None => None,
    }
}

/// What the arguments ask for: the first of these that is among them.
pub open spec fn mode_of(args: Seq<Seq<char>>) -> Mode {
    if flagged(args, "--dry-run"@) {
        Mode::DryRun
    } else if flagged(args, "--restore"@) {
        Mode::Restore
    } else if flagged(args, "--uncloak-all"@) {
        Mode::UncloakAll
    } else if flagged(args, "--autostart"@) {
        Mode::Autostart(switch_of(behind(args, "--autostart"@, 1)))
    } else if flagged(args, "--cloak"@) {
        Mode::Cloak(
            match behind(args, "--cloak"@, 1) {
                Some(s) => handle(s),
                None => None,
            },
            behind(args, "--cloak"@, 2) != Some("off"@),
        )
    } else {
        Mode::Run
    }
}

/// The program of a command line and its arguments, with one space between
/// words; none where it is blank.
pub open spec fn program(line: Seq<char>) -> Option<(Seq<char>, Seq<char>)> {
    let w = words(line);
    if w.len() == 0 {
        None
    } else {
        let rest = w.skip(1);
        Some((w[0], joined(rest, " "@, rest.len() as int)))
    }
}

// ---------------------------------------------------------------------------
// Operations
// ---------------------------------------------------------------------------

/// More digits make no smaller number.
proof fn lemma_hexadecimal_grows(s: Seq<char>, from: int, j: int, n: int)
    requires
        from <= j <= n,
        hexadecimal(s, from, n) is Some,
    ensures
        hexadecimal(s, from, j) is Some,
        0 <= hexadecimal(s, from, j)->0 <= hexadecimal(s, from, n)->0,
    decreases n - from, n - j,
{
    if j < n {
        lemma_hexadecimal_grows(s, from, j, n - 1);
    } else if from < n {
        lemma_hexadecimal_grows(s, from, n - 1, n - 1);
    }
}

/// The value of a hexadecimal digit.
fn digit(c: char) -> (r: Option<i128>)
    ensures
        match r {
            Some(d) => hex_digit(c) == Some(d as int) && 0 <= d < 16,
            None => hex_digit(c) is None,
        },
{
    if '0' <= c && c <= '9' {
        Some((c as u8 - 48) as i128)
    } else if 'a' <= c && c <= 'f' {
        Some((c as u8 - 87) as i128)
    } else if 'A' <= c && c <= 'F' {
        Some((c as u8 - 55) as i128)
    } else {
        None
    }
}

/// The number of hexadecimal digits with a sign or none.
fn read_signed(t: &Vec<char>) -> (r: Option<isize>)
    ensures
        r == signed_hexadecimal(t@),
{
    if t.len() == 0 {
        return None;
    }
    let negative: bool = t[0] == '-';
    let from: usize = if negative || t[0] == '+' {
        1
    } else {
        0
    };
    if t.len() <= from {
        return None;
    }
    let mut v: i128 = 0;
    let mut i: usize = from;
    while i < t.len()
        invariant
            from <= i <= t.len(),
            from < t.len(),
            from == if t@[0] == '-' || t@[0] == '+' {
                1int
            } else {
                0
            },
            hexadecimal(t@, from as int, i as int) == Some(v as int),
            0 <= v <= 0x1_0000_0000_0000_0000,
        decreases t.len() - i,
    {
        match digit(t[i]) {
            Some(d) => {
                v = v * 16 + d;
                if v > 0x1_0000_0000_0000_0000 {
                    proof {
                        if hexadecimal(t@, from as int, t.len() as int) is Some {
                            lemma_hexadecimal_grows(t@, from as int, i + 1, t.len() as int);
                        }
                    }
                    return None;
                }
            },
            None => {
                proof {
                    if hexadecimal(t@, from as int, t.len() as int) is Some {
                        lemma_hexadecimal_grows(t@, from as int, i + 1, t.len() as int);
                    }
                }
                return None;
            },
        }
        i += 1;
    }
    let n: i128 = if negative {
        -v
    } else {
        v
    };
    if n < isize::MIN as i128 || n > isize::MAX as i128 {
        None
    } else {
        Some(n as isize)
    }
}

/// The handle that a text gives.
pub fn parse_handle(s: &str) -> (r: Option<isize>)
    ensures
        r == handle(s@),
{
    let mut v = chars_of(s);
    proof {
        reveal_strlit("0x");
    }
    while v.len() >= 2 && starts_with(&v, "0x")
        invariant
            without_prefix(s@) == without_prefix(v@),
        decreases v.len(),
    {
        let rest = part(&v, 2, v.len());
        assert(rest@ =~= v@.skip(2));
        v = rest;
    }
    read_signed(&v)
}

/// What the arguments ask for.
pub fn parse_mode(args: &Vec<String>) -> (r: Mode)
    ensures
        r == mode_of(strings(args@)),
{
    if has_flag(args, "--dry-run") {
        Mode::DryRun
    } else if has_flag(args, "--restore") {
        Mode::Restore
    } else if has_flag(args, "--uncloak-all") {
        Mode::UncloakAll
    } else if has_flag(args, "--autostart") {
        let arg = argument_behind(args, "--autostart", 1);
        match arg {
            Some(s) => {
                let v = chars_of(s.as_str());
                if is_text(&v, "on") {
                    Mode::Autostart(Some(true))
                } else if is_text(&v, "off") {
                    Mode::Autostart(Some(false))
                } else {
                    Mode::Autostart(None)
                }
            },
            None => Mode::Autostart(None),
        }
    } else if has_flag(args, "--cloak") {
        let hwnd: Option<isize> = match argument_behind(args, "--cloak", 1) {
            Some(s) => parse_handle(s.as_str()),
            None => None,
        };
        let on: bool = match argument_behind(args, "--cloak", 2) {
            Some(s) => !is_text(&chars_of(s.as_str()), "off"),
            None => true,
        };
        Mode::Cloak(hwnd, on)
    } else {
        Mode::Run
    }
}

/// The program of a command line and its arguments.
pub fn split_command_line(line: &str) -> (r: Option<(String, String)>)
    ensures
        match r {
            Some((p, a)) => program(line@) == Some((p@, a@)),
            None => program(line@) is None,
        },
{
    let w = split_whitespace(&chars_of(line));
    let ghost views = texts(w@);
    if w.len() == 0 {
        return None;
    }
    assert(views[0] == w@[0]@);
    let head = string_of(&w[0]);
    let mut rest: Vec<String> = Vec::new();
    let mut i: usize = 1;
    while i < w.len()
        invariant
            1 <= i <= w.len(),
            views == texts(w@),
            rest.len() == i - 1,
            forall|k: int| 0 <= k < i - 1 ==> (#[trigger] rest@[k])@ == views[k + 1],
        decreases w.len() - i,
    {
        assert(views[i as int] == w@[i as int]@);
        rest.push(string_of(&w[i]));
        i += 1;
    }
    assert(strings(rest@) =~= views.skip(1));
    let args = join(&rest, " ");
    Some((head, args))
}

// ---------------------------------------------------------------------------
// Laws
// ---------------------------------------------------------------------------

/// The window manager runs where none of its flags is given, and a flag alone
/// asks for what it names.
pub proof fn law_modes(args: Seq<Seq<char>>)
    ensures
        ({
            let dry = args.contains("--dry-run"@);
            let restore = args.contains("--restore"@);
            let uncloak = args.contains("--uncloak-all"@);
            let autostart = args.contains("--autostart"@);
            let cloak = args.contains("--cloak"@);
            let m = mode_of(args);
            &&& m is Run <==> !dry && !restore && !uncloak && !autostart && !cloak
            &&& m is DryRun <==> dry
            &&& m is Restore <==> restore && !dry
            &&& m is UncloakAll <==> uncloak && !dry && !restore
            &&& m is Autostart <==> autostart && !dry && !restore && !uncloak
            &&& m is Cloak <==> cloak && !dry && !restore && !uncloak && !autostart
        }),
{
    law_flagged(args, "--dry-run"@);
    law_flagged(args, "--restore"@);
    law_flagged(args, "--uncloak-all"@);
    law_flagged(args, "--autostart"@);
    law_flagged(args, "--cloak"@);
}

/// A handle is read the same with `0x` before it, and a minus sign before its
/// digits turns its sign.
pub proof fn law_handles(s: Seq<char>)
    requires
        s.len() > 0,
        hex_digit(s[0]) is Some,
        !starts(s, "0x"@),
    ensures
        handle("0x"@ + s) == handle(s),
        handle(s) matches Some(n) ==> n >= 0 && handle(seq!['-'] + s) == Some((-n) as isize),
{
    reveal_strlit("0x");
    let p = "0x"@ + s;
    assert(p.subrange(0, 2) =~= "0x"@);
    assert(p.skip(2) =~= s);
    let m = seq!['-'] + s;
    assert(m[0] == '-');
    assert(!starts(m, "0x"@)) by {
        if starts(m, "0x"@) {
            assert(m.subrange(0, 2)[0] == m[0]);
        }
    }
    lemma_hexadecimal_shift(s, m, s.len() as int);
    if hexadecimal(s, 0, s.len() as int) is Some {
        lemma_hexadecimal_grows(s, 0, 0, s.len() as int);
    }
}

/// Digits make the same number one place further on.
proof fn lemma_hexadecimal_shift(s: Seq<char>, m: Seq<char>, n: int)
    requires
        m == seq!['-'] + s,
        0 <= n <= s.len(),
    ensures
        hexadecimal(m, 1, n + 1) == hexadecimal(s, 0, n),
    decreases n,
{
    if n > 0 {
        lemma_hexadecimal_shift(s, m, n - 1);
    }
}

} // verus!
