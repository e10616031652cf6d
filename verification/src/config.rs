//! What the configuration file comes to.

use vstd::prelude::*;

use crate::arith::{clamp_i32, clamped};
use crate::events::{command, command_of, parse_command, CommandView, Hotkey};
use crate::filter::{regex_valid, Pattern, Rule, RuleAction};
use crate::geometry::Margin;
use crate::text::{
    ascii_lower, chars_of, is_ascii, is_text, same_chars, same_ignoring_case, split, split_by,
    texts, trim, trimmed,
};

verus! {

/// Modifier bits of a hotkey.
pub const MOD_ALT: u32 = 0x1;

pub const MOD_CONTROL: u32 = 0x2;

pub const MOD_SHIFT: u32 = 0x4;

pub const MOD_WIN: u32 = 0x8;

/// The border colour the system gives a window.
pub const COLOR_DEFAULT: u32 = 0xFFFF_FFFF;

/// No border colour.
pub const COLOR_NONE: u32 = 0xFFFF_FFFE;

/// A key and the command it gives, as the configuration has them.
#[derive(Debug, Clone)]
pub struct Bind {
    pub key: String,
    pub command: String,
}

/// A rule as the configuration has it.
#[derive(Debug, Clone)]
pub struct RuleEntry {
    pub exe: Option<String>,
    pub class: Option<String>,
    pub title: Option<String>,
    pub action: String,
}

/// The configuration file's settings.
#[derive(Debug, Clone)]
pub struct Settings {
    pub gap: Option<i32>,
    pub anim_ms: Option<u64>,
    pub hide: Option<String>,
    pub border_focused: Option<String>,
    pub border_unfocused: Option<String>,
    pub border_thickness: Option<i32>,
    /// How opaque windows without the focus are; none for not dimmed.
    pub unfocused_alpha: Option<u8>,
    /// How opaque pinned windows are; none for opaque.
    pub pinned_alpha: Option<u8>,
    pub margin: Option<Vec<i32>>,
    pub ws_port: Option<u16>,
    /// Programs started with the window manager.
    pub startup: Vec<String>,
    pub rules: Vec<RuleEntry>,
    pub keybinds: Vec<Bind>,
}

/// The configuration in force.
#[derive(Debug)]
pub struct Config {
    pub gap: i32,
    /// How long a slide lasts; zero for none.
    pub anim_ms: u64,
    /// Windows out of view are cloaked rather than parked.
    pub cloak: bool,
    /// Border colours; where neither is given borders are left alone.
    pub border_focused: Option<u32>,
    pub border_unfocused: Option<u32>,
    /// How thick the frames round windows are; zero for none.
    pub border_thickness: i32,
    pub unfocused_alpha: Option<u8>,
    pub pinned_alpha: u8,
    pub margin: Margin,
    pub ws_port: Option<u16>,
    pub startup: Vec<String>,
    pub rules: Vec<Rule>,
    pub hotkeys: Vec<Hotkey>,
}

// ---------------------------------------------------------------------------
// Model: keys
// ---------------------------------------------------------------------------

/// The bit of a modifier.
pub open spec fn modifier(m: Seq<char>) -> Option<u32> {
    if m == "alt"@ {
        Some(MOD_ALT)
    } else if m == "ctrl"@ || m == "control"@ {
        Some(MOD_CONTROL)
    } else if m == "shift"@ {
        Some(MOD_SHIFT)
    } else if m == "win"@ || m == "super"@ {
        Some(MOD_WIN)
    } else {
        None
    }
}

/// The bits of the first `n` modifiers, spaces round each left off.
pub open spec fn modifiers(parts: Seq<Seq<char>>, n: int) -> Option<u32>
    decreases n,
{
    if n <= 0 {
        Some(0)
    } else {
        match (modifiers(parts, n - 1), modifier(trimmed(parts[n - 1]))) {
            (Some(bits), Some(bit)) => Some(bits | bit),
            _ => None,
        }
    }
}

/// An ASCII digit.
pub open spec fn is_digit(c: char) -> bool {
    '0' <= c <= '9'
}

/// An ASCII letter or digit.
pub open spec fn is_alphanumeric(c: char) -> bool {
    is_digit(c) || 'a' <= c <= 'z' || 'A' <= c <= 'Z'
}

/// The code of a letter's or digit's key: that of its capital.
pub open spec fn capital(c: char) -> u32 {
    if 'a' <= c <= 'z' {
        (c as u32 - 32) as u32
    } else {
        c as u32
    }
}

/// All characters are digits.
pub open spec fn all_digits(s: Seq<char>) -> bool {
    forall|i: int| 0 <= i < s.len() ==> is_digit(#[trigger] s[i])
}

/// The number that digits make.
pub open spec fn decimal(s: Seq<char>) -> int
    decreases s.len(),
{
    if s.len() == 0 {
        0
    } else {
        decimal(s.drop_last()) * 10 + (s.last() as int - '0' as int)
    }
}

/// The code of a function key: `f` and a number from 1 to 24.
pub open spec fn function_key(k: Seq<char>) -> Option<u32> {
    let digits = k.skip(1);
    if k.len() > 1 && k[0] == 'f' && all_digits(digits) && 1 <= decimal(digits) <= 24 {
        Some((0x70 + decimal(digits) - 1) as u32)
    } else {
        None
    }
}

/// The code of a key.
pub open spec fn key_code(k: Seq<char>) -> Option<u32> {
    if k.len() == 1 && is_alphanumeric(k[0]) {
        Some(capital(k[0]))
    } else if k == "comma"@ {
        Some(0xBC)
    } else if k == "period"@ {
        Some(0xBE)
    } else if k == "minus"@ {
        Some(0xBD)
    } else if k == "slash"@ {
        Some(0xBF)
    } else if k == "semicolon"@ {
        Some(0xBA)
    } else if k == "space"@ {
        Some(0x20)
    } else if k == "enter"@ || k == "return"@ {
        Some(0x0D)
    } else if k == "tab"@ {
        Some(0x09)
    } else if k == "esc"@ || k == "escape"@ {
        Some(0x1B)
    } else if k == "backspace"@ {
        Some(0x08)
    } else if k == "left"@ {
        Some(0x25)
    } else if k == "up"@ {
        Some(0x26)
    } else if k == "right"@ {
        Some(0x27)
    } else if k == "down"@ {
        Some(0x28)
    } else if k == "pageup"@ {
        Some(0x21)
    } else if k == "pagedown"@ {
        Some(0x22)
    } else if k == "home"@ {
        Some(0x24)
    } else if k == "end"@ {
        Some(0x23)
    } else {
        function_key(k)
    }
}

/// The modifier bits and key code of a key combination: parts between `+`, of
/// which the last is the key. A combination without modifier is none.
pub open spec fn key(s: Seq<char>) -> Option<(u32, u32)> {
    let parts = split_by(s, '+');
    match (modifiers(parts, parts.len() - 1), key_code(trimmed(parts.last()))) {
        (Some(bits), Some(code)) => if bits == 0 {
            None
        } else {
            Some((bits, code))
        },
        _ => None,
    }
}

// ---------------------------------------------------------------------------
// Model: colours, margins, rules
// ---------------------------------------------------------------------------

/// The value of a hexadecimal digit.
pub open spec fn hex_digit(c: char) -> Option<int> {
    if '0' <= c <= '9' {
        Some(c as int - '0' as int)
    } else if 'a' <= c <= 'f' {
        Some(c as int - 'a' as int + 10)
    } else if 'A' <= c <= 'F' {
        Some(c as int - 'A' as int + 10)
    } else {
        None
    }
}

/// The number that the hexadecimal digits from `from` up to `n` make.
pub open spec fn hexadecimal(s: Seq<char>, from: int, n: int) -> Option<int>
    decreases n - from,
{
    if n <= from {
        Some(0)
    } else {
        match (hexadecimal(s, from, n - 1), hex_digit(s[n - 1])) {
            (Some(v), Some(d)) => Some(v * 16 + d),
            _ => None,
        }
    }
}

/// A colour with its red and blue parts exchanged.
pub open spec fn exchanged(rgb: int) -> int {
    (rgb % 256) * 65536 + (rgb / 256 % 256) * 256 + rgb / 65536
}

/// The border colour that a text gives: `default`, `none`, or `#` and six
/// hexadecimal digits.
pub open spec fn color(s: Seq<char>) -> Option<u32> {
    if s == "default"@ {
        Some(COLOR_DEFAULT)
    } else if s == "none"@ {
        Some(COLOR_NONE)
    } else if s.len() == 7 && s[0] == '#' {
        match hexadecimal(s, 1, 7) {
            Some(rgb) => Some(exchanged(rgb) as u32),
            None => None,
        }
    } else {
        None
    }
}

/// The colour of a text that may not be given.
pub open spec fn color_of(s: Option<String>) -> Option<u32> {
    match s {
        Some(t) => color(t@),
        None => None,
    }
}

/// One margin, moved into bounds.
pub open spec fn bounded(v: i32) -> i32 {
    clamped(v as int, 0, 1000) as i32
}

/// The margins that a list gives: one for all sides, one for top and bottom and
/// one for the sides, or four from the top clockwise. Any other list is none.
pub open spec fn margins(m: Option<Vec<i32>>) -> Margin {
    match m {
        Some(v) => if v@.len() == 1 {
            Margin { top: bounded(v@[0]), right: bounded(v@[0]), bottom: bounded(v@[0]), left: bounded(v@[0]) }
        } else if v@.len() == 2 {
            Margin { top: bounded(v@[0]), right: bounded(v@[1]), bottom: bounded(v@[0]), left: bounded(v@[1]) }
        } else if v@.len() == 4 {
            Margin { top: bounded(v@[0]), right: bounded(v@[1]), bottom: bounded(v@[2]), left: bounded(v@[3]) }
        } else {
            Margin { top: 0, right: 0, bottom: 0, left: 0 }
        },
        None => Margin { top: 0, right: 0, bottom: 0, left: 0 },
    }
}

/// A rule as mathematical values.
#[verifier::ext_equal]
pub struct RuleView {
    pub exe: Option<Seq<char>>,
    pub class: Option<Seq<char>>,
    pub title: Option<Seq<char>>,
    pub action: RuleAction,
}

/// The source of a pattern that may not be given.
pub open spec fn source(p: Option<Pattern>) -> Option<Seq<char>> {
    match p {
        Some(p) => Some(p@),
        None => None,
    }
}

/// A rule as mathematical values.
pub open spec fn rule_view(r: Rule) -> RuleView {
    RuleView {
        exe: source(r.exe),
        class: source(r.class),
        title: source(r.title),
        action: r.action,
    }
}

/// What a rule's action is called.
pub open spec fn action(s: Seq<char>) -> Option<RuleAction> {
    if s == "ignore"@ {
        Some(RuleAction::Ignore)
    } else if s == "manage"@ {
        Some(RuleAction::Manage)
    } else if s == "float"@ {
        Some(RuleAction::Float)
    } else {
        None
    }
}

/// The pattern of a text that may not be given; none where it is no regular
/// expression.
pub open spec fn compiled(p: Option<String>) -> Option<Option<Seq<char>>> {
    match p {
        None => Some(None),
        Some(s) => if regex_valid(s@) {
            Some(Some(s@))
        } else {
            None
        },
    }
}

/// The rule of an action and its patterns, each none where it does not compile.
/// A rule with an unknown action or a bad pattern is left out.
pub open spec fn assembled(
    name: Seq<char>,
    exe: Option<Option<Seq<char>>>,
    class: Option<Option<Seq<char>>>,
    title: Option<Option<Seq<char>>>,
) -> Option<RuleView> {
    match (action(name), exe, class, title) {
        (Some(a), Some(exe), Some(class), Some(title)) => Some(
            RuleView { exe, class, title, action: a },
        ),
        _ => None,
    }
}

/// The rule of an entry.
pub open spec fn rule_of(e: RuleEntry) -> Option<RuleView> {
    assembled(e.action@, compiled(e.exe), compiled(e.class), compiled(e.title))
}

/// The rules of the first `n` entries, in their order.
pub open spec fn rules_of(entries: Seq<RuleEntry>, n: int) -> Seq<RuleView>
    decreases n,
{
    if n <= 0 {
        Seq::empty()
    } else {
        match rule_of(entries[n - 1]) {
            Some(r) => rules_of(entries, n - 1).push(r),
            None => rules_of(entries, n - 1),
        }
    }
}

// ---------------------------------------------------------------------------
// Model: key bindings
// ---------------------------------------------------------------------------

/// A key binding as mathematical values.
#[verifier::ext_equal]
pub struct BindView {
    pub key: Seq<char>,
    pub command: Seq<char>,
}

impl View for Bind {
    type V = BindView;

    open spec fn view(&self) -> BindView {
        BindView { key: self.key@, command: self.command@ }
    }
}

/// The models of key bindings.
pub open spec fn bind_views(v: Seq<Bind>) -> Seq<BindView> {
    v.map_values(|b: Bind| b@)
}

/// The first text comes before the second in the order of their characters,
/// both being the same up to `i`.
pub open spec fn before_from(a: Seq<char>, b: Seq<char>, i: int) -> bool
    decreases b.len() - i,
{
    if i >= b.len() {
        false
    } else if i >= a.len() {
        true
    } else if a[i] != b[i] {
        a[i] < b[i]
    } else {
        before_from(a, b, i + 1)
    }
}

/// The first text comes before the second.
pub open spec fn before(a: Seq<char>, b: Seq<char>) -> bool {
    before_from(a, b, 0)
}

/// The bindings stand in the order of their keys, none twice.
pub open spec fn ordered(s: Seq<BindView>) -> bool {
    forall|i: int, j: int|
        0 <= i < j < s.len() ==> before(#[trigger] s[i].key, #[trigger] s[j].key)
}

/// The bindings with one put in at its place from `i` on, in place of one of
/// the same key.
pub open spec fn put_from(s: Seq<BindView>, b: BindView, i: int) -> Seq<BindView>
    decreases s.len() - i,
{
    if i >= s.len() {
        s.push(b)
    } else if s[i].key == b.key {
        s.update(i, b)
    } else if before(b.key, s[i].key) {
        s.insert(i, b)
    } else {
        put_from(s, b, i + 1)
    }
}

/// The bindings with the first `n` of a list put in, one after the other.
pub open spec fn put_all(s: Seq<BindView>, list: Seq<BindView>, n: int) -> Seq<BindView>
    decreases n,
{
    if n <= 0 {
        s
    } else {
        put_from(put_all(s, list, n - 1), list[n - 1], 0)
    }
}

/// The bindings that are there without configuration.
pub open spec fn default_list() -> Seq<BindView> {
    seq![
        BindView { key: "alt+h"@, command: "focus left"@ },
        BindView { key: "alt+l"@, command: "focus right"@ },
        BindView { key: "alt+j"@, command: "focus down"@ },
        BindView { key: "alt+k"@, command: "focus up"@ },
        BindView { key: "alt+shift+h"@, command: "move-column left"@ },
        BindView { key: "alt+shift+l"@, command: "move-column right"@ },
        BindView { key: "alt+shift+j"@, command: "move-window down"@ },
        BindView { key: "alt+shift+k"@, command: "move-window up"@ },
        BindView { key: "alt+u"@, command: "workspace down"@ },
        BindView { key: "alt+i"@, command: "workspace up"@ },
        BindView { key: "alt+shift+comma"@, command: "consume"@ },
        BindView { key: "alt+shift+period"@, command: "expel"@ },
        BindView { key: "alt+r"@, command: "cycle-width"@ },
        BindView { key: "alt+f"@, command: "maximize"@ },
        BindView { key: "alt+shift+f"@, command: "fullscreen"@ },
        BindView { key: "alt+comma"@, command: "scroll left"@ },
        BindView { key: "alt+period"@, command: "scroll right"@ },
        BindView { key: "alt+shift+q"@, command: "close"@ },
        BindView { key: "alt+shift+e"@, command: "quit"@ },
    ]
}

/// The bindings in force: the default ones with the configured ones put in.
pub open spec fn merged(configured: Seq<BindView>) -> Seq<BindView> {
    put_all(
        put_all(Seq::empty(), default_list(), default_list().len() as int),
        configured,
        configured.len() as int,
    )
}

/// The text with its capitals as small letters.
pub uninterp spec fn lowercase(s: Seq<char>) -> Seq<char>;

/// The configured bindings with their keys in small letters.
pub open spec fn lowered(binds: Seq<BindView>) -> Seq<BindView> {
    binds.map_values(|b: BindView| BindView { key: lowercase(b.key), command: b.command })
}

/// All keys are ASCII.
pub open spec fn has_ascii_keys(binds: Seq<Bind>) -> bool {
    forall|i: int| 0 <= i < binds.len() ==> is_ascii((#[trigger] binds[i]).key@)
}

/// The bindings with the ASCII capitals of their keys as small letters.
pub open spec fn small_keys(binds: Seq<BindView>) -> Seq<BindView> {
    binds.map_values(|b: BindView| BindView { key: ascii_lower(b.key), command: b.command })
}

/// A hotkey as mathematical values.
#[verifier::ext_equal]
pub struct HotkeyView {
    pub mods: u32,
    pub vk: u32,
    pub command: Option<CommandView>,
}

/// A hotkey as mathematical values.
pub open spec fn hotkey_view(h: Hotkey) -> HotkeyView {
    HotkeyView { mods: h.mods, vk: h.vk, command: command_of(h.event) }
}

/// The models of hotkeys.
pub open spec fn hotkey_views(v: Seq<Hotkey>) -> Seq<HotkeyView> {
    v.map_values(|h: Hotkey| hotkey_view(h))
}

/// The models of rules.
pub open spec fn rule_views(v: Seq<Rule>) -> Seq<RuleView> {
    v.map_values(|r: Rule| rule_view(r))
}

/// The hotkey of a binding. The commands `none` and nothing switch a key off; a
/// key or a command that is not understood is left out.
pub open spec fn hotkey_of(b: BindView) -> Option<HotkeyView> {
    if b.command.len() == 0 || b.command == "none"@ {
        None
    } else {
        match (key(b.key), command(b.command)) {
            (Some((mods, vk)), Some(c)) => Some(HotkeyView { mods, vk, command: Some(c) }),
            _ => None,
        }
    }
}

/// The hotkeys of the first `n` bindings, in their order.
pub open spec fn hotkeys_of(binds: Seq<BindView>, n: int) -> Seq<HotkeyView>
    decreases n,
{
    if n <= 0 {
        Seq::empty()
    } else {
        match hotkey_of(binds[n - 1]) {
            Some(h) => hotkeys_of(binds, n - 1).push(h),
            None => hotkeys_of(binds, n - 1),
        }
    }
}

// ---------------------------------------------------------------------------
// Operations: keys
// ---------------------------------------------------------------------------

/// The bit of a modifier.
fn modifier_bit(m: &Vec<char>) -> (r: Option<u32>)
    ensures
        r == modifier(m@),
{
    if is_text(m, "alt") {
        Some(MOD_ALT)
    } else if is_text(m, "ctrl") || is_text(m, "control") {
        Some(MOD_CONTROL)
    } else if is_text(m, "shift") {
        Some(MOD_SHIFT)
    } else if is_text(m, "win") || is_text(m, "super") {
        Some(MOD_WIN)
    } else {
        None
    }
}

/// More digits make no smaller number.
proof fn lemma_decimal_grows(s: Seq<char>, n: int)
    requires
        0 <= n <= s.len(),
        all_digits(s),
    ensures
        0 <= decimal(s.take(n)) <= decimal(s),
    decreases s.len(),
{
    if n == s.len() {
        assert(s.take(n) =~= s);
        if n > 0 {
            assert forall|i: int| 0 <= i < s.drop_last().len() implies is_digit(
                #[trigger] s.drop_last()[i],
            ) by {
                assert(is_digit(s[i]));
            }
            lemma_decimal_grows(s.drop_last(), n - 1);
            assert(s.drop_last().take(n - 1) =~= s.drop_last());
            assert(is_digit(s[n - 1]));
        }
    } else {
        assert forall|i: int| 0 <= i < s.drop_last().len() implies is_digit(
            #[trigger] s.drop_last()[i],
        ) by {
            assert(is_digit(s[i]));
        }
        lemma_decimal_grows(s.drop_last(), n);
        assert(s.drop_last().take(n) =~= s.take(n));
        assert(is_digit(s[s.len() - 1]));
    }
}

/// The code of a function key.
fn function_key_code(k: &Vec<char>) -> (r: Option<u32>)
    ensures
        r == function_key(k@),
{
    if k.len() < 2 || k[0] != 'f' {
        return None;
    }
    let ghost digits = k@.skip(1);
    let mut n: u32 = 0;
    let mut i: usize = 1;
    assert(digits.take(0) =~= Seq::empty());
    while i < k.len()
        invariant
            1 <= i <= k.len(),
            k.len() > 1,
            k@[0] == 'f',
            digits == k@.skip(1),
            forall|j: int| 0 <= j < i - 1 ==> is_digit(#[trigger] digits[j]),
            n == decimal(digits.take(i - 1)),
            n <= 24,
        decreases k.len() - i,
    {
        let c = k[i];
        assert(c == digits[i - 1]);
        if !('0' <= c && c <= '9') {
            assert(!is_digit(digits[i - 1]));
            return None;
        }
        let ghost next = digits.take(i as int);
        assert(next.drop_last() =~= digits.take(i - 1));
        assert(next.last() == c);
        n = n * 10 + (c as u32 - '0' as u32);
        if n > 24 {
            proof {
                if all_digits(digits) {
                    lemma_decimal_grows(digits, i as int);
                }
            }
            return None;
        }
        i += 1;
    }
    assert(digits.take(i - 1) =~= digits);
    if n >= 1 {
        Some(0x70 + n - 1)
    } else {
        None
    }
}

/// The code of a key.
fn code_of_key(k: &Vec<char>) -> (r: Option<u32>)
    ensures
        r == key_code(k@),
{
    if k.len() == 1 {
        let c = k[0];
        if 'a' <= c && c <= 'z' {
            return Some(c as u32 - 32);
        }
        if ('0' <= c && c <= '9') || ('A' <= c && c <= 'Z') {
            return Some(c as u32);
        }
    }
    if is_text(k, "comma") {
        Some(0xBC)
    } else if is_text(k, "period") {
        Some(0xBE)
    } else if is_text(k, "minus") {
        Some(0xBD)
    } else if is_text(k, "slash") {
        Some(0xBF)
    } else if is_text(k, "semicolon") {
        Some(0xBA)
    } else if is_text(k, "space") {
        Some(0x20)
    } else if is_text(k, "enter") || is_text(k, "return") {
        Some(0x0D)
    } else if is_text(k, "tab") {
        Some(0x09)
    } else if is_text(k, "esc") || is_text(k, "escape") {
        Some(0x1B)
    } else if is_text(k, "backspace") {
        Some(0x08)
    } else if is_text(k, "left") {
        Some(0x25)
    } else if is_text(k, "up") {
        Some(0x26)
    } else if is_text(k, "right") {
        Some(0x27)
    } else if is_text(k, "down") {
        Some(0x28)
    } else if is_text(k, "pageup") {
        Some(0x21)
    } else if is_text(k, "pagedown") {
        Some(0x22)
    } else if is_text(k, "home") {
        Some(0x24)
    } else if is_text(k, "end") {
        Some(0x23)
    } else {
        function_key_code(k)
    }
}

/// A modifier that is not understood spoils the rest.
proof fn lemma_modifiers_fail(parts: Seq<Seq<char>>, j: int, n: int)
    requires
        j <= n,
        modifiers(parts, j) is None,
    ensures
        modifiers(parts, n) is None,
    decreases n - j,
{
    if j < n {
        lemma_modifiers_fail(parts, j, n - 1);
    }
}

/// The modifier bits and key code of a key combination such as `alt+shift+h`.
pub fn parse_key(s: &str) -> (r: Option<(u32, u32)>)
    ensures
        r == key(s@),
{
    let parts = split(&chars_of(s), '+');
    let ghost views = texts(parts@);
    let last: usize = parts.len() - 1;
    let mut bits: u32 = 0;
    let mut i: usize = 0;
    while i < last
        invariant
            i <= last,
            last == parts.len() - 1,
            views == texts(parts@),
            views == split_by(s@, '+'),
            modifiers(views, i as int) == Some(bits),
        decreases last - i,
    {
        assert(views[i as int] == parts@[i as int]@);
        let m = trim(&parts[i]);
        match modifier_bit(&m) {
            Some(bit) => {
                bits = bits | bit;
            },
            None => {
                proof {
                    lemma_modifiers_fail(views, i + 1, last as int);
                }
                return None;
            },
        }
        i += 1;
    }
    if bits == 0 {
        return None;
    }
    assert(views[last as int] == parts@[last as int]@);
    let k = trim(&parts[last]);
    match code_of_key(&k) {
        Some(code) => Some((bits, code)),
        None => None,
    }
}

// ---------------------------------------------------------------------------
// Operations: colours, margins, rules
// ---------------------------------------------------------------------------

/// The value of a hexadecimal digit.
fn digit_value(c: char) -> (r: Option<u32>)
    ensures
        match r {
            Some(d) => hex_digit(c) == Some(d as int) && d < 16,
            None => hex_digit(c) is None,
        },
{
    if '0' <= c && c <= '9' {
        Some(c as u32 - '0' as u32)
    } else if 'a' <= c && c <= 'f' {
        Some(c as u32 - 'a' as u32 + 10)
    } else if 'A' <= c && c <= 'F' {
        Some(c as u32 - 'A' as u32 + 10)
    } else {
        None
    }
}

/// A digit that is none spoils the number.
proof fn lemma_hexadecimal_fails(s: Seq<char>, from: int, j: int, n: int)
    requires
        from < j <= n,
        hexadecimal(s, from, j) is None,
    ensures
        hexadecimal(s, from, n) is None,
    decreases n - j,
{
    if j < n {
        lemma_hexadecimal_fails(s, from, j, n - 1);
    }
}

/// A colour with its red and blue parts exchanged.
fn exchange(rgb: u32) -> (r: u32)
    requires
        rgb <= 0xFF_FFFF,
    ensures
        r == exchanged(rgb as int),
{
    assert(((rgb & 0xFF) << 16) | (rgb & 0xFF00) | (rgb >> 16) == (rgb % 256) * 65536 + (rgb / 256
        % 256) * 256 + rgb / 65536) by (bit_vector)
        requires
            rgb <= 0xFF_FFFF,
    ;
    ((rgb & 0xFF) << 16) | (rgb & 0xFF00) | (rgb >> 16)
}

/// The border colour that a text gives.
pub fn parse_color(s: &str) -> (r: Option<u32>)
    ensures
        r == color(s@),
{
    let v = chars_of(s);
    if is_text(&v, "default") {
        return Some(COLOR_DEFAULT);
    }
    if is_text(&v, "none") {
        return Some(COLOR_NONE);
    }
    if v.len() != 7 || v[0] != '#' {
        return None;
    }
    let mut rgb: u32 = 0;
    let mut bound: u32 = 1;
    let mut i: usize = 1;
    while i < 7
        invariant
            v.len() == 7,
            v@ == s@,
            1 <= i <= 7,
            s@ != "default"@,
            s@ != "none"@,
            s@[0] == '#',
            hexadecimal(v@, 1, i as int) == Some(rgb as int),
            i == 1 ==> bound == 1,
            i == 2 ==> bound == 0x10,
            i == 3 ==> bound == 0x100,
            i == 4 ==> bound == 0x1000,
            i == 5 ==> bound == 0x1_0000,
            i == 6 ==> bound == 0x10_0000,
            i == 7 ==> bound == 0x100_0000,
            rgb < bound <= 0x100_0000,
        decreases 7 - i,
    {
        match digit_value(v[i]) {
            Some(d) => {
                rgb = rgb * 16 + d;
                bound = bound * 16;
            },
            None => {
                proof {
                    lemma_hexadecimal_fails(v@, 1, i + 1, 7);
                }
                return None;
            },
        }
        i += 1;
    }
    Some(exchange(rgb))
}

/// The colour of a text that may not be given.
fn optional_color(s: &Option<String>) -> (r: Option<u32>)
    ensures
        r == color_of(*s),
{
    match s {
        Some(t) => parse_color(t.as_str()),
        None => None,
    }
}

/// The margins that a list gives.
pub fn parse_margin(m: &Option<Vec<i32>>) -> (r: Margin)
    ensures
        r == margins(*m),
{
    match m {
        Some(v) => {
            if v.len() == 1 {
                let a: i32 = clamp_i32(v[0], 0, 1000);
                Margin { top: a, right: a, bottom: a, left: a }
            } else if v.len() == 2 {
                let a: i32 = clamp_i32(v[0], 0, 1000);
                let b: i32 = clamp_i32(v[1], 0, 1000);
                Margin { top: a, right: b, bottom: a, left: b }
            } else if v.len() == 4 {
                Margin {
                    top: clamp_i32(v[0], 0, 1000),
                    right: clamp_i32(v[1], 0, 1000),
                    bottom: clamp_i32(v[2], 0, 1000),
                    left: clamp_i32(v[3], 0, 1000),
                }
            } else {
                Margin { top: 0, right: 0, bottom: 0, left: 0 }
            }
        },
        None => Margin { top: 0, right: 0, bottom: 0, left: 0 },
    }
}

/// The action of a rule by its name.
fn action_by_name(name: &str) -> (r: Option<RuleAction>)
    ensures
        r == action(name@),
{
    let v = chars_of(name);
    if is_text(&v, "ignore") {
        Some(RuleAction::Ignore)
    } else if is_text(&v, "manage") {
        Some(RuleAction::Manage)
    } else if is_text(&v, "float") {
        Some(RuleAction::Float)
    } else {
        None
    }
}

/// The source of a pattern, none where it does not compile.
pub open spec fn compiled_source(p: Option<Option<Pattern>>) -> Option<Option<Seq<char>>> {
    match p {
        Some(p) => Some(source(p)),
        None => None,
    }
}

/// The pattern of a text that may not be given; none where it is no regular
/// expression.
fn compile(p: &Option<String>) -> (r: Option<Option<Pattern>>)
    ensures
        compiled_source(r) == compiled(*p),
{
    match p {
        None => Some(None),
        Some(s) => match Pattern::new(s.as_str()) {
            Some(p) => Some(Some(p)),
            None => None,
        },
    }
}

/// The rule of an action and its patterns, each none where it does not compile.
pub fn assemble_rule(
    name: &str,
    exe: Option<Option<Pattern>>,
    class: Option<Option<Pattern>>,
    title: Option<Option<Pattern>>,
) -> (r: Option<Rule>)
    ensures
        match r {
            Some(rule) => assembled(
                name@,
                compiled_source(exe),
                compiled_source(class),
                compiled_source(title),
            ) == Some(rule_view(rule)),
            None => assembled(
                name@,
                compiled_source(exe),
                compiled_source(class),
                compiled_source(title),
            ) is None,
        },
{
    match action_by_name(name) {
        Some(action) => match exe {
            Some(exe) => match class {
                Some(class) => match title {
                    Some(title) => Some(Rule { exe, class, title, action }),
                    None => None,
                },
                None => None,
            },
            None => None,
        },
        None => None,
    }
}

/// The rules of the configuration, in their order; entries that are not
/// understood are left out.
pub fn build_rules(entries: &Vec<RuleEntry>) -> (r: Vec<Rule>)
    ensures
        rule_views(r@) == rules_of(entries@, entries.len() as int),
{
    let mut out: Vec<Rule> = Vec::new();
    let mut i: usize = 0;
    assert(rule_views(out@) =~= rules_of(entries@, 0));
    while i < entries.len()
        invariant
            i <= entries.len(),
            rule_views(out@) == rules_of(entries@, i as int),
        decreases entries.len() - i,
    {
        let e = &entries[i];
        let ghost before = rule_views(out@);
        if let Some(rule) = assemble_rule(
            e.action.as_str(),
            compile(&e.exe),
            compile(&e.class),
            compile(&e.title),
        ) {
            let ghost v = rule_view(rule);
            out.push(rule);
            assert(rule_views(out@) =~= before.push(v));
        }
        i += 1;
    }
    out
}

// ---------------------------------------------------------------------------
// Operations: key bindings
// ---------------------------------------------------------------------------

/// Calls `str::to_lowercase` of std. ASCII letters become small, other ASCII
/// characters stay; what becomes of other characters is Unicode's.
#[verifier::external_body]
fn to_lowercase(s: &str) -> (r: String)
    ensures
        r@ == lowercase(s@),
        is_ascii(s@) ==> r@ == ascii_lower(s@),
{
    s.to_lowercase()
}

/// One binding.
fn bind(key: &str, command: &str) -> (r: Bind)
    ensures
        r@ == (BindView { key: key@, command: command@ }),
{
    Bind { key: key.to_owned(), command: command.to_owned() }
}

/// The bindings that are there without configuration.
pub fn default_binds() -> (r: Vec<Bind>)
    ensures
        bind_views(r@) == default_list(),
{
    let mut v: Vec<Bind> = Vec::new();
    v.push(bind("alt+h", "focus left"));
    v.push(bind("alt+l", "focus right"));
    v.push(bind("alt+j", "focus down"));
    v.push(bind("alt+k", "focus up"));
    v.push(bind("alt+shift+h", "move-column left"));
    v.push(bind("alt+shift+l", "move-column right"));
    v.push(bind("alt+shift+j", "move-window down"));
    v.push(bind("alt+shift+k", "move-window up"));
    v.push(bind("alt+u", "workspace down"));
    v.push(bind("alt+i", "workspace up"));
    v.push(bind("alt+shift+comma", "consume"));
    v.push(bind("alt+shift+period", "expel"));
    v.push(bind("alt+r", "cycle-width"));
    v.push(bind("alt+f", "maximize"));
    v.push(bind("alt+shift+f", "fullscreen"));
    v.push(bind("alt+comma", "scroll left"));
    v.push(bind("alt+period", "scroll right"));
    v.push(bind("alt+shift+q", "close"));
    v.push(bind("alt+shift+e", "quit"));
    assert(bind_views(v@) =~= default_list());
    v
}

/// The first text comes before the second.
fn comes_before(a: &Vec<char>, b: &Vec<char>) -> (r: bool)
    ensures
        r == before(a@, b@),
{
    let mut i: usize = 0;
    while i < b.len()
        invariant
            i <= b.len(),
            before(a@, b@) == before_from(a@, b@, i as int),
        decreases b.len() - i,
    {
        if i >= a.len() {
            return true;
        }
        if a[i] != b[i] {
            return a[i] < b[i];
        }
        i += 1;
    }
    false
}

/// Puts a binding in at its place, in place of one of the same key.
fn put_bind(binds: &mut Vec<Bind>, key: &str, command: &str)
    ensures
        bind_views(final(binds)@) == put_from(
            bind_views(old(binds)@),
            BindView { key: key@, command: command@ },
            0,
        ),
{
    let k = chars_of(key);
    let ghost s = bind_views(binds@);
    let ghost b = BindView { key: key@, command: command@ };
    let mut i: usize = 0;
    while i < binds.len()
        invariant
            i <= binds.len(),
            k@ == key@,
            s == bind_views(binds@),
            *binds == *old(binds),
            b == (BindView { key: key@, command: command@ }),
            put_from(s, b, 0) == put_from(s, b, i as int),
        decreases binds.len() - i,
    {
        let other = chars_of(binds[i].key.as_str());
        assert(s[i as int].key == other@);
        if same_chars(&other, &k) {
            let fresh = bind(key, command);
            binds[i] = fresh;
            assert(bind_views(binds@) =~= s.update(i as int, b));
            return;
        }
        if comes_before(&k, &other) {
            let fresh = bind(key, command);
            binds.insert(i, fresh);
            assert(bind_views(binds@) =~= s.insert(i as int, b));
            return;
        }
        i += 1;
    }
    let fresh = bind(key, command);
    binds.push(fresh);
    assert(bind_views(binds@) =~= s.push(b));
}

/// The bindings in force: the default ones with the configured ones put in.
pub fn merge_binds(configured: &Vec<Bind>) -> (r: Vec<Bind>)
    ensures
        bind_views(r@) == merged(bind_views(configured@)),
{
    let defaults = default_binds();
    let mut out: Vec<Bind> = Vec::new();
    let mut i: usize = 0;
    assert(bind_views(out@) =~= Seq::empty());
    while i < defaults.len()
        invariant
            i <= defaults.len(),
            bind_views(defaults@) == default_list(),
            bind_views(out@) == put_all(Seq::empty(), default_list(), i as int),
        decreases defaults.len() - i,
    {
        assert(default_list()[i as int] == defaults@[i as int]@);
        put_bind(&mut out, defaults[i].key.as_str(), defaults[i].command.as_str());
        i += 1;
    }
    let ghost start = bind_views(out@);
    let ghost list = bind_views(configured@);
    let mut j: usize = 0;
    while j < configured.len()
        invariant
            j <= configured.len(),
            list == bind_views(configured@),
            bind_views(out@) == put_all(start, list, j as int),
        decreases configured.len() - j,
    {
        assert(list[j as int] == configured@[j as int]@);
        put_bind(&mut out, configured[j].key.as_str(), configured[j].command.as_str());
        j += 1;
    }
    assert(bind_views(defaults@).len() == default_list().len());
    out
}

/// The configured bindings with their keys in small letters.
fn lower_keys(binds: &Vec<Bind>) -> (r: Vec<Bind>)
    ensures
        bind_views(r@) == lowered(bind_views(binds@)),
        forall|k: int|
            0 <= k < binds.len() && is_ascii((#[trigger] binds@[k]).key@) ==> r@[k].key@ == ascii_lower(
                binds@[k].key@,
            ),
{
    let mut out: Vec<Bind> = Vec::new();
    let mut i: usize = 0;
    while i < binds.len()
        invariant
            i <= binds.len(),
            out.len() == i,
            forall|k: int|
                0 <= k < i ==> #[trigger] out@[k]@ == lowered(bind_views(binds@))[k] && (is_ascii(
                    binds@[k].key@,
                ) ==> out@[k].key@ == ascii_lower(binds@[k].key@)),
        decreases binds.len() - i,
    {
        let low = to_lowercase(binds[i].key.as_str());
        let b = Bind { key: low, command: binds[i].command.clone() };
        assert(b@ == lowered(bind_views(binds@))[i as int]);
        out.push(b);
        i += 1;
    }
    assert(bind_views(out@) =~= lowered(bind_views(binds@)));
    assert forall|k: int| 0 <= k < binds.len() && is_ascii((#[trigger] binds@[k]).key@) implies out@[k].key@
        == ascii_lower(binds@[k].key@) by {
        assert(out@[k]@ == lowered(bind_views(binds@))[k]);
    }
    out
}

/// The hotkey of a binding.
fn hotkey_of_bind(b: &Bind) -> (r: Option<Hotkey>)
    ensures
        match r {
            Some(h) => hotkey_of(b@) == Some(hotkey_view(h)),
            None => hotkey_of(b@) is None,
        },
{
    let command = chars_of(b.command.as_str());
    if command.len() == 0 || is_text(&command, "none") {
        return None;
    }
    match parse_key(b.key.as_str()) {
        Some((mods, vk)) => match parse_command(b.command.as_str()) {
            Some(event) => Some(Hotkey { mods, vk, event }),
            None => None,
        },
        None => None,
    }
}

/// The hotkeys of the bindings in force, in their order.
pub fn build_hotkeys(binds: &Vec<Bind>) -> (r: Vec<Hotkey>)
    ensures
        hotkey_views(r@) == hotkeys_of(bind_views(binds@), binds.len() as int),
{
    let ghost views = bind_views(binds@);
    let mut out: Vec<Hotkey> = Vec::new();
    let mut i: usize = 0;
    assert(hotkey_views(out@) =~= hotkeys_of(views, 0));
    while i < binds.len()
        invariant
            i <= binds.len(),
            views == bind_views(binds@),
            hotkey_views(out@) == hotkeys_of(views, i as int),
        decreases binds.len() - i,
    {
        let ghost before = hotkey_views(out@);
        assert(views[i as int] == binds@[i as int]@);
        if let Some(h) = hotkey_of_bind(&binds[i]) {
            let ghost v = hotkey_view(h);
            out.push(h);
            assert(hotkey_views(out@) =~= before.push(v));
        }
        i += 1;
    }
    out
}

/// Windows out of view are cloaked.
fn hides_by_cloak(hide: &Option<String>) -> (r: bool)
    ensures
        r == (*hide matches Some(h) && h@ == "cloak"@),
{
    match hide {
        Some(h) => is_text(&chars_of(h.as_str()), "cloak"),
        None => false,
    }
}

impl Config {
    /// The configuration that the settings come to. What is not given has its
    /// default, and numbers are moved into bounds.
    pub fn from_settings(s: Settings) -> (r: Config)
        ensures
            r.gap == clamped(
                match s.gap {
                    Some(g) => g as int,
                    None => 8,
                },
                0,
                200,
            ),
            r.anim_ms == clamped(
                match s.anim_ms {
                    Some(t) => t as int,
                    None => 180,
                },
                0,
                2000,
            ),
            r.cloak == (s.hide matches Some(h) && h@ == "cloak"@),
            r.border_focused == color_of(s.border_focused),
            r.border_unfocused == color_of(s.border_unfocused),
            r.border_thickness == clamped(
                match s.border_thickness {
                    Some(t) => t as int,
                    None => 0,
                },
                0,
                50,
            ),
            r.unfocused_alpha == s.unfocused_alpha,
            r.pinned_alpha == match s.pinned_alpha {
                Some(a) => a,
                None => 255,
            },
            r.margin == margins(s.margin),
            r.ws_port == s.ws_port,
            r.startup == s.startup,
            rule_views(r.rules@) == rules_of(s.rules@, s.rules.len() as int),
            hotkey_views(r.hotkeys@) == ({
                let binds = merged(lowered(bind_views(s.keybinds@)));
                hotkeys_of(binds, binds.len() as int)
            }),
            forall|i: int|
                0 <= i < s.keybinds.len() && is_ascii((#[trigger] s.keybinds@[i]).key@)
                    ==> lowered(bind_views(s.keybinds@))[i].key == ascii_lower(s.keybinds@[i].key@),
            has_ascii_keys(s.keybinds@) ==> hotkey_views(r.hotkeys@) == ({
                let binds = merged(small_keys(bind_views(s.keybinds@)));
                hotkeys_of(binds, binds.len() as int)
            }),
            0 <= r.gap <= 200,
            r.anim_ms <= 2000,
            0 <= r.border_thickness <= 50,
            0 <= r.margin.top <= 1000,
            0 <= r.margin.right <= 1000,
            0 <= r.margin.bottom <= 1000,
            0 <= r.margin.left <= 1000,
            forall|i: int| 0 <= i < r.hotkeys.len() ==> (#[trigger] r.hotkeys@[i]).mods != 0,
    {
        let gap: i32 = match s.gap {
            Some(g) => g,
            None => 8,
        };
        let anim: u64 = match s.anim_ms {
            Some(t) => t,
            None => 180,
        };
        let thickness: i32 = match s.border_thickness {
            Some(t) => t,
            None => 0,
        };
        let pinned: u8 = match s.pinned_alpha {
            Some(a) => a,
            None => 255,
        };
        let low = lower_keys(&s.keybinds);
        let binds = merge_binds(&low);
        let hotkeys = build_hotkeys(&binds);
        proof {
            let given = bind_views(s.keybinds@);
            let low_views = lowered(given);
            assert forall|i: int|
                0 <= i < s.keybinds.len() && is_ascii((#[trigger] s.keybinds@[i]).key@) implies low_views[i].key
                == ascii_lower(s.keybinds@[i].key@) by {
                assert(bind_views(low@)[i] == low@[i]@);
            }
            if has_ascii_keys(s.keybinds@) {
                assert forall|i: int| 0 <= i < given.len() implies #[trigger] low_views[i]
                    == small_keys(given)[i] by {
                    assert(is_ascii(s.keybinds@[i].key@));
                }
                assert(low_views =~= small_keys(given));
            }
            let views = bind_views(binds@);
            assert forall|i: int| 0 <= i < hotkeys.len() implies (#[trigger] hotkeys@[i]).mods
                != 0 by {
                assert(hotkey_views(hotkeys@)[i].mods == hotkeys@[i].mods);
                law_hotkeys_have_modifiers(views, views.len() as int, i);
            }
        }
        let rules = build_rules(&s.rules);
        let cloak = hides_by_cloak(&s.hide);
        let border_focused = optional_color(&s.border_focused);
        let border_unfocused = optional_color(&s.border_unfocused);
        let margin = parse_margin(&s.margin);
        Config {
            gap: clamp_i32(gap, 0, 200),
            anim_ms: if anim > 2000 {
                2000
            } else {
                anim
            },
            cloak,
            border_focused,
            border_unfocused,
            border_thickness: clamp_i32(thickness, 0, 50),
            unfocused_alpha: s.unfocused_alpha,
            pinned_alpha: pinned,
            margin,
            ws_port: s.ws_port,
            startup: s.startup,
            rules,
            hotkeys,
        }
    }
}

/// The border colours with and without the focus; none where neither is given.
pub open spec fn colors(focused: Option<u32>, unfocused: Option<u32>) -> Option<(u32, u32)> {
    if focused is None && unfocused is None {
        None
    } else {
        Some(
            (
                match focused {
                    Some(c) => c,
                    None => COLOR_DEFAULT,
                },
                match unfocused {
                    Some(c) => c,
                    None => COLOR_DEFAULT,
                },
            ),
        )
    }
}

impl Config {
    /// The border colours with and without the focus; none where borders are left
    /// alone.
    pub fn border_colors(&self) -> (r: Option<(u32, u32)>)
        ensures
            r == colors(self.border_focused, self.border_unfocused),
    {
        if self.border_focused.is_none() && self.border_unfocused.is_none() {
            return None;
        }
        let focused: u32 = match self.border_focused {
            Some(c) => c,
            None => COLOR_DEFAULT,
        };
        let unfocused: u32 = match self.border_unfocused {
            Some(c) => c,
            None => COLOR_DEFAULT,
        };
        Some((focused, unfocused))
    }
}

// ---------------------------------------------------------------------------
// Laws
// ---------------------------------------------------------------------------

/// The command a key has among the bindings.
pub open spec fn bound(s: Seq<BindView>, k: Seq<char>) -> Option<Seq<char>>
    decreases s.len(),
{
    if s.len() == 0 {
        None
    } else if s.last().key == k {
        Some(s.last().command)
    } else {
        bound(s.drop_last(), k)
    }
}

/// The texts part at `d`, and the first is the one before.
spec fn parts_at(a: Seq<char>, b: Seq<char>, d: int) -> bool {
    &&& 0 <= d < b.len()
    &&& d <= a.len()
    &&& forall|i: int| 0 <= i < d ==> #[trigger] a[i] == b[i]
    &&& d == a.len() || a[d] < b[d]
}

proof fn lemma_parts_before(a: Seq<char>, b: Seq<char>, d: int, i: int)
    requires
        parts_at(a, b, d),
        0 <= i <= d,
    ensures
        before_from(a, b, i),
    decreases d - i,
{
    if i < d {
        assert(a[i] == b[i]);
        lemma_parts_before(a, b, d, i + 1);
    }
}

proof fn lemma_before_parts(a: Seq<char>, b: Seq<char>, i: int) -> (d: int)
    requires
        before_from(a, b, i),
        0 <= i <= a.len(),
        forall|j: int| 0 <= j < i ==> #[trigger] a[j] == b[j],
    ensures
        parts_at(a, b, d),
    decreases b.len() - i,
{
    if i >= a.len() || a[i] != b[i] {
        i
    } else {
        lemma_before_parts(a, b, i + 1)
    }
}

proof fn lemma_before_transitive(a: Seq<char>, b: Seq<char>, c: Seq<char>)
    requires
        before(a, b),
        before(b, c),
    ensures
        before(a, c),
{
    let d = lemma_before_parts(a, b, 0);
    let e = lemma_before_parts(b, c, 0);
    let m = if d < e {
        d
    } else {
        e
    };
    assert forall|i: int| 0 <= i < m implies #[trigger] a[i] == c[i] by {
        assert(a[i] == b[i]);
        assert(b[i] == c[i]);
    }
    if d < e {
        assert(b[d] == c[d]);
    } else if e < d {
        assert(a[e] == b[e]);
    }
    assert(parts_at(a, c, m));
    lemma_parts_before(a, c, m, 0);
}

proof fn lemma_before_irreflexive(a: Seq<char>)
    ensures
        !before(a, a),
{
    if before(a, a) {
        let d = lemma_before_parts(a, a, 0);
    }
}

proof fn lemma_before_total(a: Seq<char>, b: Seq<char>, i: int)
    requires
        0 <= i <= a.len(),
        i <= b.len(),
        forall|j: int| 0 <= j < i ==> #[trigger] a[j] == b[j],
    ensures
        a == b || before_from(a, b, i) || before_from(b, a, i),
    decreases b.len() - i,
{
    if i < a.len() && i < b.len() && a[i] == b[i] {
        lemma_before_total(a, b, i + 1);
    } else if i == a.len() && i == b.len() {
        assert(a =~= b);
    }
}

proof fn lemma_bound_at(s: Seq<BindView>, i: int)
    requires
        ordered(s),
        0 <= i < s.len(),
    ensures
        bound(s, s[i].key) == Some(s[i].command),
    decreases s.len(),
{
    let t = s.drop_last();
    if i < s.len() - 1 {
        assert(before(s[i].key, s[s.len() - 1].key));
        lemma_before_irreflexive(s[i].key);
        assert(ordered(t)) by {
            assert forall|x: int, y: int| 0 <= x < y < t.len() implies before(
                #[trigger] t[x].key,
                #[trigger] t[y].key,
            ) by {
                assert(before(s[x].key, s[y].key));
            }
        }
        assert(t[i] == s[i]);
        lemma_bound_at(t, i);
    }
}

proof fn lemma_bound_none(s: Seq<BindView>, k: Seq<char>)
    requires
        forall|i: int| 0 <= i < s.len() ==> (#[trigger] s[i]).key != k,
    ensures
        bound(s, k) is None,
    decreases s.len(),
{
    if s.len() > 0 {
        assert(s[s.len() - 1].key != k);
        let t = s.drop_last();
        assert forall|i: int| 0 <= i < t.len() implies (#[trigger] t[i]).key != k by {
            assert(s[i].key != k);
        }
        lemma_bound_none(t, k);
    }
}

/// Two orderly lists of bindings that hold the same bindings give every key the
/// same command.
proof fn lemma_bound_same(s: Seq<BindView>, t: Seq<BindView>, k: Seq<char>)
    requires
        ordered(s),
        ordered(t),
        forall|i: int| 0 <= i < s.len() && (#[trigger] s[i]).key == k ==> t.contains(s[i]),
        forall|i: int| 0 <= i < t.len() && (#[trigger] t[i]).key == k ==> s.contains(t[i]),
    ensures
        bound(s, k) == bound(t, k),
{
    if exists|i: int| 0 <= i < s.len() && (#[trigger] s[i]).key == k {
        let i = choose|i: int| 0 <= i < s.len() && (#[trigger] s[i]).key == k;
        assert(t.contains(s[i]));
        let j = choose|j: int| 0 <= j < t.len() && t[j] == s[i];
        lemma_bound_at(s, i);
        lemma_bound_at(t, j);
    } else {
        assert forall|i: int| 0 <= i < t.len() implies (#[trigger] t[i]).key != k by {
            if t[i].key == k {
                assert(s.contains(t[i]));
                let j = choose|j: int| 0 <= j < s.len() && s[j] == t[i];
                assert(s[j].key == k);
            }
        }
        lemma_bound_none(s, k);
        lemma_bound_none(t, k);
    }
}

proof fn lemma_put(s: Seq<BindView>, b: BindView, i: int)
    requires
        ordered(s),
        0 <= i <= s.len(),
        forall|j: int| 0 <= j < i ==> before((#[trigger] s[j]).key, b.key),
    ensures
        ordered(put_from(s, b, i)),
        put_from(s, b, i).contains(b),
        forall|j: int|
            0 <= j < s.len() && (#[trigger] s[j]).key != b.key ==> put_from(s, b, i).contains(s[j]),
        forall|j: int|
            0 <= j < put_from(s, b, i).len() && (#[trigger] put_from(s, b, i)[j]).key != b.key
                ==> s.contains(put_from(s, b, i)[j]),
    decreases s.len() - i,
{
    let t = put_from(s, b, i);
    if i >= s.len() {
        assert(t[i] == b);
        assert forall|j: int| 0 <= j < s.len() && (#[trigger] s[j]).key != b.key implies t.contains(
            s[j],
        ) by {
            assert(t[j] == s[j]);
        }
    } else if s[i].key == b.key {
        assert(t[i] == b);
        assert forall|j: int| 0 <= j < s.len() && (#[trigger] s[j]).key != b.key implies t.contains(
            s[j],
        ) by {
            assert(t[j] == s[j]);
        }
        assert forall|x: int, y: int| 0 <= x < y < t.len() implies before(
            #[trigger] t[x].key,
            #[trigger] t[y].key,
        ) by {
            assert(before(s[x].key, s[y].key));
        }
    } else if before(b.key, s[i].key) {
        assert(t[i] == b);
        assert forall|j: int| 0 <= j < s.len() && (#[trigger] s[j]).key != b.key implies t.contains(
            s[j],
        ) by {
            if j < i {
                assert(t[j] == s[j]);
            } else {
                assert(t[j + 1] == s[j]);
            }
        }
        assert forall|j: int| 0 <= j < t.len() && (#[trigger] t[j]).key != b.key implies s.contains(
            t[j],
        ) by {
            if j < i {
                assert(t[j] == s[j]);
            } else {
                assert(t[j] == s[j - 1]);
            }
        }
        assert forall|x: int, y: int| 0 <= x < y < t.len() implies before(
            #[trigger] t[x].key,
            #[trigger] t[y].key,
        ) by {
            if y < i {
                assert(before(s[x].key, s[y].key));
            } else if y == i {
                assert(before(s[x].key, b.key));
            } else if x < i {
                assert(t[y] == s[y - 1]);
                assert(before(s[x].key, s[y - 1].key));
            } else if x == i {
                assert(t[y] == s[y - 1]);
                if y - 1 > i {
                    assert(before(s[i].key, s[y - 1].key));
                    lemma_before_transitive(b.key, s[i].key, s[y - 1].key);
                }
            } else {
                assert(t[x] == s[x - 1]);
                assert(t[y] == s[y - 1]);
                assert(before(s[x - 1].key, s[y - 1].key));
            }
        }
    } else {
        lemma_before_total(s[i].key, b.key, 0);
        lemma_put(s, b, i + 1);
    }
}

/// Putting a binding in keeps the bindings in the order of their keys, none
/// twice, gives its key its command, and leaves the other keys as they were.
pub proof fn law_put_binds_one(s: Seq<BindView>, b: BindView, k: Seq<char>)
    requires
        ordered(s),
    ensures
        ordered(put_from(s, b, 0)),
        bound(put_from(s, b, 0), k) == if k == b.key {
            Some(b.command)
        } else {
            bound(s, k)
        },
{
    let t = put_from(s, b, 0);
    lemma_put(s, b, 0);
    if k == b.key {
        let i = choose|i: int| 0 <= i < t.len() && t[i] == b;
        lemma_bound_at(t, i);
    } else {
        lemma_bound_same(t, s, k);
    }
}

proof fn lemma_put_all(s: Seq<BindView>, list: Seq<BindView>, n: int, k: Seq<char>)
    requires
        ordered(s),
        0 <= n <= list.len(),
    ensures
        ordered(put_all(s, list, n)),
        bound(put_all(s, list, n), k) == match bound(list.take(n), k) {
            Some(c) => Some(c),
            None => bound(s, k),
        },
    decreases n,
{
    if n > 0 {
        lemma_put_all(s, list, n - 1, k);
        law_put_binds_one(put_all(s, list, n - 1), list[n - 1], k);
        assert(list.take(n).drop_last() =~= list.take(n - 1));
        assert(list.take(n).last() == list[n - 1]);
    }
}

/// The bindings in force stand in the order of their keys, none twice. A key
/// has the command configured for it last, or else its default one.
pub proof fn law_configured_wins(configured: Seq<BindView>, k: Seq<char>)
    ensures
        ordered(merged(configured)),
        bound(merged(configured), k) == match bound(configured, k) {
            Some(c) => Some(c),
            None => bound(default_list(), k),
        },
{
    let none: Seq<BindView> = Seq::empty();
    let defaults = default_list();
    lemma_put_all(none, defaults, defaults.len() as int, k);
    assert(defaults.take(defaults.len() as int) =~= defaults);
    let start = put_all(none, defaults, defaults.len() as int);
    lemma_put_all(start, configured, configured.len() as int, k);
    assert(configured.take(configured.len() as int) =~= configured);
}

/// No hotkey takes a key without a modifier, and every hotkey has a command.
pub proof fn law_hotkeys_have_modifiers(binds: Seq<BindView>, n: int, i: int)
    requires
        n <= binds.len(),
        0 <= i < hotkeys_of(binds, n).len(),
    ensures
        hotkeys_of(binds, n)[i].mods != 0,
        hotkeys_of(binds, n)[i].command is Some,
    decreases n,
{
    if n > 0 && i < hotkeys_of(binds, n - 1).len() {
        law_hotkeys_have_modifiers(binds, n - 1, i);
    }
}

/// A key bound to `none`, or to nothing, gives no hotkey: without it the
/// hotkeys are the same.
pub proof fn law_none_switches_off(binds: Seq<BindView>, i: int)
    requires
        0 <= i < binds.len(),
        binds[i].command == "none"@ || binds[i].command.len() == 0,
    ensures
        hotkeys_of(binds.remove(i), binds.len() - 1) == hotkeys_of(binds, binds.len() as int),
{
    lemma_switched_off(binds, i, binds.len() as int);
}

proof fn lemma_switched_off(binds: Seq<BindView>, i: int, n: int)
    requires
        0 <= i < binds.len(),
        hotkey_of(binds[i]) is None,
        0 <= n <= binds.len(),
    ensures
        n <= i ==> hotkeys_of(binds.remove(i), n) == hotkeys_of(binds, n),
        n > i ==> hotkeys_of(binds.remove(i), n - 1) == hotkeys_of(binds, n),
    decreases n,
{
    if n > 0 {
        lemma_switched_off(binds, i, n - 1);
    }
}

/// The case of the letters of configured keys makes no difference.
pub proof fn law_key_case_ignored(a: Seq<BindView>, b: Seq<BindView>)
    requires
        a.len() == b.len(),
        forall|i: int|
            0 <= i < a.len() ==> same_ignoring_case((#[trigger] a[i]).key, b[i].key) && a[i].command
                == b[i].command,
    ensures
        small_keys(a) == small_keys(b),
{
    assert forall|i: int| 0 <= i < a.len() implies #[trigger] small_keys(a)[i]
        == small_keys(b)[i] by {
        assert(same_ignoring_case(a[i].key, b[i].key));
        assert(ascii_lower(a[i].key) =~= ascii_lower(b[i].key));
    }
    assert(small_keys(a) =~= small_keys(b));
}

/// One of the first `n` parts is a modifier with this bit.
pub open spec fn names_bit(parts: Seq<Seq<char>>, n: int, bit: u32) -> bool {
    exists|i: int| 0 <= i < n && modifier(trimmed(#[trigger] parts[i])) == Some(bit)
}

/// One of the first `n` parts is no modifier.
pub open spec fn names_none(parts: Seq<Seq<char>>, n: int) -> bool {
    exists|i: int| 0 <= i < n && modifier(trimmed(#[trigger] parts[i])) is None
}

proof fn lemma_names_step(parts: Seq<Seq<char>>, n: int, bit: u32)
    requires
        0 < n,
    ensures
        names_bit(parts, n, bit) <==> names_bit(parts, n - 1, bit) || modifier(
            trimmed(parts[n - 1]),
        ) == Some(bit),
        names_none(parts, n) <==> names_none(parts, n - 1) || modifier(
            trimmed(parts[n - 1]),
        ) is None,
{
    if names_bit(parts, n, bit) {
        let i = choose|i: int|
            0 <= i < n && modifier(trimmed(#[trigger] parts[i])) == Some(bit);
        if i < n - 1 {
            assert(names_bit(parts, n - 1, bit));
        }
    }
    if names_none(parts, n) {
        let i = choose|i: int| 0 <= i < n && modifier(trimmed(#[trigger] parts[i])) is None;
        if i < n - 1 {
            assert(names_none(parts, n - 1));
        }
    }
    if names_bit(parts, n - 1, bit) {
        let i = choose|i: int|
            0 <= i < n - 1 && modifier(trimmed(#[trigger] parts[i])) == Some(bit);
        assert(names_bit(parts, n, bit));
    }
    if names_none(parts, n - 1) {
        let i = choose|i: int| 0 <= i < n - 1 && modifier(trimmed(#[trigger] parts[i])) is None;
        assert(names_none(parts, n));
    }
}

proof fn lemma_modifier_bits(parts: Seq<Seq<char>>, n: int)
    requires
        0 <= n <= parts.len(),
    ensures
        modifiers(parts, n) is None <==> names_none(parts, n),
        modifiers(parts, n) matches Some(bits) ==> {
            &&& bits <= 15
            &&& (bits & 1 != 0) == names_bit(parts, n, 1)
            &&& (bits & 2 != 0) == names_bit(parts, n, 2)
            &&& (bits & 4 != 0) == names_bit(parts, n, 4)
            &&& (bits & 8 != 0) == names_bit(parts, n, 8)
        },
    decreases n,
{
    if n > 0 {
        lemma_modifier_bits(parts, n - 1);
        lemma_names_step(parts, n, 1);
        lemma_names_step(parts, n, 2);
        lemma_names_step(parts, n, 4);
        lemma_names_step(parts, n, 8);
        if let (Some(old_bits), Some(bit)) = (
            modifiers(parts, n - 1),
            modifier(trimmed(parts[n - 1])),
        ) {
            let bits = old_bits | bit;
            assert(bits <= 15 && ((bits & 1 != 0) <==> (old_bits & 1 != 0) || bit == 1) && ((bits & 2
                != 0) <==> (old_bits & 2 != 0) || bit == 2) && ((bits & 4 != 0) <==> (old_bits & 4
                != 0) || bit == 4) && ((bits & 8 != 0) <==> (old_bits & 8 != 0) || bit == 8))
                by (bit_vector)
                requires
                    bits == old_bits | bit,
                    old_bits <= 15,
                    bit == 1 || bit == 2 || bit == 4 || bit == 8,
            ;
        }
    } else {
        assert(0u32 & 1 == 0 && 0u32 & 2 == 0 && 0u32 & 4 == 0 && 0u32 & 8 == 0) by (bit_vector);
    }
}

/// A key combination has a modifier, all parts but the last are modifiers, and
/// its bits are just theirs.
pub proof fn law_key_has_modifiers(s: Seq<char>)
    ensures
        key(s) matches Some((bits, _)) ==> {
            let parts = split_by(s, '+');
            let n = parts.len() - 1;
            &&& n >= 1
            &&& 1 <= bits <= 15
            &&& !names_none(parts, n)
            &&& (bits & MOD_ALT != 0) == names_bit(parts, n, MOD_ALT)
            &&& (bits & MOD_CONTROL != 0) == names_bit(parts, n, MOD_CONTROL)
            &&& (bits & MOD_SHIFT != 0) == names_bit(parts, n, MOD_SHIFT)
            &&& (bits & MOD_WIN != 0) == names_bit(parts, n, MOD_WIN)
        },
{
    let parts = split_by(s, '+');
    lemma_split_some(s, '+');
    lemma_modifier_bits(parts, parts.len() - 1);
}

proof fn lemma_split_some(s: Seq<char>, sep: char)
    ensures
        split_by(s, sep).len() >= 1,
    decreases s.len(),
{
    if s.len() > 0 {
        lemma_split_some(s.drop_last(), sep);
    }
}

/// The order of the modifiers, their repetition, which of its names each goes
/// by and the spaces round them make no difference.
pub proof fn law_modifiers_commute(a: Seq<char>, b: Seq<char>)
    requires
        ({
            let x = split_by(a, '+');
            let y = split_by(b, '+');
            &&& trimmed(x.last()) == trimmed(y.last())
            &&& names_none(x, x.len() - 1) == names_none(y, y.len() - 1)
            &&& forall|bit: u32| #[trigger]
                names_bit(x, x.len() - 1, bit) == names_bit(y, y.len() - 1, bit)
        }),
    ensures
        key(a) == key(b),
{
    let x = split_by(a, '+');
    let y = split_by(b, '+');
    lemma_split_some(a, '+');
    lemma_split_some(b, '+');
    lemma_modifier_bits(x, x.len() - 1);
    lemma_modifier_bits(y, y.len() - 1);
    assert(names_bit(x, x.len() - 1, 1) == names_bit(y, y.len() - 1, 1));
    assert(names_bit(x, x.len() - 1, 2) == names_bit(y, y.len() - 1, 2));
    assert(names_bit(x, x.len() - 1, 4) == names_bit(y, y.len() - 1, 4));
    assert(names_bit(x, x.len() - 1, 8) == names_bit(y, y.len() - 1, 8));
    if let (Some(p), Some(q)) = (modifiers(x, x.len() - 1), modifiers(y, y.len() - 1)) {
        assert(p == q) by (bit_vector)
            requires
                p <= 15,
                q <= 15,
                (p & 1 != 0) == (q & 1 != 0),
                (p & 2 != 0) == (q & 2 != 0),
                (p & 4 != 0) == (q & 4 != 0),
                (p & 8 != 0) == (q & 8 != 0),
        ;
    }
}

/// The rules in force are those of the configuration that are understood, in its
/// order: one that is there is kept, and each that is kept comes from one.
pub proof fn law_rules_in_force(entries: Seq<RuleEntry>, n: int, i: int)
    requires
        0 <= i < n <= entries.len(),
    ensures
        ({
            let e = entries[i];
            let sound = |p: Option<String>| p matches Some(t) ==> regex_valid(t@);
            let text = |p: Option<String>| match p {
                Some(t) => Some(t@),
                None => None,
            };
            let known = e.action@ == "ignore"@ || e.action@ == "manage"@ || e.action@ == "float"@;
            let kept = known && sound(e.exe) && sound(e.class) && sound(e.title);
            &&& rule_of(e) is Some <==> kept
            &&& rule_of(e) matches Some(r) ==> {
                &&& rules_of(entries, n).contains(r)
                &&& r.exe == text(e.exe)
                &&& r.class == text(e.class)
                &&& r.title == text(e.title)
                &&& r.action is Ignore <==> e.action@ == "ignore"@
                &&& r.action is Manage <==> e.action@ == "manage"@
                &&& r.action is Float <==> e.action@ == "float"@
            }
            &&& rule_of(e) is None ==> rules_of(entries, n).len() < n
            &&& rules_of(entries, n).len() <= n
        }),
    decreases n,
{
    reveal_strlit("ignore");
    reveal_strlit("manage");
    reveal_strlit("float");
    assert("ignore"@[0] == 'i' && "manage"@[0] == 'm' && "float"@[0] == 'f');
    let all = rules_of(entries, n);
    let front = rules_of(entries, n - 1);
    if n - 1 > 0 {
        law_rules_in_force(entries, n - 1, if i < n - 1 {
            i
        } else {
            0
        });
    }
    if let Some(r) = rule_of(entries[i]) {
        if i < n - 1 {
            assert(all[front.index_of(r)] == r);
        } else {
            assert(all[front.len() as int] == r);
        }
    }
}

/// Every binding whose key and command are understood, and that is not switched
/// off, is a hotkey, with just that key and command; any other gives none.
pub proof fn law_bindings_are_hotkeys(binds: Seq<BindView>, n: int, i: int)
    requires
        0 <= i < n <= binds.len(),
    ensures
        ({
            let b = binds[i];
            let all = hotkeys_of(binds, n);
            &&& b.command.len() > 0 && b.command != "none"@ ==> (key(b.key) matches Some((mods, vk))
                ==> (command(b.command) matches Some(c) ==> all.contains(
                HotkeyView { mods, vk, command: Some(c) },
            )))
            &&& b.command.len() == 0 || b.command == "none"@ || key(b.key) is None || command(
                b.command,
            ) is None ==> all.len() < n
            &&& all.len() <= n
        }),
    decreases n,
{
    let all = hotkeys_of(binds, n);
    let front = hotkeys_of(binds, n - 1);
    if n - 1 > 0 {
        law_bindings_are_hotkeys(binds, n - 1, if i < n - 1 {
            i
        } else {
            0
        });
    }
    if let Some(h) = hotkey_of(binds[i]) {
        if i < n - 1 {
            assert(all[front.index_of(h)] == h);
        } else {
            assert(all[front.len() as int] == h);
        }
    }
}

/// Margins are given for all sides at once, for top and bottom and for left and
/// right, or for top, right, bottom and left; each is moved into 0 to 1000.
pub proof fn law_margins(v: Vec<i32>)
    ensures
        ({
            let m = margins(Some(v));
            let side = |x: i32| if x < 0 {
                0
            } else if x > 1000 {
                1000
            } else {
                x
            };
            &&& v@.len() == 1 ==> m == (Margin {
                top: side(v@[0]),
                right: side(v@[0]),
                bottom: side(v@[0]),
                left: side(v@[0]),
            })
            &&& v@.len() == 2 ==> m == (Margin {
                top: side(v@[0]),
                right: side(v@[1]),
                bottom: side(v@[0]),
                left: side(v@[1]),
            })
            &&& v@.len() == 4 ==> m == (Margin {
                top: side(v@[0]),
                right: side(v@[1]),
                bottom: side(v@[2]),
                left: side(v@[3]),
            })
            &&& v@.len() != 1 && v@.len() != 2 && v@.len() != 4 ==> m == (Margin {
                top: 0,
                right: 0,
                bottom: 0,
                left: 0,
            })
            &&& margins(None) == (Margin { top: 0, right: 0, bottom: 0, left: 0 })
        }),
{
}

/// The keys that are bound where nothing is configured: `h`, `j`, `k` and `l` with
/// Alt move the focus left, down, up and right, and with Shift the column or the
/// window that way; the others act on the workspace, the column, the viewport or
/// the window.
pub proof fn law_default_keys()
    ensures
        default_list().len() == 19,
        default_list().contains(BindView { key: "alt+h"@, command: "focus left"@ }),
        default_list().contains(BindView { key: "alt+l"@, command: "focus right"@ }),
        default_list().contains(BindView { key: "alt+j"@, command: "focus down"@ }),
        default_list().contains(BindView { key: "alt+k"@, command: "focus up"@ }),
        default_list().contains(BindView { key: "alt+shift+h"@, command: "move-column left"@ }),
        default_list().contains(BindView { key: "alt+shift+l"@, command: "move-column right"@ }),
        default_list().contains(BindView { key: "alt+shift+j"@, command: "move-window down"@ }),
        default_list().contains(BindView { key: "alt+shift+k"@, command: "move-window up"@ }),
        default_list().contains(BindView { key: "alt+u"@, command: "workspace down"@ }),
        default_list().contains(BindView { key: "alt+i"@, command: "workspace up"@ }),
        default_list().contains(BindView { key: "alt+shift+comma"@, command: "consume"@ }),
        default_list().contains(BindView { key: "alt+shift+period"@, command: "expel"@ }),
        default_list().contains(BindView { key: "alt+r"@, command: "cycle-width"@ }),
        default_list().contains(BindView { key: "alt+f"@, command: "maximize"@ }),
        default_list().contains(BindView { key: "alt+shift+f"@, command: "fullscreen"@ }),
        default_list().contains(BindView { key: "alt+comma"@, command: "scroll left"@ }),
        default_list().contains(BindView { key: "alt+period"@, command: "scroll right"@ }),
        default_list().contains(BindView { key: "alt+shift+q"@, command: "close"@ }),
        default_list().contains(BindView { key: "alt+shift+e"@, command: "quit"@ }),
{
    let s = default_list();
    assert(s[0].key == "alt+h"@ && s[0].command == "focus left"@);
    assert(s[1].key == "alt+l"@ && s[1].command == "focus right"@);
    assert(s[2].key == "alt+j"@ && s[2].command == "focus down"@);
    assert(s[3].key == "alt+k"@ && s[3].command == "focus up"@);
    assert(s[4].key == "alt+shift+h"@ && s[4].command == "move-column left"@);
    assert(s[5].key == "alt+shift+l"@ && s[5].command == "move-column right"@);
    assert(s[6].key == "alt+shift+j"@ && s[6].command == "move-window down"@);
    assert(s[7].key == "alt+shift+k"@ && s[7].command == "move-window up"@);
    assert(s[8].key == "alt+u"@ && s[8].command == "workspace down"@);
    assert(s[9].key == "alt+i"@ && s[9].command == "workspace up"@);
    assert(s[10].key == "alt+shift+comma"@ && s[10].command == "consume"@);
    assert(s[11].key == "alt+shift+period"@ && s[11].command == "expel"@);
    assert(s[12].key == "alt+r"@ && s[12].command == "cycle-width"@);
    assert(s[13].key == "alt+f"@ && s[13].command == "maximize"@);
    assert(s[14].key == "alt+shift+f"@ && s[14].command == "fullscreen"@);
    assert(s[15].key == "alt+comma"@ && s[15].command == "scroll left"@);
    assert(s[16].key == "alt+period"@ && s[16].command == "scroll right"@);
    assert(s[17].key == "alt+shift+q"@ && s[17].command == "close"@);
    assert(s[18].key == "alt+shift+e"@ && s[18].command == "quit"@);
}

/// A colour has its red, green and blue exchanged end for end: it is read as red,
/// green, blue and kept as blue, green, red.
pub proof fn law_color_is_turned(red: int, green: int, blue: int)
    requires
        0 <= red < 256,
        0 <= green < 256,
        0 <= blue < 256,
    ensures
        exchanged(red * 65536 + green * 256 + blue) == blue * 65536 + green * 256 + red,
{
    let rgb = red * 65536 + green * 256 + blue;
    assert(rgb % 256 == blue);
    assert(rgb / 256 == red * 256 + green);
    assert(rgb / 256 % 256 == green);
    assert(rgb / 65536 == red);
}

/// Frames are coloured where either colour is given; the one that is not given is
/// the system's own.
pub proof fn law_frame_colours(focused: Option<u32>, unfocused: Option<u32>)
    ensures
        colors(focused, unfocused) is Some <==> focused is Some || unfocused is Some,
        colors(focused, unfocused) matches Some((a, b)) ==> {
            &&& a == match focused {
                Some(c) => c,
                None => 0xFFFF_FFFFu32,
            }
            &&& b == match unfocused {
                Some(c) => c,
                None => 0xFFFF_FFFFu32,
            }
        },
{
}

} // verus!
