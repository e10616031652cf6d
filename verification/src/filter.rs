//! Which windows are tiled.

use vstd::prelude::*;

verus! {

/// Window style bits.
pub const WS_POPUP: u32 = 0x8000_0000;

/// A title bar: border and dialog frame together.
pub const WS_CAPTION: u32 = 0x00C0_0000;

/// A frame to resize by.
pub const WS_THICKFRAME: u32 = 0x0004_0000;

/// A window that stays out of the lists of open windows.
pub const WS_EX_TOOLWINDOW: u32 = 0x0000_0080;

/// What is known of one top-level window.
#[derive(Debug, Clone)]
pub struct WindowInfo {
    pub title: String,
    pub class_name: String,
    /// The program's file name without its path; none where it is unknown.
    pub exe_name: Option<String>,
    pub style: u32,
    pub ex_style: u32,
    pub is_visible: bool,
    /// Not drawn by the system, as on another virtual desktop.
    pub is_cloaked: bool,
    /// Belongs to another window, as a dialog does.
    pub has_owner: bool,
    pub is_own_process: bool,
}

/// What is done with a window.
#[derive(Debug, Clone, Copy, PartialEq, Eq)]
pub enum Decision {
    /// It is tiled.
    Manage,
    /// It is known but left where it is, for the reason given.
    Float(&'static str),
    /// It is left out, for the reason given.
    Ignore(&'static str),
}

/// What a rule does with a window.
#[derive(Debug, Clone, Copy, PartialEq, Eq, Structural)]
pub enum RuleAction {
    Ignore,
    Manage,
    Float,
}

/// A regular expression that compiles.
#[derive(Debug)]
pub struct Pattern {
    source: String,
}

/// A rule of the configuration. It applies where every pattern it gives
/// matches; a rule without patterns never applies.
#[derive(Debug, Clone)]
pub struct Rule {
    pub exe: Option<Pattern>,
    pub class: Option<Pattern>,
    pub title: Option<Pattern>,
    pub action: RuleAction,
}

// ---------------------------------------------------------------------------
// Regular expressions
// ---------------------------------------------------------------------------

/// The pattern is a regular expression in the syntax of the `regex` crate.
pub uninterp spec fn regex_valid(pattern: Seq<char>) -> bool;

/// The regular expression matches somewhere in the text.
pub uninterp spec fn regex_matches(pattern: Seq<char>, text: Seq<char>) -> bool;

/// Calls `regex::Regex::new` and tells whether the pattern compiles. The syntax
/// and the size limits that decide it are those of the crate; they depend on
/// the pattern alone.
#[verifier::external_body]
fn regex_compiles(pattern: &str) -> (r: bool)
    ensures
        r == regex_valid(pattern@),
{
    regex::Regex::new(pattern).is_ok()
}

/// Calls `regex::Regex::is_match` on the compiled pattern: whether it matches
/// anywhere in the text, which depends on the two alone. A pattern that does
/// not compile matches nothing.
#[verifier::external_body]
fn regex_is_match(pattern: &str, text: &str) -> (r: bool)
    ensures
        r == (regex_valid(pattern@) && regex_matches(pattern@, text@)),
{
    match regex::Regex::new(pattern) {
        Ok(re) => re.is_match(text),
        Err(_) => false,
    }
}

impl View for Pattern {
    type V = Seq<char>;

    closed spec fn view(&self) -> Seq<char> {
        self.source@
    }
}

impl Clone for Pattern {
    fn clone(&self) -> (r: Pattern)
        ensures
            r@ == self@,
    {
        proof {
            use_type_invariant(self);
        }
        Pattern { source: self.source.clone() }
    }
}

impl Pattern {
    /// The pattern compiles.
    #[verifier::type_invariant]
    closed spec fn compiles(self) -> bool {
        regex_valid(self.source@)
    }

    /// The pattern, where it is a regular expression.
    pub fn new(source: &str) -> (r: Option<Pattern>)
        ensures
            match r {
                Some(p) => p@ == source@ && regex_valid(source@),
                None => !regex_valid(source@),
            },
    {
        if regex_compiles(source) {
            Some(Pattern { source: source.to_owned() })
        } else {
            None
        }
    }

    /// The pattern matches somewhere in the text.
    pub fn is_match(&self, text: &str) -> (r: bool)
        ensures
            r == regex_matches(self@, text@),
    {
        proof {
            use_type_invariant(self);
        }
        regex_is_match(self.source.as_str(), text)
    }
}

// ---------------------------------------------------------------------------
// Model
// ---------------------------------------------------------------------------

/// A pattern that is not given matches, one that is given must match the text.
pub open spec fn allows(p: Option<Pattern>, text: Seq<char>) -> bool {
    match p {
        Some(p) => regex_matches(p@, text),
        None => true,
    }
}

/// A pattern for a text that may be unknown: given, it needs the text.
pub open spec fn allows_known(p: Option<Pattern>, text: Option<String>) -> bool {
    match p {
        Some(p) => text matches Some(t) && regex_matches(p@, t@),
        None => true,
    }
}

impl Rule {
    /// The rule gives no pattern.
    pub open spec fn is_blank(self) -> bool {
        self.exe is None && self.class is None && self.title is None
    }

    /// The rule applies to the window.
    pub open spec fn applies(self, w: WindowInfo) -> bool {
        &&& !self.is_blank()
        &&& allows_known(self.exe, w.exe_name)
        &&& allows(self.class, w.class_name@)
        &&& allows(self.title, w.title@)
    }
}

/// What the first rule from `k` on that applies does.
pub open spec fn ruled_from(rules: Seq<Rule>, w: WindowInfo, k: int) -> Option<RuleAction>
    decreases rules.len() - k,
{
    if k >= rules.len() {
        None
    } else if rules[k].applies(w) {
        Some(rules[k].action)
    } else {
        ruled_from(rules, w, k + 1)
    }
}

/// What is done with a window. Windows that are invisible, cloaked or this
/// program's own are left out whatever the rules say; then the first rule that
/// applies decides; then the window's style.
pub open spec fn decision(w: WindowInfo, rules: Seq<Rule>) -> Decision {
    if !w.is_visible {
        Decision::Ignore("invisible")
    } else if w.is_own_process {
        Decision::Ignore("own process")
    } else if w.is_cloaked {
        Decision::Ignore("cloaked (UWP ghost / other virtual desktop)")
    } else {
        match ruled_from(rules, w, 0) {
            Some(RuleAction::Ignore) => Decision::Ignore("rule: ignore"),
            Some(RuleAction::Manage) => Decision::Manage,
            Some(RuleAction::Float) => Decision::Float("rule: float"),
            None => if w.ex_style & WS_EX_TOOLWINDOW != 0 {
                Decision::Float("WS_EX_TOOLWINDOW")
            } else if w.has_owner {
                Decision::Float("owned window (dialog)")
            } else if w.style & WS_POPUP != 0 && w.style & WS_CAPTION != WS_CAPTION {
                Decision::Float("WS_POPUP without caption")
            } else if w.style & WS_THICKFRAME == 0 {
                Decision::Float("not resizable (no WS_THICKFRAME)")
            } else {
                Decision::Manage
            },
        }
    }
}

// ---------------------------------------------------------------------------
// Operations
// ---------------------------------------------------------------------------

impl Default for WindowInfo {
    /// A window of which nothing is known.
    fn default() -> (r: WindowInfo)
        ensures
            r.title@.len() == 0,
            r.class_name@.len() == 0,
            r.exe_name is None,
            r.style == 0,
            r.ex_style == 0,
            !r.is_visible,
            !r.is_cloaked,
            !r.has_owner,
            !r.is_own_process,
    {
        WindowInfo {
            title: String::new(),
            class_name: String::new(),
            exe_name: None,
            style: 0,
            ex_style: 0,
            is_visible: false,
            is_cloaked: false,
            has_owner: false,
            is_own_process: false,
        }
    }
}

impl Rule {
    /// The rule applies to the window.
    pub fn matches(&self, w: &WindowInfo) -> (r: bool)
        ensures
            r == self.applies(*w),
    {
        if self.exe.is_none() && self.class.is_none() && self.title.is_none() {
            return false;
        }
        let exe: bool = match &self.exe {
            Some(p) => match &w.exe_name {
                Some(name) => p.is_match(name.as_str()),
                None => false,
            },
            None => true,
        };
        let class: bool = match &self.class {
            Some(p) => p.is_match(w.class_name.as_str()),
            None => true,
        };
        let title: bool = match &self.title {
            Some(p) => p.is_match(w.title.as_str()),
            None => true,
        };
        exe && class && title
    }
}

/// What is done with a window.
pub fn decide(w: &WindowInfo, rules: &[Rule]) -> (r: Decision)
    ensures
        r == decision(*w, rules@),
{
    if !w.is_visible {
        return Decision::Ignore("invisible");
    }
    if w.is_own_process {
        return Decision::Ignore("own process");
    }
    if w.is_cloaked {
        return Decision::Ignore("cloaked (UWP ghost / other virtual desktop)");
    }
    let mut k: usize = 0;
    while k < rules.len()
        invariant
            k <= rules.len(),
            w.is_visible,
            !w.is_own_process,
            !w.is_cloaked,
            ruled_from(rules@, *w, 0) == ruled_from(rules@, *w, k as int),
        decreases rules.len() - k,
    {
        if rules[k].matches(w) {
            return match rules[k].action {
                RuleAction::Ignore => Decision::Ignore("rule: ignore"),
                RuleAction::Manage => Decision::Manage,
                RuleAction::Float => Decision::Float("rule: float"),
            };
        }
        k += 1;
    }
    if w.ex_style & WS_EX_TOOLWINDOW != 0 {
        return Decision::Float("WS_EX_TOOLWINDOW");
    }
    if w.has_owner {
        return Decision::Float("owned window (dialog)");
    }
    if w.style & WS_POPUP != 0 && w.style & WS_CAPTION != WS_CAPTION {
        return Decision::Float("WS_POPUP without caption");
    }
    if w.style & WS_THICKFRAME == 0 {
        return Decision::Float("not resizable (no WS_THICKFRAME)");
    }
    Decision::Manage
}

// ---------------------------------------------------------------------------
// Laws
// ---------------------------------------------------------------------------

/// No rule gets an invisible or cloaked window, or one of this program, tiled.
pub proof fn law_rules_cannot_force(w: WindowInfo, rules: Seq<Rule>)
    requires
        !w.is_visible || w.is_cloaked || w.is_own_process,
    ensures
        decision(w, rules) is Ignore,
        decision(w, rules) == decision(w, Seq::empty()),
{
}

/// The first rule that applies decides alone, and is the reason given.
pub proof fn law_first_rule_decides(w: WindowInfo, rules: Seq<Rule>, k: int)
    requires
        0 <= k < rules.len(),
        rules[k].applies(w),
        forall|j: int| 0 <= j < k ==> !(#[trigger] rules[j]).applies(w),
        w.is_visible,
        !w.is_cloaked,
        !w.is_own_process,
    ensures
        match rules[k].action {
            RuleAction::Ignore => decision(w, rules) == Decision::Ignore("rule: ignore"),
            RuleAction::Manage => decision(w, rules) == Decision::Manage,
            RuleAction::Float => decision(w, rules) == Decision::Float("rule: float"),
        },
{
    lemma_ruled_from(rules, w, 0, k);
}

proof fn lemma_ruled_from(rules: Seq<Rule>, w: WindowInfo, i: int, k: int)
    requires
        0 <= i <= k < rules.len(),
        rules[k].applies(w),
        forall|j: int| 0 <= j < k ==> !(#[trigger] rules[j]).applies(w),
    ensures
        ruled_from(rules, w, i) == Some(rules[k].action),
    decreases k - i,
{
    if i < k {
        assert(!rules[i].applies(w));
        lemma_ruled_from(rules, w, i + 1, k);
    }
}

/// A rule without patterns changes nothing.
pub proof fn law_blank_rule_is_idle(w: WindowInfo, rules: Seq<Rule>, blank: Rule)
    requires
        blank.is_blank(),
    ensures
        decision(w, seq![blank] + rules) == decision(w, rules),
{
    let more = seq![blank] + rules;
    assert(!more[0].applies(w));
    lemma_ruled_shift(rules, more, w, 0);
}

proof fn lemma_ruled_shift(rules: Seq<Rule>, more: Seq<Rule>, w: WindowInfo, k: int)
    requires
        more.len() == rules.len() + 1,
        forall|j: int| 0 <= j < rules.len() ==> #[trigger] rules[j] == more[j + 1],
        0 <= k <= rules.len(),
    ensures
        ruled_from(rules, w, k) == ruled_from(more, w, k + 1),
    decreases rules.len() - k,
{
    if k < rules.len() {
        assert(rules[k] == more[k + 1]);
        lemma_ruled_shift(rules, more, w, k + 1);
    }
}

/// A rule applies where it gives a pattern and every pattern it gives matches; one
/// for the program needs the program to be known.
pub proof fn law_when_a_rule_applies(r: Rule, w: WindowInfo)
    ensures
        r.applies(w) <==> {
            &&& r.exe is Some || r.class is Some || r.title is Some
            &&& r.exe matches Some(p) ==> w.exe_name is Some && regex_matches(
                p@,
                w.exe_name.unwrap()@,
            )
            &&& r.class matches Some(p) ==> regex_matches(p@, w.class_name@)
            &&& r.title matches Some(p) ==> regex_matches(p@, w.title@)
        },
{
}

/// A visible window that is drawn, of another program and not spoken of by any
/// rule, is tiled exactly where it is no tool window, has no owner, has a caption
/// or is no popup, and can be resized. Else it floats.
pub proof fn law_plain_windows(w: WindowInfo, rules: Seq<Rule>)
    requires
        w.is_visible,
        !w.is_cloaked,
        !w.is_own_process,
        forall|j: int| 0 <= j < rules.len() ==> !(#[trigger] rules[j]).applies(w),
    ensures
        ({
            let tool = w.ex_style & 0x80 != 0;
            let popup = w.style & 0x8000_0000 != 0;
            let caption = w.style & 0x00C0_0000 == 0x00C0_0000;
            let resizable = w.style & 0x0004_0000 != 0;
            let tiled = !tool && !w.has_owner && (caption || !popup) && resizable;
            &&& decision(w, rules) is Manage <==> tiled
            &&& decision(w, rules) is Float <==> !tiled
        }),
{
    lemma_no_rule(rules, w, 0);
}

proof fn lemma_no_rule(rules: Seq<Rule>, w: WindowInfo, k: int)
    requires
        0 <= k,
        forall|j: int| 0 <= j < rules.len() ==> !(#[trigger] rules[j]).applies(w),
    ensures
        ruled_from(rules, w, k) is None,
    decreases rules.len() - k,
{
    if k < rules.len() {
        assert(!rules[k].applies(w));
        lemma_no_rule(rules, w, k + 1);
    }
}

} // verus!
