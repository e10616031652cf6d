//! Installing and removing the window manager.

use vstd::prelude::*;

use crate::registry::quoted;
use crate::text::{append, chars_of, is_text, strings};

verus! {

/// Buttons of the dialogs.
pub const IDOK: i32 = 1;

pub const BTN_INSTALL: i32 = 101;

pub const BTN_UNINSTALL: i32 = 102;

pub const BTN_CHANGE_DIR: i32 = 103;

pub const BTN_LAUNCH: i32 = 104;

pub const BTN_NO_LAUNCH: i32 = 105;

/// What was chosen in the main menu.
#[derive(Debug, Clone, Copy, PartialEq, Eq, Structural)]
pub enum MainMenuResult {
    Install,
    Uninstall,
    Cancel,
}

/// How to install.
#[derive(Debug, Clone)]
pub struct InstallOptions {
    pub install_dir: String,
    /// The window manager starts when the user logs in.
    pub autostart: bool,
    /// It starts right after it is installed.
    pub launch_now: bool,
}

/// How to remove.
#[derive(Debug, Clone, Copy, PartialEq, Eq, Structural)]
pub struct UninstallOptions {
    pub delete_config: bool,
}

/// What the arguments ask for.
#[derive(Debug)]
pub enum SetupMode {
    /// Install without dialogs, in this directory or else the usual one.
    Install { dir: Option<String>, autostart: bool, launch_now: bool },
    /// Remove without dialogs.
    Uninstall { delete_config: bool, quiet: bool },
    /// Ask by dialogs.
    Wizard,
}

/// What happened in a dialog of the installation.
#[derive(Debug)]
pub enum WizardEvent {
    /// A button of the dialog that confirms the directory.
    Confirmed(i32),
    /// A directory was picked, or none.
    Picked(Option<String>),
    /// A button of the dialog of options, and whether to start at login.
    Chosen(i32, bool),
}

/// What comes next in the installation.
#[derive(Debug)]
pub enum WizardStep {
    /// Ask to confirm the directory.
    Confirm,
    /// Let a directory be picked.
    Pick,
    /// Ask for the options.
    Options,
    Install(InstallOptions),
    Cancel,
}

/// The dialogs of the installation.
#[derive(Debug)]
pub struct Wizard {
    pub dir: String,
}

// ---------------------------------------------------------------------------
// Model
// ---------------------------------------------------------------------------

/// The first argument from `i` on that is the flag, or the end.
pub open spec fn flag_from(args: Seq<Seq<char>>, flag: Seq<char>, i: int) -> int
    decreases args.len() - i,
{
    if 0 <= i < args.len() && args[i] != flag {
        flag_from(args, flag, i + 1)
    } else {
        i
    }
}

/// Where the flag stands among the arguments, or the end.
pub open spec fn flag_at(args: Seq<Seq<char>>, flag: Seq<char>) -> int {
    flag_from(args, flag, 0)
}

/// The flag is among the arguments.
pub open spec fn flagged(args: Seq<Seq<char>>, flag: Seq<char>) -> bool {
    flag_at(args, flag) < args.len()
}

/// The argument `k` behind the flag.
pub open spec fn behind(args: Seq<Seq<char>>, flag: Seq<char>, k: int) -> Option<Seq<char>> {
    if flagged(args, flag) && flag_at(args, flag) + k < args.len() {
        Some(args[flag_at(args, flag) + k])
    } else {
        None
    }
}

/// The text of an optional string.
pub open spec fn text_of(s: Option<String>) -> Option<Seq<char>> {
    match s {
        Some(t) => Some(t@),
        None => None,
    }
}

/// The mode is what the arguments ask for. Installing goes before removing.
pub open spec fn asked(args: Seq<Seq<char>>, m: SetupMode) -> bool {
    match m {
        SetupMode::Install { dir, autostart, launch_now } => {
            &&& flagged(args, "--install"@)
            &&& text_of(dir) == behind(args, "--dir"@, 1)
            &&& autostart == !flagged(args, "--no-autostart"@)
            &&& launch_now == !flagged(args, "--no-launch"@)
        },
        SetupMode::Uninstall { delete_config, quiet } => {
            &&& !flagged(args, "--install"@)
            &&& flagged(args, "--uninstall"@)
            &&& delete_config == !flagged(args, "--keep-config"@)
            &&& quiet == flagged(args, "--quiet"@)
        },
        SetupMode::Wizard => !flagged(args, "--install"@) && !flagged(args, "--uninstall"@),
    }
}

/// The directory once something happened in a dialog.
pub open spec fn dir_after(dir: Seq<char>, ev: WizardEvent) -> Seq<char> {
    match ev {
        WizardEvent::Picked(Some(d)) => d@,
        _ => dir,
    }
}

/// The step comes next.
pub open spec fn follows(dir: Seq<char>, ev: WizardEvent, step: WizardStep) -> bool {
    match ev {
        WizardEvent::Confirmed(b) => if b == BTN_CHANGE_DIR {
            step is Pick
        } else if b == IDOK {
            step is Options
        } else {
            step is Cancel
        },
        WizardEvent::Picked(_) => step is Confirm,
        WizardEvent::Chosen(b, autostart) => if b == BTN_LAUNCH || b == BTN_NO_LAUNCH {
            step matches WizardStep::Install(o) && o.install_dir@ == dir && o.autostart == autostart
                && o.launch_now == (b == BTN_LAUNCH)
        } else {
            step is Cancel
        },
    }
}

/// A file's size in whole kilobytes, in thirty-two bits.
pub open spec fn kilobytes(size: u64) -> int {
    (size / 1024) as int % 0x1_0000_0000
}

/// The kilobytes of the first `n` files.
pub open spec fn total_kilobytes(sizes: Seq<u64>, n: int) -> int
    decreases n,
{
    if n <= 0 {
        0
    } else {
        total_kilobytes(sizes, n - 1) + kilobytes(sizes[n - 1])
    }
}

// ---------------------------------------------------------------------------
// Arguments
// ---------------------------------------------------------------------------

/// Where the flag stands among the arguments, or the end.
pub fn find_flag(args: &Vec<String>, flag: &str) -> (r: usize)
    ensures
        r == flag_at(strings(args@), flag@),
        r <= args.len(),
{
    let ghost views = strings(args@);
    let mut i: usize = 0;
    while i < args.len()
        invariant
            i <= args.len(),
            views == strings(args@),
            flag_at(views, flag@) == flag_from(views, flag@, i as int),
        decreases args.len() - i,
    {
        assert(views[i as int] == args@[i as int]@);
        if is_text(&chars_of(args[i].as_str()), flag) {
            return i;
        }
        i += 1;
    }
    i
}

/// The flag is among the arguments.
pub fn has_flag(args: &Vec<String>, flag: &str) -> (r: bool)
    ensures
        r == flagged(strings(args@), flag@),
{
    find_flag(args, flag) < args.len()
}

/// The argument `k` behind the flag.
pub fn argument_behind(args: &Vec<String>, flag: &str, k: usize) -> (r: Option<String>)
    ensures
        text_of(r) == behind(strings(args@), flag@, k as int),
{
    let i: usize = find_flag(args, flag);
    if i < args.len() && k < args.len() - i {
        assert(strings(args@)[i + k] == args@[i + k]@);
        Some(args[i + k].clone())
    } else {
        None
    }
}

/// What the arguments ask for.
pub fn setup_mode(args: &Vec<String>) -> (r: SetupMode)
    ensures
        asked(strings(args@), r),
{
    if has_flag(args, "--install") {
        SetupMode::Install {
            dir: argument_behind(args, "--dir", 1),
            autostart: !has_flag(args, "--no-autostart"),
            launch_now: !has_flag(args, "--no-launch"),
        }
    } else if has_flag(args, "--uninstall") {
        SetupMode::Uninstall {
            delete_config: !has_flag(args, "--keep-config"),
            quiet: has_flag(args, "--quiet"),
        }
    } else {
        SetupMode::Wizard
    }
}

// ---------------------------------------------------------------------------
// Dialogs
// ---------------------------------------------------------------------------

/// What a button of the main menu chooses.
pub fn main_menu_choice(button: i32) -> (r: MainMenuResult)
    ensures
        r == if button == BTN_INSTALL {
            MainMenuResult::Install
        } else if button == BTN_UNINSTALL {
            MainMenuResult::Uninstall
        } else {
            MainMenuResult::Cancel
        },
{
    if button == BTN_INSTALL {
        MainMenuResult::Install
    } else if button == BTN_UNINSTALL {
        MainMenuResult::Uninstall
    } else {
        MainMenuResult::Cancel
    }
}

/// What the dialog before removing comes to.
pub fn uninstall_choice(button: i32, delete_config: bool) -> (r: Option<UninstallOptions>)
    ensures
        r == if button == IDOK {
            Some(UninstallOptions { delete_config })
        } else {
            None
        },
{
    if button == IDOK {
        Some(UninstallOptions { delete_config })
    } else {
        None
    }
}

impl Wizard {
    /// The dialogs start with this directory.
    pub fn new(dir: String) -> (r: Wizard)
        ensures
            r.dir == dir,
    {
        Wizard { dir }
    }

    /// What comes next once something happened in a dialog.
    pub fn next(&mut self, ev: WizardEvent) -> (r: WizardStep)
        ensures
            final(self).dir@ == dir_after(old(self).dir@, ev),
            follows(old(self).dir@, ev, r),
    {
        match ev {
            WizardEvent::Confirmed(b) => {
                if b == BTN_CHANGE_DIR {
                    WizardStep::Pick
                } else if b == IDOK {
                    WizardStep::Options
                } else {
                    WizardStep::Cancel
                }
            },
            WizardEvent::Picked(picked) => {
                if let Some(d) = picked {
                    self.dir = d;
                }
                WizardStep::Confirm
            },
            WizardEvent::Chosen(b, autostart) => {
                if b == BTN_LAUNCH || b == BTN_NO_LAUNCH {
                    WizardStep::Install(
                        InstallOptions {
                            install_dir: self.dir.clone(),
                            autostart,
                            launch_now: b == BTN_LAUNCH,
                        },
                    )
                } else {
                    WizardStep::Cancel
                }
            },
        }
    }
}

// ---------------------------------------------------------------------------
// Files and registry entries
// ---------------------------------------------------------------------------

/// The files to copy, in their order, or the first file that must be there and
/// is not. The command-line client need not be there.
pub fn plan_install(wm: bool, setup: bool, client: bool) -> (r: Result<
    Vec<&'static str>,
    &'static str,
>)
    ensures
        match r {
            Ok(v) => wm && setup && v@ == if client {
                seq!["emakiwm.exe", "emakiwm-setup.exe", "emakiwmc.exe"]
            } else {
                seq!["emakiwm.exe", "emakiwm-setup.exe"]
            },
            Err(name) => if !wm {
                name == "emakiwm.exe"
            } else {
                !setup && name == "emakiwm-setup.exe"
            },
        },
{
    if !wm {
        return Err("emakiwm.exe");
    }
    if !setup {
        return Err("emakiwm-setup.exe");
    }
    let mut v: Vec<&'static str> = Vec::new();
    v.push("emakiwm.exe");
    v.push("emakiwm-setup.exe");
    if client {
        v.push("emakiwmc.exe");
    }
    Ok(v)
}

/// The files that are deleted at once: all but the running setup program.
pub fn files_to_delete() -> (r: Vec<&'static str>)
    ensures
        r@ == seq!["emakiwm.exe", "emakiwmc.exe"],
{
    let mut v: Vec<&'static str> = Vec::new();
    v.push("emakiwm.exe");
    v.push("emakiwmc.exe");
    v
}

/// The command line that removes the window manager.
pub fn uninstall_command(setup_path: &str, quiet: bool) -> (r: String)
    ensures
        r@ == "\""@ + setup_path@ + "\""@ + " --uninstall"@ + if quiet {
            " --quiet"@
        } else {
            Seq::empty()
        },
{
    let mut out = quoted(setup_path);
    append(&mut out, " --uninstall");
    if quiet {
        append(&mut out, " --quiet");
    }
    assert(out@ =~= "\""@ + setup_path@ + "\""@ + " --uninstall"@ + if quiet {
        " --quiet"@
    } else {
        Seq::empty()
    });
    out
}

/// How many kilobytes the files take, none where the sum does not fit.
pub fn installed_kilobytes(sizes: &Vec<u64>) -> (r: Option<u32>)
    ensures
        match r {
            Some(n) => n == total_kilobytes(sizes@, sizes.len() as int),
            None => total_kilobytes(sizes@, sizes.len() as int) > u32::MAX,
        },
{
    let mut sum: u32 = 0;
    let mut i: usize = 0;
    while i < sizes.len()
        invariant
            i <= sizes.len(),
            sum == total_kilobytes(sizes@, i as int),
        decreases sizes.len() - i,
    {
        let kb: u64 = (sizes[i] / 1024) % 0x1_0000_0000;
        assert(kb == kilobytes(sizes@[i as int]));
        if kb > (u32::MAX - sum) as u64 {
            proof {
                lemma_total_grows(sizes@, i + 1, sizes.len() as int);
            }
            return None;
        }
        sum = sum + kb as u32;
        i += 1;
    }
    Some(sum)
}

proof fn lemma_total_grows(sizes: Seq<u64>, j: int, n: int)
    requires
        j <= n,
    ensures
        total_kilobytes(sizes, j) <= total_kilobytes(sizes, n),
    decreases n - j,
{
    if j < n {
        lemma_total_grows(sizes, j, n - 1);
    }
}

// ---------------------------------------------------------------------------
// Laws
// ---------------------------------------------------------------------------

/// A flag is found wherever it stands among the arguments, and what belongs to it
/// is behind the first place where it stands.
pub proof fn law_flags(args: Seq<Seq<char>>, flag: Seq<char>, at: int, k: int)
    requires
        0 <= at < args.len(),
        args[at] == flag,
        forall|j: int| 0 <= j < at ==> #[trigger] args[j] != flag,
    ensures
        flagged(args, flag),
        behind(args, flag, k) == if at + k < args.len() {
            Some(args[at + k])
        } else {
            None
        },
{
    lemma_flag_from(args, flag, 0, at);
}

proof fn lemma_flag_from(args: Seq<Seq<char>>, flag: Seq<char>, i: int, at: int)
    requires
        0 <= i <= at <= args.len(),
        at < args.len() ==> args[at] == flag,
        forall|j: int| 0 <= j < at ==> #[trigger] args[j] != flag,
    ensures
        flag_from(args, flag, i) == at,
    decreases at - i,
{
    if i < at {
        assert(args[i] != flag);
        lemma_flag_from(args, flag, i + 1, at);
    }
}

/// A flag is given just where it is one of the arguments.
pub proof fn law_flagged(args: Seq<Seq<char>>, flag: Seq<char>)
    ensures
        flagged(args, flag) <==> args.contains(flag),
{
    if args.contains(flag) {
        let at = args.index_of_first(flag).unwrap();
        args.index_of_first_ensures(flag);
        lemma_flag_from(args, flag, 0, at);
    } else {
        assert forall|j: int| 0 <= j < args.len() implies #[trigger] args[j] != flag by {}
        lemma_flag_from(args, flag, 0, args.len() as int);
    }
}

/// The setup program installs where it is told to, removes where it is told to
/// and not to install, and else asks. Whatever is not switched off is done.
pub proof fn law_what_setup_does(args: Seq<Seq<char>>, m: SetupMode)
    requires
        asked(args, m),
    ensures
        m is Install <==> args.contains("--install"@),
        m is Uninstall <==> args.contains("--uninstall"@) && !args.contains("--install"@),
        m matches SetupMode::Install { dir, autostart, launch_now } ==> {
            &&& autostart <==> !args.contains("--no-autostart"@)
            &&& launch_now <==> !args.contains("--no-launch"@)
            &&& !args.contains("--dir"@) ==> dir is None
        },
        m matches SetupMode::Uninstall { delete_config, quiet } ==> {
            &&& delete_config <==> !args.contains("--keep-config"@)
            &&& quiet <==> args.contains("--quiet"@)
        },
{
    law_flagged(args, "--install"@);
    law_flagged(args, "--uninstall"@);
    law_flagged(args, "--no-autostart"@);
    law_flagged(args, "--no-launch"@);
    law_flagged(args, "--dir"@);
    law_flagged(args, "--keep-config"@);
    law_flagged(args, "--quiet"@);
}

/// The directory that was picked is the one to install in, with the options that
/// were chosen. No directory picked leaves the one there was, and each time the
/// directory is to be confirmed again.
pub proof fn law_picked_directory_is_used(
    dir: Seq<char>,
    picked: Option<String>,
    button: i32,
    autostart: bool,
    confirm: WizardStep,
    step: WizardStep,
)
    requires
        button == BTN_LAUNCH || button == BTN_NO_LAUNCH,
        follows(dir, WizardEvent::Picked(picked), confirm),
        follows(
            dir_after(dir, WizardEvent::Picked(picked)),
            WizardEvent::Chosen(button, autostart),
            step,
        ),
    ensures
        confirm is Confirm,
        step matches WizardStep::Install(o) && {
            &&& o.autostart == autostart
            &&& o.launch_now <==> button == BTN_LAUNCH
            &&& picked is None ==> o.install_dir@ == dir
            &&& picked matches Some(d) ==> o.install_dir@ == d@
        },
{
}

/// The bytes of the first `n` files.
pub open spec fn total_bytes(sizes: Seq<u64>, n: int) -> int
    decreases n,
{
    if n <= 0 {
        0
    } else {
        total_bytes(sizes, n - 1) + sizes[n - 1]
    }
}

/// The kilobytes of files are those of all their bytes, but for less than one
/// kilobyte a file.
pub proof fn law_kilobytes_of_files(sizes: Seq<u64>, n: int)
    requires
        0 <= n <= sizes.len(),
        forall|i: int| 0 <= i < n ==> #[trigger] sizes[i] < 0x400_0000_0000,
    ensures
        1024 * total_kilobytes(sizes, n) <= total_bytes(sizes, n) <= 1024 * total_kilobytes(
            sizes,
            n,
        ) + 1023 * n,
    decreases n,
{
    if n > 0 {
        law_kilobytes_of_files(sizes, n - 1);
        assert(sizes[n - 1] < 0x400_0000_0000);
    }
}

} // verus!
