//! The scrolling overview, a Hyprland plugin that `hyprpm` builds and loads.

use vstd::prelude::*;

use crate::configfs::managed::{
    CommentStyle, ManagedBlock, close_marker, extracted, located, open_marker, upserted,
};
use crate::decimal::{append_fixed, fixed_text, micros_of, parse_number, read_number};
use crate::engine::{
    ApplyPlan, Cmd, CmdOutput, CmdView, EditView, FileEdit, PlanView, ReloadStep, Risk, content,
    content_of, edit_to, edit_views, hypr_checks, hypr_verification, opt_edit, opt_plan,
    plain_plan, planned_edit,
};
use crate::error::{Failure, StudioError, external};
use crate::keybinds::overrides::{
    Override, OverrideView, apply_overrides, bindings_path, is_marked, marked, marked_bind,
    override_views, overrides_on, overrides_plan, read_overrides,
};
use crate::keybinds::{ConfigBind, mods_to_mask};
use crate::number::{append_i64, bool_text, int_text, parse_i64, read_i64};
use crate::paths::{OmarchyPaths, join as path_join};
use crate::split::{join, joined, lines, text_lines};
use crate::text::{
    alpha, chars, contains, contains_str, contains_text, find, found, front, has_char, holds,
    is_alpha, is_text, lower_text, lowered, opt_str, owned, pos, position, rest, same_but_case,
    same_ignoring_case, slices, string, texts, trim, trimmed,
};

pub mod laws;
pub mod reading;

verus! {

/// What `hyprpm add` is pointed at.
pub const REPO: &'static str = "https://github.com/yayuuu/hyprland-scroll-overview.git";

/// The plugin's name.
pub const PLUGIN: &'static str = "scrolloverview";

/// Who wrote the plugin.
pub const AUTHOR: &'static str = "yayuuu";

/// The plugin's license.
pub const LICENSE: &'static str = "BSD-3-Clause";

/// How far along the plugin is.
#[derive(Debug, Clone, Copy, PartialEq, Eq, Structural)]
pub enum State {
    /// There is no `hyprpm`.
    NoHyprpm,
    /// The plugin has not been added.
    NotAdded,
    /// It is built and not loaded.
    Disabled,
    /// It is loaded.
    Enabled,
}

impl State {
    pub open spec fn name(self) -> Seq<char> {
        match self {
            State::NoHyprpm => "hyprpm not installed"@,
            State::NotAdded => "not installed"@,
            State::Disabled => "installed, off"@,
            State::Enabled => "on"@,
        }
    }

    pub fn label(self) -> (r: &'static str)
        ensures
            r@ == self.name(),
    {
        match self {
            State::NoHyprpm => "hyprpm not installed",
            State::NotAdded => "not installed",
            State::Disabled => "installed, off",
            State::Enabled => "on",
        }
    }

    pub fn is_on(self) -> (r: bool)
        ensures
            r == (self == State::Enabled),
    {
        match self {
            State::Enabled => true,
            _ => false,
        }
    }
}

// ----------------------------------------------------------------- reading hyprpm

/// How many characters a terminal code has behind its bracket: as many as lead
/// to the first letter.
pub open spec fn code_len(s: Seq<char>) -> nat
    decreases s.len(),
{
    if s.len() == 0 {
        0
    } else if is_alpha(s[0]) {
        1
    } else {
        1 + code_len(s.skip(1))
    }
}

pub proof fn lemma_code_len(s: Seq<char>)
    ensures
        code_len(s) <= s.len(),
    decreases s.len(),
{
    if s.len() > 0 && !is_alpha(s[0]) {
        lemma_code_len(s.skip(1));
    }
}

/// A text without its terminal codes.
pub open spec fn unstyled(s: Seq<char>) -> Seq<char>
    decreases s.len(),
{
    if s.len() == 0 {
        s
    } else if s[0] != '\u{1b}' {
        seq![s[0]] + unstyled(s.skip(1))
    } else if s.len() > 1 && s[1] == '[' {
        proof {
            lemma_code_len(s.skip(2));
        }
        unstyled(s.skip(2).skip(code_len(s.skip(2)) as int))
    } else {
        unstyled(s.skip(1))
    }
}

pub fn strip_ansi(s: &str) -> (r: String)
    ensures
        r@ == unstyled(s@),
{
    let all = chars(s);
    let mut out = String::new();
    let mut i: usize = 0;
    assert(all@.skip(0) == all@);
    assert(out@ + unstyled(all@) == unstyled(all@));
    while i < all.len()
        invariant
            i <= all@.len(),
            out@ + unstyled(all@.skip(i as int)) == unstyled(all@),
        decreases all.len() - i,
    {
        let ghost tail = all@.skip(i as int);
        let ghost before = out@;
        let c = all[i];
        assert(tail[0] == c);
        assert(tail.skip(1) == all@.skip(i + 1));
        if c != '\u{1b}' {
            out.push(c);
            i = i + 1;
            assert(before.push(c) + unstyled(tail.skip(1)) == before + (seq![c] + unstyled(
                tail.skip(1),
            )));
        } else if i + 1 < all.len() && all[i + 1] == '[' {
            i = i + 2;
            let ghost start = i as int;
            let ghost code = all@.skip(start);
            assert(tail.skip(2) == code);
            assert(code.skip(0) == code);
            proof {
                lemma_code_len(code);
            }
            while i < all.len() && !alpha(all[i])
                invariant
                    0 <= start <= i <= all@.len(),
                    code == all@.skip(start),
                    code_len(code) == i - start + code_len(code.skip(i - start)),
                decreases all.len() - i,
            {
                assert(code.skip(i - start)[0] == all@[i as int]);
                assert(code.skip(i - start).skip(1) == code.skip(i + 1 - start));
                i = i + 1;
            }
            if i < all.len() {
                assert(code.skip(i - start)[0] == all@[i as int]);
                i = i + 1;
            }
            assert(code_len(code) == i - start);
            assert(code.skip(code_len(code) as int) == all@.skip(i as int));
        } else {
            i = i + 1;
        }
    }
    assert(unstyled(all@.skip(i as int)) == Seq::<char>::empty());
    assert(out@ + Seq::<char>::empty() == out@);
    out
}

/// What stands behind the first place where a word occurs.
pub open spec fn behind(line: Seq<char>, word: Seq<char>) -> Option<Seq<char>> {
    match find(line, word) {
        Some(i) => Some(line.skip(i + word.len())),
        None => None,
    }
}

fn after<'a>(line: &'a [char], word: &str) -> (r: Option<&'a [char]>)
    ensures
        match r {
            Some(t) => behind(line@, word@) == Some(t@),
            None => behind(line@, word@) is None,
        },
{
    let n = chars(word).len();
    let all = line.len();
    match found(line, word) {
        Some(i) => Some(rest(line, i + n)),
        None => None,
    }
}

/// The state that the lines of `hyprpm list` give; `ours` says whether the last
/// plugin they named is this one, and `named` whether one of them was. A plugin
/// that failed to build has no `enabled:` line: it was added, and is not enabled.
pub open spec fn state_in(ls: Seq<Seq<char>>, ours: bool, named: bool) -> State
    decreases ls.len(),
{
    if ls.len() == 0 {
        if named {
            State::Disabled
        } else {
            State::NotAdded
        }
    } else {
        match behind(ls[0], "Plugin "@) {
            Some(name) => state_in(
                ls.skip(1),
                trim(name) == PLUGIN@,
                named || trim(name) == PLUGIN@,
            ),
            None => match behind(ls[0], "enabled:"@) {
                Some(flag) => if !ours {
                    state_in(ls.skip(1), ours, named)
                } else if same_ignoring_case(trim(flag), "true"@) {
                    State::Enabled
                } else {
                    State::Disabled
                },
                None => state_in(ls.skip(1), ours, named),
            },
        }
    }
}

pub fn parse_state(stdout: &str) -> (r: State)
    ensures
        r == state_in(lines(unstyled(stdout@)), false, false),
{
    let plain = strip_ansi(stdout);
    let s = chars(plain.as_str());
    let all = text_lines(s.as_slice());
    let ghost ls = slices(all@);
    let yes = chars("true");
    let mut ours = false;
    let mut named = false;
    let mut i: usize = 0;
    assert(ls.skip(0) == ls);
    while i < all.len()
        invariant
            i <= all@.len(),
            ls == slices(all@),
            ls == lines(unstyled(stdout@)),
            yes@ == "true"@,
            state_in(ls, false, false) == state_in(ls.skip(i as int), ours, named),
        decreases all.len() - i,
    {
        assert(ls.skip(i as int)[0] == all@[i as int]@);
        assert(ls.skip(i as int).skip(1) == ls.skip(i + 1));
        if let Some(name) = after(all[i], "Plugin ") {
            ours = is_text(trimmed(name), PLUGIN);
            named = named || ours;
        } else if ours {
            if let Some(flag) = after(all[i], "enabled:") {
                return if same_but_case(trimmed(flag), yes.as_slice()) {
                    State::Enabled
                } else {
                    State::Disabled
                };
            }
        }
        i = i + 1;
    }
    if named {
        State::Disabled
    } else {
        State::NotAdded
    }
}

pub open spec fn hyprpm_cmd(args: Seq<Seq<char>>, timeout_ms: u64) -> CmdView {
    CmdView { program: "hyprpm"@, args, timeout_ms: Some(timeout_ms) }
}

/// The command that lists the plugins.
pub fn list_cmd() -> (r: Cmd)
    ensures
        r@ == hyprpm_cmd(seq!["list"@], 20000),
{
    let args = vec![owned("list")];
    assert(texts(args@) == seq!["list"@]);
    Cmd::new("hyprpm", args, Some(20000))
}

/// The plugin's state, by whether `hyprpm` is there and by what its list
/// command left, where that ran.
pub fn state(hyprpm: bool, listed: Option<&str>) -> (r: State)
    ensures
        r == if !hyprpm {
            State::NoHyprpm
        } else {
            match opt_str(listed) {
                Some(out) => state_in(lines(unstyled(out)), false, false),
                None => State::NotAdded,
            }
        },
{
    if !hyprpm {
        return State::NoHyprpm;
    }
    match listed {
        Some(out) => parse_state(out),
        None => State::NotAdded,
    }
}

/// The command that fetches and builds the plugin.
pub fn add_cmd() -> (r: Cmd)
    ensures
        r@ == hyprpm_cmd(seq!["add"@, REPO@], 900000),
{
    let args = vec![owned("add"), owned(REPO)];
    assert(texts(args@) == seq!["add"@, REPO@]);
    Cmd::new("hyprpm", args, Some(900000))
}

/// What building the plugin came to.
pub fn add(ran: &CmdOutput) -> (r: Result<String, StudioError>)
    ensures
        match r {
            Ok(said) => ran.succeeded() && said@ == "plugin built"@,
            Err(e) => !ran.succeeded() && e@ == build_failure(ran.stdout@, ran.stderr@),
        },
{
    if ran.ok() {
        return Ok(owned("plugin built"));
    }
    Err(build_error(ran.stdout.as_str(), ran.stderr.as_str()))
}

/// The command that loads the plugin or takes it out.
pub fn set_enabled_cmd(on: bool) -> (r: Cmd)
    ensures
        r@ == hyprpm_cmd(
            seq![
                if on {
                    "enable"@
                } else {
                    "disable"@
                },
                PLUGIN@,
            ],
            20000,
        ),
{
    let verb = if on {
        "enable"
    } else {
        "disable"
    };
    let args = vec![owned(verb), owned(PLUGIN)];
    assert(texts(args@) == seq![verb@, PLUGIN@]);
    Cmd::new("hyprpm", args, Some(20000))
}

/// What loading the plugin, or taking it out, came to.
pub fn set_enabled(on: bool, ran: &CmdOutput) -> (r: Result<String, StudioError>)
    ensures
        match r {
            Ok(said) => ran.succeeded() && said@ == if on {
                "niri mode on"@
            } else {
                "back to plain Hyprland"@
            },
            Err(e) => !ran.succeeded() && e@ == build_failure(ran.stdout@, ran.stderr@),
        },
{
    if ran.ok() {
        return Ok(
            if on {
                owned("niri mode on")
            } else {
                owned("back to plain Hyprland")
            },
        );
    }
    Err(build_error(ran.stdout.as_str(), ran.stderr.as_str()))
}

/// The last line that is not blank, trimmed.
pub open spec fn last_said(ls: Seq<Seq<char>>) -> Option<Seq<char>>
    decreases ls.len(),
{
    if ls.len() == 0 {
        None
    } else if trim(ls.last()).len() > 0 {
        Some(trim(ls.last()))
    } else {
        last_said(ls.drop_last())
    }
}

pub open spec fn missing_headers() -> Seq<char> {
    "Hyprland's plugin headers are missing or out of date. Run `hyprpm update` in a terminal — it needs your password, so Studio can't run it for you."@
}

pub open spec fn needs_password() -> Seq<char> {
    "hyprpm needs your password to install the built plugin (its cache lives under /var/cache). Run `hyprpm add` in a terminal — Studio can't answer a sudo prompt."@
}

/// What a failure of `hyprpm` is put down to, by what it said. The words are
/// looked for in any case; no character outside ASCII is a form of a letter in
/// them.
pub open spec fn build_detail(said: Seq<char>) -> Seq<char> {
    if contains(lowered(said), "headers"@) {
        missing_headers()
    } else if contains(lowered(said), "superuser"@) || contains(
        said,
        "failed to create cache dir"@,
    ) {
        needs_password()
    } else {
        match last_said(lines(said)) {
            Some(line) => line,
            None => "hyprpm failed"@,
        }
    }
}

pub open spec fn build_failure(stdout: Seq<char>, stderr: Seq<char>) -> Failure {
    Failure::External {
        cmd: "hyprpm"@,
        detail: build_detail(unstyled(stdout + "\n"@ + stderr)),
    }
}

/// The error that names what to do, where what `hyprpm` said shows it.
pub fn build_error(stdout: &str, stderr: &str) -> (r: StudioError)
    ensures
        r@ == build_failure(stdout@, stderr@),
{
    let mut both = owned(stdout);
    both.append("\n");
    both.append(stderr);
    let plain = strip_ansi(both.as_str());
    let all = chars(plain.as_str());
    let low = lower_text(all.as_slice());
    if contains_text(low.as_slice(), "headers") {
        return external(
            "hyprpm",
            "Hyprland's plugin headers are missing or out of date. Run `hyprpm update` in a terminal — it needs your password, so Studio can't run it for you.",
        );
    }
    if contains_text(low.as_slice(), "superuser") || contains_text(
        all.as_slice(),
        "failed to create cache dir",
    ) {
        return external(
            "hyprpm",
            "hyprpm needs your password to install the built plugin (its cache lives under /var/cache). Run `hyprpm add` in a terminal — Studio can't answer a sudo prompt.",
        );
    }
    let ls = text_lines(all.as_slice());
    let ghost views = slices(ls@);
    let mut n: usize = ls.len();
    assert(views.take(views.len() as int) == views);
    while n > 0
        invariant
            n <= ls@.len(),
            views == slices(ls@),
            views == lines(all@),
            all@ == unstyled(stdout@ + "\n"@ + stderr@),
            low@ == lowered(all@),
            !contains(low@, "headers"@),
            !contains(low@, "superuser"@),
            !contains(all@, "failed to create cache dir"@),
            last_said(views) == last_said(views.take(n as int)),
        decreases n,
    {
        assert(views.take(n as int).last() == ls@[n - 1]@);
        assert(views.take(n as int).drop_last() == views.take(n - 1));
        let t = trimmed(ls[n - 1]);
        if t.len() > 0 {
            let detail = string(t);
            return external("hyprpm", detail.as_str());
        }
        n = n - 1;
    }
    external("hyprpm", "hyprpm failed")
}

// --------------------------------------------------------------------- navigation

/// A bind: its description, modifiers, key, dispatcher and argument.
pub type NavBind = (&'static str, &'static str, &'static str, &'static str, &'static str);

pub type NavView = (Seq<char>, Seq<char>, Seq<char>, Seq<char>, Seq<char>);

pub open spec fn nav_view(b: NavBind) -> NavView {
    (b.0@, b.1@, b.2@, b.3@, b.4@)
}

pub open spec fn nav_views(v: Seq<NavBind>) -> Seq<NavView> {
    v.map_values(|b: NavBind| nav_view(b))
}

/// The binds that make the scrolling layout navigable.
pub open spec fn all_nav() -> Seq<NavView> {
    seq![
        ("Scroll left"@, "SUPER"@, "LEFT"@, "layoutmsg"@, "focus l"@),
        ("Scroll right"@, "SUPER"@, "RIGHT"@, "layoutmsg"@, "focus r"@),
        ("Narrow column"@, "SUPER"@, "MINUS"@, "layoutmsg"@, "colresize -0.1"@),
        ("Widen column"@, "SUPER"@, "EQUAL"@, "layoutmsg"@, "colresize +0.1"@),
        ("Fit all columns"@, "SUPER SHIFT"@, "EQUAL"@, "layoutmsg"@, "fit all"@),
    ]
}

pub fn nav_binds() -> (r: Vec<NavBind>)
    ensures
        nav_views(r@) == all_nav(),
{
    let r: Vec<NavBind> = vec![
        ("Scroll left", "SUPER", "LEFT", "layoutmsg", "focus l"),
        ("Scroll right", "SUPER", "RIGHT", "layoutmsg", "focus r"),
        ("Narrow column", "SUPER", "MINUS", "layoutmsg", "colresize -0.1"),
        ("Widen column", "SUPER", "EQUAL", "layoutmsg", "colresize +0.1"),
        ("Fit all columns", "SUPER SHIFT", "EQUAL", "layoutmsg", "fit all"),
    ];
    assert(nav_views(r@) =~= all_nav());
    r
}

/// Whether one of some changes carries a description.
pub open spec fn is_there(os: Seq<OverrideView>, desc: Seq<char>) -> bool {
    exists|i: int| 0 <= i < os.len() && is_marked(#[trigger] os[i], desc)
}

/// Whether every navigation bind is among some changes.
pub open spec fn nav_complete(os: Seq<OverrideView>) -> bool {
    forall|i: int| 0 <= i < all_nav().len() ==> is_there(os, #[trigger] all_nav()[i].0)
}

/// Whether the navigation binds are in a bindings file.
pub fn nav_binds_installed(on_disk: Option<&str>) -> (r: bool)
    ensures
        r == nav_complete(overrides_on(opt_str(on_disk))),
{
    let have = read_overrides(on_disk);
    let binds = nav_binds();
    let ghost os = override_views(have@);
    let ghost all = all_nav();
    let mut i: usize = 0;
    while i < binds.len()
        invariant
            i <= binds@.len(),
            all == nav_views(binds@),
            all == all_nav(),
            os == override_views(have@),
            os == overrides_on(opt_str(on_disk)),
            forall|k: int| 0 <= k < i ==> is_there(os, #[trigger] all[k].0),
        decreases binds.len() - i,
    {
        let mut j: usize = 0;
        let mut there = false;
        assert(all[i as int] == nav_view(binds@[i as int]));
        while j < have.len() && !there
            invariant
                i < binds@.len(),
                j <= have@.len(),
                os == override_views(have@),
                !there ==> forall|k: int|
                    0 <= k < j ==> !is_marked(#[trigger] os[k], binds@[i as int].0@),
                there ==> is_there(os, binds@[i as int].0@),
            decreases have.len() - j, !there as int,
        {
            assert(os[j as int] == have@[j as int]@);
            if marked(&have[j], binds[i].0) {
                there = true;
            }
            j = j + 1;
        }
        if !there {
            assert(!is_there(os, all[i as int].0));
            return false;
        }
        i = i + 1;
    }
    true
}

/// Whether a change is one of the navigation binds.
pub open spec fn is_ours(o: OverrideView) -> bool {
    exists|i: int| 0 <= i < all_nav().len() && is_marked(o, #[trigger] all_nav()[i].0)
}

/// The changes that are not navigation binds.
pub open spec fn others(os: Seq<OverrideView>) -> Seq<OverrideView> {
    os.filter(|o: OverrideView| !is_ours(o))
}

/// The bind that a row of the table stands for.
pub open spec fn nav_change(n: NavView) -> OverrideView {
    OverrideView::Bind(marked_bind(n.0, n.1, n.2, n.3, n.4))
}

/// The changes with the navigation binds put behind the others, or left out.
pub open spec fn with_nav(os: Seq<OverrideView>, on: bool) -> Seq<OverrideView> {
    if on {
        others(os) + all_nav().map_values(|n: NavView| nav_change(n))
    } else {
        others(os)
    }
}

fn ours(o: &Override, binds: &Vec<NavBind>) -> (r: bool)
    requires
        nav_views(binds@) == all_nav(),
    ensures
        r == is_ours(o@),
{
    let ghost all = all_nav();
    let mut i: usize = 0;
    while i < binds.len()
        invariant
            i <= binds@.len(),
            all == nav_views(binds@),
            all == all_nav(),
            forall|k: int| 0 <= k < i ==> !is_marked(o@, #[trigger] all[k].0),
        decreases binds.len() - i,
    {
        assert(all[i as int] == nav_view(binds@[i as int]));
        if marked(o, binds[i].0) {
            assert(is_marked(o@, all[i as int].0));
            return true;
        }
        i = i + 1;
    }
    false
}

/// Plans the whole set in or out at once; with it comes how many binds there
/// are now.
pub fn set_nav_binds(
    paths: &OmarchyPaths,
    on_disk: Option<&str>,
    on: bool,
    hypr_usable: bool,
) -> (r: (usize, Option<ApplyPlan>))
    ensures
        r.0 == if on {
            all_nav().len()
        } else {
            0
        },
        opt_plan(r.1) == overrides_plan(
            bindings_path(paths),
            opt_str(on_disk),
            with_nav(overrides_on(opt_str(on_disk)), on),
            if on {
                "niri navigation keybinds"@
            } else {
                "remove niri navigation keybinds"@
            },
            hypr_usable,
        ),
{
    let binds = nav_binds();
    let ghost all = all_nav();
    let have = read_overrides(on_disk);
    let ghost os = override_views(have@);
    let ghost f = |o: OverrideView| !is_ours(o);
    let mut kept: Vec<Override> = Vec::new();
    let mut i: usize = 0;
    proof {
        reveal(Seq::filter);
    }
    assert(os.take(0) == Seq::<OverrideView>::empty());
    assert(override_views(kept@) == os.take(0).filter(f));
    while i < have.len()
        invariant
            i <= have@.len(),
            nav_views(binds@) == all_nav(),
            os == override_views(have@),
            f == (|o: OverrideView| !is_ours(o)),
            override_views(kept@) == os.take(i as int).filter(f),
        decreases have.len() - i,
    {
        assert(os.take(i + 1).drop_last() == os.take(i as int));
        assert(os.take(i + 1).last() == have@[i as int]@);
        proof {
            reveal(Seq::filter);
        }
        let ghost before = override_views(kept@);
        if !ours(&have[i], &binds) {
            let o = have[i].copied();
            kept.push(o);
            assert(override_views(kept@) == before.push(o@));
        }
        i = i + 1;
    }
    assert(os.take(os.len() as int) == os);
    assert(override_views(kept@) == others(os));
    let ghost more = all.map_values(|n: NavView| nav_change(n));
    if on {
        let mut k: usize = 0;
        assert(override_views(kept@) == others(os) + more.take(0));
        while k < binds.len()
            invariant
                k <= binds@.len(),
                nav_views(binds@) == all,
                more == all.map_values(|n: NavView| nav_change(n)),
                override_views(kept@) == others(os) + more.take(k as int),
            decreases binds.len() - k,
        {
            let (desc, mods, key, dispatcher, arg) = binds[k];
            assert(all[k as int] == nav_view(binds@[k as int]));
            let ghost before = override_views(kept@);
            let bind = ConfigBind {
                flags: owned("bindd"),
                modmask: mods_to_mask(mods),
                key: owned(key),
                description: Some(owned(desc)),
                dispatcher: owned(dispatcher),
                arg: owned(arg),
            };
            let o = Override::Bind(bind);
            assert(o@ == more[k as int]);
            kept.push(o);
            assert(override_views(kept@) == before.push(o@));
            assert(more.take(k + 1) == more.take(k as int).push(more[k as int]));
            assert(override_views(kept@) == others(os) + more.take(k + 1));
            k = k + 1;
        }
        assert(more.take(more.len() as int) == more);
    }
    assert(override_views(kept@) == with_nav(os, on));
    let summary = if on {
        "niri navigation keybinds"
    } else {
        "remove niri navigation keybinds"
    };
    let plan = apply_overrides(paths, on_disk, kept.as_slice(), summary, hypr_usable);
    let n: usize = if on {
        binds.len()
    } else {
        0
    };
    assert(nav_views(binds@).len() == binds@.len());
    (n, plan)
}

// ----------------------------------------------------------------------- settings

/// The plugin's settings.
#[derive(Debug, Clone, PartialEq, Eq)]
pub struct Settings {
    /// The overview's scale, in millionths.
    pub scale: i64,
    /// `vertical` or `horizontal`.
    pub layout: String,
    /// Pixels between the cards.
    pub workspace_gap: i64,
    pub blur: bool,
    /// How far a swipe goes.
    pub gesture_distance: i64,
}

#[verifier::ext_equal]
pub struct SettingsView {
    pub scale: i64,
    pub layout: Seq<char>,
    pub workspace_gap: i64,
    pub blur: bool,
    pub gesture_distance: i64,
}

impl View for Settings {
    type V = SettingsView;

    open spec fn view(&self) -> SettingsView {
        SettingsView {
            scale: self.scale,
            layout: self.layout@,
            workspace_gap: self.workspace_gap,
            blur: self.blur,
            gesture_distance: self.gesture_distance,
        }
    }
}

pub open spec fn default_settings() -> SettingsView {
    SettingsView {
        scale: 500_000,
        layout: "vertical"@,
        workspace_gap: 100,
        blur: false,
        gesture_distance: 300,
    }
}

impl Default for Settings {
    fn default() -> (r: Self)
        ensures
            r@ == default_settings(),
    {
        Settings {
            scale: 500_000,
            layout: owned("vertical"),
            workspace_gap: 100,
            blur: false,
            gesture_distance: 300,
        }
    }
}

/// The lines of a settings block.
pub open spec fn settings_lines(s: SettingsView) -> Seq<Seq<char>> {
    seq![
        "# Managed by Omarchy Studio — ScrollOverview by "@ + AUTHOR@ + " ("@ + LICENSE@ + ")."@,
        "# Upstream: "@ + REPO@,
        "plugin {"@,
        "    "@ + PLUGIN@ + " {"@,
        "        scale = "@ + fixed_text(s.scale as int),
        "        layout = "@ + s.layout,
        "        workspace_gap = "@ + int_text(s.workspace_gap as int),
        "        blur = "@ + bool_text(s.blur),
        "        gesture_distance = "@ + int_text(s.gesture_distance as int),
        "    }"@,
        "}"@,
    ]
}

/// The settings with what a line says put in.
pub open spec fn with_line(s: SettingsView, line: Seq<char>) -> SettingsView {
    let t = trim(line);
    let p = pos(t, '=');
    let k = trim(t.take(p));
    let v = trim(t.skip(p + 1));
    if !holds(t, '=') {
        s
    } else if k == "scale"@ {
        match parse_number(v) {
            Some(n) => SettingsView { scale: micros_of(n), ..s },
            None => s,
        }
    } else if k == "layout"@ {
        SettingsView { layout: v, ..s }
    } else if k == "workspace_gap"@ {
        match parse_i64(v) {
            Some(n) => SettingsView { workspace_gap: n, ..s },
            None => s,
        }
    } else if k == "blur"@ {
        SettingsView { blur: v == "true"@, ..s }
    } else if k == "gesture_distance"@ {
        match parse_i64(v) {
            Some(n) => SettingsView { gesture_distance: n, ..s },
            None => s,
        }
    } else {
        s
    }
}

/// The settings with what some lines say put in, one after the other.
pub open spec fn with_lines(s: SettingsView, ls: Seq<Seq<char>>) -> SettingsView
    decreases ls.len(),
{
    if ls.len() == 0 {
        s
    } else {
        with_line(with_lines(s, ls.drop_last()), ls.last())
    }
}

pub open spec fn opening() -> Seq<char> {
    open_marker("scrolloverview"@, CommentStyle::Hash)
}

pub open spec fn closing() -> Seq<char> {
    close_marker("scrolloverview"@, CommentStyle::Hash)
}

/// The settings that a file holds; what it does not say is as by default.
pub open spec fn settings_in(text: Option<Seq<char>>) -> SettingsView {
    match text {
        Some(s) => match extracted(s, opening(), closing()) {
            Some(body) => with_lines(default_settings(), lines(body)),
            None => default_settings(),
        },
        None => default_settings(),
    }
}

pub open spec fn conf(paths: &OmarchyPaths) -> Seq<char> {
    path_join(paths.hypr(), "scrolloverview.conf"@)
}

/// The file that the settings stand in.
pub fn conf_path(paths: &OmarchyPaths) -> (r: String)
    ensures
        r@ == conf(paths),
{
    paths.hypr_file("scrolloverview.conf")
}

/// A file's text with the settings written into it.
pub open spec fn with_settings(text: Seq<char>, s: SettingsView) -> Seq<char> {
    upserted(text, opening(), join(settings_lines(s), "\n"@), closing())
}

pub open spec fn settings_edit(
    paths: &OmarchyPaths,
    on_disk: Option<Seq<char>>,
    s: SettingsView,
) -> Option<EditView> {
    edit_to(conf(paths), on_disk, with_settings(content(on_disk), s))
}

/// The plan of some edits for Hyprland, where there are any.
pub open spec fn overview_plan(
    edits: Seq<EditView>,
    summary: Seq<char>,
    hypr_usable: bool,
    risk: Risk,
) -> Option<PlanView> {
    if edits.len() == 0 {
        None
    } else {
        Some(
            PlanView {
                summary,
                module: PLUGIN@,
                edits,
                reload: seq![ReloadStep::HyprReload],
                verify: hypr_checks(hypr_usable),
                risk,
                trailers: Seq::empty(),
            },
        )
    }
}

fn planned(edits: Vec<FileEdit>, summary: &str, hypr_usable: bool, risk: Risk) -> (r: Option<
    ApplyPlan,
>)
    ensures
        opt_plan(r) == overview_plan(edit_views(edits@), summary@, hypr_usable, risk),
{
    assert(edit_views(edits@).len() == edits@.len());
    if edits.len() == 0 {
        return None;
    }
    let reload = vec![ReloadStep::HyprReload];
    assert(reload@ == seq![ReloadStep::HyprReload]);
    Some(plain_plan(summary, PLUGIN, edits, reload, hypr_verification(hypr_usable), risk))
}

/// The edits that there are: none, or one.
pub open spec fn as_edits(e: Option<EditView>) -> Seq<EditView> {
    match e {
        Some(e) => seq![e],
        None => Seq::empty(),
    }
}

fn push_edit(edits: &mut Vec<FileEdit>, e: Option<FileEdit>)
    ensures
        edit_views(final(edits)@) == edit_views(old(edits)@) + as_edits(opt_edit(e)),
{
    let ghost was = edit_views(edits@);
    let ghost more = as_edits(opt_edit(e));
    match e {
        Some(e) => {
            edits.push(e);
            assert(edit_views(edits@) == was.push(e@));
        },
        None => {},
    }
    assert(edit_views(edits@) == was + more);
}

impl Settings {
    pub fn render(&self) -> (r: String)
        ensures
            r@ == join(settings_lines(self@), "\n"@),
    {
        let mut head = owned("# Managed by Omarchy Studio — ScrollOverview by ");
        head.append(AUTHOR);
        head.append(" (");
        head.append(LICENSE);
        head.append(").");
        let mut upstream = owned("# Upstream: ");
        upstream.append(REPO);
        let mut section = owned("    ");
        section.append(PLUGIN);
        section.append(" {");
        let mut scale = owned("        scale = ");
        append_fixed(&mut scale, self.scale);
        let mut layout = owned("        layout = ");
        layout.append(self.layout.as_str());
        let mut gap = owned("        workspace_gap = ");
        append_i64(&mut gap, self.workspace_gap);
        let mut blur = owned("        blur = ");
        blur.append(
            if self.blur {
                "true"
            } else {
                "false"
            },
        );
        let mut distance = owned("        gesture_distance = ");
        append_i64(&mut distance, self.gesture_distance);
        let ls = vec![
            head,
            upstream,
            owned("plugin {"),
            section,
            scale,
            layout,
            gap,
            blur,
            distance,
            owned("    }"),
            owned("}"),
        ];
        assert(texts(ls@) =~= settings_lines(self@));
        joined(&ls, "\n")
    }

    /// Puts in what a line says.
    fn take_line(&mut self, line: &[char])
        ensures
            final(self)@ == with_line(old(self)@, line@),
    {
        let t = trimmed(line);
        if !has_char(t, '=') {
            return;
        }
        proof {
            crate::text::lemma_pos_from(t@, '=', 0);
        }
        let p = position(t, '=');
        let all = t.len();
        let k = trimmed(front(t, p));
        let v = trimmed(rest(t, p + 1));
        if is_text(k, "scale") {
            if let Some(n) = read_number(v) {
                self.scale = n.micros();
            }
        } else if is_text(k, "layout") {
            self.layout = string(v);
        } else if is_text(k, "workspace_gap") {
            if let Some(n) = read_i64(v) {
                self.workspace_gap = n;
            }
        } else if is_text(k, "blur") {
            self.blur = is_text(v, "true");
        } else if is_text(k, "gesture_distance") {
            if let Some(n) = read_i64(v) {
                self.gesture_distance = n;
            }
        }
    }

    pub fn load(text: Option<&str>) -> (r: Self)
        ensures
            r@ == settings_in(opt_str(text)),
    {
        let mut s = Settings::default();
        let shown = match text {
            Some(t) => t,
            None => {
                return s;
            },
        };
        let block = ManagedBlock::new("scrolloverview", CommentStyle::Hash);
        let body = match block.extract(shown) {
            Some(b) => b,
            None => {
                return s;
            },
        };
        let all = chars(body.as_str());
        let ls = text_lines(all.as_slice());
        let ghost views = slices(ls@);
        let mut i: usize = 0;
        assert(views.take(0).len() == 0);
        while i < ls.len()
            invariant
                i <= ls@.len(),
                views == slices(ls@),
                s@ == with_lines(default_settings(), views.take(i as int)),
            decreases ls.len() - i,
        {
            assert(views.take(i + 1).drop_last() == views.take(i as int));
            assert(views.take(i + 1).last() == ls@[i as int]@);
            s.take_line(ls[i]);
            i = i + 1;
        }
        assert(views.take(views.len() as int) == views);
        s
    }

    pub fn plan(&self, paths: &OmarchyPaths, on_disk: Option<&str>) -> (r: Option<FileEdit>)
        ensures
            opt_edit(r) == settings_edit(paths, opt_str(on_disk), self@),
    {
        let existing = content_of(on_disk);
        let block = ManagedBlock::new("scrolloverview", CommentStyle::Hash);
        let body = self.render();
        let updated = block.upsert(existing.as_str(), body.as_str());
        planned_edit(conf_path(paths), on_disk, updated)
    }

    /// The plan that writes the settings, or nothing where the file has them.
    pub fn apply(&self, paths: &OmarchyPaths, on_disk: Option<&str>, hypr_usable: bool) -> (r:
        Option<ApplyPlan>)
        ensures
            opt_plan(r) == overview_plan(
                as_edits(settings_edit(paths, opt_str(on_disk), self@)),
                "scroll overview settings"@,
                hypr_usable,
                Risk::Safe,
            ),
    {
        let mut edits: Vec<FileEdit> = Vec::new();
        assert(edit_views(edits@) == Seq::<EditView>::empty());
        push_edit(&mut edits, self.plan(paths, on_disk));
        assert(edit_views(edits@) == as_edits(settings_edit(paths, opt_str(on_disk), self@)));
        planned(edits, "scroll overview settings", hypr_usable, Risk::Safe)
    }
}

// ----------------------------------------------------------------------- sourcing

pub open spec fn source_text(paths: &OmarchyPaths) -> Seq<char> {
    "source = "@ + conf(paths)
}

/// The line that makes Hyprland read the settings.
pub fn source_line(paths: &OmarchyPaths) -> (r: String)
    ensures
        r@ == source_text(paths),
{
    let mut s = owned("source = ");
    let path = conf_path(paths);
    s.append(path.as_str());
    s
}

/// Whether Hyprland's main file names the settings file.
pub fn is_sourced(paths: &OmarchyPaths, hyprland: Option<&str>) -> (r: bool)
    ensures
        r == match opt_str(hyprland) {
            Some(text) => contains(text, conf(paths)),
            None => false,
        },
{
    let path = conf_path(paths);
    match hyprland {
        Some(text) => contains_str(text, path.as_str()),
        None => false,
    }
}

/// The line that has Hyprland load the plugins when it starts.
pub const AUTOLOAD_LINE: &'static str = "exec-once = hyprpm reload -n";

pub open spec fn loads_plugins(autostart: Option<Seq<char>>) -> bool {
    match autostart {
        Some(text) => contains(text, "hyprpm reload"@),
        None => false,
    }
}

/// Whether something loads the plugins when Hyprland starts.
pub fn autoloads(autostart: Option<&str>) -> (r: bool)
    ensures
        r == loads_plugins(opt_str(autostart)),
{
    match autostart {
        Some(text) => contains_str(text, "hyprpm reload"),
        None => false,
    }
}

pub open spec fn autoload_opening() -> Seq<char> {
    open_marker("plugin-autoload"@, CommentStyle::Hash)
}

pub open spec fn autoload_closing() -> Seq<char> {
    close_marker("plugin-autoload"@, CommentStyle::Hash)
}

pub open spec fn autostart(paths: &OmarchyPaths) -> Seq<char> {
    path_join(paths.hypr(), "autostart.conf"@)
}

/// The edit that has the plugins loaded. Where the user's own line does so,
/// there is none.
pub open spec fn autoload_edit(paths: &OmarchyPaths, on_disk: Option<Seq<char>>) -> Option<
    EditView,
> {
    let text = content(on_disk);
    if contains(text, "hyprpm reload"@) && located(
        text,
        autoload_opening(),
        autoload_closing(),
    ) is None {
        None
    } else {
        edit_to(
            autostart(paths),
            on_disk,
            upserted(text, autoload_opening(), AUTOLOAD_LINE@, autoload_closing()),
        )
    }
}

pub fn plan_autoload(paths: &OmarchyPaths, on_disk: Option<&str>) -> (r: Option<FileEdit>)
    ensures
        opt_edit(r) == autoload_edit(paths, opt_str(on_disk)),
{
    let existing = content_of(on_disk);
    let block = ManagedBlock::new("plugin-autoload", CommentStyle::Hash);
    if contains_str(existing.as_str(), "hyprpm reload") && !block.contains(existing.as_str()) {
        return None;
    }
    let updated = block.upsert(existing.as_str(), AUTOLOAD_LINE);
    planned_edit(paths.hypr_file("autostart.conf"), on_disk, updated)
}

pub open spec fn source_opening() -> Seq<char> {
    open_marker("scrolloverview-source"@, CommentStyle::Hash)
}

pub open spec fn source_closing() -> Seq<char> {
    close_marker("scrolloverview-source"@, CommentStyle::Hash)
}

/// The edit that has the settings read; a main file that is not there gets
/// none.
pub open spec fn source_edit(paths: &OmarchyPaths, hyprland: Option<Seq<char>>) -> Option<
    EditView,
> {
    match hyprland {
        Some(text) => edit_to(
            path_join(paths.hypr(), "hyprland.conf"@),
            hyprland,
            upserted(text, source_opening(), source_text(paths), source_closing()),
        ),
        None => None,
    }
}

pub fn plan_source(paths: &OmarchyPaths, hyprland: Option<&str>) -> (r: Option<FileEdit>)
    ensures
        opt_edit(r) == source_edit(paths, opt_str(hyprland)),
{
    match hyprland {
        Some(text) => {
            let block = ManagedBlock::new("scrolloverview-source", CommentStyle::Hash);
            let line = source_line(paths);
            let updated = block.upsert(text, line.as_str());
            planned_edit(paths.hypr_file("hyprland.conf"), hyprland, updated)
        },
        None => None,
    }
}

/// The edits that have the settings written, read, and the plugin loaded. A
/// settings file that is there stays as it is.
pub open spec fn sourcing_edits(
    paths: &OmarchyPaths,
    settings: Option<Seq<char>>,
    hyprland: Option<Seq<char>>,
    autostart: Option<Seq<char>>,
) -> Seq<EditView> {
    let seeded = if settings is None {
        as_edits(settings_edit(paths, None, default_settings()))
    } else {
        Seq::empty()
    };
    seeded + as_edits(source_edit(paths, hyprland)) + as_edits(autoload_edit(paths, autostart))
}

/// One plan for the settings file and for the line that names it, so that both
/// land or neither.
pub fn ensure_sourced(
    paths: &OmarchyPaths,
    settings: Option<&str>,
    hyprland: Option<&str>,
    autostart: Option<&str>,
    hypr_usable: bool,
) -> (r: Option<ApplyPlan>)
    ensures
        opt_plan(r) == overview_plan(
            sourcing_edits(paths, opt_str(settings), opt_str(hyprland), opt_str(autostart)),
            "source the scroll overview settings"@,
            hypr_usable,
            Risk::Risky,
        ),
{
    let mut edits: Vec<FileEdit> = Vec::new();
    assert(edit_views(edits@) == Seq::<EditView>::empty());
    if settings.is_none() {
        let s = Settings::load(None);
        push_edit(&mut edits, s.plan(paths, None));
        assert(edit_views(edits@) == as_edits(settings_edit(paths, None, default_settings())));
    }
    push_edit(&mut edits, plan_source(paths, hyprland));
    push_edit(&mut edits, plan_autoload(paths, autostart));
    assert(edit_views(edits@) == sourcing_edits(
        paths,
        opt_str(settings),
        opt_str(hyprland),
        opt_str(autostart),
    ));
    planned(edits, "source the scroll overview settings", hypr_usable, Risk::Risky)
}

} // verus!
