//! Nice Launcher: its settings, how it is installed and started, and its bind.

use vstd::prelude::*;

use crate::engine::{ApplyPlan, Cmd, CmdOutput, CmdView, opt_plan};
use crate::error::{Failure, StudioError, external, parse_failed};
use crate::keybinds::overrides::{
    bindings_path, find_marked, first_marked, install_marked, marked_bind, overrides_on,
    overrides_plan, remove_marked, unmarked, with_marked,
};
use crate::keybinds::{ConfigBind, opt_bind};
use crate::paths::{OmarchyPaths, beside, join as path_join, joined_path};
use crate::text::{
    chars, is_among, opt_str, opt_text, owned, starts_str, starts_with, texts, trim, trimmed_str,
};

verus! {

/// How the launcher can look, in its own order.
pub open spec fn all_modes() -> Seq<Seq<char>> {
    seq!["constellation"@, "spotlight"@, "orbital"@, "grid"@]
}

pub fn modes() -> (r: Vec<&'static str>)
    ensures
        r@.map_values(|s: &'static str| s@) == all_modes(),
{
    let r = vec!["constellation", "spotlight", "orbital", "grid"];
    assert(r@.map_values(|s: &'static str| s@) =~= all_modes());
    r
}

/// What the launcher can search in.
pub open spec fn all_providers() -> Seq<Seq<char>> {
    default_providers() + seq!["symbols"@, "unicode"@]
}

/// What it searches in by default: symbols would bury everything else.
pub open spec fn default_providers() -> Seq<Seq<char>> {
    seq![
        "desktopapplications"@,
        "calc"@,
        "files"@,
        "clipboard"@,
        "websearch"@,
        "menus"@,
        "runner"@,
        "todo"@,
    ]
}

pub fn known_providers() -> (r: Vec<&'static str>)
    ensures
        r@.map_values(|s: &'static str| s@) == all_providers(),
{
    let r = vec![
        "desktopapplications",
        "calc",
        "files",
        "clipboard",
        "websearch",
        "menus",
        "runner",
        "todo",
        "symbols",
        "unicode",
    ];
    assert(r@.map_values(|s: &'static str| s@) =~= all_providers());
    r
}

/// The description by which the bind is found again.
pub const BIND_DESC: &'static str = "Nice Launcher";

/// Where the launcher comes from.
pub const REPO_URL: &'static str = "https://github.com/arino08/nova.git";

/// The name of the launcher's program and of its directory.
pub const BIN_NAME: &'static str = "nice-launcher";

// ----------------------------------------------------------------------- settings

/// A key that is not known here, with its value as JSON.
pub type Extra = Vec<(String, String)>;

/// How the launcher moves.
#[derive(Debug, Clone, PartialEq, Eq)]
pub struct AnimCfg {
    pub stagger: bool,
    pub stagger_ms: i64,
    pub living_background: bool,
    pub spring: bool,
    pub micro: bool,
    pub extra: Extra,
}

impl Default for AnimCfg {
    fn default() -> (r: Self)
        ensures
            r.stagger && r.living_background && r.spring && r.micro,
            r.stagger_ms == 26,
            r.extra@.len() == 0,
    {
        AnimCfg {
            stagger: true,
            stagger_ms: 26,
            living_background: true,
            spring: true,
            micro: true,
            extra: Vec::new(),
        }
    }
}

/// The launcher's settings.
#[derive(Debug, Clone, PartialEq, Eq)]
pub struct NovaConfig {
    pub mode: String,
    pub providers: Vec<String>,
    pub limit: i64,
    /// In millionths.
    pub backdrop_opacity: i64,
    pub blur: bool,
    pub accent_glow: bool,
    pub theme: String,
    pub anim: AnimCfg,
    pub extra: Extra,
}

impl NovaConfig {
    /// Whether the settings are those that the launcher ships.
    pub open spec fn is_default(&self) -> bool {
        &&& self.mode@ == "constellation"@
        &&& texts(self.providers@) == default_providers()
        &&& self.limit == 40
        &&& self.backdrop_opacity == 985_000
        &&& self.blur
        &&& self.accent_glow
        &&& self.theme@ == "auto"@
        &&& self.anim.stagger && self.anim.living_background && self.anim.spring
            && self.anim.micro
        &&& self.anim.stagger_ms == 26
        &&& self.anim.extra@.len() == 0
        &&& self.extra@.len() == 0
    }
}

impl Default for NovaConfig {
    fn default() -> (r: Self)
        ensures
            r.is_default(),
    {
        let providers = vec![
            owned("desktopapplications"),
            owned("calc"),
            owned("files"),
            owned("clipboard"),
            owned("websearch"),
            owned("menus"),
            owned("runner"),
            owned("todo"),
        ];
        assert(texts(providers@) =~= default_providers());
        NovaConfig {
            mode: owned("constellation"),
            providers,
            limit: 40,
            backdrop_opacity: 985_000,
            blur: true,
            accent_glow: true,
            theme: owned("auto"),
            anim: AnimCfg::default(),
            extra: Vec::new(),
        }
    }
}

pub open spec fn config_json(paths: &OmarchyPaths) -> Seq<char> {
    beside(paths.config@, "nova/nova.json"@)
}

/// The launcher's settings file.
#[derive(Debug, Clone, PartialEq, Eq)]
pub struct Nova {
    pub path: String,
    /// Whether there was a file with something in it.
    pub existed: bool,
    pub cfg: NovaConfig,
}

impl Nova {
    /// The file that the settings are read from.
    pub fn file(paths: &OmarchyPaths) -> (r: String)
        ensures
            r@ == config_json(paths),
    {
        paths.beside_config("nova/nova.json")
    }

    /// The settings of a file: its text, where it is there, and what that reads
    /// as, where it can be read. Else they are those that the launcher ships.
    pub fn load(paths: &OmarchyPaths, text: Option<&str>, read: Option<NovaConfig>) -> (r: Self)
        ensures
            r.path@ == config_json(paths),
            r.existed == (opt_str(text) is Some && opt_str(text)->0.len() > 0),
            match read {
                Some(cfg) => r.cfg == cfg,
                None => r.cfg.is_default(),
            },
    {
        let existed = match text {
            Some(s) => chars(s).len() > 0,
            None => false,
        };
        let cfg = match read {
            Some(cfg) => cfg,
            None => NovaConfig::default(),
        };
        Nova { path: Nova::file(paths), existed, cfg }
    }

    pub fn config_path(&self) -> (r: &str)
        ensures
            r@ == self.path@,
    {
        self.path.as_str()
    }

    /// The text to keep, by the settings as JSON, or why they have none.
    pub fn save(&self, json: Result<&str, &str>) -> (r: Result<String, StudioError>)
        ensures
            match (json, r) {
                (Ok(j), Ok(text)) => text@ == j@ + "\n"@,
                (Err(why), Err(e)) => e@ == (Failure::ParseFailed {
                    file: self.path@,
                    line: None,
                    hint: why@,
                }),
                _ => false,
            },
    {
        match json {
            Ok(j) => {
                let mut text = owned(j);
                text.append("\n");
                Ok(text)
            },
            Err(why) => Err(parse_failed(self.path.as_str(), why)),
        }
    }
}

// ------------------------------------------------------------------------ starting

/// The command that looks for the launcher.
pub fn which_cmd() -> (r: Cmd)
    ensures
        r@ == (CmdView { program: "which"@, args: seq![BIN_NAME@], timeout_ms: None }),
{
    let args = vec![owned(BIN_NAME)];
    assert(texts(args@) == seq![BIN_NAME@]);
    Cmd::new("which", args, None)
}

/// What starts the launcher, by what [`which_cmd`] left, where it ran.
pub fn launch_command(found: Option<&CmdOutput>) -> (r: Option<String>)
    ensures
        opt_text(r) == match found {
            Some(out) => if out.succeeded() && trim(out.stdout@).len() > 0 {
                Some(trim(out.stdout@))
            } else {
                None
            },
            None => None,
        },
{
    match found {
        Some(out) => {
            let path = trimmed_str(out.stdout.as_str());
            if out.ok() && chars(path.as_str()).len() > 0 {
                Some(path)
            } else {
                None
            }
        },
        None => None,
    }
}

// ---------------------------------------------------------------------- installing

/// Where the launcher's files go.
pub open spec fn data_at(xdg_data_home: Option<Seq<char>>, home: Seq<char>) -> Seq<char> {
    path_join(
        match xdg_data_home {
            Some(dir) => dir,
            None => path_join(home, ".local/share"@),
        },
        BIN_NAME@,
    )
}

pub fn data_dir(xdg_data_home: Option<&str>, home: &str) -> (r: String)
    ensures
        r@ == data_at(opt_str(xdg_data_home), home@),
{
    let base = match xdg_data_home {
        Some(dir) => owned(dir),
        None => joined_path(home, ".local/share"),
    };
    joined_path(base.as_str(), BIN_NAME)
}

pub open spec fn bin_at(home: Seq<char>) -> Seq<char> {
    path_join(path_join(home, ".local/bin"@), BIN_NAME@)
}

/// Where the launch script goes.
pub fn bin_path(home: &str) -> (r: String)
    ensures
        r@ == bin_at(home@),
{
    let dir = joined_path(home, ".local/bin");
    joined_path(dir.as_str(), BIN_NAME)
}

/// Whether the launcher is installed, by which files there are.
pub fn is_installed(home: &str, files: &Vec<String>) -> (r: bool)
    ensures
        r == texts(files@).contains(bin_at(home@)),
{
    let script = bin_path(home);
    is_among(files, script.as_str())
}

/// The command that fetches the launcher.
pub fn clone_cmd(tmp: &str) -> (r: Cmd)
    ensures
        r@ == (CmdView {
            program: "git"@,
            args: seq!["clone"@, "--depth=1"@, REPO_URL@, tmp@],
            timeout_ms: None,
        }),
{
    let args = vec![owned("clone"), owned("--depth=1"), owned(REPO_URL), owned(tmp)];
    assert(texts(args@) =~= seq!["clone"@, "--depth=1"@, REPO_URL@, tmp@]);
    Cmd::new("git", args, None)
}

/// What fetching the launcher came to, by what [`clone_cmd`] left, where it ran.
pub fn cloned(ran: Option<&CmdOutput>) -> (r: Result<(), StudioError>)
    ensures
        match r {
            Ok(_) => ran matches Some(out) && out.succeeded(),
            Err(e) => e@ == (Failure::External {
                cmd: "git clone"@,
                detail: match ran {
                    Some(out) => trim(out.stderr@),
                    None =>
                        "failed to clone the Nice Launcher repository — is git installed?"@,
                },
            }) && !(ran matches Some(out) && out.succeeded()),
        },
{
    match ran {
        Some(out) => {
            if out.ok() {
                Ok(())
            } else {
                let detail = trimmed_str(out.stderr.as_str());
                Err(external("git clone", detail.as_str()))
            }
        },
        None => Err(
            external(
                "git clone",
                "failed to clone the Nice Launcher repository — is git installed?",
            ),
        ),
    }
}

/// A path as `std::path::Path` shows it for debugging.
pub uninterp spec fn debug_text(path: Seq<char>) -> Seq<char>;

/// `Path`'s `Debug`, as `format!("{:?}")` writes it: quotes around the path, and
/// escapes in it where it needs them. How the escapes are spelled is left unsaid.
#[verifier::external_body]
fn debug_path(path: &str) -> (r: String)
    ensures
        r@ == debug_text(path@),
{
    format!("{:?}", std::path::Path::new(path))
}

/// The launch script, by the data directory as it is quoted in it.
pub open spec fn script_text(quoted_dir: Seq<char>) -> Seq<char> {
    "#!/usr/bin/env bash\n# Nice Launcher — launch script (installed by omarchy-studio)\nset -euo pipefail\nexec qs -n -p "@
        + quoted_dir + "\n"@
}

pub fn script_for(quoted_dir: &str) -> (r: String)
    ensures
        r@ == script_text(quoted_dir@),
{
    let mut s = owned(
        "#!/usr/bin/env bash\n# Nice Launcher — launch script (installed by omarchy-studio)\nset -euo pipefail\nexec qs -n -p ",
    );
    s.append(quoted_dir);
    s.append("\n");
    s
}

/// What an install does once the launcher has been fetched into a directory.
#[derive(Debug, Clone, PartialEq, Eq)]
pub struct Install {
    /// Where the files go.
    pub data: String,
    /// What is copied, where it is there: from, and to.
    pub copies: Vec<(String, String)>,
    pub script: String,
    pub script_path: String,
}

/// The parts that are copied.
pub open spec fn all_parts() -> Seq<Seq<char>> {
    seq!["shell.qml"@, "qml"@, "config"@, "assets"@]
}

pub open spec fn copies_of(tmp: Seq<char>, data: Seq<char>) -> Seq<(Seq<char>, Seq<char>)> {
    all_parts().map_values(|part: Seq<char>| (path_join(tmp, part), path_join(data, part)))
}

pub fn install(tmp: &str, xdg_data_home: Option<&str>, home: &str) -> (r: Install)
    ensures
        r.data@ == data_at(opt_str(xdg_data_home), home@),
        crate::order::pair_texts(r.copies@) == copies_of(tmp@, r.data@),
        r.script@ == script_text(debug_text(r.data@)),
        r.script_path@ == bin_at(home@),
{
    let data = data_dir(xdg_data_home, home);
    let d = data.as_str();
    let copies = vec![
        (joined_path(tmp, "shell.qml"), joined_path(d, "shell.qml")),
        (joined_path(tmp, "qml"), joined_path(d, "qml")),
        (joined_path(tmp, "config"), joined_path(d, "config")),
        (joined_path(tmp, "assets"), joined_path(d, "assets")),
    ];
    assert(crate::order::pair_texts(copies@) =~= copies_of(tmp@, data@));
    let quoted = debug_path(d);
    let script = script_for(quoted.as_str());
    Install { data, copies, script, script_path: bin_path(home) }
}

/// Whether an entry of a directory is copied along: hidden ones are not.
pub fn is_copied(name: &str) -> (r: bool)
    ensures
        r == !starts_with(name@, "."@),
{
    !starts_str(name, ".")
}

/// What an uninstall removes.
#[derive(Debug, Clone, PartialEq, Eq)]
pub struct Removal {
    /// The launch script, where it is there.
    pub script: Option<String>,
    /// The directory of the launcher's files, where it is there.
    pub data: Option<String>,
}

/// What to remove, by which files and directories there are, and whether that is
/// anything.
pub fn uninstall(
    xdg_data_home: Option<&str>,
    home: &str,
    files: &Vec<String>,
    dirs: &Vec<String>,
) -> (r: (bool, Removal))
    ensures
        opt_text(r.1.script) == if texts(files@).contains(bin_at(home@)) {
            Some(bin_at(home@))
        } else {
            None
        },
        opt_text(r.1.data) == if texts(dirs@).contains(data_at(opt_str(xdg_data_home), home@)) {
            Some(data_at(opt_str(xdg_data_home), home@))
        } else {
            None
        },
        r.0 == (r.1.script is Some || r.1.data is Some),
{
    let script = bin_path(home);
    let data = data_dir(xdg_data_home, home);
    let has_script = is_among(files, script.as_str());
    let has_data = is_among(dirs, data.as_str());
    let removal = Removal {
        script: if has_script {
            Some(script)
        } else {
            None
        },
        data: if has_data {
            Some(data)
        } else {
            None
        },
    };
    (has_script || has_data, removal)
}

// ---------------------------------------------------------------------------- bind

/// The launcher's bind, where it is installed.
pub fn keybind(on_disk: Option<&str>) -> (r: Option<ConfigBind>)
    ensures
        opt_bind(r) == first_marked(overrides_on(opt_str(on_disk)), BIND_DESC@),
{
    find_marked(on_disk, BIND_DESC)
}

/// Binds a chord to the launcher, in the place of an earlier bind.
pub fn install_keybind(
    paths: &OmarchyPaths,
    on_disk: Option<&str>,
    mods: &str,
    key: &str,
    program: &str,
    hypr_usable: bool,
) -> (r: (ConfigBind, Option<ApplyPlan>))
    ensures
        r.0@ == marked_bind(BIND_DESC@, mods@, key@, "exec"@, program@),
        opt_plan(r.1) == overrides_plan(
            bindings_path(paths),
            opt_str(on_disk),
            with_marked(overrides_on(opt_str(on_disk)), BIND_DESC@, r.0@),
            "bind "@ + BIND_DESC@,
            hypr_usable,
        ),
{
    install_marked(paths, on_disk, BIND_DESC, mods, key, program, hypr_usable)
}

/// Takes the bind out; `false` where there is none.
pub fn remove_keybind(paths: &OmarchyPaths, on_disk: Option<&str>, hypr_usable: bool) -> (r: (
    bool,
    Option<ApplyPlan>,
))
    ensures
        ({
            let os = overrides_on(opt_str(on_disk));
            let kept = unmarked(os, BIND_DESC@);
            if kept.len() == os.len() {
                !r.0 && r.1 is None
            } else {
                r.0 && opt_plan(r.1) == overrides_plan(
                    bindings_path(paths),
                    opt_str(on_disk),
                    kept,
                    "unbind "@ + BIND_DESC@,
                    hypr_usable,
                )
            }
        }),
{
    remove_marked(paths, on_disk, BIND_DESC, hypr_usable)
}

// ---------------------------------------------------------------------------- laws

/// The directory that the user keeps data in is where the launcher's files go,
/// whatever the home; without one it is the usual one of the home.
pub proof fn law_data_directory_is_the_users(
    dir: Seq<char>,
    home: Seq<char>,
    other: Seq<char>,
)
    ensures
        data_at(Some(dir), home) == data_at(Some(dir), other),
        data_at(Some(dir), home) == path_join(dir, BIN_NAME@),
        data_at(None, home) == data_at(Some(path_join(home, ".local/share"@)), other),
{
}

/// Each part is copied under its own name, from where it was fetched to where
/// the script starts the launcher from.
pub proof fn law_parts_keep_their_names(tmp: Seq<char>, data: Seq<char>, i: int)
    requires
        0 <= i < copies_of(tmp, data).len(),
    ensures
        exists|part: Seq<char>|
            copies_of(tmp, data)[i] == (#[trigger] path_join(tmp, part), path_join(data, part)),
        copies_of(tmp, data)[i] == (copies_of(tmp, tmp)[i].0, copies_of(data, data)[i].1),
        copies_of(tmp, data).contains(
            (path_join(tmp, "shell.qml"@), path_join(data, "shell.qml"@)),
        ),
{
    let all = copies_of(tmp, data);
    assert(all[0] == (path_join(tmp, "shell.qml"@), path_join(data, "shell.qml"@)));
    let part = all_parts()[i];
    assert(all[i] == (path_join(tmp, part), path_join(data, part)));
}

/// Two scripts differ where they start the launcher from different places, and
/// the place ends the script's last line.
pub proof fn law_script_starts_what_was_installed(a: Seq<char>, b: Seq<char>)
    ensures
        script_text(a) == script_text(b) <==> a == b,
        crate::text::ends_with(script_text(a), a + "\n"@),
{
    let head = script_text(Seq::empty()).len() - "\n"@.len();
    let tail = a + "\n"@;
    assert(script_text(a).skip(script_text(a).len() - tail.len()) == tail);
    if script_text(a) == script_text(b) {
        assert(script_text(a).len() == head + a.len() + "\n"@.len());
        assert(script_text(b).len() == head + b.len() + "\n"@.len());
        assert(script_text(a).subrange(head, head + a.len()) =~= a);
        assert(script_text(b).subrange(head, head + b.len()) =~= b);
    }
}

} // verus!
