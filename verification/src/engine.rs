//! What the apply pipeline is handed: edits, reloads and checks.

use vstd::prelude::*;

use crate::text::{opt_str, opt_text, owned, same_str};

verus! {

/// A desktop component that can be restarted.
#[derive(Debug, Clone, Copy, PartialEq, Eq, Structural)]
pub enum Component {
    Waybar,
    Hypridle,
    Mako,
    Swayosd,
}

/// What makes a written change take effect.
#[derive(Debug, Clone, Copy, PartialEq, Eq, Structural)]
pub enum ReloadStep {
    HyprReload,
    Restart(Component),
    MakoReload,
}

/// What must hold after a change, or it is rolled back.
#[derive(Debug, Clone, Copy, PartialEq, Eq, Structural)]
pub enum Verification {
    HyprctlConfigErrorsEmpty,
    /// The component's process is running once `grace_ms` have passed.
    ProcessAlive { component: Component, grace_ms: u64 },
}

#[derive(Debug, Clone, Copy, PartialEq, Eq, Structural)]
pub enum Risk {
    Safe,
    Restarty,
    Risky,
}

/// One file's change, planned and not written. `old` is what the file held
/// when the change was planned, `None` where there was no file: the write is
/// refused where the file has changed since.
#[derive(Debug, Clone, PartialEq, Eq)]
pub struct FileEdit {
    pub file: String,
    pub old: Option<String>,
    pub new_content: String,
}

/// What a file edit says.
pub struct EditView {
    pub file: Seq<char>,
    pub old: Option<Seq<char>>,
    pub new_content: Seq<char>,
}

impl View for FileEdit {
    type V = EditView;

    open spec fn view(&self) -> EditView {
        EditView { file: self.file@, old: opt_text(self.old), new_content: self.new_content@ }
    }
}

impl FileEdit {
    pub fn new(file: String, old_content: Option<&str>, new_content: String) -> (r: Self)
        ensures
            r@ == (EditView { file: file@, old: opt_str(old_content), new_content: new_content@ }),
    {
        let kept: Option<String> = match old_content {
            Some(s) => Some(owned(s)),
            None => None,
        };
        FileEdit { file, old: kept, new_content }
    }

    pub fn copied(&self) -> (r: Self)
        ensures
            r@ == self@,
    {
        let kept: Option<String> = match &self.old {
            Some(s) => Some(owned(s.as_str())),
            None => None,
        };
        FileEdit {
            file: owned(self.file.as_str()),
            old: kept,
            new_content: owned(self.new_content.as_str()),
        }
    }
}

pub open spec fn edit_views(v: Seq<FileEdit>) -> Seq<EditView> {
    v.map_values(|e: FileEdit| e@)
}

/// The text of a file that may not be there.
pub open spec fn content(on_disk: Option<Seq<char>>) -> Seq<char> {
    match on_disk {
        Some(s) => s,
        None => Seq::empty(),
    }
}

pub fn content_of(on_disk: Option<&str>) -> (r: String)
    ensures
        r@ == content(opt_str(on_disk)),
{
    match on_disk {
        Some(s) => owned(s),
        None => {
            let none: String = String::new();
            assert(none@ == Seq::<char>::empty());
            none
        },
    }
}

/// The edit that brings a file to `updated`, where that changes its text.
pub open spec fn edit_to(
    file: Seq<char>,
    on_disk: Option<Seq<char>>,
    updated: Seq<char>,
) -> Option<EditView> {
    if updated == content(on_disk) {
        None
    } else {
        Some(EditView { file, old: on_disk, new_content: updated })
    }
}

pub open spec fn opt_edit(e: Option<FileEdit>) -> Option<EditView> {
    match e {
        Some(e) => Some(e@),
        None => None,
    }
}

pub fn planned_edit(file: String, on_disk: Option<&str>, updated: String) -> (r: Option<FileEdit>)
    ensures
        opt_edit(r) == edit_to(file@, opt_str(on_disk), updated@),
{
    let existing = content_of(on_disk);
    if same_str(updated.as_str(), existing.as_str()) {
        None
    } else {
        Some(FileEdit::new(file, on_disk, updated))
    }
}

/// A whole change: what is written, reloaded and checked as one.
#[derive(Debug, Clone, PartialEq, Eq)]
pub struct ApplyPlan {
    pub summary: String,
    /// The module that the change belongs to.
    pub module: String,
    pub edits: Vec<FileEdit>,
    pub reload: Vec<ReloadStep>,
    pub verify: Vec<Verification>,
    pub risk: Risk,
    pub trailers: Vec<(String, String)>,
}

/// What an apply plan says.
pub struct PlanView {
    pub summary: Seq<char>,
    pub module: Seq<char>,
    pub edits: Seq<EditView>,
    pub reload: Seq<ReloadStep>,
    pub verify: Seq<Verification>,
    pub risk: Risk,
    pub trailers: Seq<(Seq<char>, Seq<char>)>,
}

impl View for ApplyPlan {
    type V = PlanView;

    open spec fn view(&self) -> PlanView {
        PlanView {
            summary: self.summary@,
            module: self.module@,
            edits: edit_views(self.edits@),
            reload: self.reload@,
            verify: self.verify@,
            risk: self.risk,
            trailers: self.trailers@.map_values(|t: (String, String)| (t.0@, t.1@)),
        }
    }
}

pub open spec fn opt_plan(p: Option<ApplyPlan>) -> Option<PlanView> {
    match p {
        Some(p) => Some(p@),
        None => None,
    }
}

/// The check for a Hyprland change: its config must load without errors. With
/// no usable `hyprctl` there is nothing to ask.
pub open spec fn hypr_checks(usable: bool) -> Seq<Verification> {
    if usable {
        seq![Verification::HyprctlConfigErrorsEmpty]
    } else {
        Seq::empty()
    }
}

pub fn hypr_verification(usable: bool) -> (r: Vec<Verification>)
    ensures
        r@ == hypr_checks(usable),
{
    if usable {
        let v = vec![Verification::HyprctlConfigErrorsEmpty];
        assert(v@ == hypr_checks(usable));
        v
    } else {
        Vec::new()
    }
}

/// The reload for a Hyprland change that is dropped where `hyprctl` cannot be
/// used.
pub open spec fn hypr_reload(usable: bool) -> Seq<ReloadStep> {
    if usable {
        seq![ReloadStep::HyprReload]
    } else {
        Seq::empty()
    }
}

pub fn hypr_reload_if(usable: bool) -> (r: Vec<ReloadStep>)
    ensures
        r@ == hypr_reload(usable),
{
    if usable {
        let v = vec![ReloadStep::HyprReload];
        assert(v@ == hypr_reload(usable));
        v
    } else {
        Vec::new()
    }
}

/// A plan without trailers.
pub fn plain_plan(
    summary: &str,
    module: &str,
    edits: Vec<FileEdit>,
    reload: Vec<ReloadStep>,
    verify: Vec<Verification>,
    risk: Risk,
) -> (r: ApplyPlan)
    ensures
        r@ == (PlanView {
            summary: summary@,
            module: module@,
            edits: edit_views(edits@),
            reload: reload@,
            verify: verify@,
            risk,
            trailers: Seq::empty(),
        }),
{
    let trailers: Vec<(String, String)> = Vec::new();
    let r = ApplyPlan {
        summary: owned(summary),
        module: owned(module),
        edits,
        reload,
        verify,
        risk,
        trailers,
    };
    assert(r@.trailers == Seq::<(Seq<char>, Seq<char>)>::empty());
    r
}

/// A command line to run.
#[derive(Debug, Clone, PartialEq, Eq)]
pub struct Cmd {
    pub program: String,
    pub args: Vec<String>,
    /// How long it may take, where it is limited.
    pub timeout_ms: Option<u64>,
}

/// What a command line says.
pub struct CmdView {
    pub program: Seq<char>,
    pub args: Seq<Seq<char>>,
    pub timeout_ms: Option<u64>,
}

impl View for Cmd {
    type V = CmdView;

    open spec fn view(&self) -> CmdView {
        CmdView {
            program: self.program@,
            args: crate::text::texts(self.args@),
            timeout_ms: self.timeout_ms,
        }
    }
}

impl Cmd {
    pub fn new(program: &str, args: Vec<String>, timeout_ms: Option<u64>) -> (r: Self)
        ensures
            r@ == (CmdView { program: program@, args: crate::text::texts(args@), timeout_ms }),
    {
        Cmd { program: owned(program), args, timeout_ms }
    }
}

/// What a command that ran has left.
#[derive(Debug, Clone, PartialEq, Eq)]
pub struct CmdOutput {
    pub status: i32,
    pub stdout: String,
    pub stderr: String,
}

impl CmdOutput {
    pub open spec fn succeeded(&self) -> bool {
        self.status == 0
    }

    pub fn ok(&self) -> (r: bool)
        ensures
            r == self.succeeded(),
    {
        self.status == 0
    }
}

// ------------------------------------------------------------------------ laws

/// A file is edited exactly where its text is to change, and the edit then
/// holds the file, what it held and what it is to hold. A file that is not
/// there and is to be empty is not made.
pub proof fn law_edits_are_changes(
    file: Seq<char>,
    on_disk: Option<Seq<char>>,
    updated: Seq<char>,
)
    ensures
        match edit_to(file, on_disk, updated) {
            Some(e) => e.file == file && e.old == on_disk && e.new_content == updated && e.old
                != Some(e.new_content) && (on_disk is None ==> updated.len() > 0),
            None => on_disk == Some(updated) || on_disk is None && updated.len() == 0,
        },
{
    if updated.len() == 0 {
        assert(updated == Seq::<char>::empty());
    }
}

/// Hyprland is asked to reload and asked for errors only where it can be
/// asked, and then once each.
pub proof fn law_hyprland_is_asked_where_it_can_be(usable: bool)
    ensures
        forall|v: Verification| #[trigger]
            hypr_checks(usable).contains(v) <==> usable && v
                == Verification::HyprctlConfigErrorsEmpty,
        forall|s: ReloadStep| #[trigger]
            hypr_reload(usable).contains(s) <==> usable && s == ReloadStep::HyprReload,
        hypr_checks(usable).len() <= 1,
        hypr_reload(usable).len() <= 1,
{
    if usable {
        assert(hypr_checks(usable)[0] == Verification::HyprctlConfigErrorsEmpty);
        assert(hypr_reload(usable)[0] == ReloadStep::HyprReload);
    }
}

} // verus!
