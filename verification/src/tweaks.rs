//! Quick tweaks: changes that are turned on and off again, each with a managed
//! block or with folders of its own.

use vstd::prelude::*;

use crate::configfs::managed::{
    CommentStyle, ManagedBlock, close_marker, extracted, law_blocks_coexist, law_other_blocks_stay,
    law_write_then_read, law_write_then_remove, lemma_one_side, line_ended, located, open_marker,
    removed, stand_apart, starts_line, upserted,
};
use crate::engine::{
    ApplyPlan, EditView, FileEdit, PlanView, Risk, content, content_of, edit_to, edit_views,
    hypr_checks, hypr_reload, hypr_reload_if, hypr_verification, opt_edit, plain_plan,
    planned_edit,
};
use crate::paths::{OmarchyPaths, join as path_join, joined_path};
use crate::text::{contains, holds, lemma_find_from, occurs, opt_str, opt_text, owned, same_str};

verus! {

#[derive(Debug, Clone, Copy, PartialEq, Eq, Structural)]
pub enum State {
    On,
    Off,
}

impl State {
    pub fn is_on(self) -> (r: bool)
        ensures
            r == (self == State::On),
    {
        match self {
            State::On => true,
            State::Off => false,
        }
    }
}

/// Where a tweak reads and writes.
#[derive(Debug)]
pub struct Ctx {
    pub paths: OmarchyPaths,
    pub home: String,
}

/// A tweak.
#[derive(Debug, Clone, Copy, PartialEq, Eq, Structural)]
pub enum Tweak {
    CapsEscape,
    InactiveTransparency,
    MediaDirs,
}

/// The tweaks, in display order.
pub open spec fn all_tweaks() -> Seq<Tweak> {
    seq![Tweak::CapsEscape, Tweak::InactiveTransparency, Tweak::MediaDirs]
}

pub fn catalog() -> (r: Vec<Tweak>)
    ensures
        r@ == all_tweaks(),
{
    let r = vec![Tweak::CapsEscape, Tweak::InactiveTransparency, Tweak::MediaDirs];
    assert(r@ =~= all_tweaks());
    r
}

/// The tweak with an id.
pub fn find(id: &str) -> (r: Option<Tweak>)
    ensures
        match r {
            Some(t) => t.name() == id@,
            None => forall|t: Tweak| #[trigger] t.name() != id@,
        },
{
    if same_str(id, "caps-escape") {
        Some(Tweak::CapsEscape)
    } else if same_str(id, "inactive-transparency") {
        Some(Tweak::InactiveTransparency)
    } else if same_str(id, "media-dirs") {
        Some(Tweak::MediaDirs)
    } else {
        None
    }
}

/// A folder that a tweak makes.
#[derive(Debug, Clone, Copy, PartialEq, Eq, Structural)]
pub enum Folder {
    Absent,
    Empty,
    /// It holds something, or cannot be looked into.
    Filled,
}

/// What a tweak finds: its file's text, where it is there, and its folders.
pub struct Seen<'a> {
    pub text: Option<&'a str>,
    pub screenshots: Folder,
    pub screencasts: Folder,
}

/// A change that is made outside the apply pipeline.
#[derive(Debug, Clone, PartialEq, Eq)]
pub enum Action {
    Write(FileEdit),
    MakeDir(String),
    RemoveDir(String),
}

pub enum ActionView {
    Write(EditView),
    MakeDir(Seq<char>),
    RemoveDir(Seq<char>),
}

impl View for Action {
    type V = ActionView;

    open spec fn view(&self) -> ActionView {
        match self {
            Action::Write(e) => ActionView::Write(e@),
            Action::MakeDir(p) => ActionView::MakeDir(p@),
            Action::RemoveDir(p) => ActionView::RemoveDir(p@),
        }
    }
}

pub open spec fn action_views(v: Seq<Action>) -> Seq<ActionView> {
    v.map_values(|a: Action| a@)
}

/// A file with a block in it: the file's name, the block's, and the body.
pub struct Place {
    pub file: Seq<char>,
    pub section: Seq<char>,
    pub body: Seq<char>,
}

/// A file's text with a block written or removed.
pub open spec fn switched(text: Seq<char>, section: Seq<char>, body: Seq<char>, on: bool) -> Seq<
    char,
> {
    let open = open_marker(section, CommentStyle::Hash);
    let close = close_marker(section, CommentStyle::Hash);
    if on {
        upserted(text, open, body, close)
    } else {
        removed(text, open, close)
    }
}

pub open spec fn has_block(text: Option<Seq<char>>, section: Seq<char>) -> bool {
    match text {
        Some(s) => located(
            s,
            open_marker(section, CommentStyle::Hash),
            close_marker(section, CommentStyle::Hash),
        ) is Some,
        None => false,
    }
}

/// The edit of a tweak's file, where its text changes.
pub open spec fn place_edit(
    path: Seq<char>,
    on_disk: Option<Seq<char>>,
    p: Place,
    on: bool,
) -> Seq<EditView> {
    match edit_to(path, on_disk, switched(content(on_disk), p.section, p.body, on)) {
        Some(e) => seq![e],
        None => Seq::empty(),
    }
}

/// What is done about a folder: one that is not there is made, and only an empty
/// one is removed.
pub open spec fn folder_change(path: Seq<char>, folder: Folder, on: bool) -> Seq<ActionView> {
    if on && folder == Folder::Absent {
        seq![ActionView::MakeDir(path)]
    } else if !on && folder == Folder::Empty {
        seq![ActionView::RemoveDir(path)]
    } else {
        Seq::empty()
    }
}

fn hypr_block_present(text: Option<&str>, section: &str) -> (r: bool)
    ensures
        r == has_block(opt_str(text), section@),
{
    match text {
        Some(s) => ManagedBlock::new(section, CommentStyle::Hash).contains(s),
        None => false,
    }
}

fn plan_hypr_block(path: String, on_disk: Option<&str>, section: &str, body: &str, on: bool) -> (r:
    Option<FileEdit>)
    ensures
        opt_edit(r) == edit_to(
            path@,
            opt_str(on_disk),
            switched(content(opt_str(on_disk)), section@, body@, on),
        ),
{
    let block = ManagedBlock::new(section, CommentStyle::Hash);
    let existing = content_of(on_disk);
    let updated = if on {
        block.upsert(existing.as_str(), body)
    } else {
        block.remove(existing.as_str())
    };
    planned_edit(path, on_disk, updated)
}

impl Tweak {
    pub open spec fn name(self) -> Seq<char> {
        match self {
            Tweak::CapsEscape => "caps-escape"@,
            Tweak::InactiveTransparency => "inactive-transparency"@,
            Tweak::MediaDirs => "media-dirs"@,
        }
    }

    pub fn id(&self) -> (r: &'static str)
        ensures
            r@ == self.name(),
    {
        match self {
            Tweak::CapsEscape => "caps-escape",
            Tweak::InactiveTransparency => "inactive-transparency",
            Tweak::MediaDirs => "media-dirs",
        }
    }

    pub fn label(&self) -> (r: &'static str)
        ensures
            r@ == match self {
                Tweak::CapsEscape => "Caps Lock → Escape"@,
                Tweak::InactiveTransparency => "Inactive window transparency"@,
                Tweak::MediaDirs => "Screenshot & screencast folders"@,
            },
    {
        match self {
            Tweak::CapsEscape => "Caps Lock → Escape",
            Tweak::InactiveTransparency => "Inactive window transparency",
            Tweak::MediaDirs => "Screenshot & screencast folders",
        }
    }

    pub fn detail(&self) -> (r: &'static str)
        ensures
            r@ == match self {
                Tweak::CapsEscape =>
                    "Remap Caps Lock to Escape (overrides Omarchy's compose default)"@,
                Tweak::InactiveTransparency =>
                    "Dim unfocused windows to 95% opacity (active stays solid)"@,
                Tweak::MediaDirs => "Create ~/Pictures/Screenshots and ~/Videos/Screencasts"@,
            },
    {
        match self {
            Tweak::CapsEscape => "Remap Caps Lock to Escape (overrides Omarchy's compose default)",
            Tweak::InactiveTransparency =>
                "Dim unfocused windows to 95% opacity (active stays solid)",
            Tweak::MediaDirs => "Create ~/Pictures/Screenshots and ~/Videos/Screencasts",
        }
    }

    /// Whether Hyprland reads what it changes.
    pub fn touches_hypr(&self) -> (r: bool)
        ensures
            r == (*self != Tweak::MediaDirs),
    {
        match self {
            Tweak::MediaDirs => false,
            _ => true,
        }
    }

    /// The block of the tweak, where it has one.
    pub open spec fn place(self) -> Option<Place> {
        match self {
            Tweak::CapsEscape => Some(
                Place {
                    file: "input.conf"@,
                    section: "tweak-caps-escape"@,
                    body: "input {\n  kb_options = caps:escape\n}"@,
                },
            ),
            Tweak::InactiveTransparency => Some(
                Place {
                    file: "looknfeel.conf"@,
                    section: "tweak-transparency"@,
                    body: "windowrule = opacity 1.0 0.95, match:class .*"@,
                },
            ),
            Tweak::MediaDirs => None,
        }
    }

    fn spot(&self) -> (r: Option<(&'static str, &'static str, &'static str)>)
        ensures
            match (r, self.place()) {
                (Some((file, section, body)), Some(p)) => file@ == p.file && section@ == p.section
                    && body@ == p.body,
                (None, None) => true,
                _ => false,
            },
    {
        match self {
            Tweak::CapsEscape => Some(
                (
                    "input.conf",
                    "tweak-caps-escape",
                    "input {\n  kb_options = caps:escape\n}",
                ),
            ),
            Tweak::InactiveTransparency => Some(
                (
                    "looknfeel.conf",
                    "tweak-transparency",
                    "windowrule = opacity 1.0 0.95, match:class .*",
                ),
            ),
            Tweak::MediaDirs => None,
        }
    }

    /// The file that its block stands in.
    pub fn path(&self, ctx: &Ctx) -> (r: Option<String>)
        ensures
            opt_text(r) == match self.place() {
                Some(p) => Some(path_join(ctx.paths.hypr(), p.file)),
                None => None,
            },
    {
        match self.spot() {
            Some((file, _, _)) => Some(ctx.paths.hypr_file(file)),
            None => None,
        }
    }

    /// The folders for captures.
    pub fn dirs(ctx: &Ctx) -> (r: (String, String))
        ensures
            r.0@ == path_join(ctx.home@, "Pictures/Screenshots"@),
            r.1@ == path_join(ctx.home@, "Videos/Screencasts"@),
    {
        (
            joined_path(ctx.home.as_str(), "Pictures/Screenshots"),
            joined_path(ctx.home.as_str(), "Videos/Screencasts"),
        )
    }

    /// Whether what is found is the tweak's doing.
    pub open spec fn is_set(self, text: Option<Seq<char>>, first: Folder, second: Folder) -> bool {
        match self.place() {
            Some(p) => has_block(text, p.section),
            None => first != Folder::Absent && second != Folder::Absent,
        }
    }

    pub fn state(&self, seen: &Seen<'_>) -> (r: State)
        ensures
            r == if self.is_set(opt_str(seen.text), seen.screenshots, seen.screencasts) {
                State::On
            } else {
                State::Off
            },
    {
        let on = match self.spot() {
            Some((_, section, _)) => hypr_block_present(seen.text, section),
            None => seen.screenshots != Folder::Absent && seen.screencasts != Folder::Absent,
        };
        if on {
            State::On
        } else {
            State::Off
        }
    }

    /// The edits that turn it on or off.
    pub open spec fn edits(self, ctx: &Ctx, text: Option<Seq<char>>, on: bool) -> Seq<EditView> {
        match self.place() {
            Some(p) => place_edit(path_join(ctx.paths.hypr(), p.file), text, p, on),
            None => Seq::empty(),
        }
    }

    pub fn plan(&self, ctx: &Ctx, seen: &Seen<'_>, on: bool) -> (r: Vec<FileEdit>)
        ensures
            edit_views(r@) == self.edits(ctx, opt_str(seen.text), on),
    {
        let mut edits: Vec<FileEdit> = Vec::new();
        if let Some((file, section, body)) = self.spot() {
            let planned = plan_hypr_block(
                ctx.paths.hypr_file(file),
                seen.text,
                section,
                body,
                on,
            );
            if let Some(e) = planned {
                let ghost ev = e@;
                edits.push(e);
                assert(edit_views(edits@) == seq![ev]);
            }
        }
        assert(edit_views(edits@) == self.edits(ctx, opt_str(seen.text), on));
        edits
    }

    /// What turns it on or off without the apply pipeline.
    pub open spec fn changes(
        self,
        ctx: &Ctx,
        text: Option<Seq<char>>,
        first: Folder,
        second: Folder,
        on: bool,
    ) -> Seq<ActionView> {
        match self.place() {
            Some(_) => self.edits(ctx, text, on).map_values(|e: EditView| ActionView::Write(e)),
            None => folder_change(path_join(ctx.home@, "Pictures/Screenshots"@), first, on)
                + folder_change(path_join(ctx.home@, "Videos/Screencasts"@), second, on),
        }
    }

    pub fn set(&self, ctx: &Ctx, seen: &Seen<'_>, on: bool) -> (r: Vec<Action>)
        ensures
            action_views(r@) == self.changes(
                ctx,
                opt_str(seen.text),
                seen.screenshots,
                seen.screencasts,
                on,
            ),
    {
        let mut out: Vec<Action> = Vec::new();
        assert(action_views(out@) == Seq::<ActionView>::empty());
        match self {
            Tweak::MediaDirs => {
                let (first, second) = Tweak::dirs(ctx);
                push_folder(&mut out, first, seen.screenshots, on);
                push_folder(&mut out, second, seen.screencasts, on);
                assert(action_views(out@) == self.changes(
                    ctx,
                    opt_str(seen.text),
                    seen.screenshots,
                    seen.screencasts,
                    on,
                ));
            },
            _ => {
                let edits = self.plan(ctx, seen, on);
                let ghost all = edit_views(edits@);
                let ghost want = all.map_values(|e: EditView| ActionView::Write(e));
                let mut i: usize = 0;
                assert(action_views(out@) == want.take(0));
                while i < edits.len()
                    invariant
                        i <= edits@.len(),
                        all == edit_views(edits@),
                        want == all.map_values(|e: EditView| ActionView::Write(e)),
                        action_views(out@) == want.take(i as int),
                    decreases edits.len() - i,
                {
                    let ghost was = action_views(out@);
                    let a = Action::Write(edits[i].copied());
                    let ghost av = a@;
                    out.push(a);
                    assert(action_views(out@) == was.push(av));
                    assert(all[i as int] == edits@[i as int]@);
                    assert(want[i as int] == av);
                    assert(want.take(i + 1) == want.take(i as int).push(want[i as int]));
                    i = i + 1;
                }
                assert(want.take(want.len() as int) == want);
            },
        }
        out
    }
}

fn push_folder(out: &mut Vec<Action>, path: String, folder: Folder, on: bool)
    ensures
        action_views(final(out)@) == action_views(old(out)@) + folder_change(path@, folder, on),
{
    let ghost was = action_views(out@);
    let ghost p = path@;
    if on {
        if folder == Folder::Absent {
            let a = Action::MakeDir(path);
            let ghost av = a@;
            out.push(a);
            assert(action_views(out@) == was.push(av));
        }
    } else if folder == Folder::Empty {
        let a = Action::RemoveDir(path);
        let ghost av = a@;
        out.push(a);
        assert(action_views(out@) == was.push(av));
    }
    assert(action_views(out@) == was + folder_change(p, folder, on));
}

/// How a tweak is applied.
#[derive(Debug, Clone, PartialEq, Eq)]
pub enum Applied {
    /// By the pipeline.
    Plan(ApplyPlan),
    /// By itself: there is no file to edit.
    Direct(Vec<Action>),
}

/// The plan that carries out the edits of a tweak, whether the catalog has it or
/// not. Where `hyprctl` cannot be used, or Hyprland does not read what is edited,
/// there is nothing to reload or check.
pub open spec fn tweak_plan(
    name: Seq<char>,
    touches_hypr: bool,
    edits: Seq<EditView>,
    on: bool,
    hypr_usable: bool,
) -> PlanView {
    let usable = hypr_usable && touches_hypr;
    PlanView {
        summary: "tweak "@ + name + if on {
            " on"@
        } else {
            " off"@
        },
        module: "tweaks"@,
        edits,
        reload: hypr_reload(usable),
        verify: hypr_checks(usable),
        risk: Risk::Safe,
        trailers: Seq::empty(),
    }
}

/// Plans the edits of any tweak for the pipeline. Without edits there is nothing
/// to plan.
pub fn plan_edits(
    id: &str,
    touches_hypr: bool,
    edits: Vec<FileEdit>,
    on: bool,
    hypr_usable: bool,
) -> (r: Option<ApplyPlan>)
    ensures
        match r {
            Some(p) => edits@.len() > 0 && p@ == tweak_plan(
                id@,
                touches_hypr,
                edit_views(edits@),
                on,
                hypr_usable,
            ),
            None => edits@.len() == 0,
        },
{
    if edits.len() == 0 {
        return None;
    }
    let usable = hypr_usable && touches_hypr;
    let mut summary = owned("tweak ");
    summary.append(id);
    summary.append(
        if on {
            " on"
        } else {
            " off"
        },
    );
    Some(
        plain_plan(
            summary.as_str(),
            "tweaks",
            edits,
            hypr_reload_if(usable),
            hypr_verification(usable),
            Risk::Safe,
        ),
    )
}

/// Turns a tweak on or off: by the pipeline where files are edited, and directly
/// where not.
pub fn apply(tweak: Tweak, ctx: &Ctx, seen: &Seen<'_>, on: bool, hypr_usable: bool) -> (r: Applied)
    ensures
        ({
            let edits = tweak.edits(ctx, opt_str(seen.text), on);
            match r {
                Applied::Plan(p) => edits.len() > 0 && p@ == tweak_plan(
                    tweak.name(),
                    tweak != Tweak::MediaDirs,
                    edits,
                    on,
                    hypr_usable,
                ),
                Applied::Direct(actions) => edits.len() == 0 && action_views(actions@)
                    == tweak.changes(
                    ctx,
                    opt_str(seen.text),
                    seen.screenshots,
                    seen.screencasts,
                    on,
                ),
            }
        }),
{
    let edits = tweak.plan(ctx, seen, on);
    assert(edit_views(edits@).len() == edits@.len());
    match plan_edits(tweak.id(), tweak.touches_hypr(), edits, on, hypr_usable) {
        Some(p) => Applied::Plan(p),
        None => Applied::Direct(tweak.set(ctx, seen, on)),
    }
}

// --------------------------------------------------------------------------- laws

/// No two tweaks have one id, and every one is found by its own.
pub proof fn law_ids_are_unique(a: Tweak, b: Tweak)
    ensures
        a.name() == b.name() ==> a == b,
        all_tweaks().contains(a),
{
    reveal_strlit("caps-escape");
    reveal_strlit("inactive-transparency");
    reveal_strlit("media-dirs");
    assert("caps-escape"@.len() == 11 && "inactive-transparency"@.len() == 21 && "media-dirs"@.len()
        == 10);
    assert(all_tweaks()[0] == Tweak::CapsEscape);
    assert(all_tweaks()[1] == Tweak::InactiveTransparency);
    assert(all_tweaks()[2] == Tweak::MediaDirs);
}

proof fn lemma_place(t: Tweak)
    ensures
        t.place() matches Some(p) ==> !holds(p.section, '\n') && !contains(
            p.body,
            close_marker(p.section, CommentStyle::Hash),
        ),
{
    reveal_strlit("tweak-caps-escape");
    reveal_strlit("tweak-transparency");
    reveal_strlit("input {\n  kb_options = caps:escape\n}");
    reveal_strlit("windowrule = opacity 1.0 0.95, match:class .*");
    reveal_strlit("# ");
    if let Some(p) = t.place() {
        let pat = close_marker(p.section, CommentStyle::Hash);
        assert(pat[0] == "# "@[0]);
        assert(!holds(p.body, '#'));
        if contains(p.body, pat) {
            let k = choose|k: int| occurs(p.body, pat, k);
            assert(p.body.subrange(k, k + pat.len())[0] == p.body[k]);
        }
    }
}

proof fn lemma_open(section: Seq<char>)
    requires
        !holds(section, '\n'),
    ensures
        open_marker(section, CommentStyle::Hash).len() > 0,
        !holds(open_marker(section, CommentStyle::Hash), '\n'),
{
    reveal_strlit("# ");
    reveal_strlit(">>> omarchy-studio:");
    reveal_strlit(" — generated; edit outside this block only >>>");
    reveal_strlit("");
    let a = "# "@ + ">>> omarchy-studio:"@;
    let b = " — generated; edit outside this block only >>>"@;
    let open = open_marker(section, CommentStyle::Hash);
    assert(open =~= a + section + b);
    assert forall|i: int| 0 <= i < open.len() implies open[i] != '\n' by {
        if i < a.len() {
            assert(open[i] == a[i]);
        } else if i < a.len() + section.len() {
            assert(open[i] == section[i - a.len()]);
        } else {
            assert(open[i] == b[i - a.len() - section.len()]);
        }
    }
}

/// A tweak that is turned on is on, and turning it on again changes nothing.
/// Turned off it is off, and the file is what it was before it had the tweak,
/// but for a line break at its end.
pub proof fn law_tweaks_are_reversible(t: Tweak, text: Seq<char>)
    requires
        t.place() is Some,
        !contains(text, open_marker(t.place()->0.section, CommentStyle::Hash)),
    ensures
        ({
            let p = t.place()->0;
            let on = switched(text, p.section, p.body, true);
            let off = switched(on, p.section, p.body, false);
            &&& has_block(Some(on), p.section)
            &&& switched(on, p.section, p.body, true) == on
            &&& off == line_ended(text)
            &&& !has_block(Some(off), p.section)
        }),
{
    let p = t.place()->0;
    lemma_place(t);
    lemma_open(p.section);
    let open = open_marker(p.section, CommentStyle::Hash);
    let close = close_marker(p.section, CommentStyle::Hash);
    lemma_find_from(text, open, 0);
    law_write_then_read(text, p.section, CommentStyle::Hash, p.body);
    law_write_then_remove(text, p.section, CommentStyle::Hash, p.body);
    let off = line_ended(text);
    lemma_find_from(off, open, 0);
    if contains(off, open) {
        let k = choose|k: int| occurs(off, open, k);
        if off != text {
            let none = Seq::<char>::empty();
            assert(off =~= text + seq!['\n'] + none);
            lemma_one_side(text, none, open, k);
            assert(occurs(text, open, k));
        }
    }
}

/// Turning a tweak on leaves every other block of the file as it is.
pub proof fn law_tweaks_leave_other_blocks(t: Tweak, text: Seq<char>, other: Seq<char>)
    requires
        t.place() is Some,
        !has_block(Some(text), t.place()->0.section),
        has_block(Some(text), other),
    ensures
        ({
            let p = t.place()->0;
            let open = open_marker(other, CommentStyle::Hash);
            let close = close_marker(other, CommentStyle::Hash);
            extracted(switched(text, p.section, p.body, true), open, close) == extracted(
                text,
                open,
                close,
            )
        }),
{
    let p = t.place()->0;
    law_blocks_coexist(
        text,
        p.section,
        CommentStyle::Hash,
        p.body,
        other,
        CommentStyle::Hash,
    );
}

/// A folder once it has been changed.
pub open spec fn folder_after(folder: Folder, on: bool) -> Folder {
    if on && folder == Folder::Absent {
        Folder::Empty
    } else if !on && folder == Folder::Empty {
        Folder::Absent
    } else {
        folder
    }
}

/// Turning a tweak off leaves every other block of the file as it is. The
/// tweak's block must start on a line of its own and the other one stand apart
/// from it.
pub proof fn law_tweaks_go_alone(t: Tweak, text: Seq<char>, other: Seq<char>)
    requires
        t.place() is Some,
        !holds(other, '\n'),
        stand_apart(
            text,
            open_marker(t.place()->0.section, CommentStyle::Hash),
            close_marker(t.place()->0.section, CommentStyle::Hash),
            open_marker(other, CommentStyle::Hash),
            close_marker(other, CommentStyle::Hash),
        ),
        starts_line(
            text,
            crate::text::find(text, open_marker(t.place()->0.section, CommentStyle::Hash))->0,
        ),
    ensures
        ({
            let p = t.place()->0;
            let open = open_marker(other, CommentStyle::Hash);
            let close = close_marker(other, CommentStyle::Hash);
            extracted(switched(text, p.section, p.body, false), open, close) == extracted(
                text,
                open,
                close,
            )
        }),
{
    let p = t.place()->0;
    law_other_blocks_stay(
        text,
        p.section,
        CommentStyle::Hash,
        p.body,
        other,
        CommentStyle::Hash,
    );
}

/// The folders are there once they are turned on; turned off again, what was not
/// there is gone. A folder that holds something is never removed.
pub proof fn law_folders_are_reversible(path: Seq<char>, first: Folder, second: Folder)
    ensures
        Tweak::MediaDirs.is_set(None, folder_after(first, true), folder_after(second, true)),
        folder_change(path, folder_after(first, true), true) == Seq::<ActionView>::empty(),
        first == Folder::Absent ==> folder_after(folder_after(first, true), false) == first,
        folder_change(path, Folder::Filled, false) == Seq::<ActionView>::empty(),
        folder_after(Folder::Filled, false) == Folder::Filled,
{
}

/// Each of the two folders is dealt with by itself: it is made exactly where it
/// is to be there and is not, and removed exactly where it is not to be there
/// and holds nothing.
pub proof fn law_each_folder_stands_alone(ctx: &Ctx, first: Folder, second: Folder, on: bool)
    requires
        path_join(ctx.home@, "Pictures/Screenshots"@) != path_join(
            ctx.home@,
            "Videos/Screencasts"@,
        ),
    ensures
        ({
            let all = Tweak::MediaDirs.changes(ctx, None, first, second, on);
            let shots = path_join(ctx.home@, "Pictures/Screenshots"@);
            let casts = path_join(ctx.home@, "Videos/Screencasts"@);
            &&& all.contains(ActionView::MakeDir(shots)) <==> on && first == Folder::Absent
            &&& all.contains(ActionView::MakeDir(casts)) <==> on && second == Folder::Absent
            &&& all.contains(ActionView::RemoveDir(shots)) <==> !on && first == Folder::Empty
            &&& all.contains(ActionView::RemoveDir(casts)) <==> !on && second == Folder::Empty
            &&& all.len() <= 2
        }),
{
    let shots = path_join(ctx.home@, "Pictures/Screenshots"@);
    let casts = path_join(ctx.home@, "Videos/Screencasts"@);
    let a = folder_change(shots, first, on);
    let b = folder_change(casts, second, on);
    let all = Tweak::MediaDirs.changes(ctx, None, first, second, on);
    assert(all == a + b);
    if a.len() > 0 {
        assert(all[0] == a[0]);
    }
    if b.len() > 0 {
        assert(all[a.len() as int] == b[0]);
    }
}

/// A tweak of a file is written to that file of Hyprland's directory, and what
/// it then holds has the tweak on or off as it was asked for.
pub proof fn law_tweaks_edit_their_own_file(
    t: Tweak,
    ctx: &Ctx,
    text: Option<Seq<char>>,
    on: bool,
    i: int,
)
    requires
        0 <= i < t.edits(ctx, text, on).len(),
    ensures
        t.edits(ctx, text, on).len() == 1,
        t.place() matches Some(p) && t.edits(ctx, text, on)[i].file == path_join(
            ctx.paths.hypr(),
            p.file,
        ) && t.edits(ctx, text, on)[i].new_content == switched(content(text), p.section, p.body, on),
        t.edits(ctx, text, on)[i].old == text,
        t == Tweak::CapsEscape ==> t.edits(ctx, text, on)[i].file == path_join(
            ctx.paths.hypr(),
            "input.conf"@,
        ),
        t == Tweak::InactiveTransparency ==> t.edits(ctx, text, on)[i].file == path_join(
            ctx.paths.hypr(),
            "looknfeel.conf"@,
        ),
        t != Tweak::MediaDirs,
{
}

/// A plan for a tweak holds the edits as they were given. Hyprland reloads and
/// is checked exactly where it reads what is edited and can be asked.
pub proof fn law_tweak_plans_hold_their_edits(
    name: Seq<char>,
    touches_hypr: bool,
    edits: Seq<EditView>,
    on: bool,
    hypr_usable: bool,
)
    ensures
        ({
            let p = tweak_plan(name, touches_hypr, edits, on, hypr_usable);
            let other = tweak_plan(name, touches_hypr, edits, !on, hypr_usable);
            &&& p.edits == edits
            &&& p.reload.len() > 0 <==> touches_hypr && hypr_usable
            &&& p.verify.len() > 0 <==> touches_hypr && hypr_usable
            &&& p.summary != other.summary
        }),
{
    reveal_strlit(" on");
    reveal_strlit(" off");
    assert(" on"@.len() != " off"@.len());
    let p = tweak_plan(name, touches_hypr, edits, on, hypr_usable);
    let other = tweak_plan(name, touches_hypr, edits, !on, hypr_usable);
    assert(p.summary.len() != other.summary.len());
}

} // verus!
