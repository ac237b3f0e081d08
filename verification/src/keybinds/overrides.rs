//! The user's own keymap changes, kept in a block of their bindings file. The
//! file is read last, so the changes win over the defaults.

use vstd::prelude::*;

use crate::configfs::hyprlang::{entries_in, entry_views, is_bind, Entry, EntryView, HyprDoc};
use crate::configfs::managed::{
    close_marker, extracted, located, open_marker, removed, upserted, CommentStyle, ManagedBlock,
};
use crate::engine::{
    content, content_of, edit_to, edit_views, hypr_checks, hypr_verification, opt_edit, opt_plan,
    plain_plan, planned_edit, ApplyPlan, FileEdit, PlanView, ReloadStep, Risk,
};
use crate::keybinds::{
    bind_line, bind_of, mask_in, mod_names, mods_to_mask, opt_bind, owned_mods, BindView,
    ConfigBind,
};
use crate::keybinds::written::{law_written_changes_read_back, readable, takes};
use crate::paths::{join as path_join, OmarchyPaths};
use crate::split::{join, joined, pieces_at_most, splitn};
use crate::text::{chars, opt_str, owned, same_str, string, texts, trim, trimmed};

verus! {

/// A line that cancels a bind of a lower layer.
pub open spec fn unbind_line(mask: u16, key: Seq<char>) -> Seq<char> {
    "unbind = "@ + join(mod_names(mask), " "@) + ", "@ + key
}

pub fn render_unbind(mask: u16, key: &str) -> (r: String)
    ensures
        r@ == unbind_line(mask, key@),
{
    let mut s = owned("unbind = ");
    let names = joined(&owned_mods(mask), " ");
    s.append(names.as_str());
    s.append(", ");
    s.append(key);
    s
}

/// A change to the keymap.
#[derive(Debug, Clone, PartialEq, Eq)]
pub enum Override {
    /// Binds a chord to an action.
    Bind(ConfigBind),
    /// Cancels the bind that a lower layer has on a chord.
    Disable { modmask: u16, key: String },
}

/// What a change says.
pub enum OverrideView {
    Bind(BindView),
    Disable { modmask: u16, key: Seq<char> },
}

impl View for Override {
    type V = OverrideView;

    open spec fn view(&self) -> OverrideView {
        match self {
            Override::Bind(b) => OverrideView::Bind(b@),
            Override::Disable { modmask, key } => OverrideView::Disable {
                modmask: *modmask,
                key: key@,
            },
        }
    }
}

pub open spec fn override_views(v: Seq<Override>) -> Seq<OverrideView> {
    v.map_values(|o: Override| o@)
}

/// A change as a config line spells it.
pub open spec fn override_line(o: OverrideView) -> Seq<char> {
    match o {
        OverrideView::Bind(b) => bind_line(b),
        OverrideView::Disable { modmask, key } => unbind_line(modmask, key),
    }
}

pub open spec fn override_lines(os: Seq<OverrideView>) -> Seq<Seq<char>> {
    os.map_values(|o: OverrideView| override_line(o))
}

impl Override {
    fn render(&self) -> (r: String)
        ensures
            r@ == override_line(self@),
    {
        match self {
            Override::Bind(b) => b.render_line(),
            Override::Disable { modmask, key } => render_unbind(*modmask, key.as_str()),
        }
    }

    pub fn copied(&self) -> (r: Self)
        ensures
            r@ == self@,
    {
        match self {
            Override::Bind(b) => Override::Bind(b.copied()),
            Override::Disable { modmask, key } => Override::Disable {
                modmask: *modmask,
                key: owned(key.as_str()),
            },
        }
    }
}

/// The changes as lines, in order.
pub fn render_override_block(overrides: &[Override]) -> (r: String)
    ensures
        r@ == join(override_lines(override_views(overrides@)), "\n"@),
{
    let mut out: Vec<String> = Vec::new();
    let mut i: usize = 0;
    while i < overrides.len()
        invariant
            i <= overrides@.len(),
            out@.len() == i,
            forall|j: int|
                0 <= j < i ==> (#[trigger] out@[j])@ == override_line(overrides@[j]@),
        decreases overrides.len() - i,
    {
        out.push(overrides[i].render());
        i = i + 1;
    }
    assert(texts(out@) == override_lines(override_views(overrides@)));
    joined(&out, "\n")
}

// ---------------------------------------------------------------- persistence

/// What the changes' block holds.
pub open spec fn block_body(os: Seq<OverrideView>) -> Seq<char> {
    "# Managed by Omarchy Studio — your keybind changes live here.\n"@ + join(
        override_lines(os),
        "\n"@,
    )
}

pub open spec fn block_open() -> Seq<char> {
    open_marker("keybinds"@, CommentStyle::Hash)
}

pub open spec fn block_close() -> Seq<char> {
    close_marker("keybinds"@, CommentStyle::Hash)
}

/// A bindings file with the changes in their block; without changes there is
/// no block.
pub open spec fn with_overrides(text: Seq<char>, os: Seq<OverrideView>) -> Seq<char> {
    if os.len() == 0 {
        removed(text, block_open(), block_close())
    } else {
        upserted(text, block_open(), block_body(os), block_close())
    }
}

fn override_block() -> (r: ManagedBlock)
    ensures
        r.open() == block_open(),
        r.close() == block_close(),
{
    ManagedBlock::new("keybinds", CommentStyle::Hash)
}

/// The user's bindings file.
pub open spec fn bindings_path(paths: &OmarchyPaths) -> Seq<char> {
    path_join(paths.hypr(), "bindings.conf"@)
}

pub fn user_bindings_path(paths: &OmarchyPaths) -> (r: String)
    ensures
        r@ == bindings_path(paths),
{
    paths.hypr_file("bindings.conf")
}

/// Whether a bindings file has the changes' block. A file that is not there
/// has none.
pub fn overrides_installed(on_disk: Option<&str>) -> (r: bool)
    ensures
        r == match opt_str(on_disk) {
            Some(t) => located(t, block_open(), block_close()) is Some,
            None => false,
        },
{
    match on_disk {
        Some(t) => override_block().contains(t),
        None => false,
    }
}

fn updated(existing: &str, overrides: &[Override]) -> (r: String)
    ensures
        r@ == with_overrides(existing@, override_views(overrides@)),
{
    let block = override_block();
    if overrides.len() == 0 {
        block.remove(existing)
    } else {
        let mut body = owned("# Managed by Omarchy Studio — your keybind changes live here.\n");
        let lines = render_override_block(overrides);
        body.append(lines.as_str());
        block.upsert(existing, body.as_str())
    }
}

/// The bindings file and the text it gets for a list of changes. What is read
/// from that text is the list again.
pub fn write_overrides(
    paths: &OmarchyPaths,
    on_disk: Option<&str>,
    overrides: &[Override],
) -> (r: (String, String))
    ensures
        r.0@ == bindings_path(paths),
        r.1@ == with_overrides(content(opt_str(on_disk)), override_views(overrides@)),
        readable(override_views(overrides@)) && takes(
            content(opt_str(on_disk)),
            override_views(overrides@),
        ) ==> overrides_on(Some(r.1@)) == override_views(overrides@),
{
    proof {
        let os = override_views(overrides@);
        if readable(os) && takes(content(opt_str(on_disk)), os) {
            law_written_changes_read_back(content(opt_str(on_disk)), os);
        }
    }
    let existing = content_of(on_disk);
    (user_bindings_path(paths), updated(existing.as_str(), overrides))
}

/// The change that an entry of the block spells, if any.
pub open spec fn override_of(e: EntryView) -> Option<OverrideView> {
    let parts = splitn(e.value, 2, ',');
    if e.key == "unbind"@ {
        if parts.len() < 2 {
            None
        } else {
            Some(
                OverrideView::Disable {
                    modmask: mask_in(trim(parts[0])),
                    key: trim(parts[1]),
                },
            )
        }
    } else {
        match bind_of(e.key, e.value) {
            Some(b) => Some(OverrideView::Bind(b)),
            None => None,
        }
    }
}

/// The changes that some entries spell, in order.
pub open spec fn overrides_of(entries: Seq<EntryView>) -> Seq<OverrideView>
    decreases entries.len(),
{
    if entries.len() == 0 {
        Seq::empty()
    } else {
        let head = overrides_of(entries.drop_last());
        match override_of(entries.last()) {
            Some(o) => head.push(o),
            None => head,
        }
    }
}

/// The changes that a bindings file holds.
pub open spec fn overrides_in(text: Seq<char>) -> Seq<OverrideView> {
    match extracted(text, block_open(), block_close()) {
        Some(body) => overrides_of(entries_in(body).filter(|e: EntryView| is_bind(e))),
        None => Seq::empty(),
    }
}

/// The changes of a file that may not be there.
pub open spec fn overrides_on(on_disk: Option<Seq<char>>) -> Seq<OverrideView> {
    match on_disk {
        Some(t) => overrides_in(t),
        None => Seq::empty(),
    }
}

pub open spec fn opt_override(o: Option<Override>) -> Option<OverrideView> {
    match o {
        Some(o) => Some(o@),
        None => None,
    }
}

fn read_entry(e: &Entry) -> (r: Option<Override>)
    ensures
        opt_override(r) == override_of(e@),
{
    if same_str(e.key.as_str(), "unbind") {
        let v = chars(e.value.as_str());
        let parts = pieces_at_most(v.as_slice(), 2, ',');
        if parts.len() < 2 {
            return None;
        }
        let names = string(trimmed(parts[0]));
        Some(
            Override::Disable {
                modmask: mods_to_mask(names.as_str()),
                key: string(trimmed(parts[1])),
            },
        )
    } else {
        match ConfigBind::from_entry(e) {
            Some(b) => Some(Override::Bind(b)),
            None => None,
        }
    }
}

/// Reads the changes back from the bindings file. A line that spells none is
/// passed over.
pub fn read_overrides(on_disk: Option<&str>) -> (r: Vec<Override>)
    ensures
        override_views(r@) == overrides_on(opt_str(on_disk)),
{
    let mut out: Vec<Override> = Vec::new();
    assert(override_views(out@) == Seq::<OverrideView>::empty());
    let text = match on_disk {
        Some(t) => t,
        None => return out,
    };
    let body = match override_block().extract(text) {
        Some(b) => b,
        None => return out,
    };
    let doc = HyprDoc::parse(body.as_str());
    let binds = doc.binds();
    let ghost views = entry_views(binds@);
    let mut i: usize = 0;
    assert(views.take(0) == Seq::<EntryView>::empty());
    while i < binds.len()
        invariant
            i <= binds@.len(),
            views == entry_views(binds@),
            override_views(out@) == overrides_of(views.take(i as int)),
        decreases binds.len() - i,
    {
        assert(views.take(i + 1).drop_last() == views.take(i as int));
        assert(views.take(i + 1).last() == binds@[i as int]@);
        let ghost before = override_views(out@);
        if let Some(o) = read_entry(&binds[i]) {
            out.push(o);
            assert(override_views(out@) == before.push(o@));
        }
        i = i + 1;
    }
    assert(views.take(binds@.len() as int) == views);
    out
}

/// The edit that puts a list of changes into the bindings file. There is none
/// where the file already says exactly this.
pub fn plan_overrides(
    paths: &OmarchyPaths,
    on_disk: Option<&str>,
    overrides: &[Override],
) -> (r: Option<FileEdit>)
    ensures
        opt_edit(r) == edit_to(
            bindings_path(paths),
            opt_str(on_disk),
            with_overrides(content(opt_str(on_disk)), override_views(overrides@)),
        ),
{
    let existing = content_of(on_disk);
    let text = updated(existing.as_str(), overrides);
    planned_edit(user_bindings_path(paths), on_disk, text)
}

/// The plan that writes a list of changes and reloads Hyprland.
pub open spec fn overrides_plan(
    path: Seq<char>,
    on_disk: Option<Seq<char>>,
    os: Seq<OverrideView>,
    summary: Seq<char>,
    hypr_usable: bool,
) -> Option<PlanView> {
    match edit_to(path, on_disk, with_overrides(content(on_disk), os)) {
        Some(edit) => Some(
            PlanView {
                summary,
                module: "keybinds"@,
                edits: seq![edit],
                reload: seq![ReloadStep::HyprReload],
                verify: hypr_checks(hypr_usable),
                risk: Risk::Risky,
                trailers: Seq::empty(),
            },
        ),
        None => None,
    }
}

/// Plans a list of changes for the apply pipeline. There is nothing to apply
/// where the file already says this.
pub fn apply_overrides(
    paths: &OmarchyPaths,
    on_disk: Option<&str>,
    overrides: &[Override],
    summary: &str,
    hypr_usable: bool,
) -> (r: Option<ApplyPlan>)
    ensures
        opt_plan(r) == overrides_plan(
            bindings_path(paths),
            opt_str(on_disk),
            override_views(overrides@),
            summary@,
            hypr_usable,
        ),
{
    match plan_overrides(paths, on_disk, overrides) {
        Some(edit) => {
            let edits = vec![edit];
            let reload = vec![ReloadStep::HyprReload];
            assert(edit_views(edits@) == seq![edit@]);
            assert(reload@ == seq![ReloadStep::HyprReload]);
            Some(
                plain_plan(
                    summary,
                    "keybinds",
                    edits,
                    reload,
                    hypr_verification(hypr_usable),
                    Risk::Risky,
                ),
            )
        },
        None => None,
    }
}

// --------------------------------------------------------------- marked binds

/// A launcher bind is found again by its description.
pub open spec fn is_marked(o: OverrideView, desc: Seq<char>) -> bool {
    match o {
        OverrideView::Bind(b) => b.description == Some(desc),
        OverrideView::Disable { .. } => false,
    }
}

/// The changes that do not carry a marker.
pub open spec fn unmarked(os: Seq<OverrideView>, desc: Seq<char>) -> Seq<OverrideView> {
    os.filter(|o: OverrideView| !is_marked(o, desc))
}

/// The first bind that carries a marker.
pub open spec fn first_marked(os: Seq<OverrideView>, desc: Seq<char>) -> Option<BindView>
    decreases os.len(),
{
    if os.len() == 0 {
        None
    } else if is_marked(os[0], desc) {
        Some(os[0]->Bind_0)
    } else {
        first_marked(os.skip(1), desc)
    }
}

pub fn marked(o: &Override, desc: &str) -> (r: bool)
    ensures
        r == is_marked(o@, desc@),
{
    match o {
        Override::Bind(b) => match &b.description {
            Some(d) => same_str(d.as_str(), desc),
            None => false,
        },
        Override::Disable { .. } => false,
    }
}

fn drop_marked(os: &Vec<Override>, desc: &str) -> (r: Vec<Override>)
    ensures
        override_views(r@) == unmarked(override_views(os@), desc@),
{
    let ghost views = override_views(os@);
    let ghost f = |o: OverrideView| !is_marked(o, desc@);
    let mut out: Vec<Override> = Vec::new();
    let mut i: usize = 0;
    proof {
        reveal(Seq::filter);
    }
    assert(views.take(0) == Seq::<OverrideView>::empty());
    assert(override_views(out@) == views.take(0).filter(f));
    while i < os.len()
        invariant
            i <= os@.len(),
            views == override_views(os@),
            f == (|o: OverrideView| !is_marked(o, desc@)),
            override_views(out@) == views.take(i as int).filter(f),
        decreases os.len() - i,
    {
        assert(views.take(i + 1).drop_last() == views.take(i as int));
        assert(views.take(i + 1).last() == os@[i as int]@);
        proof {
            reveal(Seq::filter);
        }
        let ghost before = override_views(out@);
        if !marked(&os[i], desc) {
            let o = os[i].copied();
            out.push(o);
            assert(override_views(out@) == before.push(o@));
        }
        i = i + 1;
    }
    assert(views.take(os@.len() as int) == views);
    out
}

/// The bind that carries `desc` as its marker, if it is installed.
pub fn find_marked(on_disk: Option<&str>, desc: &str) -> (r: Option<ConfigBind>)
    ensures
        opt_bind(r) == first_marked(overrides_on(opt_str(on_disk)), desc@),
{
    let os = read_overrides(on_disk);
    let ghost views = override_views(os@);
    let mut i: usize = 0;
    assert(views.skip(0) == views);
    while i < os.len()
        invariant
            i <= os@.len(),
            views == override_views(os@),
            views == overrides_on(opt_str(on_disk)),
            first_marked(views, desc@) == first_marked(views.skip(i as int), desc@),
        decreases os.len() - i,
    {
        assert(views.skip(i as int)[0] == os@[i as int]@);
        assert(views.skip(i as int).skip(1) == views.skip(i + 1));
        if marked(&os[i], desc) {
            if let Override::Bind(b) = &os[i] {
                return Some(b.copied());
            }
        }
        i = i + 1;
    }
    None
}

/// The bind that a marker installs.
pub open spec fn marked_bind(
    desc: Seq<char>,
    mods: Seq<char>,
    key: Seq<char>,
    dispatcher: Seq<char>,
    arg: Seq<char>,
) -> BindView {
    BindView {
        flags: "bindd"@,
        modmask: mask_in(mods),
        key,
        description: Some(desc),
        dispatcher,
        arg,
    }
}

/// The changes once a marked bind is installed: it replaces the one with the
/// same marker.
pub open spec fn with_marked(os: Seq<OverrideView>, desc: Seq<char>, b: BindView) -> Seq<
    OverrideView,
> {
    unmarked(os, desc).push(OverrideView::Bind(b))
}

/// Binds a chord to run a program under a marker.
pub fn install_marked(
    paths: &OmarchyPaths,
    on_disk: Option<&str>,
    desc: &str,
    mods: &str,
    key: &str,
    exec: &str,
    hypr_usable: bool,
) -> (r: (ConfigBind, Option<ApplyPlan>))
    ensures
        r.0@ == marked_bind(desc@, mods@, key@, "exec"@, exec@),
        opt_plan(r.1) == overrides_plan(
            bindings_path(paths),
            opt_str(on_disk),
            with_marked(overrides_on(opt_str(on_disk)), desc@, r.0@),
            "bind "@ + desc@,
            hypr_usable,
        ),
{
    install_marked_dispatch(paths, on_disk, desc, mods, key, "exec", exec, hypr_usable)
}

/// Binds a chord to any dispatcher under a marker.
pub fn install_marked_dispatch(
    paths: &OmarchyPaths,
    on_disk: Option<&str>,
    desc: &str,
    mods: &str,
    key: &str,
    dispatcher: &str,
    arg: &str,
    hypr_usable: bool,
) -> (r: (ConfigBind, Option<ApplyPlan>))
    ensures
        r.0@ == marked_bind(desc@, mods@, key@, dispatcher@, arg@),
        opt_plan(r.1) == overrides_plan(
            bindings_path(paths),
            opt_str(on_disk),
            with_marked(overrides_on(opt_str(on_disk)), desc@, r.0@),
            "bind "@ + desc@,
            hypr_usable,
        ),
{
    let bind = ConfigBind {
        flags: owned("bindd"),
        modmask: mods_to_mask(mods),
        key: owned(key),
        description: Some(owned(desc)),
        dispatcher: owned(dispatcher),
        arg: owned(arg),
    };
    let mut os = drop_marked(&read_overrides(on_disk), desc);
    let ghost before = override_views(os@);
    os.push(Override::Bind(bind.copied()));
    assert(override_views(os@) == before.push(OverrideView::Bind(bind@)));
    let mut summary = owned("bind ");
    summary.append(desc);
    let plan = apply_overrides(paths, on_disk, os.as_slice(), summary.as_str(), hypr_usable);
    (bind, plan)
}

/// Takes a marked bind out again; the other changes stay. `false` where none
/// was installed.
pub fn remove_marked(
    paths: &OmarchyPaths,
    on_disk: Option<&str>,
    desc: &str,
    hypr_usable: bool,
) -> (r: (bool, Option<ApplyPlan>))
    ensures
        ({
            let os = overrides_on(opt_str(on_disk));
            let kept = unmarked(os, desc@);
            if kept.len() == os.len() {
                !r.0 && r.1 is None
            } else {
                r.0 && opt_plan(r.1) == overrides_plan(
                    bindings_path(paths),
                    opt_str(on_disk),
                    kept,
                    "unbind "@ + desc@,
                    hypr_usable,
                )
            }
        }),
{
    let all = read_overrides(on_disk);
    let kept = drop_marked(&all, desc);
    assert(override_views(all@).len() == all@.len());
    assert(override_views(kept@).len() == kept@.len());
    if kept.len() == all.len() {
        return (false, None);
    }
    let mut summary = owned("unbind ");
    summary.append(desc);
    (true, apply_overrides(paths, on_disk, kept.as_slice(), summary.as_str(), hypr_usable))
}

} // verus!
