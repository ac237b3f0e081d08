//! Animation feels, written as a managed block of the user's look and feel file.

use vstd::prelude::*;

use crate::configfs::managed::{
    CommentStyle, ManagedBlock, close_marker, extracted, law_write_then_read, law_write_then_remove,
    located, open_marker, removed, upserted,
};
use crate::engine::{
    ApplyPlan, PlanView, ReloadStep, Risk, content, content_of, edit_to, edit_views, hypr_checks,
    hypr_verification, opt_plan, plain_plan, planned_edit,
};
use crate::paths::{OmarchyPaths, join as path_join};
use crate::split::{
    is_trimmed, join, joined, lemma_trim_id, lines, text_lines, without_return,
};
use crate::text::{
    chars, contains, holds, lemma_pos_from, lemma_pos_is, occurs, opt_str, owned, pos, same_str, slices, string,
    texts, trim, trim_start, trimmed, trimmed_start, trimmed_str,
};

verus! {

/// A feel. An empty body stands for what Omarchy ships.
#[derive(Debug, Clone, Copy, PartialEq, Eq)]
pub struct AnimPreset {
    pub name: &'static str,
    pub blurb: &'static str,
    pub body: &'static str,
}

#[verifier::ext_equal]
pub struct FeelView {
    pub name: Seq<char>,
    pub blurb: Seq<char>,
    pub body: Seq<char>,
}

impl View for AnimPreset {
    type V = FeelView;

    open spec fn view(&self) -> FeelView {
        FeelView { name: self.name@, blurb: self.blurb@, body: self.body@ }
    }
}

pub open spec fn feel_views(v: Seq<AnimPreset>) -> Seq<FeelView> {
    v.map_values(|p: AnimPreset| p@)
}

/// The feels there are.
#[verifier::opaque]
pub open spec fn all_feels() -> Seq<FeelView> {
    seq![
        FeelView {
            name: "Default"@,
            blurb: "Omarchy's stock animations"@,
            body: ""@,
        },
        FeelView {
            name: "Off"@,
            blurb: "No animations at all — instant everything"@,
            body: "animations {\n    enabled = no\n}"@,
        },
        FeelView {
            name: "Fast"@,
            blurb: "Snappy, quick motion"@,
            body: "animations {\n    enabled = yes\n    bezier = snappy, 0.05, 0.9, 0.1, 1\n    animation = windows, 1, 2, snappy, popin 90%\n    animation = fade, 1, 2, snappy\n    animation = workspaces, 1, 2, snappy\n    animation = layers, 1, 2, snappy\n    animation = border, 1, 2, snappy\n}"@,
        },
        FeelView {
            name: "Smooth"@,
            blurb: "Slower, flowing motion"@,
            body: "animations {\n    enabled = yes\n    bezier = smooth, 0.25, 1, 0.3, 1\n    animation = windows, 1, 6, smooth\n    animation = fade, 1, 6, smooth\n    animation = workspaces, 1, 6, smooth\n    animation = layers, 1, 6, smooth\n    animation = border, 1, 6, smooth\n}"@,
        },
        FeelView {
            name: "Minimal"@,
            blurb: "Fades only — no sliding or scaling"@,
            body: "animations {\n    enabled = yes\n    animation = windows, 0, 0, default\n    animation = workspaces, 0, 0, default\n    animation = fade, 1, 4, default\n    animation = layers, 1, 4, default\n}"@,
        },
        FeelView {
            name: "Bouncy"@,
            blurb: "Playful overshoot on windows"@,
            body: "animations {\n    enabled = yes\n    bezier = bounce, 0.3, 1.4, 0.5, 1\n    animation = windows, 1, 4, bounce, popin 80%\n    animation = workspaces, 1, 4, bounce\n    animation = fade, 1, 3, bounce\n}"@,
        },
    ]
}

pub fn presets() -> (r: Vec<AnimPreset>)
    ensures
        feel_views(r@) == all_feels(),
{
    let all = vec![
        AnimPreset {
            name: "Default",
            blurb: "Omarchy's stock animations",
            body: "",
        },
        AnimPreset {
            name: "Off",
            blurb: "No animations at all — instant everything",
            body: "animations {\n    enabled = no\n}",
        },
        AnimPreset {
            name: "Fast",
            blurb: "Snappy, quick motion",
            body: "animations {\n    enabled = yes\n    bezier = snappy, 0.05, 0.9, 0.1, 1\n    animation = windows, 1, 2, snappy, popin 90%\n    animation = fade, 1, 2, snappy\n    animation = workspaces, 1, 2, snappy\n    animation = layers, 1, 2, snappy\n    animation = border, 1, 2, snappy\n}",
        },
        AnimPreset {
            name: "Smooth",
            blurb: "Slower, flowing motion",
            body: "animations {\n    enabled = yes\n    bezier = smooth, 0.25, 1, 0.3, 1\n    animation = windows, 1, 6, smooth\n    animation = fade, 1, 6, smooth\n    animation = workspaces, 1, 6, smooth\n    animation = layers, 1, 6, smooth\n    animation = border, 1, 6, smooth\n}",
        },
        AnimPreset {
            name: "Minimal",
            blurb: "Fades only — no sliding or scaling",
            body: "animations {\n    enabled = yes\n    animation = windows, 0, 0, default\n    animation = workspaces, 0, 0, default\n    animation = fade, 1, 4, default\n    animation = layers, 1, 4, default\n}",
        },
        AnimPreset {
            name: "Bouncy",
            blurb: "Playful overshoot on windows",
            body: "animations {\n    enabled = yes\n    bezier = bounce, 0.3, 1.4, 0.5, 1\n    animation = windows, 1, 4, bounce, popin 80%\n    animation = workspaces, 1, 4, bounce\n    animation = fade, 1, 3, bounce\n}",
        },
    ];
    proof {
        reveal(all_feels);
    }
    assert(feel_views(all@) =~= all_feels());
    all
}

/// The first feel with a name.
pub open spec fn feel_named(all: Seq<FeelView>, name: Seq<char>) -> Option<FeelView>
    decreases all.len(),
{
    if all.len() == 0 {
        None
    } else if all[0].name == name {
        Some(all[0])
    } else {
        feel_named(all.skip(1), name)
    }
}

pub fn preset(name: &str) -> (r: Option<AnimPreset>)
    ensures
        match r {
            Some(p) => feel_named(all_feels(), name@) == Some(p@),
            None => feel_named(all_feels(), name@) is None,
        },
{
    let all = presets();
    let ghost table = all_feels();
    let mut i: usize = 0;
    assert(table.skip(0) == table);
    while i < all.len()
        invariant
            i <= all@.len(),
            table == feel_views(all@),
            table == all_feels(),
            feel_named(table, name@) == feel_named(table.skip(i as int), name@),
        decreases all.len() - i,
    {
        assert(table.skip(i as int)[0] == all@[i as int]@);
        assert(table.skip(i as int).skip(1) == table.skip(i + 1));
        if same_str(all[i].name, name) {
            return Some(all[i]);
        }
        i = i + 1;
    }
    None
}

pub open spec fn opening() -> Seq<char> {
    open_marker("animations"@, CommentStyle::Hash)
}

pub open spec fn closing() -> Seq<char> {
    close_marker("animations"@, CommentStyle::Hash)
}

pub open spec fn is_comment(line: Seq<char>) -> bool {
    let t = trim_start(line);
    t.len() > 0 && t[0] == '#'
}

/// The lines from the first on that is no comment.
pub open spec fn from_code(ls: Seq<Seq<char>>) -> Seq<Seq<char>>
    decreases ls.len(),
{
    if ls.len() > 0 && is_comment(ls[0]) {
        from_code(ls.skip(1))
    } else {
        ls
    }
}

/// A block's body without the comments in front.
pub open spec fn core_of(body: Seq<char>) -> Seq<char> {
    trim(join(from_code(lines(body)), "\n"@))
}

/// The name of the first feel with a body.
pub open spec fn feel_of(all: Seq<FeelView>, core: Seq<char>) -> Seq<char>
    decreases all.len(),
{
    if all.len() == 0 {
        "Custom"@
    } else if trim(all[0].body) == core {
        all[0].name
    } else {
        feel_of(all.skip(1), core)
    }
}

/// The name of the feel that a file holds.
pub open spec fn current_in(text: Option<Seq<char>>) -> Seq<char> {
    match text {
        Some(s) => match extracted(s, opening(), closing()) {
            Some(body) => feel_of(all_feels(), core_of(body)),
            None => "Default"@,
        },
        None => "Default"@,
    }
}

fn comment(line: &[char]) -> (r: bool)
    ensures
        r == is_comment(line@),
{
    let t = trimmed_start(line);
    t.len() > 0 && t[0] == '#'
}

fn strip_comments(body: &str) -> (r: String)
    ensures
        r@ == core_of(body@),
{
    let s = chars(body);
    let all = text_lines(s.as_slice());
    let ghost ls = lines(body@);
    let mut i: usize = 0;
    assert(ls.skip(0) == ls);
    while i < all.len() && comment(all[i])
        invariant
            i <= all@.len(),
            slices(all@) == ls,
            from_code(ls) == from_code(ls.skip(i as int)),
        decreases all.len() - i,
    {
        assert(ls.skip(i as int)[0] == all@[i as int]@);
        assert(ls.skip(i as int).skip(1) == ls.skip(i + 1));
        i = i + 1;
    }
    proof {
        if i < all@.len() {
            assert(ls.skip(i as int)[0] == all@[i as int]@);
        }
    }
    assert(from_code(ls) == ls.skip(i as int));
    let ghost want = ls.skip(i as int);
    let ghost from = i as int;
    let mut kept: Vec<String> = Vec::new();
    assert(texts(kept@) == want.take(0));
    while i < all.len()
        invariant
            0 <= from <= i <= all@.len(),
            slices(all@) == ls,
            want == ls.skip(from),
            texts(kept@) == want.take(i - from),
        decreases all.len() - i,
    {
        let ghost was = texts(kept@);
        kept.push(string(all[i]));
        assert(texts(kept@) == was.push(all@[i as int]@));
        assert(want[i - from] == ls[i as int]);
        assert(want.take(i + 1 - from) == want.take(i - from).push(want[i - from]));
        i = i + 1;
    }
    assert(want.take(want.len() as int) == want);
    let core = joined(&kept, "\n");
    trimmed_str(core.as_str())
}

/// The name of the feel in the user's file; without a block it is `Default`,
/// and `Custom` where no feel has the block's body.
pub fn current(text: Option<&str>) -> (r: &'static str)
    ensures
        r@ == current_in(opt_str(text)),
{
    let shown = match text {
        Some(s) => s,
        None => {
            return "Default";
        },
    };
    let block = ManagedBlock::new("animations", CommentStyle::Hash);
    let body = match block.extract(shown) {
        Some(b) => b,
        None => {
            return "Default";
        },
    };
    let core = strip_comments(body.as_str());
    let all = presets();
    let ghost table = all_feels();
    let mut i: usize = 0;
    assert(table.skip(0) == table);
    while i < all.len()
        invariant
            i <= all@.len(),
            table == feel_views(all@),
            table == all_feels(),
            feel_of(table, core@) == feel_of(table.skip(i as int), core@),
            core@ == core_of(body@),
            opt_str(text) == Some(shown@),
            extracted(shown@, opening(), closing()) == Some(body@),
        decreases all.len() - i,
    {
        assert(table.skip(i as int)[0] == all@[i as int]@);
        assert(table.skip(i as int).skip(1) == table.skip(i + 1));
        let t = trimmed_str(all[i].body);
        if same_str(t.as_str(), core.as_str()) {
            return all[i].name;
        }
        i = i + 1;
    }
    "Custom"
}

pub open spec fn user_path(paths: &OmarchyPaths) -> Seq<char> {
    path_join(paths.hypr(), "looknfeel.conf"@)
}

/// What stands in the block of a feel.
pub open spec fn block_body(p: FeelView) -> Seq<char> {
    "# Managed by Omarchy Studio — animation feel: "@ + p.name + ".\n"@ + p.body
}

/// A file's text with a feel written into it.
pub open spec fn with_feel(text: Seq<char>, p: FeelView) -> Seq<char> {
    if trim(p.body).len() == 0 {
        removed(text, opening(), closing())
    } else {
        upserted(text, opening(), block_body(p), closing())
    }
}

/// The plan that writes a feel and has Hyprland load it, or nothing where the
/// file has it.
pub open spec fn feel_plan(
    paths: &OmarchyPaths,
    p: FeelView,
    on_disk: Option<Seq<char>>,
    hypr_usable: bool,
) -> Option<PlanView> {
    match edit_to(user_path(paths), on_disk, with_feel(content(on_disk), p)) {
        Some(e) => Some(
            PlanView {
                summary: "animations: "@ + p.name,
                module: "animations"@,
                edits: seq![e],
                reload: seq![ReloadStep::HyprReload],
                verify: hypr_checks(hypr_usable),
                risk: Risk::Safe,
                trailers: Seq::empty(),
            },
        ),
        None => None,
    }
}

pub fn apply(paths: &OmarchyPaths, preset: &AnimPreset, on_disk: Option<&str>, hypr_usable: bool) -> (r:
    Option<ApplyPlan>)
    ensures
        opt_plan(r) == feel_plan(paths, preset@, opt_str(on_disk), hypr_usable),
{
    let existing = content_of(on_disk);
    let block = ManagedBlock::new("animations", CommentStyle::Hash);
    let s = chars(preset.body);
    let updated = if trimmed(s.as_slice()).len() == 0 {
        block.remove(existing.as_str())
    } else {
        let mut body = owned("# Managed by Omarchy Studio — animation feel: ");
        body.append(preset.name);
        body.append(".\n");
        body.append(preset.body);
        block.upsert(existing.as_str(), body.as_str())
    };
    match planned_edit(paths.hypr_file("looknfeel.conf"), on_disk, updated) {
        Some(e) => {
            let mut summary = owned("animations: ");
            summary.append(preset.name);
            let ghost ev = e@;
            let edits = vec![e];
            assert(edit_views(edits@) == seq![ev]);
            let reload = vec![ReloadStep::HyprReload];
            assert(reload@ == seq![ReloadStep::HyprReload]);
            Some(
                plain_plan(
                    summary.as_str(),
                    "animations",
                    edits,
                    reload,
                    hypr_verification(hypr_usable),
                    Risk::Safe,
                ),
            )
        },
        None => None,
    }
}

// ------------------------------------------------------------------------ laws

/// A body that reads back as it is written.
pub open spec fn is_feel_body(s: Seq<char>) -> bool {
    &&& s.len() > 0
    &&& s[0] == 'a'
    &&& s.last() == '}'
    &&& forall|i: int| 0 <= i < s.len() ==> #[trigger] s[i] != '#' && s[i] != '\r'
}

proof fn lemma_bodies()
    ensures
        forall|i: int|
            1 <= i < all_feels().len() ==> is_feel_body((#[trigger] all_feels()[i]).body),
{
    assert(is_feel_body("animations {\n    enabled = no\n}"@)) by {
        reveal_strlit("animations {\n    enabled = no\n}");
    }
    assert(is_feel_body("animations {\n    enabled = yes\n    bezier = snappy, 0.05, 0.9, 0.1, 1\n    animation = windows, 1, 2, snappy, popin 90%\n    animation = fade, 1, 2, snappy\n    animation = workspaces, 1, 2, snappy\n    animation = layers, 1, 2, snappy\n    animation = border, 1, 2, snappy\n}"@)) by {
        reveal_strlit("animations {\n    enabled = yes\n    bezier = snappy, 0.05, 0.9, 0.1, 1\n    animation = windows, 1, 2, snappy, popin 90%\n    animation = fade, 1, 2, snappy\n    animation = workspaces, 1, 2, snappy\n    animation = layers, 1, 2, snappy\n    animation = border, 1, 2, snappy\n}");
    }
    assert(is_feel_body("animations {\n    enabled = yes\n    bezier = smooth, 0.25, 1, 0.3, 1\n    animation = windows, 1, 6, smooth\n    animation = fade, 1, 6, smooth\n    animation = workspaces, 1, 6, smooth\n    animation = layers, 1, 6, smooth\n    animation = border, 1, 6, smooth\n}"@)) by {
        reveal_strlit("animations {\n    enabled = yes\n    bezier = smooth, 0.25, 1, 0.3, 1\n    animation = windows, 1, 6, smooth\n    animation = fade, 1, 6, smooth\n    animation = workspaces, 1, 6, smooth\n    animation = layers, 1, 6, smooth\n    animation = border, 1, 6, smooth\n}");
    }
    assert(is_feel_body("animations {\n    enabled = yes\n    animation = windows, 0, 0, default\n    animation = workspaces, 0, 0, default\n    animation = fade, 1, 4, default\n    animation = layers, 1, 4, default\n}"@)) by {
        reveal_strlit("animations {\n    enabled = yes\n    animation = windows, 0, 0, default\n    animation = workspaces, 0, 0, default\n    animation = fade, 1, 4, default\n    animation = layers, 1, 4, default\n}");
    }
    assert(is_feel_body("animations {\n    enabled = yes\n    bezier = bounce, 0.3, 1.4, 0.5, 1\n    animation = windows, 1, 4, bounce, popin 80%\n    animation = workspaces, 1, 4, bounce\n    animation = fade, 1, 3, bounce\n}"@)) by {
        reveal_strlit("animations {\n    enabled = yes\n    bezier = bounce, 0.3, 1.4, 0.5, 1\n    animation = windows, 1, 4, bounce, popin 80%\n    animation = workspaces, 1, 4, bounce\n    animation = fade, 1, 3, bounce\n}");
    }
    reveal(all_feels);
}

/// A name that fits in a comment.
pub open spec fn is_feel_name(s: Seq<char>) -> bool {
    forall|i: int| 0 <= i < s.len() ==> #[trigger] s[i] != '#' && s[i] != '\n'
}

proof fn lemma_names()
    ensures
        forall|i: int| 0 <= i < all_feels().len() ==> is_feel_name((#[trigger] all_feels()[i]).name),
{
    reveal_strlit("Default");
    reveal_strlit("Off");
    reveal_strlit("Fast");
    reveal_strlit("Smooth");
    reveal_strlit("Minimal");
    reveal_strlit("Bouncy");
    reveal(all_feels);
}

/// No two feels have bodies of one length.
proof fn lemma_bodies_differ()
    ensures
        forall|i: int, j: int|
            0 <= i < j < all_feels().len() ==> #[trigger] all_feels()[i].body.len()
                != #[trigger] all_feels()[j].body.len(),
        all_feels().len() > 0,
        all_feels()[0].body.len() == 0,
        all_feels()[0].name == "Default"@,
{
    reveal(all_feels);
    assert(all_feels()[0].body.len() == 0) by {
        reveal_strlit("");
    }
    assert(all_feels()[1].body.len() == 31) by {
        reveal_strlit("animations {\n    enabled = no\n}");
    }
    assert(all_feels()[2].body.len() == 270) by {
        reveal_strlit("animations {\n    enabled = yes\n    bezier = snappy, 0.05, 0.9, 0.1, 1\n    animation = windows, 1, 2, snappy, popin 90%\n    animation = fade, 1, 2, snappy\n    animation = workspaces, 1, 2, snappy\n    animation = layers, 1, 2, snappy\n    animation = border, 1, 2, snappy\n}");
    }
    assert(all_feels()[3].body.len() == 257) by {
        reveal_strlit("animations {\n    enabled = yes\n    bezier = smooth, 0.25, 1, 0.3, 1\n    animation = windows, 1, 6, smooth\n    animation = fade, 1, 6, smooth\n    animation = workspaces, 1, 6, smooth\n    animation = layers, 1, 6, smooth\n    animation = border, 1, 6, smooth\n}");
    }
    assert(all_feels()[4].body.len() == 187) by {
        reveal_strlit("animations {\n    enabled = yes\n    animation = windows, 0, 0, default\n    animation = workspaces, 0, 0, default\n    animation = fade, 1, 4, default\n    animation = layers, 1, 4, default\n}");
    }
    assert(all_feels()[5].body.len() == 195) by {
        reveal_strlit("animations {\n    enabled = yes\n    bezier = bounce, 0.3, 1.4, 0.5, 1\n    animation = windows, 1, 4, bounce, popin 80%\n    animation = workspaces, 1, 4, bounce\n    animation = fade, 1, 3, bounce\n}");
    }
}

proof fn lemma_lines_joined(s: Seq<char>)
    requires
        s.len() > 0,
        !holds(s, '\r'),
        s.last() != '\n',
    ensures
        join(lines(s), "\n"@) == s,
        lines(s).len() > 0,
    decreases s.len(),
{
    reveal_strlit("\n");
    assert("\n"@ == seq!['\n']);
    lemma_pos_from(s, '\n', 0);
    let p = pos(s, '\n');
    if p < s.len() {
        let head = s.take(p);
        let tail = s.skip(p + 1);
        assert(p < s.len() - 1);
        assert(tail.last() == s.last());
        assert(!holds(tail, '\r')) by {
            if holds(tail, '\r') {
                let i = choose|i: int| 0 <= i < tail.len() && tail[i] == '\r';
                assert(s[p + 1 + i] == '\r');
            }
        }
        lemma_lines_joined(tail);
        assert(without_return(head) == head) by {
            if head.len() > 0 && head.last() == '\r' {
                assert(s[p - 1] == '\r');
            }
        }
        assert(lines(s) == seq![head] + lines(tail));
        assert((seq![head] + lines(tail)).skip(1) =~= lines(tail));
        assert(join(lines(s), "\n"@) == head + "\n"@ + join(lines(tail), "\n"@));
        assert(s =~= head + seq!['\n'] + tail);
    } else {
        assert(without_return(s) == s) by {
            if s.last() == '\r' {
                assert(s[s.len() - 1] == '\r');
            }
        }
    }
}

pub open spec fn header(name: Seq<char>) -> Seq<char> {
    "# Managed by Omarchy Studio — animation feel: "@ + name + "."@
}

proof fn lemma_header(name: Seq<char>)
    requires
        is_feel_name(name),
    ensures
        header(name).len() > 2,
        header(name)[0] == '#',
        header(name)[2] == 'M',
        header(name).last() == '.',
        !holds(header(name), '\n'),
        forall|i: int| 1 <= i < header(name).len() ==> #[trigger] header(name)[i] != '#',
{
    reveal_strlit("# Managed by Omarchy Studio — animation feel: ");
    reveal_strlit(".");
    let a = "# Managed by Omarchy Studio — animation feel: "@;
    let h = header(name);
    assert(h[0] == a[0] && h[2] == a[2]);
    assert forall|i: int| 0 <= i < h.len() implies (i >= 1 ==> #[trigger] h[i] != '#') && h[i]
        != '\n' by {
        if i < a.len() {
            assert(h[i] == a[i]);
        } else if i < a.len() + name.len() {
            assert(h[i] == name[i - a.len()]);
        }
    }
}

proof fn lemma_closing()
    ensures
        closing().len() > 2,
        closing()[0] == '#',
        closing()[2] == '<',
        !holds("animations"@, '\n'),
{
    reveal_strlit("# ");
    reveal_strlit("<<< omarchy-studio:");
    reveal_strlit("animations");
    reveal_strlit(" <<<");
    reveal_strlit("");
    let a = "# "@ + "<<< omarchy-studio:"@;
    let c = closing();
    assert(c =~= a + ("animations"@ + " <<<"@));
    assert(c[0] == a[0]);
    assert(c[2] == a[2]);
}

/// The body of a feel's block: the closing marker is not in it, and what it
/// holds behind the comment is the feel's own body.
proof fn lemma_block_body(p: FeelView)
    requires
        is_feel_name(p.name),
        is_feel_body(p.body),
    ensures
        core_of(block_body(p)) == p.body,
        trim(p.body) == p.body,
        !contains(block_body(p), closing()),
{
    reveal_strlit(".");
    reveal_strlit(".\n");
    let h = header(p.name);
    let whole = block_body(p);
    assert(whole =~= h + seq!['\n'] + p.body);
    lemma_header(p.name);
    lemma_closing();
    let pat = closing();
    if contains(whole, pat) {
        let k = choose|k: int| occurs(whole, pat, k);
        let at = whole.subrange(k, k + pat.len());
        assert(at[0] == whole[k]);
        assert(at[2] == whole[k + 2]);
        if k < h.len() {
            assert(whole[k] == h[k]);
        } else if k > h.len() {
            assert(whole[k] == p.body[k - h.len() - 1]);
        }
    }
    lemma_pos_is(whole, '\n', h.len() as int);
    assert(whole.take(h.len() as int) =~= h);
    assert(whole.skip(h.len() + 1int) =~= p.body);
    assert(without_return(h) == h);
    assert(lines(whole) == seq![h] + lines(p.body));
    assert(trim_start(h) == h);
    let rest = lines(p.body);
    assert(lines(whole).skip(1) =~= rest);
    assert(from_code(lines(whole)) == from_code(rest));
    assert(!holds(p.body, '\r'));
    lemma_lines_joined(p.body);
    lemma_pos_from(p.body, '\n', 0);
    let q = pos(p.body, '\n');
    assert(q > 0);
    assert(rest[0][0] == 'a') by {
        let first = if q < p.body.len() {
            p.body.take(q)
        } else {
            p.body
        };
        assert(first[0] == 'a');
        assert(without_return(first)[0] == 'a') by {
            if first.len() > 0 && first.last() == '\r' {
                assert(p.body[first.len() - 1] == '\r');
            }
        }
    }
    assert(!crate::text::is_space('a'));
    assert(trim_start(rest[0]) == rest[0]);
    assert(from_code(rest) == rest);
    assert(is_trimmed(p.body));
    lemma_trim_id(p.body);
}

proof fn lemma_feel_of(all: Seq<FeelView>, k: int)
    requires
        0 <= k < all.len(),
        forall|i: int| 0 <= i < k ==> trim((#[trigger] all[i]).body) != trim(all[k].body),
    ensures
        feel_of(all, trim(all[k].body)) == all[k].name,
    decreases k,
{
    if k > 0 {
        assert(trim(all[0].body) != trim(all[k].body));
        let tail = all.skip(1);
        assert(tail[k - 1] == all[k]);
        assert forall|i: int| 0 <= i < k - 1 implies trim((#[trigger] tail[i]).body) != trim(
            tail[k - 1].body,
        ) by {
            assert(tail[i] == all[i + 1]);
        }
        lemma_feel_of(tail, k - 1);
    }
}

/// Once a feel is written, the file is said to hold it, and writing it again
/// changes nothing. Where an opening marker stands a closing one must stand
/// behind it, and no second block may be left when the block is removed.
pub proof fn law_written_feel_is_current(text: Seq<char>, k: int)
    requires
        0 <= k < all_feels().len(),
        located(text, opening(), closing()) is Some || !contains(text, opening()),
        located(removed(text, opening(), closing()), opening(), closing()) is None,
    ensures
        current_in(Some(with_feel(text, all_feels()[k]))) == all_feels()[k].name,
        with_feel(with_feel(text, all_feels()[k]), all_feels()[k]) == with_feel(
            text,
            all_feels()[k],
        ),
{
    let all = all_feels();
    let p = all[k];
    lemma_bodies();
    lemma_names();
    lemma_bodies_differ();
    lemma_closing();
    let none = Seq::<char>::empty();
    assert(all[0].body =~= none);
    assert(trim(none) == none);
    if k > 0 {
        assert(is_feel_body(all[k].body));
        lemma_block_body(p);
        law_write_then_read(text, "animations"@, CommentStyle::Hash, block_body(p));
        assert forall|i: int| 0 <= i < k implies trim((#[trigger] all[i]).body) != trim(
            all[k].body,
        ) by {
            if i > 0 {
                assert(is_feel_body(all[i].body));
                lemma_block_body(all[i]);
            }
            assert(all[i].body.len() != all[k].body.len());
        }
        lemma_feel_of(all, k);
    }
}

/// Going back to what Omarchy ships takes the block out again.
pub proof fn law_default_removes_the_block(text: Seq<char>, k: int)
    requires
        0 < k < all_feels().len(),
        !contains(text, opening()),
    ensures
        with_feel(with_feel(text, all_feels()[k]), all_feels()[0])
            == crate::configfs::managed::line_ended(text),
{
    let all = all_feels();
    lemma_bodies();
    lemma_names();
    lemma_bodies_differ();
    lemma_closing();
    let none = Seq::<char>::empty();
    assert(all[0].body =~= none);
    assert(trim(none) == none);
    assert(is_feel_body(all[k].body));
    lemma_block_body(all[k]);
    crate::text::lemma_find_from(text, opening(), 0);
    law_write_then_remove(text, "animations"@, CommentStyle::Hash, block_body(all[k]));
}

/// Once the plan for a feel has been carried out, the file is said to hold the
/// feel; where there is no plan it does so already. Only the user's own file is
/// written.
pub proof fn law_applied_feel_is_current(
    paths: &OmarchyPaths,
    on_disk: Option<Seq<char>>,
    k: int,
    hypr_usable: bool,
)
    requires
        0 <= k < all_feels().len(),
        located(content(on_disk), opening(), closing()) is Some || !contains(
            content(on_disk),
            opening(),
        ),
        located(removed(content(on_disk), opening(), closing()), opening(), closing()) is None,
    ensures
        match feel_plan(paths, all_feels()[k], on_disk, hypr_usable) {
            Some(p) => p.edits.len() == 1 && p.edits[0].file == path_join(
                paths.hypr(),
                "looknfeel.conf"@,
            ) && p.edits[0].old == on_disk && current_in(Some(p.edits[0].new_content))
                == all_feels()[k].name,
            None => current_in(on_disk) == all_feels()[k].name,
        },
{
    let p = all_feels()[k];
    law_written_feel_is_current(content(on_disk), k);
    if feel_plan(paths, p, on_disk, hypr_usable) is None && on_disk is None {
        lemma_nothing_is_default();
        assert(with_feel(content(on_disk), p) == content(on_disk));
    }
}

proof fn lemma_nothing_is_default()
    ensures
        current_in(Some(Seq::<char>::empty())) == "Default"@,
        current_in(None) == "Default"@,
{
    let none = Seq::<char>::empty();
    lemma_closing();
    crate::text::lemma_find_from(none, opening(), 0);
    assert(extracted(none, opening(), closing()) is None);
}

/// The name of a feel finds the feel, and another name finds none.
pub proof fn law_feels_are_found_by_name(name: Seq<char>)
    ensures
        match feel_named(all_feels(), name) {
            Some(p) => p.name == name && all_feels().contains(p),
            None => forall|i: int| 0 <= i < all_feels().len() ==> (#[trigger] all_feels()[i]).name
                != name,
        },
{
    lemma_feel_named(all_feels(), name);
}

proof fn lemma_feel_named(all: Seq<FeelView>, name: Seq<char>)
    ensures
        match feel_named(all, name) {
            Some(p) => p.name == name && all.contains(p),
            None => forall|i: int| 0 <= i < all.len() ==> (#[trigger] all[i]).name != name,
        },
    decreases all.len(),
{
    if all.len() > 0 {
        let more = all.skip(1);
        lemma_feel_named(more, name);
        if all[0].name == name {
            assert(all.contains(all[0]));
        } else {
            match feel_named(more, name) {
                Some(p) => {
                    let i = choose|i: int| 0 <= i < more.len() && more[i] == p;
                    assert(all[i + 1] == p);
                },
                None => {
                    assert forall|i: int| 0 <= i < all.len() implies (#[trigger] all[i]).name
                        != name by {
                        if i > 0 {
                            assert(more[i - 1] == all[i]);
                        }
                    }
                },
            }
        }
    }
}

} // verus!
