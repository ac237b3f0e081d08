//! The user's changes over what Omarchy and the user's own files set.

use vstd::prelude::*;

use crate::configfs::hyprlang::{HyprDoc, entries_in, entry_views, value_at};
use crate::configfs::managed::{
    CommentStyle, ManagedBlock, close_marker, extracted, open_marker, removed, upserted,
};
use crate::engine::{
    ApplyPlan, Cmd, CmdOutput, CmdView, EditView, FileEdit, PlanView, ReloadStep, Risk, content,
    content_of, edit_to, edit_views, hypr_checks, hypr_verification, plain_plan, planned_edit,
};
use crate::error::{Failure, StudioError, external};
use crate::looknfeel::nested::{
    Placed, ended, facts, is_line_value, longest, nested_lines, placed, render_nested,
};
use crate::looknfeel::schema::{all_settings, settings, views};
use crate::looknfeel::{
    Preset, SettingView, Target, colon_key, coloned, lookup, setting_at, strip_inline_comment,
    uncommented, validated,
};
use crate::order::{TextMap, as_map};
use crate::paths::{OmarchyPaths, join as path_join};
use crate::split::{pieces, split};
use crate::text::{
    chars, opt_str, opt_text, owned, slices, string, texts, trim, trim_end, trimmed_end,
    trimmed_str,
};

verus! {

/// Keys with their values.
pub type Values = Map<Seq<char>, Seq<char>>;

pub open spec fn found_in(m: Values, key: Seq<char>) -> Option<Seq<char>> {
    if m.dom().contains(key) {
        Some(m[key])
    } else {
        None
    }
}

/// The texts of a target's two files, as far as they are there.
pub struct Sources<'a> {
    /// Omarchy's file.
    pub default: Option<&'a str>,
    /// The user's file.
    pub user: Option<&'a str>,
}

pub open spec fn opening(t: Target) -> Seq<char> {
    open_marker(t.block(), CommentStyle::Hash)
}

pub open spec fn closing(t: Target) -> Seq<char> {
    close_marker(t.block(), CommentStyle::Hash)
}

/// What a file says of a key outside the managed block.
pub open spec fn said(text: Option<Seq<char>>, t: Target, key: Seq<char>) -> Option<Seq<char>> {
    match text {
        Some(s) => match value_at(split(removed(s, opening(t), closing(t)), '\n'), key) {
            Some(v) => Some(uncommented(v)),
            None => None,
        },
        None => None,
    }
}

/// The first of two that says something.
pub open spec fn or_else(a: Option<Seq<char>>, b: Option<Seq<char>>) -> Option<Seq<char>> {
    match a {
        Some(v) => Some(v),
        None => b,
    }
}

/// What the files say of a key: the user's file counts before Omarchy's, and
/// the input files before the others.
pub open spec fn base_value(
    looknfeel: Sources<'_>,
    input: Sources<'_>,
    key: Seq<char>,
) -> Option<Seq<char>> {
    or_else(
        said(opt_str(input.user), Target::Input, key),
        or_else(
            said(opt_str(input.default), Target::Input, key),
            or_else(
                said(opt_str(looknfeel.user), Target::Looknfeel, key),
                said(opt_str(looknfeel.default), Target::Looknfeel, key),
            ),
        ),
    )
}

/// The keys and values in a file's managed block.
pub open spec fn block_facts(text: Option<Seq<char>>, t: Target) -> Seq<(Seq<char>, Seq<char>)> {
    match text {
        Some(s) => match extracted(s, opening(t), closing(t)) {
            Some(body) => facts(entries_in(body)),
            None => Seq::empty(),
        },
        None => Seq::empty(),
    }
}

/// A map with some values put into it, one after the other.
pub open spec fn put_all(m: Values, ps: Seq<(Seq<char>, Seq<char>)>) -> Values
    decreases ps.len(),
{
    if ps.len() == 0 {
        m
    } else {
        put_all(m, ps.drop_last()).insert(ps.last().0, ps.last().1)
    }
}

/// A map with what a file says of some settings put into it.
pub open spec fn overlaid(
    m: Values,
    all: Seq<SettingView>,
    text: Option<Seq<char>>,
    t: Target,
) -> Values
    decreases all.len(),
{
    if all.len() == 0 {
        m
    } else {
        let before = overlaid(m, all.drop_last(), text, t);
        match said(text, t, all.last().key) {
            Some(v) => before.insert(all.last().key, v),
            None => before,
        }
    }
}

/// Whether some settings have one with a key.
pub open spec fn is_listed(all: Seq<SettingView>, key: Seq<char>) -> bool {
    exists|i: int| 0 <= i < all.len() && (#[trigger] all[i]).key == key
}

proof fn lemma_overlaid(
    m: Values,
    all: Seq<SettingView>,
    text: Option<Seq<char>>,
    t: Target,
    key: Seq<char>,
)
    ensures
        found_in(overlaid(m, all, text, t), key) == if is_listed(all, key) {
            or_else(said(text, t, key), found_in(m, key))
        } else {
            found_in(m, key)
        },
    decreases all.len(),
{
    if all.len() > 0 {
        let front = all.drop_last();
        lemma_overlaid(m, front, text, t, key);
        assert(all[all.len() - 1] == all.last());
        if is_listed(front, key) {
            let i = choose|i: int| 0 <= i < front.len() && (#[trigger] front[i]).key == key;
            assert(all[i].key == key);
        } else if is_listed(all, key) {
            let i = choose|i: int| 0 <= i < all.len() && (#[trigger] all[i]).key == key;
            if i < front.len() {
                assert(front[i].key == key);
            }
        }
    }
}

/// A setting is found where one is listed.
pub proof fn lemma_setting_of(all: Seq<SettingView>, key: Seq<char>)
    ensures
        crate::looknfeel::setting_of(all, key) is Some <==> is_listed(all, key),
        crate::looknfeel::setting_of(all, key) matches Some(s) ==> all.contains(s) && s.key == key,
    decreases all.len(),
{
    if all.len() > 0 {
        let tail = all.skip(1);
        lemma_setting_of(tail, key);
        assert(all.contains(all[0]));
        if all[0].key != key {
            if is_listed(all, key) {
                let i = choose|i: int| 0 <= i < all.len() && (#[trigger] all[i]).key == key;
                assert(tail[i - 1].key == key);
            }
            if is_listed(tail, key) {
                let i = choose|i: int| 0 <= i < tail.len() && (#[trigger] tail[i]).key == key;
                assert(all[i + 1].key == key);
            }
            if let Some(s) = crate::looknfeel::setting_of(tail, key) {
                let i = choose|i: int| 0 <= i < tail.len() && tail[i] == s;
                assert(all[i + 1] == s);
            }
        }
    }
}

/// Puts what a file says of the settings into a map.
fn overlay(base: &mut TextMap, text: Option<&str>, t: Target)
    requires
        old(base).wf(),
    ensures
        final(base).wf(),
        final(base)@ == overlaid(old(base)@, all_settings(), opt_str(text), t),
{
    let ghost was = base@;
    let ghost table = all_settings();
    let ghost shown = opt_str(text);
    match text {
        Some(s) => {
            let block = ManagedBlock::new(t.block_name(), CommentStyle::Hash);
            let cleaned = block.remove(s);
            let doc = HyprDoc::parse(cleaned.as_str());
            let all = settings();
            let mut i: usize = 0;
            assert(table.take(0).len() == 0);
            while i < all.len()
                invariant
                    i <= all@.len(),
                    table == views(all@),
                    base.wf(),
                    shown == Some(s@),
                    doc.lines() == split(removed(s@, opening(t), closing(t)), '\n'),
                    base@ == overlaid(was, table.take(i as int), shown, t),
                decreases all.len() - i,
            {
                let key = all[i].key;
                assert(table.take(i + 1).drop_last() == table.take(i as int));
                assert(table.take(i + 1).last() == all@[i as int]@);
                if let Some(v) = doc.get(key) {
                    let clean = strip_inline_comment(v.as_str());
                    base.insert(key, clean.as_str());
                }
                i = i + 1;
            }
            assert(table.take(table.len() as int) == table);
        },
        None => {
            proof {
                lemma_overlaid_nothing(was, table, t);
            }
        },
    }
}

proof fn lemma_overlaid_nothing(m: Values, all: Seq<SettingView>, t: Target)
    ensures
        overlaid(m, all, None, t) == m,
    decreases all.len(),
{
    if all.len() > 0 {
        lemma_overlaid_nothing(m, all.drop_last(), t);
    }
}

/// Whether every value fits on a line.
pub open spec fn all_fit(m: Values) -> bool {
    forall|k: Seq<char>| #[trigger] m.dom().contains(k) ==> is_line_value(m[k])
}

/// What an entry gives fits on a line.
proof fn lemma_entries_fit(lines: Seq<Seq<char>>, i: int, stack: Seq<Seq<char>>)
    requires
        forall|k: int| 0 <= k < lines.len() ==> !crate::text::holds(#[trigger] lines[k], '\n'),
    ensures
        forall|k: int|
            0 <= k < crate::configfs::hyprlang::entries_from(lines, i, stack).len()
                ==> is_line_value(
                (#[trigger] crate::configfs::hyprlang::entries_from(lines, i, stack)[k]).value,
            ),
    decreases lines.len() - i,
{
    if 0 <= i < lines.len() {
        let line = crate::configfs::hyprlang::line_view(lines[i]);
        let after = crate::configfs::hyprlang::stack_after(line, stack);
        lemma_entries_fit(lines, i + 1, after);
        let all = crate::configfs::hyprlang::entries_from(lines, i, stack);
        let tail = crate::configfs::hyprlang::entries_from(lines, i + 1, after);
        crate::text::lemma_pos_from(lines[i], '=', 0);
        let p = crate::text::pos(lines[i], '=');
        assert forall|k: int| 0 <= k < all.len() implies is_line_value((#[trigger] all[k]).value) by {
            if let crate::configfs::hyprlang::LineView::Entry(key, value) = line {
                if k == 0 {
                    let tail_text = lines[i].skip(p + 1);
                    crate::split::lemma_trim_result(tail_text);
                    if crate::text::holds(value, '\n') {
                        assert(crate::text::holds(tail_text, '\n'));
                        let j = choose|j: int| 0 <= j < tail_text.len() && tail_text[j] == '\n';
                        assert(lines[i][p + 1 + j] == '\n');
                    }
                } else {
                    assert(all[k] == tail[k - 1]);
                }
            } else {
                assert(all[k] == tail[k]);
            }
        }
    }
}

/// Puts what a file's managed block holds into a map.
fn take_block(overrides: &mut TextMap, text: Option<&str>, t: Target)
    requires
        old(overrides).wf(),
        all_fit(old(overrides)@),
    ensures
        final(overrides).wf(),
        all_fit(final(overrides)@),
        final(overrides)@ == put_all(old(overrides)@, block_facts(opt_str(text), t)),
{
    let ghost was = overrides@;
    let s = match text {
        Some(s) => s,
        None => {
            return;
        },
    };
    let block = ManagedBlock::new(t.block_name(), CommentStyle::Hash);
    let body = match block.extract(s) {
        Some(b) => b,
        None => {
            return;
        },
    };
    let doc = HyprDoc::parse(body.as_str());
    let entries = doc.entries();
    let ghost es = entry_views(entries@);
    let ghost ps = facts(es);
    assert(es == entries_in(body@));
    let mut i: usize = 0;
    assert(ps.take(0).len() == 0);
    proof {
        crate::split::lemma_split_pieces(body@, '\n');
        lemma_entries_fit(split(body@, '\n'), 0, Seq::empty());
    }
    while i < entries.len()
        invariant
            i <= entries@.len(),
            es == entry_views(entries@),
            ps == facts(es),
            overrides.wf(),
            all_fit(overrides@),
            forall|k: int| 0 <= k < es.len() ==> is_line_value((#[trigger] es[k]).value),
            overrides@ == put_all(was, ps.take(i as int)),
        decreases entries.len() - i,
    {
        assert(ps.take(i + 1).drop_last() == ps.take(i as int));
        assert(es[i as int] == entries@[i as int]@);
        assert(ps.take(i + 1).last() == ps[i as int]);
        let key = entries[i].dotted();
        overrides.insert(key.as_str(), entries[i].value.as_str());
        i = i + 1;
    }
    assert(ps.take(ps.len() as int) == ps);
}

// ------------------------------------------------------------------ the managed block

/// The values of one target, with the names that lead to them.
pub open spec fn target_entries(pairs: Seq<(Seq<char>, Seq<char>)>, t: Target) -> Seq<Placed>
    decreases pairs.len(),
{
    if pairs.len() == 0 {
        Seq::empty()
    } else {
        let before = target_entries(pairs.drop_last(), t);
        let (key, value) = pairs.last();
        if setting_at(key) matches Some(s) && s.target == t {
            before.push((split(key, '.'), value))
        } else {
            before
        }
    }
}

/// What stands in a target's block, where it has values.
pub open spec fn body_of(pairs: Seq<(Seq<char>, Seq<char>)>, t: Target) -> Option<Seq<char>> {
    let entries = target_entries(pairs, t);
    if entries.len() == 0 {
        None
    } else {
        Some(
            trim_end(
                "# Managed by Omarchy Studio — your look & feel tweaks.\n"@ + ended(
                    nested_lines(entries, 0, longest(entries)),
                ),
            ),
        )
    }
}

/// A file's text with a target's block written or, where there is nothing to
/// write, removed.
pub open spec fn with_block(
    text: Seq<char>,
    pairs: Seq<(Seq<char>, Seq<char>)>,
    t: Target,
) -> Seq<char> {
    match body_of(pairs, t) {
        Some(body) => upserted(text, opening(t), body, closing(t)),
        None => removed(text, opening(t), closing(t)),
    }
}

pub open spec fn user_path(paths: &OmarchyPaths, t: Target) -> Seq<char> {
    path_join(paths.hypr(), t.user_name())
}

/// The edit of a target's file, where its text changes.
pub open spec fn target_edit(
    paths: &OmarchyPaths,
    on_disk: Option<Seq<char>>,
    pairs: Seq<(Seq<char>, Seq<char>)>,
    t: Target,
) -> Seq<EditView> {
    match edit_to(user_path(paths, t), on_disk, with_block(content(on_disk), pairs, t)) {
        Some(e) => seq![e],
        None => Seq::empty(),
    }
}

/// The value a preset's entry comes to.
pub open spec fn accepted(key: Seq<char>, raw: Seq<char>) -> Option<Seq<char>> {
    match setting_at(key) {
        Some(s) => match validated(s.kind, raw) {
            Ok(v) => Some(v),
            Err(_) => None,
        },
        None => None,
    }
}

/// The values of a preset, as they are written.
pub open spec fn preset_values(values: Seq<(Seq<char>, Seq<char>)>) -> Values
    decreases values.len(),
{
    if values.len() == 0 {
        Map::empty()
    } else {
        let before = preset_values(values.drop_last());
        match accepted(values.last().0, values.last().1) {
            Some(v) => before.insert(values.last().0, v),
            None => before,
        }
    }
}

/// What the user sees of a key: their change, or what the files say, or what
/// Hyprland takes.
pub open spec fn shown_value(base: Values, overrides: Values, key: Seq<char>) -> Seq<char> {
    match or_else(found_in(overrides, key), found_in(base, key)) {
        Some(v) => v,
        None => match setting_at(key) {
            Some(s) => s.default,
            None => Seq::empty(),
        },
    }
}

/// The command that sets a value live.
pub open spec fn keyword_cmd(key: Seq<char>, value: Seq<char>) -> CmdView {
    CmdView {
        program: "hyprctl"@,
        args: seq!["keyword"@, coloned(key), value],
        timeout_ms: None,
    }
}

/// Why a setting could not be shown, by what running its command came to.
pub open spec fn preview_failure(
    key: Seq<char>,
    ran: Result<CmdOutput, StudioError>,
) -> Option<Failure> {
    match ran {
        Err(e) => Some(e@),
        Ok(out) => if out.succeeded() {
            None
        } else {
            Some(
                Failure::External {
                    cmd: "hyprctl keyword "@ + coloned(key),
                    detail: trim(out.stderr@),
                },
            )
        },
    }
}

/// The settings as they stand, with the user's changes.
#[derive(Debug)]
pub struct LookFeel {
    base: TextMap,
    overrides: TextMap,
}

impl LookFeel {
    /// What the files say.
    pub closed spec fn base(&self) -> Values {
        self.base@
    }

    /// The user's changes.
    pub closed spec fn overrides(&self) -> Values {
        self.overrides@
    }

    /// The changes in the order of their keys.
    pub closed spec fn pairs(&self) -> Seq<(Seq<char>, Seq<char>)> {
        self.overrides.pairs()
    }

    pub closed spec fn wf(&self) -> bool {
        self.base.wf() && self.overrides.wf() && all_fit(self.overrides@)
    }

    /// The changes are held once each, in order, and each fits on a line.
    pub proof fn law_changes_are_held_once(&self)
        requires
            self.wf(),
        ensures
            self.overrides() == as_map(self.pairs()),
            crate::order::ascending(self.pairs()),
            all_fit(self.overrides()),
    {
    }

    pub fn load(looknfeel: &Sources<'_>, input: &Sources<'_>) -> (r: Self)
        ensures
            r.wf(),
            forall|key: Seq<char>|
                setting_at(key) is Some && said(opt_str(input.user), Target::Input, key) is Some
                    ==> #[trigger] found_in(r.base(), key) == said(
                    opt_str(input.user),
                    Target::Input,
                    key,
                ),
            forall|key: Seq<char>| #[trigger]
                found_in(r.base(), key) == if setting_at(key) is Some {
                    base_value(*looknfeel, *input, key)
                } else {
                    None
                },
            r.overrides() == put_all(
                put_all(Map::empty(), block_facts(opt_str(looknfeel.user), Target::Looknfeel)),
                block_facts(opt_str(input.user), Target::Input),
            ),
    {
        let mut base = TextMap::new();
        let mut overrides = TextMap::new();
        let ghost m0 = base@;
        overlay(&mut base, looknfeel.default, Target::Looknfeel);
        let ghost m1 = base@;
        overlay(&mut base, looknfeel.user, Target::Looknfeel);
        let ghost m2 = base@;
        take_block(&mut overrides, looknfeel.user, Target::Looknfeel);
        overlay(&mut base, input.default, Target::Input);
        let ghost m3 = base@;
        overlay(&mut base, input.user, Target::Input);
        take_block(&mut overrides, input.user, Target::Input);
        let r = LookFeel { base, overrides };
        proof {
            let all = all_settings();
            assert forall|key: Seq<char>| #[trigger]
                found_in(r.base(), key) == if setting_at(key) is Some {
                    base_value(*looknfeel, *input, key)
                } else {
                    None
                } by {
                lemma_setting_of(all, key);
                lemma_overlaid(m0, all, opt_str(looknfeel.default), Target::Looknfeel, key);
                lemma_overlaid(m1, all, opt_str(looknfeel.user), Target::Looknfeel, key);
                lemma_overlaid(m2, all, opt_str(input.default), Target::Input, key);
                lemma_overlaid(m3, all, opt_str(input.user), Target::Input, key);
            }
        }
        r
    }

    pub fn value(&self, key: &str) -> (r: String)
        requires
            self.wf(),
        ensures
            r@ == shown_value(self.base(), self.overrides(), key@),
    {
        if let Some(v) = self.overrides.get(key) {
            return owned(v);
        }
        if let Some(v) = self.base.get(key) {
            return owned(v);
        }
        match lookup(key) {
            Some(s) => owned(s.default),
            None => {
                let none = String::new();
                assert(none@ == Seq::<char>::empty());
                none
            },
        }
    }

    pub fn is_overridden(&self, key: &str) -> (r: bool)
        requires
            self.wf(),
        ensures
            r == self.overrides().dom().contains(key@),
    {
        self.overrides.has(key)
    }

    /// Changes a setting, or says why the value is refused.
    pub fn set(&mut self, key: &str, raw: &str) -> (r: Result<(), String>)
        requires
            old(self).wf(),
        ensures
            final(self).wf(),
            final(self).base() == old(self).base(),
            match r {
                Ok(_) => setting_at(key@) matches Some(s) && validated(s.kind, raw@) matches Ok(v)
                    && final(self).overrides() == old(self).overrides().insert(key@, v),
                Err(e) => {
                    &&& final(self).overrides() == old(self).overrides()
                    &&& match setting_at(key@) {
                        Some(s) => validated(s.kind, raw@) == Err::<Seq<char>, Seq<char>>(e@),
                        None => e@ == "unknown setting "@ + key@,
                    }
                },
            },
    {
        let setting = match lookup(key) {
            Some(s) => s,
            None => {
                let mut e = owned("unknown setting ");
                e.append(key);
                return Err(e);
            },
        };
        let value = match setting.kind.validate(raw) {
            Ok(v) => v,
            Err(e) => {
                return Err(e);
            },
        };
        proof {
            lemma_setting_of(all_settings(), key@);
            crate::looknfeel::laws::lemma_valid_fits(setting@, raw@);
        }
        self.overrides.insert(key, value.as_str());
        Ok(())
    }

    pub fn clear(&mut self, key: &str)
        requires
            old(self).wf(),
        ensures
            final(self).wf(),
            final(self).base() == old(self).base(),
            final(self).overrides() == old(self).overrides().remove(key@),
    {
        self.overrides.remove(key);
    }

    pub fn clear_all(&mut self)
        requires
            old(self).wf(),
        ensures
            final(self).wf(),
            final(self).base() == old(self).base(),
            final(self).overrides() == Map::<Seq<char>, Seq<char>>::empty(),
    {
        self.overrides.clear();
    }

    pub fn any_overrides(&self) -> (r: bool)
        requires
            self.wf(),
        ensures
            r == (self.overrides() != Map::<Seq<char>, Seq<char>>::empty()),
    {
        !self.overrides.is_empty()
    }

    /// The command that shows a setting live, without writing it.
    pub fn preview_cmd(&self, key: &str) -> (r: Cmd)
        requires
            self.wf(),
        ensures
            r@ == keyword_cmd(key@, shown_value(self.base(), self.overrides(), key@)),
    {
        let value = self.value(key);
        let ghost v = value@;
        let args = vec![owned("keyword"), colon_key(key), value];
        assert(texts(args@) == seq!["keyword"@, coloned(key@), v]);
        Cmd::new("hyprctl", args, None)
    }

    /// Whether showing a setting went well, by what its command left.
    pub fn preview_one(&self, key: &str, ran: &CmdOutput) -> (r: Result<(), StudioError>)
        ensures
            match r {
                Ok(_) => ran.succeeded(),
                Err(e) => !ran.succeeded() && e@ == (Failure::External {
                    cmd: "hyprctl keyword "@ + coloned(key@),
                    detail: trim(ran.stderr@),
                }),
            },
    {
        if ran.ok() {
            return Ok(());
        }
        let mut cmd = owned("hyprctl keyword ");
        let colon = colon_key(key);
        cmd.append(colon.as_str());
        let detail = trimmed_str(ran.stderr.as_str());
        Err(external(cmd.as_str(), detail.as_str()))
    }

    /// The commands that show every setting live: one for each, in the order of
    /// the settings. All of them are run, whatever becomes of one.
    pub fn preview_all_cmds(&self) -> (r: Vec<Cmd>)
        requires
            self.wf(),
        ensures
            r@.len() == all_settings().len(),
            forall|i: int|
                0 <= i < r@.len() ==> (#[trigger] r@[i])@ == keyword_cmd(
                    all_settings()[i].key,
                    shown_value(self.base(), self.overrides(), all_settings()[i].key),
                ),
    {
        let all = settings();
        let mut out: Vec<Cmd> = Vec::new();
        let mut i: usize = 0;
        while i < all.len()
            invariant
                self.wf(),
                i <= all@.len(),
                views(all@) == all_settings(),
                out@.len() == i,
                forall|k: int|
                    0 <= k < i ==> (#[trigger] out@[k])@ == keyword_cmd(
                        all_settings()[k].key,
                        shown_value(self.base(), self.overrides(), all_settings()[k].key),
                    ),
            decreases all.len() - i,
        {
            assert(all_settings()[i as int] == all@[i as int]@);
            out.push(self.preview_cmd(all[i].key));
            i = i + 1;
        }
        out
    }

    /// What showing the settings comes to, by what running each of their
    /// commands came to, in the order of the settings: the first failure counts.
    pub fn preview_all(&self, ran: Vec<Result<CmdOutput, StudioError>>) -> (r: Result<
        (),
        StudioError,
    >)
        requires
            ran@.len() == all_settings().len(),
        ensures
            match r {
                Ok(_) => forall|i: int|
                    0 <= i < ran@.len() ==> preview_failure(
                        all_settings()[i].key,
                        #[trigger] ran@[i],
                    ) is None,
                Err(e) => exists|i: int|
                    0 <= i < ran@.len() && preview_failure(
                        all_settings()[i].key,
                        #[trigger] ran@[i],
                    ) == Some(e@) && forall|j: int|
                        0 <= j < i ==> preview_failure(
                            all_settings()[j].key,
                            #[trigger] ran@[j],
                        ) is None,
            },
    {
        let all = settings();
        let ghost given = ran@;
        let mut left = ran;
        let mut i: usize = 0;
        while i < left.len()
            invariant
                left@ == given,
                given == ran@,
                given.len() == all@.len(),
                views(all@) == all_settings(),
                i <= left@.len(),
                forall|j: int|
                    0 <= j < i ==> preview_failure(
                        all_settings()[j].key,
                        #[trigger] given[j],
                    ) is None,
            decreases left.len() - i,
        {
            assert(all_settings()[i as int] == all@[i as int]@);
            let ghost this = given[i as int];
            let failed = match &left[i] {
                Ok(out) => {
                    if let Err(e) = self.preview_one(all[i].key, out) {
                        assert(preview_failure(all_settings()[i as int].key, this) == Some(e@));
                        return Err(e);
                    }
                    false
                },
                Err(_) => true,
            };
            if failed {
                let e = left.remove(i);
                assert(e == given[i as int]);
                match e {
                    Ok(_) => {},
                    Err(e) => {
                        assert(preview_failure(all_settings()[i as int].key, this) == Some(e@));
                        return Err(e);
                    },
                }
            }
            i = i + 1;
        }
        Ok(())
    }

    /// Replaces the changes by a preset's values.
    pub fn apply_preset(&mut self, preset: &Preset)
        requires
            old(self).wf(),
        ensures
            final(self).wf(),
            final(self).base() == old(self).base(),
            final(self).overrides() == preset_values(preset@.values),
    {
        let ghost base = self.base();
        let ghost values = preset@.values;
        self.overrides.clear();
        let mut i: usize = 0;
        assert(values.take(0).len() == 0);
        while i < preset.values.len()
            invariant
                i <= preset.values@.len(),
                values == preset@.values,
                self.wf(),
                self.base() == base,
                self.overrides() == preset_values(values.take(i as int)),
            decreases preset.values.len() - i,
        {
            assert(values.take(i + 1).drop_last() == values.take(i as int));
            assert(values.take(i + 1).last() == values[i as int]);
            let (key, raw) = preset.values[i];
            assert(values[i as int] == (key@, raw@));
            let _ = self.set(key, raw);
            i = i + 1;
        }
        assert(values.take(values.len() as int) == values);
    }

    /// The changes of a target, each with the names that lead to it.
    fn entries(&self, t: Target) -> (r: Vec<(Vec<String>, String)>)
        ensures
            placed(r@) == target_entries(self.pairs(), t),
    {
        let ghost pairs = self.pairs();
        let mut out: Vec<(Vec<String>, String)> = Vec::new();
        let mut i: usize = 0;
        assert(placed(out@) == target_entries(pairs.take(0), t));
        while i < self.overrides.len()
            invariant
                i <= pairs.len(),
                pairs == self.overrides.pairs(),
                placed(out@) == target_entries(pairs.take(i as int), t),
            decreases pairs.len() - i,
        {
            assert(pairs.take(i + 1).drop_last() == pairs.take(i as int));
            assert(pairs.take(i + 1).last() == pairs[i as int]);
            let (key, value) = self.overrides.at(i);
            if let Some(s) = lookup(key) {
                if s.target == t {
                    let ghost was = placed(out@);
                    let names = split_key(key);
                    let ghost here = texts(names@);
                    out.push((names, owned(value)));
                    assert(placed(out@) == was.push((here, value@)));
                }
            }
            i = i + 1;
        }
        assert(pairs.take(pairs.len() as int) == pairs);
        out
    }

    /// What stands in a target's block, or nothing where it has no changes.
    pub fn render_block_body(&self, target: Target) -> (r: Option<String>)
        ensures
            opt_text(r) == body_of(self.pairs(), target),
    {
        let entries = self.entries(target);
        if entries.len() == 0 {
            return None;
        }
        let mut out = owned("# Managed by Omarchy Studio — your look & feel tweaks.\n");
        proof {
            lemma_longest_fits(entries@);
        }
        render_nested(&entries, 0, &mut out);
        let all = chars(out.as_str());
        Some(string(trimmed_end(all.as_slice())))
    }

    /// The user's files that may be written.
    pub fn managed_paths(paths: &OmarchyPaths) -> (r: Vec<String>)
        ensures
            texts(r@) == seq![
                user_path(paths, Target::Looknfeel),
                user_path(paths, Target::Input),
            ],
    {
        let r = vec![
            paths.hypr_file(Target::Looknfeel.user_file()),
            paths.hypr_file(Target::Input.user_file()),
        ];
        assert(texts(r@) == seq![
            user_path(paths, Target::Looknfeel),
            user_path(paths, Target::Input),
        ]);
        r
    }

    fn plan_target(&self, paths: &OmarchyPaths, on_disk: Option<&str>, t: Target, edits: &mut Vec<
        FileEdit,
    >)
        ensures
            edit_views(final(edits)@) == edit_views(old(edits)@) + target_edit(
                paths,
                opt_str(on_disk),
                self.pairs(),
                t,
            ),
    {
        let ghost was = edit_views(edits@);
        let existing = content_of(on_disk);
        let block = ManagedBlock::new(t.block_name(), CommentStyle::Hash);
        let updated = match self.render_block_body(t) {
            Some(body) => block.upsert(existing.as_str(), body.as_str()),
            None => block.remove(existing.as_str()),
        };
        let planned = planned_edit(paths.hypr_file(t.user_file()), on_disk, updated);
        match planned {
            Some(e) => {
                edits.push(e);
                assert(edit_views(edits@) == was.push(e@));
            },
            None => {},
        }
        assert(edit_views(edits@) == was + target_edit(paths, opt_str(on_disk), self.pairs(), t));
    }

    /// The edits of the two files; a file whose text stays has none.
    pub fn plan(
        &self,
        paths: &OmarchyPaths,
        looknfeel_on_disk: Option<&str>,
        input_on_disk: Option<&str>,
    ) -> (r: Vec<FileEdit>)
        ensures
            edit_views(r@) == target_edit(
                paths,
                opt_str(looknfeel_on_disk),
                self.pairs(),
                Target::Looknfeel,
            ) + target_edit(paths, opt_str(input_on_disk), self.pairs(), Target::Input),
    {
        let mut edits: Vec<FileEdit> = Vec::new();
        assert(edit_views(edits@) == Seq::<EditView>::empty());
        self.plan_target(paths, looknfeel_on_disk, Target::Looknfeel, &mut edits);
        self.plan_target(paths, input_on_disk, Target::Input, &mut edits);
        assert(edit_views(edits@) == target_edit(
            paths,
            opt_str(looknfeel_on_disk),
            self.pairs(),
            Target::Looknfeel,
        ) + target_edit(paths, opt_str(input_on_disk), self.pairs(), Target::Input));
        edits
    }

    /// What a save writes.
    pub fn save(
        &self,
        paths: &OmarchyPaths,
        looknfeel_on_disk: Option<&str>,
        input_on_disk: Option<&str>,
    ) -> (r: Vec<FileEdit>)
        ensures
            edit_views(r@) == target_edit(
                paths,
                opt_str(looknfeel_on_disk),
                self.pairs(),
                Target::Looknfeel,
            ) + target_edit(paths, opt_str(input_on_disk), self.pairs(), Target::Input),
    {
        self.plan(paths, looknfeel_on_disk, input_on_disk)
    }

    /// The plan that writes the changes and has Hyprland load them.
    pub fn apply(
        &self,
        paths: &OmarchyPaths,
        looknfeel_on_disk: Option<&str>,
        input_on_disk: Option<&str>,
        hypr_usable: bool,
        summary: &str,
    ) -> (r: ApplyPlan)
        ensures
            r@ == (PlanView {
                summary: summary@,
                module: "looknfeel"@,
                edits: target_edit(
                    paths,
                    opt_str(looknfeel_on_disk),
                    self.pairs(),
                    Target::Looknfeel,
                ) + target_edit(paths, opt_str(input_on_disk), self.pairs(), Target::Input),
                reload: seq![ReloadStep::HyprReload],
                verify: hypr_checks(hypr_usable),
                risk: Risk::Risky,
                trailers: Seq::empty(),
            }),
    {
        let edits = self.plan(paths, looknfeel_on_disk, input_on_disk);
        let reload = vec![ReloadStep::HyprReload];
        assert(reload@ == seq![ReloadStep::HyprReload]);
        plain_plan(
            summary,
            "looknfeel",
            edits,
            reload,
            hypr_verification(hypr_usable),
            Risk::Risky,
        )
    }
}

proof fn lemma_longest_fits(v: Seq<(Vec<String>, String)>)
    ensures
        longest(placed(v)) <= usize::MAX,
    decreases v.len(),
{
    if v.len() > 0 {
        lemma_longest_fits(v.drop_last());
        assert(placed(v).drop_last() == placed(v.drop_last()));
        assert(placed(v).last() == (texts(v.last().0@), v.last().1@));
        assert(v.last().0@.len() <= usize::MAX) by {
            assert(v.last().0.len() <= usize::MAX);
        }
    }
}

/// The names in a dotted key.
fn split_key(key: &str) -> (r: Vec<String>)
    ensures
        texts(r@) == split(key@, '.'),
{
    let s = chars(key);
    let parts = pieces(s.as_slice(), '.');
    let ghost want = split(key@, '.');
    let mut out: Vec<String> = Vec::new();
    let mut i: usize = 0;
    assert(texts(out@) == want.take(0));
    while i < parts.len()
        invariant
            i <= parts@.len(),
            slices(parts@) == want,
            texts(out@) == want.take(i as int),
        decreases parts.len() - i,
    {
        let ghost was = texts(out@);
        out.push(string(parts[i]));
        assert(texts(out@) == was.push(parts@[i as int]@));
        assert(want[i as int] == parts@[i as int]@);
        assert(want.take(i + 1) == want.take(i as int).push(want[i as int]));
        i = i + 1;
    }
    assert(want.take(want.len() as int) == want);
    out
}

/// The file whose presence says that values are shown live and not yet saved.
pub fn preview_marker(state_dir: &str) -> (r: String)
    ensures
        r@ == path_join(state_dir@, "looknfeel.preview-active"@),
{
    crate::paths::joined_path(state_dir, "looknfeel.preview-active")
}

} // verus!
