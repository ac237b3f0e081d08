//! Rice bundles: a whole setup, moved to another machine.
//!
//! A bundle carries the config files that Studio has written, the user's own
//! themes, and a manifest of both. Importing one plans an edit for each file,
//! so that the bundle is replayed through the apply pipeline; themes that are
//! already there, and files that describe the source machine, are left alone.

use vstd::prelude::*;

use crate::engine::{
    ApplyPlan, Cmd, CmdOutput, CmdView, Component, EditView, FileEdit, PlanView, ReloadStep, Risk,
    Verification, edit_views,
};
use crate::error::{Failure, StudioError, external};
use crate::number::{append_u64, int_text, u64_text};
use crate::order::{TextMap, has_key, pair_texts, positions, text_before, text_order, text_order_of};
use crate::paths::{
    OmarchyPaths, below, components, components_of, is_within, join, joined_path, lead, names,
    parent, parent_of, part_below, within,
};
use crate::split;
use crate::text::{
    chars, ends_str, ends_with, is_text, opt_text, owned, same_opt, same_str, slices, starts_str,
    starts_with, texts, trim, trimmed_str,
};
use crate::toml::{Node, doc_text, parsed};

pub mod bundles;
pub mod exports;
pub mod laws;
pub mod manifest;

verus! {

/// The bundle layout that this version reads and writes.
pub const FORMAT: u32 = 1;

/// One config file in a bundle.
#[derive(Debug, Clone, PartialEq, Eq)]
pub struct Entry {
    /// The path relative to the home directory.
    pub home_rel: String,
    /// The module that wrote it.
    pub module: String,
    /// Whether the file describes the machine it comes from.
    pub machine: bool,
}

#[verifier::ext_equal]
pub struct EntryView {
    pub home_rel: Seq<char>,
    pub module: Seq<char>,
    pub machine: bool,
}

impl View for Entry {
    type V = EntryView;

    open spec fn view(&self) -> EntryView {
        EntryView { home_rel: self.home_rel@, module: self.module@, machine: self.machine }
    }
}

pub open spec fn entry_views(v: Seq<Entry>) -> Seq<EntryView> {
    v.map_values(|e: Entry| e@)
}

/// Where a file of a bundle stands in its tree.
pub open spec fn bundled_path(root: Seq<char>, home_rel: Seq<char>) -> Seq<char> {
    join(join(root, "files"@), home_rel)
}

impl Entry {
    pub fn path_in(&self, root: &str) -> (r: String)
        ensures
            r@ == bundled_path(root@, self.home_rel@),
    {
        let files = joined_path(root, "files");
        joined_path(files.as_str(), self.home_rel.as_str())
    }

    pub fn copied(&self) -> (r: Self)
        ensures
            r@ == self@,
    {
        Entry {
            home_rel: owned(self.home_rel.as_str()),
            module: owned(self.module.as_str()),
            machine: self.machine,
        }
    }
}

/// A bundle's manifest.
#[derive(Debug, Clone, PartialEq, Eq)]
pub struct Bundle {
    pub format: u32,
    /// The Studio version that wrote the bundle.
    pub studio_version: String,
    /// The Omarchy version of the source machine.
    pub omarchy_version: String,
    pub created: String,
    pub entries: Vec<Entry>,
    /// The slugs of the themes carried along.
    pub themes: Vec<String>,
}

#[verifier::ext_equal]
pub struct BundleView {
    pub format: u32,
    pub studio_version: Seq<char>,
    pub omarchy_version: Seq<char>,
    pub created: Seq<char>,
    pub entries: Seq<EntryView>,
    pub themes: Seq<Seq<char>>,
}

impl View for Bundle {
    type V = BundleView;

    open spec fn view(&self) -> BundleView {
        BundleView {
            format: self.format,
            studio_version: self.studio_version@,
            omarchy_version: self.omarchy_version@,
            created: self.created@,
            entries: entry_views(self.entries@),
            themes: texts(self.themes@),
        }
    }
}

// ------------------------------------------------------------------ the paths

/// Whether a path is a plain relative one: it names something, starts at no
/// root and climbs nowhere.
pub open spec fn is_safe_rel(rel: Seq<char>) -> bool {
    &&& rel.len() > 0
    &&& lead(rel).len() == 0
    &&& forall|i: int| 0 <= i < names(rel).len() ==> #[trigger] names(rel)[i] != ".."@
}

pub fn safe_rel(rel: &str) -> (r: bool)
    ensures
        r == is_safe_rel(rel@),
{
    let s = chars(rel);
    if s.len() == 0 {
        return false;
    }
    let parts = components_of(s.as_slice());
    let first = split::pieces(s.as_slice(), '/');
    assert(slices(first@)[0] == first@[0]@);
    if s[0] == '/' {
        return false;
    }
    if first[0].len() == 1 && first[0][0] == '.' {
        assert(first@[0]@ == seq!['.']);
        return false;
    }
    assert(components(rel@) == names(rel@));
    let mut i: usize = 0;
    while i < parts.len()
        invariant
            i <= parts@.len(),
            slices(parts@) == names(rel@),
            forall|k: int| 0 <= k < i ==> #[trigger] names(rel@)[k] != ".."@,
        decreases parts.len() - i,
    {
        assert(names(rel@)[i as int] == parts@[i as int]@);
        if is_text(parts[i], "..") {
            return false;
        }
        i = i + 1;
    }
    true
}

/// Whether a file is true of one machine only.
pub open spec fn is_machine_specific(home_rel: Seq<char>, module: Seq<char>) -> bool {
    module == "monitors"@ || ends_with(home_rel, "hypr/monitors.conf"@)
}

pub fn machine_specific(home_rel: &str, module: &str) -> (r: bool)
    ensures
        r == is_machine_specific(home_rel@, module@),
{
    same_str(module, "monitors") || ends_str(home_rel, "hypr/monitors.conf")
}

/// Whether a file lies where a rice draws from: a dotfile right in the home
/// directory, or a file under one of the two config roots.
pub open spec fn is_portable(home_rel: Seq<char>) -> bool {
    ||| components(home_rel).len() == 1 && starts_with(home_rel, "."@)
    ||| starts_with(home_rel, ".config/"@)
    ||| starts_with(home_rel, ".local/share/"@)
}

pub fn portable(home_rel: &str) -> (r: bool)
    ensures
        r == is_portable(home_rel@),
{
    let s = chars(home_rel);
    let parts = components_of(s.as_slice());
    assert(slices(parts@).len() == parts@.len());
    (parts.len() == 1 && starts_str(home_rel, ".")) || starts_str(home_rel, ".config/")
        || starts_str(home_rel, ".local/share/")
}

/// The home directory, from the environment's `HOME`.
pub fn home(var: Option<&str>) -> (r: Result<String, StudioError>)
    ensures
        match (var, r) {
            (Some(v), Ok(h)) => h@ == v@,
            (None, Err(e)) => e@ == (Failure::External {
                cmd: "rice"@,
                detail: "HOME is not set — can't tell which files are yours"@,
            }),
            _ => false,
        },
{
    match var {
        Some(v) => Ok(owned(v)),
        None => Err(external("rice", "HOME is not set — can't tell which files are yours")),
    }
}

impl Bundle {
    /// The modules present, in order and each once.
    pub fn modules(&self) -> (r: Vec<String>)
        ensures
            forall|i: int, j: int|
                0 <= i < j < r@.len() ==> text_before(#[trigger] r@[i]@, #[trigger] r@[j]@),
            forall|m: Seq<char>| #[trigger]
                texts(r@).contains(m) <==> exists|i: int|
                    0 <= i < self.entries@.len() && (#[trigger] self.entries@[i]).module@ == m,
    {
        let mut seen = TextMap::new();
        let mut i: usize = 0;
        while i < self.entries.len()
            invariant
                i <= self.entries@.len(),
                seen.wf(),
                forall|m: Seq<char>| #[trigger]
                    seen@.dom().contains(m) <==> exists|k: int|
                        0 <= k < i && (#[trigger] self.entries@[k]).module@ == m,
            decreases self.entries.len() - i,
        {
            let ghost before = seen@;
            seen.insert(self.entries[i].module.as_str(), "");
            proof {
                let new = self.entries@[i as int].module@;
                assert forall|m: Seq<char>| #[trigger] seen@.dom().contains(m) <==> exists|k: int|
                    0 <= k < i + 1 && (#[trigger] self.entries@[k]).module@ == m by {
                    if seen@.dom().contains(m) && m != new {
                        assert(before.dom().contains(m));
                    }
                    if exists|k: int| 0 <= k < i + 1 && (#[trigger] self.entries@[k]).module@ == m {
                        if m != new {
                            assert(before.dom().contains(m));
                        }
                    }
                }
            }
            i = i + 1;
        }
        let ghost pairs = seen.pairs();
        let mut out: Vec<String> = Vec::new();
        let mut k: usize = 0;
        while k < seen.len()
            invariant
                k <= pairs.len(),
                pairs == seen.pairs(),
                out@.len() == k,
                forall|a: int| 0 <= a < k ==> (#[trigger] out@[a])@ == pairs[a].0,
            decreases pairs.len() - k,
        {
            let p = seen.at(k);
            out.push(owned(p.0));
            k = k + 1;
        }
        proof {
            assert forall|a: int, b: int| 0 <= a < b < out@.len() implies text_before(
                #[trigger] out@[a]@,
                #[trigger] out@[b]@,
            ) by {
                assert(text_before(pairs[a].0, pairs[b].0));
            }
            assert forall|m: Seq<char>| #[trigger]
                texts(out@).contains(m) <==> exists|i: int|
                    0 <= i < self.entries@.len() && (#[trigger] self.entries@[i]).module@ == m by {
                assert(seen@.dom().contains(m) <==> has_key(pairs, m));
                if texts(out@).contains(m) {
                    let a = choose|a: int| 0 <= a < texts(out@).len() && texts(out@)[a] == m;
                    assert(out@[a]@ == pairs[a].0);
                    assert(has_key(pairs, m));
                }
                if has_key(pairs, m) {
                    let a = choose|a: int| 0 <= a < pairs.len() && #[trigger] pairs[a].0 == m;
                    assert(texts(out@)[a] == m);
                }
            }
        }
        out
    }
}

// -------------------------------------------------------------------- exporting

/// A file that Studio has written at some time.
#[derive(Debug, Clone, PartialEq, Eq)]
pub struct Written {
    pub path: String,
    pub module: String,
    /// Whether a file is still there.
    pub is_file: bool,
}

pub struct WrittenView {
    pub path: Seq<char>,
    pub module: Seq<char>,
    pub is_file: bool,
}

impl View for Written {
    type V = WrittenView;

    open spec fn view(&self) -> WrittenView {
        WrittenView { path: self.path@, module: self.module@, is_file: self.is_file }
    }
}

pub open spec fn written_views(v: Seq<Written>) -> Seq<WrittenView> {
    v.map_values(|t: Written| t@)
}

/// A theme on this machine.
#[derive(Debug, Clone, PartialEq, Eq)]
pub struct ThemeListing {
    pub slug: String,
    /// Whether it lies in the user's own theme directory.
    pub user: bool,
    /// Whether it is the theme editor's scratch theme.
    pub scratch: bool,
}

pub struct ThemeView {
    pub slug: Seq<char>,
    pub user: bool,
    pub scratch: bool,
}

impl View for ThemeListing {
    type V = ThemeView;

    open spec fn view(&self) -> ThemeView {
        ThemeView { slug: self.slug@, user: self.user, scratch: self.scratch }
    }
}

pub open spec fn theme_views(v: Seq<ThemeListing>) -> Seq<ThemeView> {
    v.map_values(|t: ThemeListing| t@)
}

/// The entry for a written file, where it belongs in a rice: it is still
/// there, is not Studio's own bookkeeping, and lies in a portable place under
/// the home directory.
pub open spec fn export_entry(
    t: WrittenView,
    state: Seq<char>,
    home: Seq<char>,
) -> Option<EntryView> {
    if !t.is_file || is_within(t.path, state) {
        None
    } else {
        match below(t.path, home) {
            Some(rel) => if is_safe_rel(rel) && is_portable(rel) {
                Some(
                    EntryView {
                        home_rel: rel,
                        module: t.module,
                        machine: is_machine_specific(rel, t.module),
                    },
                )
            } else {
                None
            },
            None => None,
        }
    }
}

pub open spec fn export_entries(
    written: Seq<WrittenView>,
    state: Seq<char>,
    home: Seq<char>,
) -> Seq<EntryView>
    decreases written.len(),
{
    if written.len() == 0 {
        Seq::empty()
    } else {
        let front = export_entries(written.drop_last(), state, home);
        match export_entry(written.last(), state, home) {
            Some(e) => front.push(e),
            None => front,
        }
    }
}

pub open spec fn home_rels(es: Seq<EntryView>) -> Seq<Seq<char>> {
    es.map_values(|e: EntryView| e.home_rel)
}

/// The entries by path; of those with one path, in the order they came in.
pub open spec fn by_path(es: Seq<EntryView>) -> Seq<EntryView> {
    text_order_of(home_rels(es)).map_values(|i: int| es[i])
}

/// The entries without those that repeat the path in front of them.
pub open spec fn without_repeats(es: Seq<EntryView>) -> Seq<EntryView>
    decreases es.len(),
{
    if es.len() == 0 {
        Seq::empty()
    } else {
        let front = without_repeats(es.drop_last());
        if front.len() > 0 && front.last().home_rel == es.last().home_rel {
            front
        } else {
            front.push(es.last())
        }
    }
}

/// The user's own themes that can travel.
pub open spec fn export_slugs(themes: Seq<ThemeView>) -> Seq<Seq<char>>
    decreases themes.len(),
{
    if themes.len() == 0 {
        Seq::empty()
    } else {
        let front = export_slugs(themes.drop_last());
        let t = themes.last();
        if t.user && !t.scratch && is_safe_rel(t.slug) {
            front.push(t.slug)
        } else {
            front
        }
    }
}

pub open spec fn in_order(ts: Seq<Seq<char>>) -> Seq<Seq<char>> {
    text_order_of(ts).map_values(|i: int| ts[i])
}

fn exported_entry(t: &Written, state: &str, home: &str) -> (r: Option<Entry>)
    ensures
        match r {
            Some(e) => export_entry(t@, state@, home@) == Some(e@),
            None => export_entry(t@, state@, home@) is None,
        },
{
    if !t.is_file || within(t.path.as_str(), state) {
        return None;
    }
    match part_below(t.path.as_str(), home) {
        Some(rel) => {
            if !safe_rel(rel.as_str()) || !portable(rel.as_str()) {
                return None;
            }
            let machine = machine_specific(rel.as_str(), t.module.as_str());
            Some(Entry { home_rel: rel, module: owned(t.module.as_str()), machine })
        },
        None => None,
    }
}

/// What an export carries: the entries, and the slugs of the themes.
pub fn plan_export(
    written: &Vec<Written>,
    state: &str,
    home: &str,
    themes: &Vec<ThemeListing>,
) -> (r: (Vec<Entry>, Vec<String>))
    ensures
        entry_views(r.0@) == without_repeats(
            by_path(export_entries(written_views(written@), state@, home@)),
        ),
        texts(r.1@) == in_order(export_slugs(theme_views(themes@))),
{
    let mut found: Vec<Entry> = Vec::new();
    let mut keys: Vec<String> = Vec::new();
    let ghost all = written_views(written@);
    let mut i: usize = 0;
    assert(all.take(0).len() == 0);
    assert(entry_views(found@) == Seq::<EntryView>::empty());
    assert(texts(keys@) == home_rels(entry_views(found@)));
    while i < written.len()
        invariant
            i <= written@.len(),
            all == written_views(written@),
            entry_views(found@) == export_entries(all.take(i as int), state@, home@),
            texts(keys@) == home_rels(entry_views(found@)),
        decreases written.len() - i,
    {
        assert(all.take(i + 1).drop_last() == all.take(i as int));
        assert(all.take(i + 1).last() == written@[i as int]@);
        let ghost was = entry_views(found@);
        let ghost had = texts(keys@);
        if let Some(e) = exported_entry(&written[i], state, home) {
            keys.push(owned(e.home_rel.as_str()));
            found.push(e);
            assert(entry_views(found@) == was.push(e@));
            assert(texts(keys@) == had.push(e.home_rel@));
            assert(texts(keys@) == home_rels(entry_views(found@)));
        }
        i = i + 1;
    }
    assert(all.take(all.len() as int) == all);
    let entries = listed(&found, &keys);
    let mut slugs: Vec<String> = Vec::new();
    let ghost every = theme_views(themes@);
    let mut k: usize = 0;
    assert(every.take(0).len() == 0);
    assert(texts(slugs@) == Seq::<Seq<char>>::empty());
    while k < themes.len()
        invariant
            k <= themes@.len(),
            every == theme_views(themes@),
            texts(slugs@) == export_slugs(every.take(k as int)),
        decreases themes.len() - k,
    {
        assert(every.take(k + 1).drop_last() == every.take(k as int));
        assert(every.take(k + 1).last() == themes@[k as int]@);
        let t = &themes[k];
        let ghost was = texts(slugs@);
        if t.user && !t.scratch && safe_rel(t.slug.as_str()) {
            slugs.push(owned(t.slug.as_str()));
            assert(texts(slugs@) == was.push(t.slug@));
        }
        k = k + 1;
    }
    assert(every.take(every.len() as int) == every);
    (entries, ordered(&slugs))
}

/// The entries by path and each path once.
fn listed(found: &Vec<Entry>, keys: &Vec<String>) -> (r: Vec<Entry>)
    requires
        texts(keys@) == home_rels(entry_views(found@)),
    ensures
        entry_views(r@) == without_repeats(by_path(entry_views(found@))),
{
    assert(keys@.len() == texts(keys@).len() && found@.len() == entry_views(found@).len());
    let order = text_order(keys);
    let ghost views = entry_views(found@);
    let ghost sorted = by_path(views);
    let mut out: Vec<Entry> = Vec::new();
    let mut i: usize = 0;
    assert(sorted.take(0).len() == 0);
    assert(entry_views(out@) == Seq::<EntryView>::empty());
    while i < order.len()
        invariant
            i <= order@.len(),
            order@.len() == found@.len(),
            views == entry_views(found@),
            sorted == by_path(views),
            positions(order@) == text_order_of(home_rels(views)),
            sorted.len() == order@.len(),
            forall|k: int| 0 <= k < order@.len() ==> #[trigger] order@[k] < found@.len(),
            entry_views(out@) == without_repeats(sorted.take(i as int)),
        decreases order.len() - i,
    {
        let e = &found[order[i]];
        proof {
            assert(positions(order@)[i as int] == order@[i as int]);
            assert(sorted[i as int] == e@);
            assert(sorted.take(i + 1).drop_last() == sorted.take(i as int));
            assert(sorted.take(i + 1).last() == e@);
        }
        let n = out.len();
        let ghost was = entry_views(out@);
        assert(n > 0 ==> was.last() == out@[n - 1]@);
        if n > 0 && same_str(out[n - 1].home_rel.as_str(), e.home_rel.as_str()) {
        } else {
            out.push(e.copied());
            assert(entry_views(out@) == was.push(e@));
        }
        i = i + 1;
    }
    assert(sorted.take(sorted.len() as int) == sorted);
    out
}

fn ordered(items: &Vec<String>) -> (r: Vec<String>)
    ensures
        texts(r@) == in_order(texts(items@)),
{
    let order = text_order(items);
    let ghost ts = texts(items@);
    let ghost sorted = in_order(ts);
    let mut out: Vec<String> = Vec::new();
    let mut i: usize = 0;
    assert(texts(out@) == sorted.take(0));
    while i < order.len()
        invariant
            i <= order@.len(),
            order@.len() == items@.len(),
            ts == texts(items@),
            sorted == in_order(ts),
            positions(order@) == text_order_of(ts),
            sorted.len() == order@.len(),
            forall|k: int| 0 <= k < order@.len() ==> #[trigger] order@[k] < items@.len(),
            texts(out@) == sorted.take(i as int),
        decreases order.len() - i,
    {
        let t = &items[order[i]];
        proof {
            assert(positions(order@)[i as int] == order@[i as int]);
            assert(sorted[i as int] == t@);
            assert(sorted.take(i + 1) == sorted.take(i as int).push(t@));
        }
        let ghost was = texts(out@);
        out.push(owned(t.as_str()));
        assert(texts(out@) == was.push(t@));
        i = i + 1;
    }
    assert(sorted.take(sorted.len() as int) == sorted);
    out
}

/// The steps of writing a bundle.
#[derive(Debug, Clone, PartialEq, Eq)]
pub struct Export {
    /// The directory that has to be there first, where it is not the current
    /// one.
    pub make_dir: Option<String>,
    /// The directory that the bundle is gathered in.
    pub stage: String,
    pub bundle: Bundle,
    /// The files to copy, each from and to.
    pub files: Vec<(String, String)>,
    /// The theme directories to copy, each from and to.
    pub themes: Vec<(String, String)>,
    pub manifest_path: String,
    pub manifest: String,
    pub archive: Cmd,
}

/// The directory that a bundle is written to, unless it is the current one.
pub open spec fn target_dir(out: Seq<char>) -> Option<Seq<char>> {
    match parent(out) {
        Some(p) => if p.len() > 0 {
            Some(p)
        } else {
            None
        },
        None => None,
    }
}

/// The directory beside `out` that an export is gathered in.
pub open spec fn stage_dir(out: Seq<char>, pid: u32, stamp: u64) -> Seq<char> {
    join(
        match target_dir(out) {
            Some(p) => p,
            None => "."@,
        },
        ".rice-export-"@ + int_text(pid as int) + "-"@ + int_text(stamp as int),
    )
}

/// Where each file of a bundle is copied from and to.
pub open spec fn file_copies(
    es: Seq<EntryView>,
    home: Seq<char>,
    stage: Seq<char>,
) -> Seq<(Seq<char>, Seq<char>)> {
    es.map_values(|e: EntryView| (join(home, e.home_rel), bundled_path(stage, e.home_rel)))
}

/// Where each theme directory is copied from and to.
pub open spec fn theme_copies(
    slugs: Seq<Seq<char>>,
    from: Seq<char>,
    to: Seq<char>,
) -> Seq<(Seq<char>, Seq<char>)> {
    slugs.map_values(|t: Seq<char>| (join(from, t), join(to, t)))
}

fn theme_moves(slugs: &Vec<String>, from: &str, to: &str) -> (r: Vec<(String, String)>)
    ensures
        pair_texts(r@) == theme_copies(texts(slugs@), from@, to@),
{
    let ghost want = theme_copies(texts(slugs@), from@, to@);
    let mut out: Vec<(String, String)> = Vec::new();
    let mut i: usize = 0;
    assert(pair_texts(out@) == want.take(0));
    while i < slugs.len()
        invariant
            i <= slugs@.len(),
            want == theme_copies(texts(slugs@), from@, to@),
            pair_texts(out@) == want.take(i as int),
        decreases slugs.len() - i,
    {
        let ghost was = pair_texts(out@);
        let a = joined_path(from, slugs[i].as_str());
        let b = joined_path(to, slugs[i].as_str());
        out.push((a, b));
        assert(pair_texts(out@) == was.push((a@, b@)));
        assert(want.take(i + 1) == want.take(i as int).push((a@, b@)));
        i = i + 1;
    }
    assert(want.take(want.len() as int) == want);
    out
}

fn file_moves(es: &Vec<Entry>, home: &str, stage: &str) -> (r: Vec<(String, String)>)
    ensures
        pair_texts(r@) == file_copies(entry_views(es@), home@, stage@),
{
    let ghost want = file_copies(entry_views(es@), home@, stage@);
    let mut out: Vec<(String, String)> = Vec::new();
    let mut i: usize = 0;
    assert(pair_texts(out@) == want.take(0));
    while i < es.len()
        invariant
            i <= es@.len(),
            want == file_copies(entry_views(es@), home@, stage@),
            pair_texts(out@) == want.take(i as int),
        decreases es.len() - i,
    {
        let ghost was = pair_texts(out@);
        let a = joined_path(home, es[i].home_rel.as_str());
        let b = es[i].path_in(stage);
        out.push((a, b));
        assert(pair_texts(out@) == was.push((a@, b@)));
        assert(want.take(i + 1) == want.take(i as int).push((a@, b@)));
        i = i + 1;
    }
    assert(want.take(want.len() as int) == want);
    out
}

/// How the planned entries and themes become a bundle at `out`. The stage's
/// name is made of the process and of a time stamp, so that no two exports
/// share one.
pub fn export(
    entries: Vec<Entry>,
    themes: Vec<String>,
    paths: &OmarchyPaths,
    home: &str,
    out: &str,
    studio_version: &str,
    omarchy_version: &str,
    created: &str,
    pid: u32,
    stamp: u64,
) -> (r: Export)
    ensures
        opt_text(r.make_dir) == target_dir(out@),
        r.stage@ == stage_dir(out@, pid, stamp),
        r.bundle@ == (BundleView {
            format: FORMAT,
            studio_version: studio_version@,
            omarchy_version: omarchy_version@,
            created: created@,
            entries: entry_views(entries@),
            themes: texts(themes@),
        }),
        pair_texts(r.files@) == file_copies(entry_views(entries@), home@, r.stage@),
        pair_texts(r.themes@) == theme_copies(
            texts(themes@),
            join(paths.config@, "themes"@),
            join(r.stage@, "themes"@),
        ),
        r.manifest_path@ == join(r.stage@, "manifest.toml"@),
        r.manifest@ == doc_text(manifest::manifest(r.bundle@)),
        r.archive@ == (CmdView {
            program: "tar"@,
            args: seq!["-czf"@, out@, "-C"@, r.stage@, "."@],
            timeout_ms: Some(120000),
        }),
{
    let parent_dir = match parent_of(out) {
        Some(p) => {
            let s = chars(p.as_str());
            if s.len() > 0 {
                Some(p)
            } else {
                None
            }
        },
        None => None,
    };
    let mut name = owned(".rice-export-");
    append_u64(&mut name, pid as u64);
    name.append("-");
    append_u64(&mut name, stamp);
    let base = match &parent_dir {
        Some(p) => owned(p.as_str()),
        None => owned("."),
    };
    let stage = joined_path(base.as_str(), name.as_str());
    let files = file_moves(&entries, home, stage.as_str());
    let user_themes = joined_path(paths.config.as_str(), "themes");
    let stage_themes = joined_path(stage.as_str(), "themes");
    let theme_list = theme_moves(&themes, user_themes.as_str(), stage_themes.as_str());
    let bundle = Bundle {
        format: FORMAT,
        studio_version: owned(studio_version),
        omarchy_version: owned(omarchy_version),
        created: owned(created),
        entries,
        themes,
    };
    let manifest = bundle.render();
    let args = vec![owned("-czf"), owned(out), owned("-C"), owned(stage.as_str()), owned(".")];
    assert(texts(args@) == seq!["-czf"@, out@, "-C"@, stage@, "."@]);
    Export {
        make_dir: parent_dir,
        manifest_path: joined_path(stage.as_str(), "manifest.toml"),
        stage,
        bundle,
        files,
        themes: theme_list,
        manifest,
        archive: Cmd::new("tar", args, Some(120000)),
    }
}

/// What a failed archiver said.
pub open spec fn tar_failed(flags: Seq<char>, stderr: Seq<char>) -> Failure {
    Failure::External { cmd: flags, detail: trim(stderr) }
}

/// The bundle that was written, once the archiver has run.
pub fn exported(bundle: Bundle, tar: &CmdOutput) -> (r: Result<Bundle, StudioError>)
    ensures
        match r {
            Ok(b) => tar.succeeded() && b@ == bundle@,
            Err(e) => !tar.succeeded() && e@ == tar_failed("tar -czf"@, tar.stderr@),
        },
{
    if tar.ok() {
        Ok(bundle)
    } else {
        let detail = trimmed_str(tar.stderr.as_str());
        Err(external("tar -czf", detail.as_str()))
    }
}

/// The current time as `date -u` has it, or nothing where it did not run.
pub fn now_utc(date: Option<&CmdOutput>) -> (r: String)
    ensures
        r@ == (match date {
            Some(o) => trim(o.stdout@),
            None => Seq::empty(),
        }),
{
    match date {
        Some(o) => trimmed_str(o.stdout.as_str()),
        None => {
            let none: String = String::new();
            assert(none@ == Seq::<char>::empty());
            none
        },
    }
}

/// Whether an entry of a theme directory is copied: hidden ones are not.
pub fn copied_along(name: &str) -> (r: bool)
    ensures
        r == !starts_with(name@, "."@),
{
    !starts_str(name, ".")
}

// -------------------------------------------------------------------- unpacking

/// The command that unpacks a bundle, where there is one.
pub fn unpack_cmd(bundle: &str, dest: &str, is_file: bool) -> (r: Result<Cmd, StudioError>)
    ensures
        match r {
            Ok(c) => is_file && c@ == (CmdView {
                program: "tar"@,
                args: seq!["-xzf"@, bundle@, "-C"@, dest@],
                timeout_ms: Some(120000),
            }),
            Err(e) => !is_file && e@ == (Failure::External {
                cmd: "rice import"@,
                detail: "no such bundle: "@ + bundle@,
            }),
        },
{
    if !is_file {
        let mut detail = owned("no such bundle: ");
        detail.append(bundle);
        return Err(external("rice import", detail.as_str()));
    }
    let args = vec![owned("-xzf"), owned(bundle), owned("-C"), owned(dest)];
    assert(texts(args@) == seq!["-xzf"@, bundle@, "-C"@, dest@]);
    Ok(Cmd::new("tar", args, Some(120000)))
}

/// Why a bundle of another layout is refused.
pub open spec fn wrong_format(format: u32) -> Failure {
    Failure::External {
        cmd: "rice import"@,
        detail: "bundle format "@ + int_text(format as int) + " — this Studio understands "@
            + int_text(FORMAT as int) + "; upgrade to import it"@,
    }
}

/// Takes a bundle whose layout is understood.
pub fn understood(b: Bundle) -> (r: Result<Bundle, StudioError>)
    ensures
        match r {
            Ok(x) => b.format == FORMAT && x == b,
            Err(e) => b.format != FORMAT && e@ == wrong_format(b.format),
        },
{
    if b.format == FORMAT {
        return Ok(b);
    }
    let mut detail = owned("bundle format ");
    append_u64(&mut detail, b.format as u64);
    detail.append(" — this Studio understands ");
    append_u64(&mut detail, FORMAT as u64);
    detail.append("; upgrade to import it");
    Err(external("rice import", detail.as_str()))
}

/// What unpacking gives: `found` is what the manifest's text parses to, where
/// there is one.
pub open spec fn unpacked(
    tar_ok: bool,
    stderr: Seq<char>,
    found: Option<Result<Node, Seq<char>>>,
) -> Result<BundleView, Failure> {
    if !tar_ok {
        Err(tar_failed("tar -xzf"@, stderr))
    } else {
        match found {
            None => Err(
                Failure::External {
                    cmd: "rice import"@,
                    detail: "no manifest.toml inside — this isn't a Studio rice bundle"@,
                },
            ),
            Some(found) => match manifest::read_bundle(found) {
                Err(hint) => Err(manifest::refusal(hint)),
                Ok(b) => if b.format == FORMAT {
                    Ok(b)
                } else {
                    Err(wrong_format(b.format))
                },
            },
        }
    }
}

/// The bundle that was unpacked: `tar` is what the archiver left, `manifest`
/// the text of the manifest in the tree.
pub fn unpack(tar: &CmdOutput, manifest: Option<&str>) -> (r: Result<Bundle, StudioError>)
    ensures
        ({
            let found = match manifest {
                Some(t) => Some(parsed(t@)),
                None => None,
            };
            match r {
                Ok(b) => unpacked(tar.succeeded(), tar.stderr@, found) == Ok::<BundleView, Failure>(
                    b@,
                ),
                Err(e) => unpacked(tar.succeeded(), tar.stderr@, found) == Err::<
                    BundleView,
                    Failure,
                >(e@),
            }
        }),
        r matches Ok(b) ==> forall|i: int|
            0 <= i < b.entries@.len() ==> is_safe_rel((#[trigger] b.entries@[i]).home_rel@),
{
    if !tar.ok() {
        let detail = trimmed_str(tar.stderr.as_str());
        return Err(external("tar -xzf", detail.as_str()));
    }
    match manifest {
        None => Err(
            external("rice import", "no manifest.toml inside — this isn't a Studio rice bundle"),
        ),
        Some(text) => match Bundle::parse(text) {
            Ok(b) => understood(b),
            Err(e) => Err(e),
        },
    }
}

// -------------------------------------------------------------------- importing

/// What an import would do.
#[derive(Debug, Clone, PartialEq, Eq, Default)]
pub struct ImportPlan {
    /// The files that would change.
    pub edits: Vec<FileEdit>,
    /// The files that already hold what the bundle has.
    pub unchanged: Vec<String>,
    /// The files left out, each with the reason.
    pub skipped: Vec<(String, String)>,
    pub themes_new: Vec<String>,
    /// The themes already on this machine, which are never overwritten.
    pub themes_existing: Vec<String>,
    /// Set where the bundle comes from another Omarchy version.
    pub omarchy_mismatch: Option<String>,
}

/// What the caller wants of a bundle.
#[derive(Debug, Clone, PartialEq, Eq, Default)]
pub struct ImportFilter {
    /// The modules to take; empty for all.
    pub only: Vec<String>,
    /// Take the machine-specific files too.
    pub with_machine: bool,
    /// Take the themes.
    pub themes: bool,
}

/// What a file holds in the unpacked bundle and on this machine.
#[derive(Debug, Clone, PartialEq, Eq)]
pub struct FileState {
    pub bundled: Option<String>,
    pub on_disk: Option<String>,
}

/// Whether a theme is in the unpacked bundle and whether one of its name is on
/// this machine.
#[derive(Debug, Clone, PartialEq, Eq)]
pub struct ThemeState {
    pub in_bundle: bool,
    pub here: bool,
}

/// What becomes of one file.
pub enum Fate {
    Edit(EditView),
    Unchanged,
    Skipped(Seq<char>),
}

/// Whether the filter takes a module.
pub open spec fn takes_module(only: Seq<Seq<char>>, module: Seq<char>) -> bool {
    only.len() == 0 || only.contains(module)
}

pub open spec fn fate(
    e: EntryView,
    bundled: Option<Seq<char>>,
    on_disk: Option<Seq<char>>,
    home: Seq<char>,
    only: Seq<Seq<char>>,
    with_machine: bool,
) -> Fate {
    if !takes_module(only, e.module) {
        Fate::Skipped("module "@ + e.module + " not selected"@)
    } else if e.machine && !with_machine {
        Fate::Skipped("describes the source machine's hardware"@)
    } else {
        match bundled {
            None => Fate::Skipped("listed in the manifest but not in the bundle"@),
            Some(new) => if on_disk == Some(new) {
                Fate::Unchanged
            } else {
                Fate::Edit(
                    EditView { file: join(home, e.home_rel), old: on_disk, new_content: new },
                )
            },
        }
    }
}

pub open spec fn fates(
    es: Seq<EntryView>,
    files: Seq<FileState>,
    home: Seq<char>,
    only: Seq<Seq<char>>,
    with_machine: bool,
) -> Seq<Fate> {
    Seq::new(
        es.len(),
        |i: int|
            fate(
                es[i],
                opt_text(files[i].bundled),
                opt_text(files[i].on_disk),
                home,
                only,
                with_machine,
            ),
    )
}

/// The edits among the fates.
pub open spec fn edits_of(fs: Seq<Fate>) -> Seq<EditView>
    decreases fs.len(),
{
    if fs.len() == 0 {
        Seq::empty()
    } else {
        match fs.last() {
            Fate::Edit(e) => edits_of(fs.drop_last()).push(e),
            _ => edits_of(fs.drop_last()),
        }
    }
}

/// The files that stay as they are.
pub open spec fn unchanged_of(es: Seq<EntryView>, fs: Seq<Fate>) -> Seq<Seq<char>>
    decreases fs.len(),
{
    if fs.len() == 0 {
        Seq::empty()
    } else {
        let front = unchanged_of(es, fs.drop_last());
        match fs.last() {
            Fate::Unchanged => front.push(es[fs.len() - 1].home_rel),
            _ => front,
        }
    }
}

/// The files left out, each with the reason.
pub open spec fn skipped_of(es: Seq<EntryView>, fs: Seq<Fate>) -> Seq<(Seq<char>, Seq<char>)>
    decreases fs.len(),
{
    if fs.len() == 0 {
        Seq::empty()
    } else {
        let front = skipped_of(es, fs.drop_last());
        match fs.last() {
            Fate::Skipped(why) => front.push((es[fs.len() - 1].home_rel, why)),
            _ => front,
        }
    }
}

/// The themes that the bundle has and that are, or are not, on this machine.
pub open spec fn themes_where(
    slugs: Seq<Seq<char>>,
    states: Seq<ThemeState>,
    here: bool,
) -> Seq<Seq<char>>
    decreases slugs.len(),
{
    if slugs.len() == 0 {
        Seq::empty()
    } else {
        let front = themes_where(slugs.drop_last(), states, here);
        let s = states[slugs.len() - 1];
        if is_safe_rel(slugs.last()) && s.in_bundle && s.here == here {
            front.push(slugs.last())
        } else {
            front
        }
    }
}

pub open spec fn mismatch(theirs: Seq<char>, ours: Seq<char>) -> Option<Seq<char>> {
    if theirs.len() > 0 && ours.len() > 0 && theirs != ours {
        Some("bundle came from Omarchy "@ + theirs + ", this machine runs "@ + ours)
    } else {
        None
    }
}

fn decided(
    e: &Entry,
    file: &FileState,
    home: &str,
    filter: &ImportFilter,
    plan: &mut ImportPlan,
)
    ensures
        ({
            let f = fate(
                e@,
                opt_text(file.bundled),
                opt_text(file.on_disk),
                home@,
                texts(filter.only@),
                filter.with_machine,
            );
            &&& edit_views(final(plan).edits@) == (match f {
                Fate::Edit(x) => edit_views(old(plan).edits@).push(x),
                _ => edit_views(old(plan).edits@),
            })
            &&& texts(final(plan).unchanged@) == (match f {
                Fate::Unchanged => texts(old(plan).unchanged@).push(e.home_rel@),
                _ => texts(old(plan).unchanged@),
            })
            &&& pair_texts(final(plan).skipped@) == (match f {
                Fate::Skipped(why) => pair_texts(old(plan).skipped@).push((e.home_rel@, why)),
                _ => pair_texts(old(plan).skipped@),
            })
        }),
        final(plan).themes_new == old(plan).themes_new,
        final(plan).themes_existing == old(plan).themes_existing,
        final(plan).omarchy_mismatch == old(plan).omarchy_mismatch,
{
    let ghost edits = edit_views(plan.edits@);
    let ghost unchanged = texts(plan.unchanged@);
    let ghost skipped = pair_texts(plan.skipped@);
    if filter.only.len() > 0 && !listed_in(&filter.only, e.module.as_str()) {
        let mut why = owned("module ");
        why.append(e.module.as_str());
        why.append(" not selected");
        plan.skipped.push((owned(e.home_rel.as_str()), why));
        assert(pair_texts(plan.skipped@) == skipped.push((e.home_rel@, why@)));
        return;
    }
    if e.machine && !filter.with_machine {
        let why = owned("describes the source machine's hardware");
        plan.skipped.push((owned(e.home_rel.as_str()), why));
        assert(pair_texts(plan.skipped@) == skipped.push((e.home_rel@, why@)));
        return;
    }
    match &file.bundled {
        None => {
            let why = owned("listed in the manifest but not in the bundle");
            plan.skipped.push((owned(e.home_rel.as_str()), why));
            assert(pair_texts(plan.skipped@) == skipped.push((e.home_rel@, why@)));
        },
        Some(new) => {
            let old_text: Option<&str> = match &file.on_disk {
                Some(t) => Some(t.as_str()),
                None => None,
            };
            if same_opt(old_text, Some(new.as_str())) {
                plan.unchanged.push(owned(e.home_rel.as_str()));
                assert(texts(plan.unchanged@) == unchanged.push(e.home_rel@));
            } else {
                let dest = joined_path(home, e.home_rel.as_str());
                let edit = FileEdit::new(dest, old_text, owned(new.as_str()));
                plan.edits.push(edit);
                assert(edit_views(plan.edits@) == edits.push(edit@));
            }
        },
    }
}

fn listed_in(items: &Vec<String>, x: &str) -> (r: bool)
    ensures
        r == texts(items@).contains(x@),
{
    let mut i: usize = 0;
    while i < items.len()
        invariant
            i <= items@.len(),
            forall|k: int| 0 <= k < i ==> texts(items@)[k] != x@,
        decreases items.len() - i,
    {
        assert(texts(items@)[i as int] == items@[i as int]@);
        if same_str(items[i].as_str(), x) {
            return true;
        }
        i = i + 1;
    }
    false
}

/// Decides what to import. `files` and `themes` say how the entries and themes
/// of the bundle stand, one for one; `ours` is this machine's Omarchy version.
pub fn plan_import(
    b: &Bundle,
    files: &Vec<FileState>,
    themes: &Vec<ThemeState>,
    ours: &str,
    home: &str,
    filter: &ImportFilter,
) -> (r: ImportPlan)
    requires
        files@.len() == b.entries@.len(),
        themes@.len() == b.themes@.len(),
    ensures
        ({
            let fs = fates(b@.entries, files@, home@, texts(filter.only@), filter.with_machine);
            &&& edit_views(r.edits@) == edits_of(fs)
            &&& texts(r.unchanged@) == unchanged_of(b@.entries, fs)
            &&& pair_texts(r.skipped@) == skipped_of(b@.entries, fs)
        }),
        texts(r.themes_new@) == (if filter.themes {
            themes_where(b@.themes, themes@, false)
        } else {
            Seq::empty()
        }),
        texts(r.themes_existing@) == (if filter.themes {
            themes_where(b@.themes, themes@, true)
        } else {
            Seq::empty()
        }),
        opt_text(r.omarchy_mismatch) == mismatch(b.omarchy_version@, ours@),
{
    let theirs = b.omarchy_version.as_str();
    let differs = chars(theirs).len() > 0 && chars(ours).len() > 0 && !same_str(theirs, ours);
    let omarchy_mismatch = if differs {
        let mut m = owned("bundle came from Omarchy ");
        m.append(theirs);
        m.append(", this machine runs ");
        m.append(ours);
        Some(m)
    } else {
        None
    };
    let mut plan = ImportPlan {
        edits: Vec::new(),
        unchanged: Vec::new(),
        skipped: Vec::new(),
        themes_new: Vec::new(),
        themes_existing: Vec::new(),
        omarchy_mismatch,
    };
    let ghost es = b@.entries;
    let ghost fs = fates(es, files@, home@, texts(filter.only@), filter.with_machine);
    proof {
        assert(fs.take(0).len() == 0);
        assert(edit_views(plan.edits@) == Seq::<EditView>::empty());
        assert(texts(plan.unchanged@) == Seq::<Seq<char>>::empty());
        assert(pair_texts(plan.skipped@) == Seq::<(Seq<char>, Seq<char>)>::empty());
        assert(texts(plan.themes_new@) == Seq::<Seq<char>>::empty());
        assert(texts(plan.themes_existing@) == Seq::<Seq<char>>::empty());
    }
    let mut i: usize = 0;
    while i < b.entries.len()
        invariant
            i <= b.entries@.len(),
            files@.len() == b.entries@.len(),
            es == entry_views(b.entries@),
            fs == fates(es, files@, home@, texts(filter.only@), filter.with_machine),
            edit_views(plan.edits@) == edits_of(fs.take(i as int)),
            texts(plan.unchanged@) == unchanged_of(es, fs.take(i as int)),
            pair_texts(plan.skipped@) == skipped_of(es, fs.take(i as int)),
            texts(plan.themes_new@) == Seq::<Seq<char>>::empty(),
            texts(plan.themes_existing@) == Seq::<Seq<char>>::empty(),
            opt_text(plan.omarchy_mismatch) == mismatch(b.omarchy_version@, ours@),
        decreases b.entries.len() - i,
    {
        assert(fs.take(i + 1).drop_last() == fs.take(i as int));
        assert(fs.take(i + 1).last() == fs[i as int]);
        assert(es[i as int] == b.entries@[i as int]@);
        decided(&b.entries[i], &files[i], home, filter, &mut plan);
        i = i + 1;
    }
    assert(fs.take(fs.len() as int) == fs);
    if filter.themes {
        let ghost slugs = texts(b.themes@);
        let mut k: usize = 0;
        assert(slugs.take(0).len() == 0);
        while k < b.themes.len()
            invariant
                k <= b.themes@.len(),
                themes@.len() == b.themes@.len(),
                slugs == texts(b.themes@),
                edit_views(plan.edits@) == edits_of(fs),
                texts(plan.unchanged@) == unchanged_of(es, fs),
                pair_texts(plan.skipped@) == skipped_of(es, fs),
                texts(plan.themes_new@) == themes_where(slugs.take(k as int), themes@, false),
                texts(plan.themes_existing@) == themes_where(slugs.take(k as int), themes@, true),
                opt_text(plan.omarchy_mismatch) == mismatch(b.omarchy_version@, ours@),
            decreases b.themes.len() - k,
        {
            assert(slugs.take(k + 1).drop_last() == slugs.take(k as int));
            assert(slugs.take(k + 1).last() == b.themes@[k as int]@);
            let slug = b.themes[k].as_str();
            let ghost new = texts(plan.themes_new@);
            let ghost kept = texts(plan.themes_existing@);
            if safe_rel(slug) && themes[k].in_bundle {
                if themes[k].here {
                    plan.themes_existing.push(owned(slug));
                    assert(texts(plan.themes_existing@) == kept.push(slug@));
                } else {
                    plan.themes_new.push(owned(slug));
                    assert(texts(plan.themes_new@) == new.push(slug@));
                }
            }
            k = k + 1;
        }
        assert(slugs.take(slugs.len() as int) == slugs);
    }
    plan
}

/// An `s` behind a count that is not one.
pub open spec fn plural(n: int) -> Seq<char> {
    if n == 1 {
        ""@
    } else {
        "s"@
    }
}

fn append_plural(out: &mut String, n: usize)
    ensures
        final(out)@ == old(out)@ + plural(n as int),
{
    if n == 1 {
        out.append("");
    } else {
        out.append("s");
    }
}

pub open spec fn import_summary(files: int, themes: int) -> Seq<char> {
    "import rice bundle: "@ + int_text(files) + " file"@ + plural(files) + ", "@ + int_text(themes)
        + " theme"@ + plural(themes)
}

/// The apply plan that replays a planned import.
pub fn import(plan: &ImportPlan) -> (r: ApplyPlan)
    ensures
        r@ == (PlanView {
            summary: import_summary(plan.edits@.len() as int, plan.themes_new@.len() as int),
            module: "rice"@,
            edits: edit_views(plan.edits@),
            reload: seq![
                ReloadStep::HyprReload,
                ReloadStep::Restart(Component::Waybar),
                ReloadStep::MakoReload,
            ],
            verify: seq![Verification::HyprctlConfigErrorsEmpty],
            risk: Risk::Risky,
            trailers: seq![("Rice-Files"@, int_text(plan.edits@.len() as int))],
        }),
{
    let files = plan.edits.len();
    let count = plan.themes_new.len();
    let mut summary = owned("import rice bundle: ");
    append_u64(&mut summary, files as u64);
    summary.append(" file");
    append_plural(&mut summary, files);
    summary.append(", ");
    append_u64(&mut summary, count as u64);
    summary.append(" theme");
    append_plural(&mut summary, count);
    let ghost want = edit_views(plan.edits@);
    let mut edits: Vec<FileEdit> = Vec::new();
    let mut i: usize = 0;
    assert(edit_views(edits@) == want.take(0));
    while i < plan.edits.len()
        invariant
            i <= plan.edits@.len(),
            want == edit_views(plan.edits@),
            edit_views(edits@) == want.take(i as int),
        decreases plan.edits.len() - i,
    {
        let ghost was = edit_views(edits@);
        let e = plan.edits[i].copied();
        edits.push(e);
        assert(edit_views(edits@) == was.push(e@));
        assert(want.take(i + 1) == want.take(i as int).push(e@));
        i = i + 1;
    }
    assert(want.take(want.len() as int) == want);
    let reload = vec![
        ReloadStep::HyprReload,
        ReloadStep::Restart(Component::Waybar),
        ReloadStep::MakoReload,
    ];
    let verify = vec![Verification::HyprctlConfigErrorsEmpty];
    let trailers = vec![(owned("Rice-Files"), u64_text(files as u64))];
    let apply = ApplyPlan {
        summary,
        module: owned("rice"),
        edits,
        reload,
        verify,
        risk: Risk::Risky,
        trailers,
    };
    proof {
        assert(apply@.trailers =~= seq![("Rice-Files"@, int_text(plan.edits@.len() as int))]);
        assert(apply@.reload =~= seq![
            ReloadStep::HyprReload,
            ReloadStep::Restart(Component::Waybar),
            ReloadStep::MakoReload,
        ]);
        assert(apply@.verify =~= seq![Verification::HyprctlConfigErrorsEmpty]);
        assert(apply@.summary =~= import_summary(files as int, count as int));
    }
    apply
}

/// The theme directories to copy after a planned import was handed to the apply
/// pipeline, by what the pipeline said. A dry run copies none, and where the
/// pipeline failed its error is passed on; otherwise the new themes are copied,
/// and no others.
pub fn import_copies(
    plan: &ImportPlan,
    paths: &OmarchyPaths,
    root: &str,
    dry_run: bool,
    applied: Result<(), StudioError>,
) -> (r: Result<Vec<(String, String)>, StudioError>)
    ensures
        match (applied, r) {
            (Err(e), Err(x)) => x == e,
            (Ok(_), Ok(copies)) => pair_texts(copies@) == (if dry_run {
                Seq::<(Seq<char>, Seq<char>)>::empty()
            } else {
                theme_copies(
                    texts(plan.themes_new@),
                    join(root@, "themes"@),
                    join(paths.config@, "themes"@),
                )
            }),
            _ => false,
        },
{
    match applied {
        Err(e) => Err(e),
        Ok(_) => {
            if dry_run {
                let none: Vec<(String, String)> = Vec::new();
                assert(pair_texts(none@) == Seq::<(Seq<char>, Seq<char>)>::empty());
                return Ok(none);
            }
            let from = joined_path(root, "themes");
            let to = joined_path(paths.config.as_str(), "themes");
            Ok(theme_moves(&plan.themes_new, from.as_str(), to.as_str()))
        },
    }
}

} // verus!
