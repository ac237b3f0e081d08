//! Which files a module edits: the user's own choice, what a running process
//! was started with, or the place that Omarchy's convention gives.

pub mod laws;

use vstd::prelude::*;

use crate::configfs::jsonc::{JsoncDoc, doc_of};
use crate::error::{Failure, StudioError, external};
use crate::number::{parse_u32, read_u32};
use crate::order::pair_texts;
use crate::paths::{OmarchyPaths, beside, expand_tilde, expanded};
use crate::split::lines;
use crate::text::{
    chars, front, is_text, lemma_pos_from, opt_text, owned, pos, position, rest, same_str, starts,
    starts_with, string, texts, trim, trimmed,
};
use crate::toml::{
    Node, Shape, Step, Toml, by_keys, child, cut, few_quotes, has_no_remark, headless_in,
    headless_tables, hide_header, is_print_of, is_remark, keys, lemma_cut, lemma_put,
    lemma_put_same, lemma_row_at, lemma_text_is_print, node, node_at, parsed, put, put_text,
    read_text, remarks_in, remove, row, row_key, row_keys, rows, shape, table_under, text_at,
    text_under, under, value_at,
};

verus! {

/// Where a path came from, the strongest source first.
#[derive(Debug, Clone, Copy, PartialEq, Eq, Structural)]
pub enum Source {
    /// An entry of the user's in Studio's config.
    Override,
    /// The arguments of a running process.
    Detected,
    Default,
}

impl Source {
    pub open spec fn name(self) -> Seq<char> {
        match self {
            Source::Override => "override"@,
            Source::Detected => "detected"@,
            Source::Default => "default"@,
        }
    }

    pub fn label(self) -> (r: &'static str)
        ensures
            r@ == self.name(),
    {
        match self {
            Source::Override => "override",
            Source::Detected => "detected",
            Source::Default => "default",
        }
    }
}

/// The file that a module edits, and why that one.
#[derive(Debug, Clone, PartialEq, Eq)]
pub struct Resolved {
    pub path: String,
    pub source: Source,
}

/// The strongest of the three.
pub open spec fn resolution(
    over: Option<Seq<char>>,
    detected: Option<Seq<char>>,
    default_path: Seq<char>,
) -> (Seq<char>, Source) {
    match (over, detected) {
        (Some(p), _) => (p, Source::Override),
        (None, Some(p)) => (p, Source::Detected),
        (None, None) => (default_path, Source::Default),
    }
}

pub fn resolve(over: Option<String>, detected: Option<String>, default_path: String) -> (r: Resolved)
    ensures
        (r.path@, r.source) == resolution(opt_text(over), opt_text(detected), default_path@),
{
    if let Some(path) = over {
        Resolved { path, source: Source::Override }
    } else if let Some(path) = detected {
        Resolved { path, source: Source::Detected }
    } else {
        Resolved { path: default_path, source: Source::Default }
    }
}

// -------------------------------------------------------------------- registry

/// A file that can be resolved.
#[derive(Debug, Clone, PartialEq, Eq)]
pub struct Spec {
    /// `module.file`.
    pub key: &'static str,
    pub label: &'static str,
    /// Whether a running process tells where it is.
    pub detectable: bool,
}

/// The files that can be elsewhere.
pub fn known() -> (r: Vec<Spec>)
    ensures
        r@.len() == 2,
        r@[0].key@ == "waybar.config"@ && r@[0].label@ == "Waybar config"@ && r@[0].detectable,
        r@[1].key@ == "waybar.style"@ && r@[1].label@ == "Waybar style"@ && r@[1].detectable,
{
    vec![
        Spec { key: "waybar.config", label: "Waybar config", detectable: true },
        Spec { key: "waybar.style", label: "Waybar style", detectable: true },
    ]
}

/// Where Omarchy's convention keeps a file.
pub open spec fn convention(key: Seq<char>, config: Seq<char>) -> Option<Seq<char>> {
    if key == "waybar.config"@ {
        Some(beside(config, "waybar/config.jsonc"@))
    } else if key == "waybar.style"@ {
        Some(beside(config, "waybar/style.css"@))
    } else {
        None
    }
}

pub fn default_for(key: &str, paths: &OmarchyPaths) -> (r: Option<String>)
    ensures
        opt_text(r) == convention(key@, paths.config@),
{
    if same_str(key, "waybar.config") {
        Some(paths.beside_config("waybar/config.jsonc"))
    } else if same_str(key, "waybar.style") {
        Some(paths.beside_config("waybar/style.css"))
    } else {
        None
    }
}

/// A running Waybar and the files that it was started with.
#[derive(Debug, Clone, PartialEq, Eq)]
pub struct WaybarInstance {
    pub pid: u32,
    pub config: Option<String>,
    pub style: Option<String>,
}

/// The first config or style that a running Waybar names.
pub open spec fn first_named(instances: Seq<WaybarInstance>, style: bool) -> Option<Seq<char>>
    decreases instances.len(),
{
    if instances.len() == 0 {
        None
    } else {
        let w = instances[0];
        match opt_text(
            if style {
                w.style
            } else {
                w.config
            },
        ) {
            Some(p) => Some(p),
            None => first_named(instances.skip(1), style),
        }
    }
}

fn named(instances: &Vec<WaybarInstance>, style: bool) -> (r: Option<String>)
    ensures
        opt_text(r) == first_named(instances@, style),
{
    let mut i: usize = 0;
    assert(instances@.skip(0) == instances@);
    while i < instances.len()
        invariant
            i <= instances@.len(),
            first_named(instances@, style) == first_named(instances@.skip(i as int), style),
        decreases instances.len() - i,
    {
        assert(instances@.skip(i as int)[0] == instances@[i as int]);
        assert(instances@.skip(i as int).skip(1) == instances@.skip(i + 1));
        let w = &instances[i];
        if style {
            if let Some(p) = &w.style {
                return Some(owned(p.as_str()));
            }
        } else {
            if let Some(p) = &w.config {
                return Some(owned(p.as_str()));
            }
        }
        i = i + 1;
    }
    None
}

/// What running processes say of a file.
pub open spec fn detection(key: Seq<char>, instances: Seq<WaybarInstance>) -> Option<Seq<char>> {
    if key == "waybar.config"@ {
        first_named(instances, false)
    } else if key == "waybar.style"@ {
        first_named(instances, true)
    } else {
        None
    }
}

pub fn detect_key(key: &str, instances: &Vec<WaybarInstance>) -> (r: Option<String>)
    ensures
        opt_text(r) == detection(key@, instances@),
{
    if same_str(key, "waybar.config") {
        named(instances, false)
    } else if same_str(key, "waybar.style") {
        named(instances, true)
    } else {
        None
    }
}

/// How a known file resolves.
pub open spec fn resolves(
    key: Seq<char>,
    paths: OmarchyPaths,
    table: Node,
    home: Seq<char>,
    instances: Seq<WaybarInstance>,
) -> (Seq<char>, Source) {
    resolution(
        override_path(table, key, home),
        detection(key, instances),
        convention(key, paths.config@)->0,
    )
}

/// Every known file with where it is.
pub fn resolve_all(
    paths: &OmarchyPaths,
    overrides: &Overrides,
    home: &str,
    instances: &Vec<WaybarInstance>,
) -> (r: Vec<(Spec, Resolved)>)
    ensures
        r@.len() == 2,
        r@[0].0.key@ == "waybar.config"@,
        r@[1].0.key@ == "waybar.style"@,
        forall|i: int|
            0 <= i < 2 ==> ((#[trigger] r@[i]).1.path@, r@[i].1.source) == resolves(
                r@[i].0.key@,
                *paths,
                overrides@,
                home@,
                instances@,
            ),
{
    let specs = known();
    let mut out: Vec<(Spec, Resolved)> = Vec::new();
    let mut i: usize = 0;
    while i < specs.len()
        invariant
            i <= specs@.len(),
            specs@.len() == 2,
            specs@[0].key@ == "waybar.config"@,
            specs@[1].key@ == "waybar.style"@,
            specs@[0].detectable && specs@[1].detectable,
            out@.len() == i,
            forall|k: int|
                0 <= k < i ==> (#[trigger] out@[k]).0.key@ == specs@[k].key@ && (
                out@[k].1.path@,
                out@[k].1.source,
                ) == resolves(out@[k].0.key@, *paths, overrides@, home@, instances@),
        decreases specs.len() - i,
    {
        let s = &specs[i];
        if let Some(default_path) = default_for(s.key, paths) {
            let detected = if s.detectable {
                detect_key(s.key, instances)
            } else {
                None
            };
            let one = resolve(overrides.get(s.key, home), detected, default_path);
            out.push((Spec { key: s.key, label: s.label, detectable: s.detectable }, one));
        }
        i = i + 1;
    }
    out
}

pub fn resolve_waybar_config(
    default_path: String,
    overrides: &Overrides,
    home: &str,
    instances: &Vec<WaybarInstance>,
) -> (r: Resolved)
    ensures
        (r.path@, r.source) == resolution(
            override_path(overrides@, "waybar.config"@, home@),
            first_named(instances@, false),
            default_path@,
        ),
{
    resolve(overrides.get("waybar.config", home), named(instances, false), default_path)
}

pub fn resolve_waybar_style(
    default_path: String,
    overrides: &Overrides,
    home: &str,
    instances: &Vec<WaybarInstance>,
) -> (r: Resolved)
    ensures
        (r.path@, r.source) == resolution(
            override_path(overrides@, "waybar.style"@, home@),
            first_named(instances@, true),
            default_path@,
        ),
{
    resolve(overrides.get("waybar.style", home), named(instances, true), default_path)
}

// ------------------------------------------------------------------- overrides

/// A key's module and file: what stands in front of and behind its first dot.
pub open spec fn key_parts(key: Seq<char>) -> Option<(Seq<char>, Seq<char>)> {
    let p = pos(key, '.');
    if p < key.len() {
        Some((key.take(p), key.skip(p + 1)))
    } else {
        None
    }
}

/// Why a key without a dot is refused.
pub open spec fn flat_key(key: Seq<char>) -> Failure {
    Failure::External {
        cmd: "target"@,
        detail: "target key must be module.file, got `"@ + key + "`"@,
    }
}

pub fn split_key(key: &str) -> (r: Result<(String, String), StudioError>)
    ensures
        match r {
            Ok((m, f)) => key_parts(key@) == Some((m@, f@)),
            Err(e) => key_parts(key@) is None && e@ == flat_key(key@),
        },
{
    let s = chars(key);
    let p = position(s.as_slice(), '.');
    if p < s.len() {
        Ok((string(front(s.as_slice(), p)), string(rest(s.as_slice(), p + 1))))
    } else {
        let mut detail = owned("target key must be module.file, got `");
        detail.append(key);
        detail.append("`");
        Err(external("target", detail.as_str()))
    }
}

/// Why something that is no table is refused.
pub open spec fn no_table(name: Seq<char>) -> Failure {
    Failure::External {
        cmd: "target"@,
        detail: "`"@ + name + "` in config.toml is not a table — fix it by hand"@,
    }
}

pub fn bad_table(name: &str) -> (r: StudioError)
    ensures
        r@ == no_table(name@),
{
    let mut detail = owned("`");
    detail.append(name);
    detail.append("` in config.toml is not a table — fix it by hand");
    external("target", detail.as_str())
}

/// What stands where a config holds the override for a key.
pub open spec fn override_row(config: Node, key: Seq<char>) -> Option<Node> {
    match key_parts(key) {
        Some((m, f)) => match child(config, "targets"@) {
            Some(t) => match child(t, m) {
                Some(files) => child(files, f),
                None => None,
            },
            None => None,
        },
        None => None,
    }
}

/// The override that a config holds for a key, as it is written.
pub open spec fn override_text(config: Node, key: Seq<char>) -> Option<Seq<char>> {
    match key_parts(key) {
        Some((m, f)) => text_at(config, seq!["targets"@, m, f]),
        None => None,
    }
}

/// The override with its tilde expanded.
pub open spec fn override_path(config: Node, key: Seq<char>, home: Seq<char>) -> Option<Seq<char>> {
    match override_text(config, key) {
        Some(t) => Some(expand_tilde(t, home)),
        None => None,
    }
}

/// What stands under a key, or an empty table where nothing does.
pub open spec fn or_table(n: Node, key: Seq<char>) -> Node {
    match child(n, key) {
        Some(c) => c,
        None => Node::Table(Seq::empty()),
    }
}

/// The config with an override set.
pub open spec fn with_override(config: Node, key: Seq<char>, path: Seq<char>) -> Result<
    Node,
    Failure,
> {
    match key_parts(key) {
        None => Err(flat_key(key)),
        Some((m, f)) => {
            let targets = or_table(config, "targets"@);
            let module = or_table(targets, m);
            if !(targets is Table) {
                Err(no_table("targets"@))
            } else if !(module is Table) {
                Err(no_table(m))
            } else {
                let files = put(rows(module), f, Node::Text(path));
                let modules = put(rows(targets), m, Node::Table(files));
                Ok(Node::Table(put(rows(config), "targets"@, Node::Table(modules))))
            }
        },
    }
}

/// The modules without one file of one of them, and without the module where
/// that leaves it empty.
pub open spec fn modules_without(
    modules: Seq<(Seq<char>, Node)>,
    m: Seq<char>,
    f: Seq<char>,
) -> Seq<(Seq<char>, Node)> {
    match row(modules, m) {
        Some(Node::Table(files)) => if cut(files, f).len() == 0 {
            cut(put(modules, m, Node::Table(cut(files, f))), m)
        } else {
            put(modules, m, Node::Table(cut(files, f)))
        },
        _ => modules,
    }
}

/// The config with an override taken out, and whether there was one.
pub open spec fn without_override(config: Node, m: Seq<char>, f: Seq<char>) -> (Node, bool) {
    match child(config, "targets"@) {
        Some(Node::Table(modules)) => {
            let left = modules_without(modules, m, f);
            let had = match row(modules, m) {
                Some(Node::Table(files)) => row(files, f) is Some,
                _ => false,
            };
            let all = put(rows(config), "targets"@, Node::Table(left));
            (
                Node::Table(
                    if left.len() == 0 {
                        cut(all, "targets"@)
                    } else {
                        all
                    },
                ),
                had,
            )
        },
        _ => (config, false),
    }
}

/// The overrides among the files of a module.
pub open spec fn file_overrides(
    module: Seq<char>,
    files: Seq<(Seq<char>, Node)>,
    home: Seq<char>,
) -> Seq<(Seq<char>, Seq<char>)>
    decreases files.len(),
{
    if files.len() == 0 {
        Seq::empty()
    } else {
        let before = file_overrides(module, files.drop_last(), home);
        match files.last().1 {
            Node::Text(t) => before.push(
                (module + "."@ + files.last().0, expand_tilde(t, home)),
            ),
            _ => before,
        }
    }
}

/// The overrides of all modules.
pub open spec fn module_overrides(
    modules: Seq<(Seq<char>, Node)>,
    home: Seq<char>,
) -> Seq<(Seq<char>, Seq<char>)>
    decreases modules.len(),
{
    if modules.len() == 0 {
        Seq::empty()
    } else {
        let before = module_overrides(modules.drop_last(), home);
        match modules.last().1 {
            Node::Table(files) => before + file_overrides(modules.last().0, files, home),
            _ => before,
        }
    }
}

pub open spec fn all_overrides(config: Node, home: Seq<char>) -> Seq<(Seq<char>, Seq<char>)> {
    match child(config, "targets"@) {
        Some(Node::Table(modules)) => module_overrides(modules, home),
        _ => Seq::empty(),
    }
}

/// The user's choices, kept in the `[targets]` table of Studio's config.
pub struct Overrides {
    path: String,
    doc: Toml,
}

impl View for Overrides {
    type V = Node;

    closed spec fn view(&self) -> Node {
        self.doc@
    }
}

/// A config that cannot be read holds nothing.
pub open spec fn config_of(found: Option<Result<Node, Seq<char>>>) -> Node {
    match found {
        Some(Ok(n)) => n,
        _ => Node::Table(Seq::empty()),
    }
}

impl Overrides {
    pub open spec fn wf(&self) -> bool {
        self@ is Table
    }

    pub closed spec fn file(&self) -> Seq<char> {
        self.path@
    }

    /// The lines of the config with comments on them.
    pub closed spec fn remarks(&self) -> Set<Seq<char>> {
        remarks_in(self.doc.doc)
    }

    /// Whether the config has a `targets` table that prints no header of its own.
    pub closed spec fn is_headless(&self) -> bool {
        headless_tables(self.doc.doc).contains("targets"@)
    }

    /// Reads Studio's config; `text` is what the file holds, where it is there.
    pub fn load(config_toml: &str, text: Option<&str>) -> (r: Self)
        ensures
            r.wf(),
            r.file() == config_toml@,
            r@ == config_of(
                match text {
                    Some(t) => Some(parsed(t@)),
                    None => None,
                },
            ),
            match text {
                Some(t) if parsed(t@) is Ok => r.is_headless() == headless_in(t@).contains(
                    "targets"@,
                ) && forall|l: Seq<char>|
                    is_remark(l) && #[trigger] lines(t@).contains(l) ==> r.remarks().contains(l),
                _ => !r.is_headless(),
            },
    {
        let doc = match text {
            Some(t) => match Toml::parse(t) {
                Ok(doc) => doc,
                Err(_) => Toml::new(),
            },
            None => Toml::new(),
        };
        Overrides { path: owned(config_toml), doc }
    }

    pub fn path(&self) -> (r: &str)
        ensures
            r@ == self.file(),
    {
        self.path.as_str()
    }

    /// The path set for a key.
    pub fn get(&self, key: &str, home: &str) -> (r: Option<String>)
        ensures
            opt_text(r) == override_path(self@, key@, home@),
    {
        let s = chars(key);
        let p = position(s.as_slice(), '.');
        if p == s.len() {
            return None;
        }
        let m = string(front(s.as_slice(), p));
        let f = string(rest(s.as_slice(), p + 1));
        let ghost path = by_keys(seq!["targets"@, m@, f@]);
        proof {
            reveal_with_fuel(node_at, 4);
            assert(path.skip(1) == seq![Step::Key(m@), Step::Key(f@)]);
            assert(path.skip(1).skip(1) == seq![Step::Key(f@)]);
            assert(path.skip(1).skip(1).skip(1) == Seq::<Step>::empty());
        }
        match under(self.doc.top(), "targets") {
            Some(t) => match under(t, m.as_str()) {
                Some(files) => match read_text(files, f.as_str()) {
                    Some(raw) => Some(expanded(raw.as_str(), home)),
                    None => None,
                },
                None => None,
            },
            None => None,
        }
    }

    /// Sets the path for a key. The path is taken as it is; one with hundreds of
    /// quotes in a row cannot be written. A `targets` table that is made for it has
    /// no header of its own, only the module's table has; and where it is made, or
    /// had no header, the lines with comments stay, but for the row's own.
    pub fn set(&mut self, key: &str, path: &str) -> (r: Result<(), StudioError>)
        requires
            old(self).wf(),
            few_quotes(path@),
        ensures
            final(self).wf(),
            final(self).file() == old(self).file(),
            match r {
                Ok(_) => with_override(old(self)@, key@, path@) == Ok::<Node, Failure>(
                    final(self)@,
                ),
                Err(e) => with_override(old(self)@, key@, path@) == Err::<Node, Failure>(e@)
                    && final(self)@ == old(self)@,
            },
            r is Ok && (child(old(self)@, "targets"@) is None || old(self).is_headless()) ==> {
                let was = override_row(old(self)@, key@);
                &&& final(self).is_headless()
                &&& has_no_remark(was) ==> forall|l: Seq<char>|
                    #[trigger] old(self).remarks().contains(l) && (was is Some ==> row_key(l)
                        != Some((key_parts(key@)->0).1)) ==> final(self).remarks().contains(l)
            },
    {
        let (module, file) = match split_key(key) {
            Ok(parts) => parts,
            Err(e) => {
                return Err(e);
            },
        };
        let ghost config = self@;
        let ghost had = child(config, "targets"@);
        let top = self.doc.top_mut();
        let targets = table_under(top, "targets");
        match shape(targets) {
            Shape::Table => {},
            _ => {
                proof {
                    lemma_put_same(rows(config), "targets"@);
                }
                return Err(bad_table("targets"));
            },
        }
        hide_header(targets);
        let files = table_under(targets, module.as_str());
        match shape(files) {
            Shape::Table => {},
            _ => {
                proof {
                    assert(had is Some);
                    lemma_put_same(rows(config), "targets"@);
                    lemma_put_same(rows(had->0), module@);
                }
                return Err(bad_table(module.as_str()));
            },
        }
        put_text(files, file.as_str(), path);
        Ok(())
    }
}

impl Overrides {
    /// Takes a key's path out, with the tables that are left empty by it.
    /// Returns whether there was one.
    pub fn reset(&mut self, key: &str) -> (r: Result<bool, StudioError>)
        requires
            old(self).wf(),
        ensures
            final(self).wf(),
            final(self).file() == old(self).file(),
            match (key_parts(key@), r) {
                (Some((m, f)), Ok(had)) => without_override(old(self)@, m, f) == (
                    final(self)@,
                    had,
                ),
                (None, Err(e)) => e@ == flat_key(key@) && final(self)@ == old(self)@,
                _ => false,
            },
    {
        let (module, file) = match split_key(key) {
            Ok(parts) => parts,
            Err(e) => {
                return Err(e);
            },
        };
        let ghost config = self@;
        let is_table = match under(self.doc.top(), "targets") {
            Some(t) => match shape(t) {
                Shape::Table => true,
                _ => false,
            },
            None => false,
        };
        if !is_table {
            return Ok(false);
        }
        let ghost modules = rows(child(config, "targets"@)->0);
        let top = self.doc.top_mut();
        let targets = table_under(top, "targets");
        let had = take_file(targets, module.as_str(), file.as_str());
        let empty = keys(targets).len() == 0;
        proof {
            lemma_row_keys(node(*targets));
        }
        let ghost left = node(*targets);
        if empty {
            let top = self.doc.top_mut();
            let _ = remove(top, "targets");
        }
        Ok(had)
    }

    /// Every path that is set, by key.
    pub fn entries(&self, home: &str) -> (r: Vec<(String, String)>)
        ensures
            pair_texts(r@) == all_overrides(self@, home@),
    {
        let mut out: Vec<(String, String)> = Vec::new();
        assert(pair_texts(out@) == Seq::<(Seq<char>, Seq<char>)>::empty());
        if let Some(t) = under(self.doc.top(), "targets") {
            if let Shape::Table = shape(t) {
                let ghost modules = rows(node(*t));
                let names = keys(t);
                let mut i: usize = 0;
                assert(modules.take(0).len() == 0);
                assert(texts(names@).len() == names@.len());
                while i < names.len()
                    invariant
                        i <= names@.len(),
                        modules == rows(node(*t)),
                        texts(names@) == row_keys(node(*t)),
                        texts(names@).no_duplicates(),
                        names@.len() == modules.len(),
                        pair_texts(out@) == module_overrides(modules.take(i as int), home@),
                    decreases names.len() - i,
                {
                    proof {
                        lemma_key_at(node(*t), i as int);
                        assert(texts(names@)[i as int] == names@[i as int]@);
                        assert(modules.take(i + 1).drop_last() == modules.take(i as int));
                        assert(modules.take(i + 1).last() == modules[i as int]);
                    }
                    if let Some(m) = under(t, names[i].as_str()) {
                        if let Shape::Table = shape(m) {
                            append_files(&mut out, names[i].as_str(), m, home);
                        }
                    }
                    i = i + 1;
                }
                assert(modules.take(modules.len() as int) == modules);
            }
        }
        out
    }

    /// The text to keep. Read again, it has the same values, and so the same path
    /// for every key. It has the lines with comments, and no header for a `targets`
    /// table that has none.
    pub fn save(&self) -> (r: String)
        requires
            self.wf(),
        ensures
            r@ == self.text(),
            parsed(r@) is Ok,
            forall|key: Seq<char>| #[trigger]
                override_text(parsed(r@)->Ok_0, key) == override_text(self@, key),
            is_print_of(r@, self@),
            forall|l: Seq<char>| #[trigger] self.remarks().contains(l) ==> lines(r@).contains(l),
            self.is_headless() ==> forall|path: Seq<Step>| #[trigger]
                value_at(self@, seq![Step::Key("targets"@)] + path) is Some ==> headless_in(
                    r@,
                ).contains("targets"@),
            forall|path: Seq<Step>| #[trigger]
                value_at(parsed(r@)->Ok_0, path) == value_at(self@, path),
    {
        proof {
            lemma_text_is_print(self.doc);
        }
        self.doc.print()
    }

    pub closed spec fn text(&self) -> Seq<char> {
        self.doc.text()
    }
}

proof fn lemma_row_keys(n: Node)
    ensures
        row_keys(n).len() == rows(n).len(),
{
}

/// A key that occurs once leads to its row.
proof fn lemma_key_at(n: Node, i: int)
    requires
        row_keys(n).no_duplicates(),
        0 <= i < rows(n).len(),
    ensures
        child(n, rows(n)[i].0) == Some(rows(n)[i].1),
        row_keys(n)[i] == rows(n)[i].0,
{
    let r = rows(n);
    assert forall|k: int| 0 <= k < i implies (#[trigger] r[k]).0 != r[i].0 by {
        assert(row_keys(n)[k] == r[k].0);
        assert(row_keys(n)[i] == r[i].0);
    }
    lemma_row_at(r, i);
}

/// Takes a file out of a module of a table, and the module where that leaves
/// it empty. Returns whether the file was there.
fn take_file(targets: &mut toml_edit::Item, module: &str, file: &str) -> (r: bool)
    requires
        node(*old(targets)) is Table,
    ensures
        node(*final(targets)) == Node::Table(
            modules_without(rows(node(*old(targets))), module@, file@),
        ),
        r == (match row(rows(node(*old(targets))), module@) {
            Some(Node::Table(files)) => row(files, file@) is Some,
            _ => false,
        }),
{
    let is_table = match under(targets, module) {
        Some(m) => match shape(m) {
            Shape::Table => true,
            _ => false,
        },
        None => false,
    };
    if !is_table {
        return false;
    }
    let files = table_under(targets, module);
    let had = remove(files, file);
    let empty = keys(files).len() == 0;
    proof {
        lemma_row_keys(node(*files));
    }
    if empty {
        let _ = remove(targets, module);
    }
    had
}

fn append_files(out: &mut Vec<(String, String)>, module: &str, m: &toml_edit::Item, home: &str)
    requires
        node(*m) is Table,
    ensures
        pair_texts(final(out)@) == pair_texts(old(out)@) + file_overrides(
            module@,
            rows(node(*m)),
            home@,
        ),
{
    let ghost files = rows(node(*m));
    let ghost head = pair_texts(out@);
    let names = keys(m);
    let mut i: usize = 0;
    assert(files.take(0).len() == 0);
    assert(texts(names@).len() == names@.len());
    assert(pair_texts(out@) == head + file_overrides(module@, files.take(0), home@));
    while i < names.len()
        invariant
            i <= names@.len(),
            files == rows(node(*m)),
            texts(names@) == row_keys(node(*m)),
            texts(names@).no_duplicates(),
            names@.len() == files.len(),
            pair_texts(out@) == head + file_overrides(module@, files.take(i as int), home@),
        decreases names.len() - i,
    {
        proof {
            lemma_key_at(node(*m), i as int);
            assert(texts(names@)[i as int] == names@[i as int]@);
            assert(files.take(i + 1).drop_last() == files.take(i as int));
            assert(files.take(i + 1).last() == files[i as int]);
        }
        let ghost was = pair_texts(out@);
        if let Some(raw) = read_text(m, names[i].as_str()) {
            let mut key = owned(module);
            key.append(".");
            key.append(names[i].as_str());
            let path = expanded(raw.as_str(), home);
            out.push((key, path));
            proof {
                assert(pair_texts(out@) == was.push((key@, path@)));
                assert(key@ == module@ + "."@ + files[i as int].0);
                assert(file_overrides(module@, files.take(i + 1), home@) == file_overrides(
                    module@,
                    files.take(i as int),
                    home@,
                ).push((key@, path@)));
                assert(pair_texts(out@) == head + file_overrides(
                    module@,
                    files.take(i + 1),
                    home@,
                ));
            }
        }
        i = i + 1;
    }
    assert(files.take(files.len() as int) == files);
}

/// Whether a file can be taken for a key: it is there, and parses where its
/// format is known. `on_disk` is what it holds, or why that cannot be read.
pub fn validate(key: &str, path: &str, on_disk: Option<Result<&str, &str>>) -> (r: Result<
    (),
    StudioError,
>)
    ensures
        match on_disk {
            None => r matches Err(e) && e@ == (Failure::External {
                cmd: "target set "@ + key@,
                detail: "no file at "@ + path@ + " — create it first, or check the path"@,
            }),
            Some(Ok(src)) => if key@ == "waybar.config"@ && doc_of(src@) is None {
                r matches Err(e) && e@ == (Failure::ParseFailed {
                    file: path@,
                    line: None,
                    hint: "not valid JSON with comments"@,
                })
            } else {
                r is Ok
            },
            Some(Err(why)) => if key@ == "waybar.config"@ {
                r matches Err(e) && e@ == (Failure::External {
                    cmd: "read "@ + path@,
                    detail: why@,
                })
            } else {
                r is Ok
            },
        },
{
    match on_disk {
        None => {
            let mut cmd = owned("target set ");
            cmd.append(key);
            let mut detail = owned("no file at ");
            detail.append(path);
            detail.append(" — create it first, or check the path");
            Err(external(cmd.as_str(), detail.as_str()))
        },
        Some(found) => {
            if !same_str(key, "waybar.config") {
                return Ok(());
            }
            match found {
                Ok(src) => match JsoncDoc::parse(src) {
                    Ok(_) => Ok(()),
                    Err(hint) => Err(
                        StudioError::ParseFailed { file: owned(path), line: None, hint },
                    ),
                },
                Err(why) => {
                    let mut cmd = owned("read ");
                    cmd.append(path);
                    Err(external(cmd.as_str(), why))
                },
            }
        },
    }
}

// ------------------------------------------------------------------- detection

/// The value of a flag at the front of some arguments, and how many further
/// arguments it takes.
pub open spec fn flag_value(
    args: Seq<Seq<char>>,
    short: Seq<char>,
    long: Seq<char>,
) -> Option<(Seq<char>, nat)> {
    let a = args[0];
    if starts_with(a, long) && a.len() > long.len() && a[long.len() as int] == '=' {
        Some((a.skip(long.len() as int + 1), 0))
    } else if a == long || a == short {
        if args.len() > 1 {
            Some((args[1], 1))
        } else {
            None
        }
    } else if starts_with(a, short) {
        let tail = a.skip(short.len() as int);
        let v = if tail.len() > 0 && tail[0] == '=' {
            tail.skip(1)
        } else {
            tail
        };
        if v.len() > 0 {
            Some((v, 0))
        } else {
            None
        }
    } else {
        None
    }
}

/// The config and style that arguments name; the last of each counts.
pub open spec fn cmdline(
    args: Seq<Seq<char>>,
    home: Seq<char>,
    found: (Option<Seq<char>>, Option<Seq<char>>),
) -> (Option<Seq<char>>, Option<Seq<char>>)
    decreases args.len(),
{
    if args.len() == 0 {
        found
    } else {
        match flag_value(args, "-c"@, "--config"@) {
            Some((v, n)) => cmdline(
                args.skip(1).skip(n as int),
                home,
                (Some(expand_tilde(v, home)), found.1),
            ),
            None => match flag_value(args, "-s"@, "--style"@) {
                Some((v, n)) => cmdline(
                    args.skip(1).skip(n as int),
                    home,
                    (found.0, Some(expand_tilde(v, home))),
                ),
                None => cmdline(args.skip(1), home, found),
            },
        }
    }
}

/// The value of a flag at a position, and the position of the last argument
/// that it takes.
pub fn flag_arg(args: &Vec<String>, i: usize, short: &str, long: &str) -> (r: Option<(String, usize)>)
    requires
        i < args@.len(),
    ensures
        match r {
            Some((v, j)) => i <= j < args@.len() && flag_value(
                texts(args@).skip(i as int),
                short@,
                long@,
            ) == Some((v@, (j - i) as nat)),
            None => flag_value(texts(args@).skip(i as int), short@, long@) is None,
        },
{
    let ghost here = texts(args@).skip(i as int);
    assert(here[0] == args@[i as int]@);
    assert(i + 1 < args@.len() ==> here[1] == args@[i + 1]@);
    let a = chars(args[i].as_str());
    let l = chars(long);
    let s = chars(short);
    if starts(a.as_slice(), long) && a.len() > l.len() && a[l.len()] == '=' {
        return Some((string(rest(a.as_slice(), l.len() + 1)), i));
    }
    if is_text(a.as_slice(), long) || is_text(a.as_slice(), short) {
        let n = args.len();
        if n - i > 1 {
            return Some((owned(args[i + 1].as_str()), i + 1));
        }
        return None;
    }
    if starts(a.as_slice(), short) {
        let tail = rest(a.as_slice(), s.len());
        let v = if tail.len() > 0 && tail[0] == '=' {
            rest(tail, 1)
        } else {
            tail
        };
        if v.len() > 0 {
            return Some((string(v), i));
        }
    }
    None
}

/// The config and style paths in a Waybar's arguments.
pub fn parse_waybar_cmdline(args: &Vec<String>, home: &str) -> (r: (Option<String>, Option<String>))
    ensures
        (opt_text(r.0), opt_text(r.1)) == cmdline(texts(args@), home@, (None, None)),
{
    let ghost all = texts(args@);
    let mut config: Option<String> = None;
    let mut style: Option<String> = None;
    let mut i: usize = 0;
    assert(all.skip(0) == all);
    while i < args.len()
        invariant
            i <= args@.len(),
            all == texts(args@),
            cmdline(all, home@, (None, None)) == cmdline(
                all.skip(i as int),
                home@,
                (opt_text(config), opt_text(style)),
            ),
        decreases args.len() - i,
    {
        let ghost here = all.skip(i as int);
        match flag_arg(args, i, "-c", "--config") {
            Some((v, j)) => {
                config = Some(expanded(v.as_str(), home));
                assert(here.skip(1).skip(j - i) == all.skip(j + 1));
                i = j + 1;
            },
            None => match flag_arg(args, i, "-s", "--style") {
                Some((v, j)) => {
                    style = Some(expanded(v.as_str(), home));
                    assert(here.skip(1).skip(j - i) == all.skip(j + 1));
                    i = j + 1;
                },
                None => {
                    assert(here.skip(1) == all.skip(i + 1));
                    i = i + 1;
                },
            },
        }
    }
    (config, style)
}

/// The running Waybar that an entry of `/proc` is, where it is one: `name` is
/// the entry's, `comm` and `args` are what the process is called and was
/// started with.
pub fn waybar_instance(name: &str, comm: &str, args: &Vec<String>, home: &str) -> (r: Option<
    WaybarInstance,
>)
    ensures
        match r {
            Some(w) => parse_u32(name@) == Some(w.pid) && trim(comm@) == "waybar"@ && (
                opt_text(w.config),
                opt_text(w.style),
            ) == cmdline(texts(args@), home@, (None, None)),
            None => parse_u32(name@) is None || trim(comm@) != "waybar"@,
        },
{
    let n = chars(name);
    let c = chars(comm);
    match read_u32(n.as_slice()) {
        Some(pid) => {
            if is_text(trimmed(c.as_slice()), "waybar") {
                let (config, style) = parse_waybar_cmdline(args, home);
                Some(WaybarInstance { pid, config, style })
            } else {
                None
            }
        },
        None => None,
    }
}

// ------------------------------------------------------------------------ laws

proof fn lemma_three(n: Node, a: Seq<char>, b: Seq<char>, c: Seq<char>)
    ensures
        text_at(n, seq![a, b, c]) == (match child(n, a) {
            Some(x) => match child(x, b) {
                Some(y) => text_under(y, c),
                None => None,
            },
            None => None,
        }),
{
    let path = by_keys(seq![a, b, c]);
    reveal_with_fuel(node_at, 4);
    assert(path.skip(1) == seq![Step::Key(b), Step::Key(c)]);
    assert(path.skip(1).skip(1) == seq![Step::Key(c)]);
    assert(path.skip(1).skip(1).skip(1) == Seq::<Step>::empty());
}

/// The parts of a key tell it apart from every other key.
proof fn lemma_key_parts(a: Seq<char>, b: Seq<char>)
    requires
        key_parts(a) is Some,
        key_parts(a) == key_parts(b),
    ensures
        a == b,
{
    lemma_pos_from(a, '.', 0);
    lemma_pos_from(b, '.', 0);
    let (m, f) = key_parts(a)->0;
    assert(a == m + seq!['.'] + f);
    assert(b == m + seq!['.'] + f);
}

/// A path that was set is the one found for its key, and no other key's path
/// changes.
pub proof fn law_set_then_get(config: Node, key: Seq<char>, path: Seq<char>, other: Seq<char>)
    requires
        config is Table,
        with_override(config, key, path) is Ok,
    ensures
        override_text(with_override(config, key, path)->Ok_0, key) == Some(path),
        other != key ==> override_text(with_override(config, key, path)->Ok_0, other)
            == override_text(config, other),
{
    let after = with_override(config, key, path)->Ok_0;
    let (m, f) = key_parts(key)->0;
    let targets = or_table(config, "targets"@);
    let module = or_table(targets, m);
    let files = put(rows(module), f, Node::Text(path));
    let modules = put(rows(targets), m, Node::Table(files));
    lemma_put(rows(config), "targets"@, Node::Table(modules), "targets"@);
    lemma_put(rows(targets), m, Node::Table(files), m);
    lemma_put(rows(module), f, Node::Text(path), f);
    lemma_three(after, "targets"@, m, f);
    if other != key && key_parts(other) is Some {
        let (m2, f2) = key_parts(other)->0;
        lemma_three(after, "targets"@, m2, f2);
        lemma_three(config, "targets"@, m2, f2);
        if m2 == m {
            if f2 == f {
                lemma_key_parts(key, other);
            }
            lemma_put(rows(module), f, Node::Text(path), f2);
        } else {
            lemma_put(rows(targets), m, Node::Table(files), m2);
        }
    }
}

/// Whether a path leads to an override or through it.
pub open spec fn leads_to(at: Seq<Step>, m: Seq<char>, f: Seq<char>) -> bool {
    at.len() >= 3 && at[0] == Step::Key("targets"@) && at[1] == Step::Key(m) && at[2] == Step::Key(
        f,
    )
}

/// Configs whose files of the modules agree but for one have the same values but
/// for that one.
proof fn lemma_rest_agrees(
    before: Node,
    after: Node,
    m: Seq<char>,
    f: Seq<char>,
    at: Seq<Step>,
)
    requires
        before is Table,
        after is Table,
        !leads_to(at, m, f),
        or_table(before, "targets"@) is Table,
        or_table(after, "targets"@) is Table,
        or_table(or_table(before, "targets"@), m) is Table,
        or_table(or_table(after, "targets"@), m) is Table,
        forall|k: Seq<char>|
            k != "targets"@ ==> #[trigger] child(after, k) == child(before, k),
        forall|k: Seq<char>|
            k != m ==> #[trigger] child(or_table(after, "targets"@), k) == child(
                or_table(before, "targets"@),
                k,
            ),
        forall|k: Seq<char>|
            k != f ==> #[trigger] child(or_table(or_table(after, "targets"@), m), k) == child(
                or_table(or_table(before, "targets"@), m),
                k,
            ),
    ensures
        value_at(after, at) == value_at(before, at),
{
    let t1 = or_table(before, "targets"@);
    let t2 = or_table(after, "targets"@);
    reveal_with_fuel(node_at, 4);
    if at.len() > 0 {
        let tail = at.skip(1);
        if let Step::Key(k) = at[0] {
            assert(k != "targets"@ ==> child(after, k) == child(before, k));
        }
        if at.len() > 1 {
            assert(tail[0] == at[1]);
            if let Step::Key(k) = at[1] {
                assert(k != m ==> child(t2, k) == child(t1, k));
            }
            let last = tail.skip(1);
            if at.len() > 2 {
                assert(last[0] == at[2]);
                if let Step::Key(k) = at[2] {
                    assert(k != f ==> child(or_table(t2, m), k) == child(or_table(t1, m), k));
                }
            }
        }
    }
}

/// Setting a path changes no other value of the config.
pub proof fn law_set_keeps_the_rest(
    config: Node,
    key: Seq<char>,
    path: Seq<char>,
    at: Seq<Step>,
)
    requires
        config is Table,
        with_override(config, key, path) is Ok,
        !leads_to(at, (key_parts(key)->0).0, (key_parts(key)->0).1),
    ensures
        value_at(with_override(config, key, path)->Ok_0, at) == value_at(config, at),
{
    let after = with_override(config, key, path)->Ok_0;
    let (m, f) = key_parts(key)->0;
    let targets = or_table(config, "targets"@);
    let module = or_table(targets, m);
    let files = put(rows(module), f, Node::Text(path));
    let modules = put(rows(targets), m, Node::Table(files));
    lemma_put(rows(config), "targets"@, Node::Table(modules), "targets"@);
    lemma_put(rows(targets), m, Node::Table(files), m);
    assert forall|k: Seq<char>| k != "targets"@ implies #[trigger] child(after, k) == child(
        config,
        k,
    ) by {
        lemma_put(rows(config), "targets"@, Node::Table(modules), k);
    }
    assert forall|k: Seq<char>| k != m implies #[trigger] child(
        or_table(after, "targets"@),
        k,
    ) == child(targets, k) by {
        lemma_put(rows(targets), m, Node::Table(files), k);
    }
    assert forall|k: Seq<char>| k != f implies #[trigger] child(
        or_table(or_table(after, "targets"@), m),
        k,
    ) == child(module, k) by {
        lemma_put(rows(module), f, Node::Text(path), k);
    }
    lemma_rest_agrees(config, after, m, f, at);
}

/// Resetting a path changes no other value of the config.
pub proof fn law_reset_keeps_the_rest(config: Node, m: Seq<char>, f: Seq<char>, at: Seq<Step>)
    requires
        config is Table,
        or_table(config, "targets"@) is Table,
        or_table(or_table(config, "targets"@), m) is Table,
        !leads_to(at, m, f),
    ensures
        value_at(without_override(config, m, f).0, at) == value_at(config, at),
{
    let after = without_override(config, m, f).0;
    if let Some(Node::Table(modules)) = child(config, "targets"@) {
        let left = modules_without(modules, m, f);
        let all = put(rows(config), "targets"@, Node::Table(left));
        lemma_put(rows(config), "targets"@, Node::Table(left), "targets"@);
        lemma_cut(all, "targets"@, "targets"@);
        lemma_modules_without(modules, m, f, m);
        assert(or_table(after, "targets"@) == Node::Table(left)) by {
            if left.len() == 0 {
                assert(left == Seq::<(Seq<char>, Node)>::empty());
            }
        }
        assert forall|k: Seq<char>| k != "targets"@ implies #[trigger] child(after, k) == child(
            config,
            k,
        ) by {
            lemma_put(rows(config), "targets"@, Node::Table(left), k);
            lemma_cut(all, "targets"@, k);
        }
        assert forall|k: Seq<char>| k != m implies #[trigger] child(
            or_table(after, "targets"@),
            k,
        ) == child(or_table(config, "targets"@), k) by {
            lemma_modules_without(modules, m, f, k);
        }
        assert forall|k: Seq<char>| k != f implies #[trigger] child(
            or_table(or_table(after, "targets"@), m),
            k,
        ) == child(or_table(or_table(config, "targets"@), m), k) by {
            if let Some(Node::Table(files)) = row(modules, m) {
                lemma_cut(files, f, k);
                if cut(files, f).len() == 0 {
                    assert(row(cut(files, f), k) is None);
                }
            }
        }
        lemma_rest_agrees(config, after, m, f, at);
    }
}

/// After a reset its key has no path, every other key has the one it had, and
/// a second reset finds nothing.
pub proof fn law_reset_forgets(config: Node, key: Seq<char>, other: Seq<char>)
    requires
        config is Table,
        key_parts(key) is Some,
        child(config, "targets"@) matches Some(t) ==> t is Table && (child(
            t,
            (key_parts(key)->0).0,
        ) matches Some(m) ==> m is Table),
    ensures
        ({
            let (m, f) = key_parts(key)->0;
            let (after, had) = without_override(config, m, f);
            &&& override_text(after, key) is None
            &&& other != key ==> override_text(after, other) == override_text(config, other)
            &&& !without_override(after, m, f).1
        }),
{
    let (m, f) = key_parts(key)->0;
    let (after, had) = without_override(config, m, f);
    lemma_three(after, "targets"@, m, f);
    match child(config, "targets"@) {
        Some(Node::Table(modules)) => {
            let left = modules_without(modules, m, f);
            let all = put(rows(config), "targets"@, Node::Table(left));
            lemma_put(rows(config), "targets"@, Node::Table(left), "targets"@);
            lemma_cut(all, "targets"@, "targets"@);
            lemma_modules_without(modules, m, f, m);
            if key_parts(other) is Some {
                let (m2, f2) = key_parts(other)->0;
                lemma_three(after, "targets"@, m2, f2);
                lemma_three(config, "targets"@, m2, f2);
                lemma_modules_without(modules, m, f, m2);
                match row(modules, m) {
                    Some(Node::Table(files)) => {
                        lemma_cut(files, f, f2);
                    },
                    _ => {},
                }
                if m2 == m && f2 == f {
                    lemma_key_parts(key, other);
                }
                if left.len() == 0 {
                    assert(row(left, m2) is None);
                }
            }
        },
        _ => {
            if key_parts(other) is Some {
                let (m2, f2) = key_parts(other)->0;
                lemma_three(after, "targets"@, m2, f2);
            }
        },
    }
}

proof fn lemma_modules_without(
    modules: Seq<(Seq<char>, Node)>,
    m: Seq<char>,
    f: Seq<char>,
    other: Seq<char>,
)
    ensures
        other != m ==> row(modules_without(modules, m, f), other) == row(modules, other),
        match row(modules, m) {
            Some(Node::Table(files)) => row(modules_without(modules, m, f), m) == (if cut(
                files,
                f,
            ).len() == 0 {
                None
            } else {
                Some(Node::Table(cut(files, f)))
            }),
            _ => true,
        },
        row(modules, m) matches Some(Node::Table(files)) ==> row(cut(files, f), f) is None,
{
    match row(modules, m) {
        Some(Node::Table(files)) => {
            let less = put(modules, m, Node::Table(cut(files, f)));
            lemma_put(modules, m, Node::Table(cut(files, f)), other);
            lemma_cut(less, m, other);
            lemma_cut(files, f, f);
        },
        _ => {},
    }
}

} // verus!
