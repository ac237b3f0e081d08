//! A bundle's manifest as a text: how it is written and how it is read.

use vstd::prelude::*;

use crate::error::{Failure, StudioError, parse_failed};
use crate::number::{append_bool, append_i64, append_u64, int_text};
use crate::rice::{Bundle, BundleView, Entry, EntryView, entry_views, is_safe_rel, safe_rel};
use crate::split::joined;
use crate::text::{owned, texts};
use crate::toml::{
    Node, PlainDoc, Scalar, Shape, Toml, bare_key, child, doc_node, doc_text, element, elements,
    lemma_row_at, lemma_row_none, line_text, lines_rows, lines_text, node, parsed, plain_doc,
    plain_lines, plain_text, quoted, read_text, rows, shape, tables_text, text_under, under,
};

verus! {

// -------------------------------------------------------------------- writing

pub open spec fn entry_lines(e: EntryView) -> Seq<(Seq<char>, Scalar)> {
    seq![
        ("path"@, Scalar::Text(e.home_rel)),
        ("module"@, Scalar::Text(e.module)),
        ("machine"@, Scalar::Flag(e.machine)),
    ]
}

pub open spec fn top_lines(b: BundleView) -> Seq<(Seq<char>, Scalar)> {
    seq![
        ("format"@, Scalar::Integer(b.format as int)),
        ("studio_version"@, Scalar::Text(b.studio_version)),
        ("omarchy_version"@, Scalar::Text(b.omarchy_version)),
        ("created"@, Scalar::Text(b.created)),
        ("themes"@, Scalar::Texts(b.themes)),
    ]
}

/// The document that a manifest is.
pub open spec fn manifest(b: BundleView) -> PlainDoc {
    PlainDoc {
        comment: "omarchy-studio rice bundle"@,
        top: top_lines(b),
        name: "files"@,
        tables: b.entries.map_values(|e: EntryView| entry_lines(e)),
    }
}

proof fn lemma_lines_push(lines: Seq<(Seq<char>, Scalar)>, key: Seq<char>, v: Scalar)
    ensures
        lines_text(lines.push((key, v))) == lines_text(lines) + line_text(key, v),
{
    assert(lines.push((key, v)).drop_last() == lines);
}

proof fn lemma_tables_push(
    name: Seq<char>,
    tables: Seq<Seq<(Seq<char>, Scalar)>>,
    t: Seq<(Seq<char>, Scalar)>,
)
    ensures
        tables_text(name, tables.push(t)) == tables_text(name, tables) + "\n[["@ + name + "]]\n"@
            + lines_text(t),
{
    assert(tables.push(t).drop_last() == tables);
}

proof fn lemma_top_lines_text(b: BundleView)
    ensures
        ({
            let t = top_lines(b);
            lines_text(t) == line_text(t[0].0, t[0].1) + line_text(t[1].0, t[1].1) + line_text(
                t[2].0,
                t[2].1,
            ) + line_text(t[3].0, t[3].1) + line_text(t[4].0, t[4].1)
        }),
{
    let t = top_lines(b);
    let l0: Seq<(Seq<char>, Scalar)> = Seq::empty();
    lemma_lines_push(l0, t[0].0, t[0].1);
    let l1 = l0.push(t[0]);
    lemma_lines_push(l1, t[1].0, t[1].1);
    let l2 = l1.push(t[1]);
    lemma_lines_push(l2, t[2].0, t[2].1);
    let l3 = l2.push(t[2]);
    lemma_lines_push(l3, t[3].0, t[3].1);
    let l4 = l3.push(t[3]);
    lemma_lines_push(l4, t[4].0, t[4].1);
    assert(l4.push(t[4]) == t);
    assert(lines_text(l1) == line_text(t[0].0, t[0].1));
}

proof fn lemma_entry_lines_text(e: EntryView)
    ensures
        ({
            let t = entry_lines(e);
            lines_text(t) == line_text(t[0].0, t[0].1) + line_text(t[1].0, t[1].1) + line_text(
                t[2].0,
                t[2].1,
            )
        }),
{
    let t = entry_lines(e);
    let l0: Seq<(Seq<char>, Scalar)> = Seq::empty();
    lemma_lines_push(l0, t[0].0, t[0].1);
    let l1 = l0.push(t[0]);
    lemma_lines_push(l1, t[1].0, t[1].1);
    let l2 = l1.push(t[1]);
    lemma_lines_push(l2, t[2].0, t[2].1);
    assert(l2.push(t[2]) == t);
    assert(lines_text(l1) == line_text(t[0].0, t[0].1));
}

fn append_quoted(out: &mut String, text: &str)
    ensures
        final(out)@ == old(out)@ + quoted(text@),
{
    let ghost before = out@;
    out.append("\"");
    out.append(text);
    out.append("\"");
    assert(out@ == before + quoted(text@));
}

fn append_key(out: &mut String, key: &str)
    ensures
        final(out)@ == old(out)@ + key@ + " = "@,
{
    out.append(key);
    out.append(" = ");
}

fn append_text_line(out: &mut String, key: &str, text: &str)
    ensures
        final(out)@ == old(out)@ + line_text(key@, Scalar::Text(text@)),
{
    let ghost before = out@;
    append_key(out, key);
    append_quoted(out, text);
    out.append("\n");
    assert(out@ == before + line_text(key@, Scalar::Text(text@)));
}

fn append_flag_line(out: &mut String, key: &str, flag: bool)
    ensures
        final(out)@ == old(out)@ + line_text(key@, Scalar::Flag(flag)),
{
    let ghost before = out@;
    append_key(out, key);
    append_bool(out, flag);
    out.append("\n");
    assert(out@ == before + line_text(key@, Scalar::Flag(flag)));
}

fn append_number_line(out: &mut String, key: &str, n: u32)
    ensures
        final(out)@ == old(out)@ + line_text(key@, Scalar::Integer(n as int)),
{
    let ghost before = out@;
    append_key(out, key);
    append_u64(out, n as u64);
    out.append("\n");
    assert(out@ == before + line_text(key@, Scalar::Integer(n as int)));
}

fn append_texts_line(out: &mut String, key: &str, items: &Vec<String>)
    ensures
        final(out)@ == old(out)@ + line_text(key@, Scalar::Texts(texts(items@))),
{
    let ghost before = out@;
    let ghost quote = |t: Seq<char>| quoted(t);
    append_key(out, key);
    let mut marked: Vec<String> = Vec::new();
    let mut i: usize = 0;
    while i < items.len()
        invariant
            i <= items@.len(),
            quote == (|t: Seq<char>| quoted(t)),
            texts(marked@) == texts(items@).take(i as int).map_values(quote),
        decreases items.len() - i,
    {
        let mut one = String::new();
        append_quoted(&mut one, items[i].as_str());
        assert(one@ == quoted(items@[i as int]@));
        let ghost was = texts(marked@);
        marked.push(one);
        i = i + 1;
        assert(texts(marked@) == was.push(quoted(items@[i - 1]@)));
        assert(texts(items@).take(i as int) == texts(items@).take(i - 1).push(items@[i - 1]@));
        assert(texts(marked@) == texts(items@).take(i as int).map_values(quote));
    }
    assert(texts(items@).take(items@.len() as int) == texts(items@));
    let list = joined(&marked, ", ");
    out.append("[");
    out.append(list.as_str());
    out.append("]");
    out.append("\n");
    assert(out@ == before + line_text(key@, Scalar::Texts(texts(items@))));
}

fn append_entry(out: &mut String, e: &Entry)
    ensures
        final(out)@ == old(out)@ + ("\n[["@ + "files"@ + "]]\n"@ + lines_text(entry_lines(e@))),
{
    let ghost before = out@;
    out.append("\n[[");
    out.append("files");
    out.append("]]\n");
    let ghost head = out@;
    assert(head == before + ("\n[["@ + "files"@ + "]]\n"@));
    append_text_line(out, "path", e.home_rel.as_str());
    append_text_line(out, "module", e.module.as_str());
    append_flag_line(out, "machine", e.machine);
    proof {
        lemma_entry_lines_text(e@);
        assert(out@ == head + lines_text(entry_lines(e@)));
    }
}

// -------------------------------------------------------------------- reading

/// The texts among the elements of an array.
pub open spec fn texts_among(elements: Seq<Node>) -> Seq<Seq<char>>
    decreases elements.len(),
{
    if elements.len() == 0 {
        Seq::empty()
    } else {
        let front = texts_among(elements.drop_last());
        match elements.last() {
            Node::Text(t) => front.push(t),
            _ => front,
        }
    }
}

/// The themes that a manifest names.
pub open spec fn themes_of(n: Node) -> Seq<Seq<char>> {
    match child(n, "themes"@) {
        Some(Node::Array(e)) => texts_among(e),
        _ => Seq::empty(),
    }
}

/// One file of a manifest, or why the manifest is refused.
pub open spec fn entry_of(n: Node) -> Result<EntryView, Seq<char>> {
    match text_under(n, "path"@) {
        None => Err("a [[files]] entry has no path"@),
        Some(path) => if is_safe_rel(path) {
            Ok(
                EntryView {
                    home_rel: path,
                    module: match text_under(n, "module"@) {
                        Some(m) => m,
                        None => "other"@,
                    },
                    machine: child(n, "machine"@) == Some(Node::Flag(true)),
                },
            )
        } else {
            Err("unsafe path in bundle: "@ + path)
        },
    }
}

/// The files of a manifest; the first that is not in order refuses it.
pub open spec fn entries_from(tables: Seq<Node>) -> Result<Seq<EntryView>, Seq<char>>
    decreases tables.len(),
{
    if tables.len() == 0 {
        Ok(Seq::empty())
    } else {
        match entries_from(tables.drop_last()) {
            Err(hint) => Err(hint),
            Ok(front) => match entry_of(tables.last()) {
                Err(hint) => Err(hint),
                Ok(e) => Ok(front.push(e)),
            },
        }
    }
}

pub open spec fn entries_of(n: Node) -> Result<Seq<EntryView>, Seq<char>> {
    match child(n, "files"@) {
        Some(Node::Tables(t)) => entries_from(t),
        _ => Ok(Seq::empty()),
    }
}

pub open spec fn or_empty(t: Option<Seq<char>>) -> Seq<char> {
    match t {
        Some(t) => t,
        None => Seq::empty(),
    }
}

/// Why a number that no layout can have is refused.
pub open spec fn no_such_format(format: int) -> Seq<char> {
    "there is no bundle format "@ + int_text(format)
}

/// The bundle that a document describes, or why it is none.
pub open spec fn bundle_of(n: Node) -> Result<BundleView, Seq<char>> {
    match child(n, "format"@) {
        Some(Node::Integer(format)) => if !(0 <= format <= u32::MAX) {
            Err(no_such_format(format as int))
        } else {
            match entries_of(n) {
                Err(hint) => Err(hint),
                Ok(entries) => Ok(
                    BundleView {
                        format: format as u32,
                        studio_version: or_empty(text_under(n, "studio_version"@)),
                        omarchy_version: or_empty(text_under(n, "omarchy_version"@)),
                        created: or_empty(text_under(n, "created"@)),
                        entries,
                        themes: themes_of(n),
                    },
                ),
            }
        },
        _ => Err("manifest has no format — not a rice bundle"@),
    }
}

/// What reading a manifest gives, after what its text parses to.
pub open spec fn read_bundle(found: Result<Node, Seq<char>>) -> Result<BundleView, Seq<char>> {
    match found {
        Err(e) => Err("bundle manifest is not valid TOML: "@ + e),
        Ok(n) => bundle_of(n),
    }
}

pub open spec fn refusal(hint: Seq<char>) -> Failure {
    Failure::ParseFailed { file: "manifest.toml"@, line: None, hint }
}

fn text_or_empty(item: &toml_edit::Item, key: &str) -> (r: String)
    ensures
        r@ == or_empty(text_under(node(*item), key@)),
{
    match read_text(item, key) {
        Some(t) => t,
        None => {
            let none: String = String::new();
            assert(none@ == Seq::<char>::empty());
            none
        },
    }
}

fn read_themes(top: &toml_edit::Item) -> (r: Vec<String>)
    ensures
        texts(r@) == themes_of(node(*top)),
{
    let mut out: Vec<String> = Vec::new();
    assert(texts(out@) == Seq::<Seq<char>>::empty());
    if let Some(item) = under(top, "themes") {
        if let Shape::Array(n) = shape(item) {
            let ghost all = elements(node(*item));
            let mut i: usize = 0;
            assert(all.take(0).len() == 0);
            while i < n
                invariant
                    i <= n,
                    n == all.len(),
                    all == elements(node(*item)),
                    texts(out@) == texts_among(all.take(i as int)),
                decreases n - i,
            {
                assert(all.take(i + 1).drop_last() == all.take(i as int));
                assert(all.take(i + 1).last() == all[i as int]);
                let ghost was = texts(out@);
                if let Some(e) = element(item, i) {
                    if let Shape::Text(t) = shape(e) {
                        out.push(t);
                        assert(texts(out@) == was.push(t@));
                    }
                }
                i = i + 1;
            }
            assert(all.take(n as int) == all);
        }
    }
    out
}

fn read_entry(item: &toml_edit::Item) -> (r: Result<Entry, String>)
    ensures
        match r {
            Ok(e) => entry_of(node(*item)) == Ok::<EntryView, Seq<char>>(e@),
            Err(hint) => entry_of(node(*item)) == Err::<EntryView, Seq<char>>(hint@),
        },
{
    match read_text(item, "path") {
        None => Err(owned("a [[files]] entry has no path")),
        Some(path) => {
            if !safe_rel(path.as_str()) {
                let mut hint = owned("unsafe path in bundle: ");
                hint.append(path.as_str());
                return Err(hint);
            }
            let module = match read_text(item, "module") {
                Some(m) => m,
                None => owned("other"),
            };
            let machine = match under(item, "machine") {
                Some(v) => match shape(v) {
                    Shape::Flag(b) => b,
                    _ => false,
                },
                None => false,
            };
            Ok(Entry { home_rel: path, module, machine })
        },
    }
}

fn read_entries(top: &toml_edit::Item) -> (r: Result<Vec<Entry>, String>)
    ensures
        match r {
            Ok(es) => entries_of(node(*top)) == Ok::<Seq<EntryView>, Seq<char>>(entry_views(es@)),
            Err(hint) => entries_of(node(*top)) == Err::<Seq<EntryView>, Seq<char>>(hint@),
        },
{
    let mut out: Vec<Entry> = Vec::new();
    assert(entry_views(out@) == Seq::<EntryView>::empty());
    if let Some(item) = under(top, "files") {
        if let Shape::Tables(n) = shape(item) {
            let ghost all = elements(node(*item));
            let mut i: usize = 0;
            assert(all.take(0).len() == 0);
            while i < n
                invariant
                    i <= n,
                    n == all.len(),
                    all == elements(node(*item)),
                    child(node(*top), "files"@) == Some(node(*item)),
                    node(*item) is Tables,
                    entries_from(all.take(i as int)) == Ok::<Seq<EntryView>, Seq<char>>(
                        entry_views(out@),
                    ),
                decreases n - i,
            {
                assert(all.take(i + 1).drop_last() == all.take(i as int));
                assert(all.take(i + 1).last() == all[i as int]);
                let ghost was = entry_views(out@);
                if let Some(t) = element(item, i) {
                    match read_entry(t) {
                        Ok(e) => {
                            out.push(e);
                            assert(entry_views(out@) == was.push(e@));
                        },
                        Err(hint) => {
                            proof {
                                lemma_refused(all, i as int, hint@);
                            }
                            return Err(hint);
                        },
                    }
                }
                i = i + 1;
            }
            assert(all.take(n as int) == all);
        }
    }
    Ok(out)
}

/// A file that is refused refuses the manifest, whatever follows it.
proof fn lemma_refused(tables: Seq<Node>, i: int, hint: Seq<char>)
    requires
        0 <= i < tables.len(),
        entries_from(tables.take(i)) is Ok,
        entry_of(tables[i]) == Err::<EntryView, Seq<char>>(hint),
    ensures
        entries_from(tables) == Err::<Seq<EntryView>, Seq<char>>(hint),
    decreases tables.len(),
{
    if i == tables.len() - 1 {
        assert(tables.drop_last() == tables.take(i));
    } else {
        assert(tables.drop_last().take(i) == tables.take(i));
        lemma_refused(tables.drop_last(), i, hint);
    }
}

impl Bundle {
    /// The manifest's text.
    pub fn render(&self) -> (r: String)
        ensures
            r@ == doc_text(manifest(self@)),
    {
        let ghost b = self@;
        let ghost m = manifest(b);
        let mut s = String::new();
        s.append("# ");
        s.append("omarchy-studio rice bundle");
        s.append("\n");
        let ghost head = s@;
        assert(head == "# "@ + m.comment + "\n"@);
        append_number_line(&mut s, "format", self.format);
        append_text_line(&mut s, "studio_version", self.studio_version.as_str());
        append_text_line(&mut s, "omarchy_version", self.omarchy_version.as_str());
        append_text_line(&mut s, "created", self.created.as_str());
        append_texts_line(&mut s, "themes", &self.themes);
        proof {
            lemma_top_lines_text(b);
            assert(s@ == head + lines_text(m.top));
        }
        let ghost top = s@;
        let mut i: usize = 0;
        assert(s@ == top + tables_text("files"@, m.tables.take(0)));
        while i < self.entries.len()
            invariant
                i <= self.entries@.len(),
                b == self@,
                m == manifest(b),
                s@ == top + tables_text("files"@, m.tables.take(i as int)),
            decreases self.entries.len() - i,
        {
            let e = &self.entries[i];
            let ghost was = s@;
            append_entry(&mut s, e);
            proof {
                let t = entry_lines(e@);
                assert(m.tables[i as int] == t);
                lemma_tables_push("files"@, m.tables.take(i as int), t);
                assert(m.tables.take(i + 1) == m.tables.take(i as int).push(t));
                assert(s@ == top + tables_text("files"@, m.tables.take(i + 1)));
            }
            i = i + 1;
        }
        assert(m.tables.take(m.tables.len() as int) == m.tables);
        s
    }

    /// Reads a manifest. One that was rendered is read as the bundle that it
    /// was rendered from, unless a path of that bundle is unsafe: then it is
    /// refused, as is every manifest that names an unsafe path.
    pub fn parse(text: &str) -> (r: Result<Bundle, StudioError>)
        ensures
            match r {
                Ok(b) => read_bundle(parsed(text@)) == Ok::<BundleView, Seq<char>>(b@),
                Err(e) => read_bundle(parsed(text@)) is Err && e@ == refusal(
                    read_bundle(parsed(text@))->Err_0,
                ),
            },
            r matches Ok(b) ==> forall|i: int|
                0 <= i < b.entries@.len() ==> is_safe_rel((#[trigger] b.entries@[i]).home_rel@),
            forall|b: BundleView|
                is_writable(b) && text@ == doc_text(#[trigger] manifest(b)) ==> r is Ok
                    && r->Ok_0@ == b,
            forall|b: BundleView|
                has_plain_texts(b) && !has_safe_paths(b) && text@ == doc_text(
                    #[trigger] manifest(b),
                ) ==> r is Err,
    {
        let doc = match Toml::parse(text) {
            Ok(doc) => doc,
            Err(e) => {
                let mut hint = owned("bundle manifest is not valid TOML: ");
                hint.append(e.as_str());
                proof {
                    assert forall|b: BundleView|
                        has_plain_texts(b) && text@ == doc_text(
                            #[trigger] manifest(b),
                        ) implies false by {
                        lemma_manifest_is_plain(b);
                    }
                }
                return Err(parse_failed("manifest.toml", hint.as_str()));
            },
        };
        proof {
            assert forall|b: BundleView|
                is_writable(b) && text@ == doc_text(#[trigger] manifest(b)) implies bundle_of(doc@)
                == Ok::<BundleView, Seq<char>>(b) by {
                lemma_manifest_is_plain(b);
                lemma_manifest_reads_back(b);
            }
            assert forall|b: BundleView|
                has_plain_texts(b) && !has_safe_paths(b) && text@ == doc_text(
                    #[trigger] manifest(b),
                ) implies bundle_of(doc@) is Err by {
                lemma_manifest_is_plain(b);
                lemma_unsafe_manifest(b);
            }
        }
        Bundle::read(&doc)
    }

    /// Reads a manifest that is TOML.
    pub fn read(doc: &Toml) -> (r: Result<Bundle, StudioError>)
        ensures
            match r {
                Ok(b) => bundle_of(doc@) == Ok::<BundleView, Seq<char>>(b@),
                Err(e) => bundle_of(doc@) is Err && e@ == refusal(bundle_of(doc@)->Err_0),
            },
            r matches Ok(b) ==> forall|i: int|
                0 <= i < b.entries@.len() ==> is_safe_rel((#[trigger] b.entries@[i]).home_rel@),
    {
        let top = doc.top();
        let format = match under(top, "format") {
            Some(v) => match shape(v) {
                Shape::Integer(i) => Some(i),
                _ => None,
            },
            None => None,
        };
        let format: u32 = match format {
            Some(i) => {
                if i < 0 || i > 4294967295 {
                    let mut hint = owned("there is no bundle format ");
                    append_i64(&mut hint, i);
                    return Err(parse_failed("manifest.toml", hint.as_str()));
                }
                i as u32
            },
            None => {
                return Err(
                    parse_failed("manifest.toml", "manifest has no format — not a rice bundle"),
                );
            },
        };
        let entries = match read_entries(top) {
            Ok(es) => es,
            Err(hint) => {
                return Err(parse_failed("manifest.toml", hint.as_str()));
            },
        };
        let b = Bundle {
            format,
            studio_version: text_or_empty(top, "studio_version"),
            omarchy_version: text_or_empty(top, "omarchy_version"),
            created: text_or_empty(top, "created"),
            entries,
            themes: read_themes(top),
        };
        proof {
            assert forall|i: int| 0 <= i < b.entries@.len() implies is_safe_rel(
                (#[trigger] b.entries@[i]).home_rel@,
            ) by {
                let views = entry_views(b.entries@);
                assert(views[i] == b.entries@[i]@);
                assert(entries_of(doc@) == Ok::<Seq<EntryView>, Seq<char>>(views));
                match child(doc@, "files"@) {
                    Some(Node::Tables(t)) => {
                        lemma_entries_safe(t);
                        assert(is_safe_rel(entries_from(t)->Ok_0[i].home_rel));
                    },
                    _ => {
                        assert(views.len() == 0);
                        assert(false);
                    },
                }
            }
        }
        Ok(b)
    }
}

proof fn lemma_entries_safe(tables: Seq<Node>)
    requires
        entries_from(tables) is Ok,
    ensures
        forall|i: int|
            0 <= i < entries_from(tables)->Ok_0.len() ==> is_safe_rel(
                (#[trigger] entries_from(tables)->Ok_0[i]).home_rel,
            ),
    decreases tables.len(),
{
    if tables.len() > 0 {
        lemma_entries_safe(tables.drop_last());
    }
}

// ------------------------------------------------------------------ round trip

/// A bundle whose texts need no escapes.
pub open spec fn has_plain_texts(b: BundleView) -> bool {
    &&& plain_text(b.studio_version)
    &&& plain_text(b.omarchy_version)
    &&& plain_text(b.created)
    &&& forall|i: int| 0 <= i < b.themes.len() ==> plain_text(#[trigger] b.themes[i])
    &&& forall|i: int|
        0 <= i < b.entries.len() ==> plain_text((#[trigger] b.entries[i]).home_rel) && plain_text(
            b.entries[i].module,
        )
}

pub open spec fn has_safe_paths(b: BundleView) -> bool {
    forall|i: int| 0 <= i < b.entries.len() ==> is_safe_rel((#[trigger] b.entries[i]).home_rel)
}

/// A bundle whose texts need no escapes and whose paths are safe: one that can
/// be written and read back.
pub open spec fn is_writable(b: BundleView) -> bool {
    has_plain_texts(b) && has_safe_paths(b)
}

proof fn lemma_keys_are_bare()
    ensures
        bare_key("format"@),
        bare_key("studio_version"@),
        bare_key("omarchy_version"@),
        bare_key("created"@),
        bare_key("themes"@),
        bare_key("files"@),
        bare_key("path"@),
        bare_key("module"@),
        bare_key("machine"@),
        plain_text("omarchy-studio rice bundle"@),
{
    reveal_strlit("format");
    reveal_strlit("studio_version");
    reveal_strlit("omarchy_version");
    reveal_strlit("created");
    reveal_strlit("themes");
    reveal_strlit("files");
    reveal_strlit("path");
    reveal_strlit("module");
    reveal_strlit("machine");
    reveal_strlit("omarchy-studio rice bundle");
}

proof fn lemma_keys_differ()
    ensures
        "format"@ != "studio_version"@,
        "format"@ != "omarchy_version"@,
        "format"@ != "created"@,
        "format"@ != "themes"@,
        "format"@ != "files"@,
        "studio_version"@ != "omarchy_version"@,
        "studio_version"@ != "created"@,
        "studio_version"@ != "themes"@,
        "studio_version"@ != "files"@,
        "omarchy_version"@ != "created"@,
        "omarchy_version"@ != "themes"@,
        "omarchy_version"@ != "files"@,
        "created"@ != "themes"@,
        "created"@ != "files"@,
        "themes"@ != "files"@,
        "path"@ != "module"@,
        "path"@ != "machine"@,
        "module"@ != "machine"@,
{
    reveal_strlit("format");
    reveal_strlit("studio_version");
    reveal_strlit("omarchy_version");
    reveal_strlit("created");
    reveal_strlit("themes");
    reveal_strlit("files");
    reveal_strlit("path");
    reveal_strlit("module");
    reveal_strlit("machine");
    assert("format"@.len() == 6 && "studio_version"@.len() == 14 && "omarchy_version"@.len() == 15);
    assert("created"@.len() == 7 && "themes"@.len() == 6 && "files"@.len() == 5);
    assert("path"@.len() == 4 && "module"@.len() == 6 && "machine"@.len() == 7);
    assert("format"@[0] != "themes"@[0]);
}

proof fn lemma_manifest_is_plain(b: BundleView)
    requires
        has_plain_texts(b),
    ensures
        plain_doc(manifest(b)),
{
    lemma_keys_are_bare();
    lemma_keys_differ();
    let m = manifest(b);
    assert(plain_lines(m.top));
    assert forall|i: int| 0 <= i < m.tables.len() implies plain_lines(#[trigger] m.tables[i]) by {
        let e = b.entries[i];
        assert(m.tables[i] == entry_lines(e));
    }
}

proof fn lemma_entry_reads_back(e: EntryView)
    requires
        is_safe_rel(e.home_rel),
    ensures
        entry_of(Node::Table(lines_rows(entry_lines(e)))) == Ok::<EntryView, Seq<char>>(e),
{
    lemma_keys_differ();
    let r = lines_rows(entry_lines(e));
    lemma_row_at(r, 0);
    lemma_row_at(r, 1);
    lemma_row_at(r, 2);
}

proof fn lemma_texts_among(ts: Seq<Seq<char>>)
    ensures
        texts_among(ts.map_values(|t: Seq<char>| Node::Text(t))) == ts,
    decreases ts.len(),
{
    let f = |t: Seq<char>| Node::Text(t);
    let all = ts.map_values(f);
    if ts.len() > 0 {
        assert(all.drop_last() == ts.drop_last().map_values(f));
        lemma_texts_among(ts.drop_last());
        assert(ts.drop_last().push(ts.last()) == ts);
    }
}

proof fn lemma_entries_read_back(es: Seq<EntryView>)
    requires
        forall|i: int| 0 <= i < es.len() ==> is_safe_rel((#[trigger] es[i]).home_rel),
    ensures
        entries_from(
            es.map_values(|e: EntryView| entry_lines(e)).map_values(
                |t: Seq<(Seq<char>, Scalar)>| Node::Table(lines_rows(t)),
            ),
        ) == Ok::<Seq<EntryView>, Seq<char>>(es),
    decreases es.len(),
{
    let f = |e: EntryView| entry_lines(e);
    let g = |t: Seq<(Seq<char>, Scalar)>| Node::Table(lines_rows(t));
    let all = es.map_values(f).map_values(g);
    if es.len() > 0 {
        let front = es.drop_last();
        assert(all.drop_last() == front.map_values(f).map_values(g));
        assert forall|i: int| 0 <= i < front.len() implies is_safe_rel(
            (#[trigger] front[i]).home_rel,
        ) by {
            assert(front[i] == es[i]);
        }
        lemma_entries_read_back(front);
        lemma_entry_reads_back(es.last());
        assert(front.push(es.last()) == es);
    } else {
        assert(es == Seq::<EntryView>::empty());
    }
}

proof fn lemma_manifest_reads_back(b: BundleView)
    requires
        is_writable(b),
    ensures
        bundle_of(doc_node(manifest(b))) == Ok::<BundleView, Seq<char>>(b),
{
    lemma_keys_differ();
    let m = manifest(b);
    let n = doc_node(m);
    let r = rows(n);
    let top = lines_rows(m.top);
    assert forall|i: int| 0 <= i < 5 implies r[i] == top[i] by {}
    lemma_row_at(r, 0);
    lemma_row_at(r, 1);
    lemma_row_at(r, 2);
    lemma_row_at(r, 3);
    lemma_row_at(r, 4);
    lemma_texts_among(b.themes);
    lemma_entries_read_back(b.entries);
    if b.entries.len() > 0 {
        lemma_row_at(r, 5);
    } else {
        lemma_row_none(r, "files"@);
        assert(b.entries == Seq::<EntryView>::empty());
    }
    let back = bundle_of(n)->Ok_0;
    assert(back =~= b);
}

proof fn lemma_unsafe_entries(es: Seq<EntryView>, i: int)
    requires
        0 <= i < es.len(),
        !is_safe_rel(es[i].home_rel),
    ensures
        entries_from(
            es.map_values(|e: EntryView| entry_lines(e)).map_values(
                |t: Seq<(Seq<char>, Scalar)>| Node::Table(lines_rows(t)),
            ),
        ) is Err,
    decreases es.len(),
{
    let f = |e: EntryView| entry_lines(e);
    let g = |t: Seq<(Seq<char>, Scalar)>| Node::Table(lines_rows(t));
    let all = es.map_values(f).map_values(g);
    let front = es.drop_last();
    assert(all.drop_last() == front.map_values(f).map_values(g));
    if i < es.len() - 1 {
        assert(front[i] == es[i]);
        lemma_unsafe_entries(front, i);
    } else {
        let r = lines_rows(entry_lines(es.last()));
        assert(all.last() == Node::Table(r));
        lemma_row_at(r, 0);
        assert(entry_of(all.last()) is Err);
    }
}

/// The manifest of a bundle with an unsafe path is that of no bundle.
proof fn lemma_unsafe_manifest(b: BundleView)
    requires
        !has_safe_paths(b),
    ensures
        bundle_of(doc_node(manifest(b))) is Err,
{
    lemma_keys_differ();
    let m = manifest(b);
    let n = doc_node(m);
    let r = rows(n);
    let top = lines_rows(m.top);
    assert forall|i: int| 0 <= i < 5 implies r[i] == top[i] by {}
    let i = choose|i: int| 0 <= i < b.entries.len() && !is_safe_rel(b.entries[i].home_rel);
    lemma_row_at(r, 5);
    lemma_unsafe_entries(b.entries, i);
}

} // verus!
