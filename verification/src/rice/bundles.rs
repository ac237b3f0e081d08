//! What a bundle carries from one home to another.

use vstd::prelude::*;

use crate::error::Failure;
use crate::number::int_text;
use crate::paths::join;
use crate::rice::manifest::{bundle_of, entries_from, entry_of, texts_among, themes_of};
use crate::rice::{
    EntryView, FORMAT, bundled_path, file_copies, import_summary, is_safe_rel, plural, stage_dir,
    target_dir, theme_copies, unpacked,
};
use crate::text::{ends_with, starts_with};
use crate::toml::{Node, child, text_under};

verus! {

/// A file that a manifest names is read with its path, which must be safe; one
/// without a module is of no module in particular, and only what is marked so
/// is true of one machine alone.
pub proof fn law_read_file_is_what_is_written(n: Node)
    ensures
        match entry_of(n) {
            Ok(e) => {
                &&& text_under(n, "path"@) == Some(e.home_rel)
                &&& is_safe_rel(e.home_rel)
                &&& text_under(n, "module"@) matches Some(m) ==> e.module == m
                &&& text_under(n, "module"@) is None ==> e.module == "other"@
                &&& e.machine <==> child(n, "machine"@) == Some(Node::Flag(true))
            },
            Err(_) => text_under(n, "path"@) matches Some(p) ==> !is_safe_rel(p),
        },
{
}

proof fn lemma_entries_from(tables: Seq<Node>)
    ensures
        match entries_from(tables) {
            Ok(es) => es.len() == tables.len() && forall|i: int|
                0 <= i < tables.len() ==> entry_of(#[trigger] tables[i]) == Ok::<
                    EntryView,
                    Seq<char>,
                >(es[i]),
            Err(hint) => exists|i: int|
                0 <= i < tables.len() && entry_of(#[trigger] tables[i]) == Err::<
                    EntryView,
                    Seq<char>,
                >(hint) && forall|k: int| 0 <= k < i ==> entry_of(#[trigger] tables[k]) is Ok,
        },
    decreases tables.len(),
{
    if tables.len() > 0 {
        let front = tables.drop_last();
        let last = tables[tables.len() - 1];
        lemma_entries_from(front);
        assert forall|i: int| 0 <= i < front.len() implies #[trigger] tables[i] == front[i] by {}
        match entries_from(front) {
            Ok(es) => {
                assert forall|i: int| 0 <= i < front.len() implies entry_of(#[trigger] tables[i])
                    == Ok::<EntryView, Seq<char>>(es[i]) by {
                    assert(tables[i] == front[i]);
                }
                if entry_of(last) is Err {
                    assert(entry_of(tables[tables.len() - 1]) is Err);
                }
            },
            Err(hint) => {
                let i = choose|i: int|
                    0 <= i < front.len() && entry_of(#[trigger] front[i]) == Err::<
                        EntryView,
                        Seq<char>,
                    >(hint) && forall|k: int| 0 <= k < i ==> entry_of(#[trigger] front[k]) is Ok;
                assert(tables[i] == front[i]);
                assert forall|k: int| 0 <= k < i implies entry_of(#[trigger] tables[k]) is Ok by {
                    assert(tables[k] == front[k]);
                }
            },
        }
    }
}

/// A bundle that is read has every file that its manifest names, in the order of
/// the manifest, and one that is not in order refuses the whole.
pub proof fn law_read_bundle_has_every_file(n: Node, tables: Seq<Node>)
    requires
        child(n, "files"@) == Some(Node::Tables(tables)),
    ensures
        match bundle_of(n) {
            Ok(b) => b.entries.len() == tables.len() && forall|i: int|
                0 <= i < tables.len() ==> entry_of(#[trigger] tables[i]) == Ok::<
                    EntryView,
                    Seq<char>,
                >(b.entries[i]),
            Err(_) => (exists|i: int|
                0 <= i < tables.len() && entry_of(#[trigger] tables[i]) is Err) || !(child(
                n,
                "format"@,
            ) matches Some(Node::Integer(f)) && 0 <= f <= u32::MAX),
        },
{
    lemma_entries_from(tables);
}

/// A bundle's own words are those under their names in the manifest; what is not
/// there is empty.
pub proof fn law_read_bundle_says_what_is_written(n: Node)
    ensures
        bundle_of(n) matches Ok(b) ==> {
            &&& child(n, "format"@) matches Some(Node::Integer(f)) && b.format == f
            &&& match text_under(n, "studio_version"@) {
                Some(t) => b.studio_version == t,
                None => b.studio_version.len() == 0,
            }
            &&& match text_under(n, "omarchy_version"@) {
                Some(t) => b.omarchy_version == t,
                None => b.omarchy_version.len() == 0,
            }
            &&& match text_under(n, "created"@) {
                Some(t) => b.created == t,
                None => b.created.len() == 0,
            }
            &&& child(n, "files"@) is None ==> b.entries.len() == 0
            &&& child(n, "themes"@) is None ==> b.themes.len() == 0
        },
{
}

/// The themes of a bundle are the texts among those that its manifest lists.
pub proof fn law_listed_themes_are_read(n: Node, listed: Seq<Node>, theme: Seq<char>)
    requires
        child(n, "themes"@) == Some(Node::Array(listed)),
    ensures
        themes_of(n).contains(theme) <==> listed.contains(Node::Text(theme)),
{
    lemma_texts_among(listed, theme);
}

proof fn lemma_texts_among(all: Seq<Node>, text: Seq<char>)
    ensures
        texts_among(all).contains(text) <==> all.contains(Node::Text(text)),
    decreases all.len(),
{
    if all.len() > 0 {
        let front = all.drop_last();
        let was = texts_among(front);
        let now = texts_among(all);
        lemma_texts_among(front, text);
        assert(all =~= front.push(all.last()));
        if was.contains(text) {
            let i = choose|i: int| 0 <= i < was.len() && was[i] == text;
            assert(now[i] == text);
            let k = choose|k: int| 0 <= k < front.len() && front[k] == Node::Text(text);
            assert(all[k] == Node::Text(text));
        }
        if all.last() == Node::Text(text) {
            assert(now[now.len() - 1] == text);
            assert(all[all.len() - 1] == Node::Text(text));
        }
        if now.contains(text) && !was.contains(text) {
            let i = choose|i: int| 0 <= i < now.len() && now[i] == text;
            if i < was.len() {
                assert(was[i] == text);
            }
        }
        if all.contains(Node::Text(text)) && all.last() != Node::Text(text) {
            let k = choose|k: int| 0 <= k < all.len() && all[k] == Node::Text(text);
            assert(front[k] == Node::Text(text));
        }
    } else {
        assert(texts_among(all).len() == 0);
    }
}

/// What is unpacked is a bundle of the layout that is understood, read from a
/// manifest, after the archiver went well; every such one is unpacked.
pub proof fn law_only_understood_bundles_are_unpacked(
    tar_ok: bool,
    stderr: Seq<char>,
    found: Option<Result<Node, Seq<char>>>,
)
    ensures
        unpacked(tar_ok, stderr, found) is Ok <==> tar_ok && (found matches Some(Ok(n)) && (
        bundle_of(n) matches Ok(b) && b.format == FORMAT)),
        unpacked(tar_ok, stderr, found) matches Ok(b) ==> bundle_of(found->0->Ok_0) == Ok::<
            _,
            Seq<char>,
        >(b),
        !tar_ok ==> (unpacked(tar_ok, stderr, found) matches Err(
            Failure::External { cmd, detail },
        ) && detail == crate::text::trim(stderr)),
{
}

/// A file goes into a bundle from its place in one home and comes out of the
/// bundle from where it was put, under the same path.
pub proof fn law_files_are_found_where_they_were_put(
    es: Seq<EntryView>,
    home: Seq<char>,
    stage: Seq<char>,
    i: int,
)
    requires
        0 <= i < es.len(),
    ensures
        file_copies(es, home, stage).len() == es.len(),
        file_copies(es, home, stage)[i].0 == join(home, es[i].home_rel),
        file_copies(es, home, stage)[i].1 == bundled_path(stage, es[i].home_rel),
        bundled_path(stage, es[i].home_rel) == join(join(stage, "files"@), es[i].home_rel),
{
}

/// What is copied of a theme into a bundle is what is copied out of it: the two
/// are the same places the other way round.
pub proof fn law_themes_go_both_ways(
    slugs: Seq<Seq<char>>,
    here: Seq<char>,
    there: Seq<char>,
    i: int,
)
    requires
        0 <= i < slugs.len(),
    ensures
        theme_copies(slugs, here, there).len() == slugs.len(),
        theme_copies(slugs, here, there)[i].0 == theme_copies(slugs, there, here)[i].1,
        theme_copies(slugs, here, there)[i].1 == theme_copies(slugs, there, here)[i].0,
        theme_copies(slugs, here, there)[i].0 == join(here, slugs[i]),
{
}

/// An export is gathered beside the file that it is written to.
pub proof fn law_export_is_gathered_beside_its_file(out: Seq<char>, pid: u32, stamp: u64)
    ensures
        match target_dir(out) {
            Some(dir) => dir.len() > 0 && starts_with(stage_dir(out, pid, stamp), dir),
            None => starts_with(stage_dir(out, pid, stamp), "."@),
        },
        ends_with(stage_dir(out, pid, stamp), int_text(stamp as int)),
{
    reveal_strlit(".rice-export-");
    reveal_strlit(".");
    let dir = match target_dir(out) {
        Some(p) => p,
        None => "."@,
    };
    let name = ".rice-export-"@ + int_text(pid as int) + "-"@ + int_text(stamp as int);
    let full = stage_dir(out, pid, stamp);
    assert(name[0] == '.');
    assert(full.take(dir.len() as int) == dir);
    let tail = int_text(stamp as int);
    assert(full.skip(full.len() - tail.len()) == tail);
}

/// The summary of an import counts the files and then the themes, and only one of
/// a kind is named as one.
pub proof fn law_import_is_counted(files: int, themes: int)
    requires
        files >= 0,
        themes >= 0,
    ensures
        starts_with(
            import_summary(files, themes),
            "import rice bundle: "@ + int_text(files) + " file"@,
        ),
        ends_with(
            import_summary(files, themes),
            ", "@ + int_text(themes) + " theme"@ + plural(themes),
        ),
        plural(files).len() == 0 <==> files == 1,
{
    reveal_strlit("s");
    reveal_strlit("");
    let all = import_summary(files, themes);
    let head = "import rice bundle: "@ + int_text(files) + " file"@;
    let tail = ", "@ + int_text(themes) + " theme"@ + plural(themes);
    assert(all =~= head + plural(files) + tail);
    assert(all.take(head.len() as int) == head);
    assert(all.skip(all.len() - tail.len()) == tail);
}

} // verus!
