//! What holds of the files and themes that a bundle carries, and of where they land.

use vstd::prelude::*;

use crate::order::{is_text_order, lemma_text_order_is, text_before};
use crate::paths::{below, is_filler, is_within, join, lead, names};
use crate::rice::laws::lemma_text_order_exists;
use crate::rice::{
    by_path, export_entries, export_entry, export_slugs, home_rels, in_order, is_portable,
    is_safe_rel, mismatch, without_repeats, EntryView, ThemeView, WrittenView,
};
use crate::split::split;
use crate::text::{contains, ends_with, occurs, starts_with};

verus! {

// ------------------------------------------------------------------------ paths

proof fn lemma_filter_holds(all: Seq<Seq<char>>, i: int)
    requires
        0 <= i < all.len(),
        !is_filler(all[i]),
    ensures
        all.filter(|p: Seq<char>| !is_filler(p)).contains(all[i]),
    decreases all.len(),
{
    reveal(Seq::filter);
    let f = |p: Seq<char>| !is_filler(p);
    let front = all.drop_last();
    let kept = all.filter(f);
    if i < front.len() {
        lemma_filter_holds(front, i);
        let k = choose|k: int| 0 <= k < front.filter(f).len() && front.filter(f)[k] == front[i];
        assert(kept[k] == all[i]);
    } else {
        assert(kept[kept.len() - 1] == all[i]);
    }
}

/// A path that is taken into a bundle starts at no root and has no part that climbs,
/// so what it names under a directory lies in that directory.
pub proof fn law_safe_paths_stay_inside(home: Seq<char>, rel: Seq<char>)
    requires
        is_safe_rel(rel),
    ensures
        rel.len() > 0,
        rel[0] != '/',
        forall|i: int| 0 <= i < split(rel, '/').len() ==> #[trigger] split(rel, '/')[i] != ".."@,
        home.len() > 0 ==> is_within(join(home, rel), home),
{
    reveal_strlit("..");
    let parts = split(rel, '/');
    assert forall|i: int| 0 <= i < parts.len() implies #[trigger] parts[i] != ".."@ by {
        if parts[i] == ".."@ {
            lemma_filter_holds(parts, i);
            let k = choose|k: int| 0 <= k < names(rel).len() && names(rel)[k] == parts[i];
            assert(names(rel)[k] == ".."@);
        }
    }
    if home.len() > 0 {
        crate::paths::lemma_components_of_join(home, rel);
    }
}

/// A path that starts at a root, or with a part that climbs, is never taken.
pub proof fn law_unsafe_paths_are_refused(rel: Seq<char>, i: int)
    requires
        rel.len() == 0 || rel[0] == '/' || 0 <= i < split(rel, '/').len() && split(rel, '/')[i]
            == ".."@,
    ensures
        !is_safe_rel(rel),
{
    reveal_strlit("..");
    if is_safe_rel(rel) {
        law_safe_paths_stay_inside(Seq::empty(), rel);
        if rel[0] == '/' {
            assert(lead(rel).len() == 1);
        }
    }
}

/// A file travels where it lies under one of the two config roots, or where it is a
/// dotfile right in the home directory; a file that is not hidden does not.
pub proof fn law_config_files_are_portable(rel: Seq<char>)
    ensures
        starts_with(rel, ".config/"@) ==> is_portable(rel),
        starts_with(rel, ".local/share/"@) ==> is_portable(rel),
        rel.len() > 0 && rel[0] != '.' ==> !is_portable(rel),
        is_portable(rel) && !starts_with(rel, ".config/"@) && !starts_with(rel, ".local/share/"@)
            ==> crate::paths::components(rel).len() == 1,
{
    reveal_strlit(".config/");
    reveal_strlit(".local/share/");
    reveal_strlit(".");
    if rel.len() > 0 && rel[0] != '.' {
        if starts_with(rel, ".config/"@) {
            assert(rel.take(8)[0] == rel[0]);
        }
        if starts_with(rel, ".local/share/"@) {
            assert(rel.take(13)[0] == rel[0]);
        }
        if starts_with(rel, "."@) {
            assert(rel.take(1)[0] == rel[0]);
        }
    }
}

// ----------------------------------------------------------------------- exports

proof fn lemma_entries_hold(written: Seq<WrittenView>, state: Seq<char>, home: Seq<char>, i: int)
    requires
        0 <= i < written.len(),
        export_entry(written[i], state, home) is Some,
    ensures
        export_entries(written, state, home).contains(export_entry(written[i], state, home)->0),
    decreases written.len(),
{
    let front = written.drop_last();
    let all = export_entries(written, state, home);
    let e = export_entry(written[i], state, home)->0;
    if i < front.len() {
        lemma_entries_hold(front, state, home, i);
        let before = export_entries(front, state, home);
        let k = choose|k: int| 0 <= k < before.len() && before[k] == e;
        assert(all[k] == e);
    } else {
        assert(all[all.len() - 1] == e);
    }
}

proof fn lemma_order_holds(keys: Seq<Seq<char>>, order: Seq<int>, j: int)
    requires
        is_text_order(keys, order),
        0 <= j < keys.len(),
    ensures
        order.contains(j),
{
    assert forall|a: int, b: int| 0 <= a < b < order.len() implies order[a] != order[b] by {
        crate::order::lemma_text_irreflexive(keys[order[a]]);
    }
    crate::order::lemma_onto(order, j);
}

proof fn lemma_repeats_hold(es: Seq<EntryView>, i: int)
    requires
        0 <= i < es.len(),
    ensures
        exists|k: int|
            0 <= k < without_repeats(es).len() && (#[trigger] without_repeats(es)[k]).home_rel
                == es[i].home_rel,
    decreases es.len(),
{
    let front = es.drop_last();
    let before = without_repeats(front);
    let all = without_repeats(es);
    if i < front.len() {
        lemma_repeats_hold(front, i);
        let k = choose|k: int|
            0 <= k < before.len() && (#[trigger] before[k]).home_rel == front[i].home_rel;
        assert(all[k].home_rel == es[i].home_rel);
    } else {
        assert(all[all.len() - 1].home_rel == es[i].home_rel);
    }
}

/// Every file that Studio wrote and that is still there travels, where it is not
/// Studio's own bookkeeping and lies, by a safe path, in a portable place under the
/// home directory.
pub proof fn law_written_files_travel(
    written: Seq<WrittenView>,
    state: Seq<char>,
    home: Seq<char>,
    i: int,
    rel: Seq<char>,
)
    requires
        0 <= i < written.len(),
        written[i].is_file,
        !is_within(written[i].path, state),
        below(written[i].path, home) == Some(rel),
        is_safe_rel(rel),
        is_portable(rel),
    ensures
        exists|k: int|
            0 <= k < without_repeats(by_path(export_entries(written, state, home))).len()
                && (#[trigger] without_repeats(by_path(export_entries(written, state, home)))[k]).home_rel
                == rel,
{
    let es = export_entries(written, state, home);
    lemma_entries_hold(written, state, home, i);
    let j = choose|j: int|
        0 <= j < es.len() && es[j] == export_entry(written[i], state, home)->0;
    let keys = home_rels(es);
    let order = lemma_text_order_exists(keys);
    lemma_text_order_is(keys, order);
    lemma_order_holds(keys, order, j);
    let at = choose|at: int| 0 <= at < order.len() && order[at] == j;
    let sorted = by_path(es);
    assert(sorted[at] == es[j]);
    lemma_repeats_hold(sorted, at);
}

/// What travels is a file that Studio wrote and that is still there: under its path
/// below the home directory, with the module that wrote it, and marked as one of
/// this machine just where it is the displays' own.
pub proof fn law_travelling_files_were_written(
    written: Seq<WrittenView>,
    state: Seq<char>,
    home: Seq<char>,
    k: int,
)
    requires
        0 <= k < without_repeats(by_path(export_entries(written, state, home))).len(),
    ensures
        ({
            let e = without_repeats(by_path(export_entries(written, state, home)))[k];
            &&& is_safe_rel(e.home_rel)
            &&& is_portable(e.home_rel)
            &&& e.machine <==> e.module == "monitors"@ || ends_with(
                e.home_rel,
                "hypr/monitors.conf"@,
            )
            &&& exists|i: int|
                0 <= i < written.len() && (#[trigger] written[i]).is_file && !is_within(
                    written[i].path,
                    state,
                ) && below(written[i].path, home) == Some(e.home_rel) && written[i].module
                    == e.module
        }),
{
    crate::rice::laws::law_export_is_listed_once(written, state, home);
    let e = without_repeats(by_path(export_entries(written, state, home)))[k];
    assert(crate::rice::laws::comes_from(e, written, state, home));
    let i = choose|i: int|
        0 <= i < written.len() && export_entry(#[trigger] written[i], state, home) == Some(e);
    assert(written[i].is_file);
}

// ------------------------------------------------------------------------ themes

proof fn lemma_slugs(themes: Seq<ThemeView>, slug: Seq<char>)
    ensures
        export_slugs(themes).contains(slug) <==> exists|i: int|
            0 <= i < themes.len() && (#[trigger] themes[i]).slug == slug && themes[i].user
                && !themes[i].scratch && is_safe_rel(slug),
    decreases themes.len(),
{
    if themes.len() > 0 {
        let front = themes.drop_last();
        let last = themes.last();
        lemma_slugs(front, slug);
        let before = export_slugs(front);
        let all = export_slugs(themes);
        if before.contains(slug) {
            let k = choose|k: int| 0 <= k < before.len() && before[k] == slug;
            assert(all[k] == slug);
            let i = choose|i: int|
                0 <= i < front.len() && (#[trigger] front[i]).slug == slug && front[i].user
                    && !front[i].scratch && is_safe_rel(slug);
            assert(themes[i].slug == slug);
        }
        if all.contains(slug) && !before.contains(slug) {
            let k = choose|k: int| 0 <= k < all.len() && all[k] == slug;
            if k < before.len() {
                assert(before[k] == slug);
            }
            assert(themes[themes.len() - 1].slug == slug);
        }
        if exists|i: int|
            0 <= i < themes.len() && (#[trigger] themes[i]).slug == slug && themes[i].user
                && !themes[i].scratch && is_safe_rel(slug) {
            let i = choose|i: int|
                0 <= i < themes.len() && (#[trigger] themes[i]).slug == slug && themes[i].user
                    && !themes[i].scratch && is_safe_rel(slug);
            if i < front.len() {
                assert(front[i].slug == slug);
            } else {
                assert(all[all.len() - 1] == slug);
            }
        }
    }
}

/// The user's own themes travel, but for the editor's scratch theme and those whose
/// name is not safe; no others do. They are listed in order.
pub proof fn law_own_themes_travel(themes: Seq<ThemeView>, slug: Seq<char>)
    ensures
        in_order(export_slugs(themes)).contains(slug) <==> exists|i: int|
            0 <= i < themes.len() && (#[trigger] themes[i]).slug == slug && themes[i].user
                && !themes[i].scratch && is_safe_rel(slug),
        forall|a: int, b: int|
            0 <= a < b < in_order(export_slugs(themes)).len() ==> text_before(
                #[trigger] in_order(export_slugs(themes))[a],
                #[trigger] in_order(export_slugs(themes))[b],
            ) || in_order(export_slugs(themes))[a] == in_order(export_slugs(themes))[b],
{
    lemma_slugs(themes, slug);
    let ts = export_slugs(themes);
    let order = lemma_text_order_exists(ts);
    lemma_text_order_is(ts, order);
    let sorted = in_order(ts);
    if ts.contains(slug) {
        let j = choose|j: int| 0 <= j < ts.len() && ts[j] == slug;
        lemma_order_holds(ts, order, j);
        let at = choose|at: int| 0 <= at < order.len() && order[at] == j;
        assert(sorted[at] == slug);
    }
    if sorted.contains(slug) {
        let at = choose|at: int| 0 <= at < sorted.len() && sorted[at] == slug;
        assert(ts[order[at]] == slug);
    }
    assert forall|a: int, b: int| 0 <= a < b < sorted.len() implies text_before(
        #[trigger] sorted[a],
        #[trigger] sorted[b],
    ) || sorted[a] == sorted[b] by {
        assert(sorted[a] == ts[order[a]] && sorted[b] == ts[order[b]]);
    }
}

/// A bundle of another Omarchy is told, with both versions, just where both are
/// known.
pub proof fn law_other_versions_are_told(theirs: Seq<char>, ours: Seq<char>)
    ensures
        mismatch(theirs, ours) is Some <==> theirs.len() > 0 && ours.len() > 0 && theirs != ours,
        mismatch(theirs, ours) matches Some(m) ==> contains(m, theirs) && ends_with(m, ours),
{
    if let Some(m) = mismatch(theirs, ours) {
        let a = "bundle came from Omarchy "@.len() as int;
        assert(m.subrange(a, a + theirs.len()) =~= theirs);
        assert(occurs(m, theirs, a));
        assert(m.skip(m.len() - ours.len()) =~= ours);
    }
}

} // verus!
