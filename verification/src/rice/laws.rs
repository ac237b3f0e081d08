//! What holds of every export and import.

use vstd::prelude::*;

use crate::engine::EditView;
use crate::order::{
    is_text_order, lemma_text_order_is, lemma_text_total, lemma_text_transitive, text_before,
};
use crate::paths::join;
use crate::rice::{
    EntryView, Fate, FileState, ThemeState, WrittenView, by_path, edits_of, export_entries,
    export_entry, fates, home_rels, is_portable, is_safe_rel, skipped_of, takes_module,
    themes_where, unchanged_of, without_repeats,
};
use crate::text::opt_text;

verus! {

/// Every edit of an import is for one entry of the bundle that the filter
/// takes, brings that file to the bundle's text, and lands under the home
/// directory. So a machine-specific file is never edited unless it is asked
/// for, and a module that is not selected is never touched.
pub proof fn law_edits_are_selected(
    es: Seq<EntryView>,
    files: Seq<FileState>,
    home: Seq<char>,
    only: Seq<Seq<char>>,
    with_machine: bool,
    k: int,
)
    requires
        files.len() == es.len(),
        0 <= k < edits_of(fates(es, files, home, only, with_machine)).len(),
    ensures
        ({
            let edit = edits_of(fates(es, files, home, only, with_machine))[k];
            exists|i: int|
                0 <= i < es.len() && is_edit_for(
                    #[trigger] es[i],
                    files[i],
                    home,
                    only,
                    with_machine,
                    edit,
                )
        }),
{
    let fs = fates(es, files, home, only, with_machine);
    let i = lemma_edit_from(fs, k);
    assert(is_edit_for(es[i], files[i], home, only, with_machine, edits_of(fs)[k]));
}

/// Whether an edit is the one for an entry, and the filter takes the entry.
pub open spec fn is_edit_for(
    e: EntryView,
    file: FileState,
    home: Seq<char>,
    only: Seq<Seq<char>>,
    with_machine: bool,
    edit: EditView,
) -> bool {
    &&& takes_module(only, e.module)
    &&& e.machine ==> with_machine
    &&& edit.file == join(home, e.home_rel)
    &&& opt_text(file.bundled) == Some(edit.new_content)
    &&& opt_text(file.on_disk) == edit.old
    &&& edit.old != Some(edit.new_content)
}

proof fn lemma_edit_from(fs: Seq<Fate>, k: int) -> (i: int)
    requires
        0 <= k < edits_of(fs).len(),
    ensures
        0 <= i < fs.len(),
        fs[i] == Fate::Edit(edits_of(fs)[k]),
    decreases fs.len(),
{
    let front = fs.drop_last();
    if k < edits_of(front).len() {
        lemma_edit_from(front, k)
    } else {
        fs.len() - 1
    }
}

proof fn lemma_edit_to(fs: Seq<Fate>, i: int)
    requires
        0 <= i < fs.len(),
        fs[i] is Edit,
    ensures
        edits_of(fs).contains(fs[i]->Edit_0),
    decreases fs.len(),
{
    let front = fs.drop_last();
    let all = edits_of(fs);
    if i < front.len() {
        lemma_edit_to(front, i);
        let k = choose|k: int|
            0 <= k < edits_of(front).len() && edits_of(front)[k] == front[i]->Edit_0;
        assert(all[k] == fs[i]->Edit_0);
    } else {
        assert(all[all.len() - 1] == fs[i]->Edit_0);
    }
}

/// Every file that is wanted is edited: its module is among those selected, or
/// none is; it is not machine-specific, or such files are asked for; it is in the
/// bundle, and this machine holds something else. The edit brings the file under
/// the home directory to the bundle's text.
pub proof fn law_selected_files_are_edited(
    es: Seq<EntryView>,
    files: Seq<FileState>,
    home: Seq<char>,
    only: Seq<Seq<char>>,
    with_machine: bool,
    i: int,
)
    requires
        files.len() == es.len(),
        0 <= i < es.len(),
        only.len() == 0 || exists|k: int| 0 <= k < only.len() && #[trigger] only[k] == es[i].module,
        !es[i].machine || with_machine,
        files[i].bundled is Some,
        files[i].on_disk is None || files[i].on_disk->0@ != files[i].bundled->0@,
    ensures
        edits_of(fates(es, files, home, only, with_machine)).contains(
            EditView {
                file: join(home, es[i].home_rel),
                old: match files[i].on_disk {
                    Some(t) => Some(t@),
                    None => None,
                },
                new_content: files[i].bundled->0@,
            },
        ),
{
    let fs = fates(es, files, home, only, with_machine);
    if only.len() > 0 {
        let k = choose|k: int| 0 <= k < only.len() && #[trigger] only[k] == es[i].module;
        assert(only.contains(only[k]));
    }
    lemma_edit_to(fs, i);
}

proof fn lemma_skipped_to(es: Seq<EntryView>, fs: Seq<Fate>, i: int)
    requires
        0 <= i < fs.len() <= es.len(),
        fs[i] is Skipped,
    ensures
        skipped_of(es, fs).contains((es[i].home_rel, fs[i]->Skipped_0)),
    decreases fs.len(),
{
    let front = fs.drop_last();
    let all = skipped_of(es, fs);
    let want = (es[i].home_rel, fs[i]->Skipped_0);
    if i < front.len() {
        lemma_skipped_to(es, front, i);
        let k = choose|k: int| 0 <= k < skipped_of(es, front).len() && skipped_of(es, front)[k] == want;
        assert(all[k] == want);
    } else {
        assert(all[all.len() - 1] == want);
    }
}

proof fn lemma_unchanged_to(es: Seq<EntryView>, fs: Seq<Fate>, i: int)
    requires
        0 <= i < fs.len() <= es.len(),
        fs[i] is Unchanged,
    ensures
        unchanged_of(es, fs).contains(es[i].home_rel),
    decreases fs.len(),
{
    let front = fs.drop_last();
    let all = unchanged_of(es, fs);
    if i < front.len() {
        lemma_unchanged_to(es, front, i);
        let k = choose|k: int|
            0 <= k < unchanged_of(es, front).len() && unchanged_of(es, front)[k] == es[i].home_rel;
        assert(all[k] == es[i].home_rel);
    } else {
        assert(all[all.len() - 1] == es[i].home_rel);
    }
}

/// A file that is wanted and that this machine already holds as the bundle has it
/// is listed as unchanged.
pub proof fn law_same_files_are_unchanged(
    es: Seq<EntryView>,
    files: Seq<FileState>,
    home: Seq<char>,
    only: Seq<Seq<char>>,
    with_machine: bool,
    i: int,
)
    requires
        files.len() == es.len(),
        0 <= i < es.len(),
        only.len() == 0 || exists|k: int| 0 <= k < only.len() && #[trigger] only[k] == es[i].module,
        !es[i].machine || with_machine,
        files[i].bundled is Some,
        files[i].on_disk is Some,
        files[i].on_disk->0@ == files[i].bundled->0@,
    ensures
        unchanged_of(es, fates(es, files, home, only, with_machine)).contains(es[i].home_rel),
{
    if only.len() > 0 {
        let k = choose|k: int| 0 <= k < only.len() && #[trigger] only[k] == es[i].module;
        assert(only.contains(only[k]));
    }
    lemma_unchanged_to(es, fates(es, files, home, only, with_machine), i);
}

/// Every file that is left out is listed with its reason: its module was not
/// selected where some were, or else it describes the machine that the bundle came
/// from, or else the bundle does not hold it.
pub proof fn law_files_left_out_are_named(
    es: Seq<EntryView>,
    files: Seq<FileState>,
    home: Seq<char>,
    only: Seq<Seq<char>>,
    with_machine: bool,
    i: int,
)
    requires
        files.len() == es.len(),
        0 <= i < es.len(),
    ensures
        ({
            let left_out = skipped_of(es, fates(es, files, home, only, with_machine));
            let rel = es[i].home_rel;
            let selected = only.len() == 0 || exists|k: int|
                0 <= k < only.len() && #[trigger] only[k] == es[i].module;
            &&& !selected ==> left_out.contains(
                (rel, "module "@ + es[i].module + " not selected"@),
            )
            &&& selected && es[i].machine && !with_machine ==> left_out.contains(
                (rel, "describes the source machine's hardware"@),
            )
            &&& selected && (!es[i].machine || with_machine) && files[i].bundled is None
                ==> left_out.contains((rel, "listed in the manifest but not in the bundle"@))
        }),
{
    let fs = fates(es, files, home, only, with_machine);
    let selected = only.len() == 0 || exists|k: int|
        0 <= k < only.len() && #[trigger] only[k] == es[i].module;
    if selected && only.len() > 0 {
        let k = choose|k: int| 0 <= k < only.len() && #[trigger] only[k] == es[i].module;
        assert(only.contains(only[k]));
    }
    if !selected {
        if only.contains(es[i].module) {
            let k = choose|k: int| 0 <= k < only.len() && only[k] == es[i].module;
            assert(only[k] == es[i].module);
        }
        lemma_skipped_to(es, fs, i);
    } else if es[i].machine && !with_machine || files[i].bundled is None {
        lemma_skipped_to(es, fs, i);
    }
}

/// Every theme that the bundle holds under a safe name is listed: among the new
/// ones where this machine has none of that name, and else among those that are
/// there.
pub proof fn law_bundled_themes_are_listed(
    slugs: Seq<Seq<char>>,
    states: Seq<ThemeState>,
    i: int,
)
    requires
        0 <= i < slugs.len() <= states.len(),
        is_safe_rel(slugs[i]),
        states[i].in_bundle,
    ensures
        !states[i].here ==> themes_where(slugs, states, false).contains(slugs[i]),
        states[i].here ==> themes_where(slugs, states, true).contains(slugs[i]),
    decreases slugs.len(),
{
    let here = states[i].here;
    let front = slugs.drop_last();
    let all = themes_where(slugs, states, here);
    if i < front.len() {
        law_bundled_themes_are_listed(front, states, i);
        let before = themes_where(front, states, here);
        let k = choose|k: int| 0 <= k < before.len() && before[k] == front[i];
        assert(all[k] == slugs[i]);
    } else {
        assert(all[all.len() - 1] == slugs[i]);
    }
}

/// Every file of a bundle is accounted for: it is edited, unchanged or skipped.
pub proof fn law_every_file_is_accounted_for(es: Seq<EntryView>, fs: Seq<Fate>)
    ensures
        edits_of(fs).len() + unchanged_of(es, fs).len() + skipped_of(es, fs).len() == fs.len(),
    decreases fs.len(),
{
    if fs.len() > 0 {
        law_every_file_is_accounted_for(es, fs.drop_last());
    }
}

/// Importing a bundle onto a machine that already holds its files changes
/// nothing.
pub proof fn law_second_import_changes_nothing(
    es: Seq<EntryView>,
    files: Seq<FileState>,
    home: Seq<char>,
    only: Seq<Seq<char>>,
    with_machine: bool,
)
    requires
        files.len() == es.len(),
        forall|i: int|
            0 <= i < files.len() && (#[trigger] files[i]).bundled is Some ==> opt_text(
                files[i].on_disk,
            ) == opt_text(files[i].bundled),
    ensures
        edits_of(fates(es, files, home, only, with_machine)).len() == 0,
{
    let fs = fates(es, files, home, only, with_machine);
    if edits_of(fs).len() > 0 {
        let i = lemma_edit_from(fs, 0);
        assert(files[i].bundled is Some);
    }
}

/// A theme that is on this machine is never among those copied in.
pub proof fn law_existing_themes_stay(
    slugs: Seq<Seq<char>>,
    states: Seq<ThemeState>,
    slug: Seq<char>,
)
    requires
        states.len() == slugs.len(),
        forall|i: int|
            0 <= i < slugs.len() && #[trigger] slugs[i] == slug ==> states[i].here,
    ensures
        !themes_where(slugs, states, false).contains(slug),
{
    lemma_new_themes(slugs, states, slug);
}

proof fn lemma_new_themes(slugs: Seq<Seq<char>>, states: Seq<ThemeState>, slug: Seq<char>)
    requires
        states.len() >= slugs.len(),
        forall|i: int|
            0 <= i < slugs.len() && #[trigger] slugs[i] == slug ==> states[i].here,
    ensures
        !themes_where(slugs, states, false).contains(slug),
    decreases slugs.len(),
{
    if slugs.len() > 0 {
        let front = slugs.drop_last();
        assert forall|i: int| 0 <= i < front.len() && #[trigger] front[i] == slug implies
            states[i].here by {
            assert(slugs[i] == slug);
        }
        lemma_new_themes(front, states, slug);
        let before = themes_where(front, states, false);
        let all = themes_where(slugs, states, false);
        assert(slugs[slugs.len() - 1] == slugs.last());
        assert forall|k: int| 0 <= k < all.len() implies all[k] != slug by {
            if k < before.len() {
                assert(before[k] == all[k]);
                assert(before.contains(before[k]));
            }
        }
    }
}

/// The themes that are copied in lie in the bundle under a safe name.
pub proof fn law_new_themes_are_safe(
    slugs: Seq<Seq<char>>,
    states: Seq<ThemeState>,
    here: bool,
)
    requires
        states.len() >= slugs.len(),
    ensures
        forall|k: int|
            0 <= k < themes_where(slugs, states, here).len() ==> is_safe_rel(
                #[trigger] themes_where(slugs, states, here)[k],
            ) && slugs.contains(themes_where(slugs, states, here)[k]),
    decreases slugs.len(),
{
    if slugs.len() > 0 {
        let front = slugs.drop_last();
        law_new_themes_are_safe(front, states, here);
        let before = themes_where(front, states, here);
        let all = themes_where(slugs, states, here);
        assert forall|k: int| 0 <= k < all.len() implies is_safe_rel(#[trigger] all[k])
            && slugs.contains(all[k]) by {
            if k < before.len() {
                assert(all[k] == before[k]);
                let j = choose|j: int| 0 <= j < front.len() && front[j] == before[k];
                assert(slugs[j] == all[k]);
            } else {
                assert(slugs[slugs.len() - 1] == all[k]);
            }
        }
    }
}

/// An export lists each path once, in order, and holds only files that are
/// safe and portable, each of which Studio has written.
pub proof fn law_export_is_listed_once(
    written: Seq<WrittenView>,
    state: Seq<char>,
    home: Seq<char>,
)
    ensures
        ({
            let r = without_repeats(by_path(export_entries(written, state, home)));
            &&& forall|i: int, j: int|
                0 <= i < j < r.len() ==> text_before(
                    (#[trigger] r[i]).home_rel,
                    (#[trigger] r[j]).home_rel,
                )
            &&& forall|i: int| 0 <= i < r.len() ==> comes_from(#[trigger] r[i], written, state, home)
        }),
{
    let es = export_entries(written, state, home);
    let keys = home_rels(es);
    let order = lemma_text_order_exists(keys);
    lemma_text_order_is(keys, order);
    let sorted = by_path(es);
    assert forall|i: int, j: int| 0 <= i < j < sorted.len() implies text_before(
        (#[trigger] sorted[i]).home_rel,
        (#[trigger] sorted[j]).home_rel,
    ) || sorted[i].home_rel == sorted[j].home_rel by {
        assert(keys[order[i]] == sorted[i].home_rel);
        assert(keys[order[j]] == sorted[j].home_rel);
    }
    lemma_without_repeats(sorted);
    lemma_entries_come_from(written, state, home);
    let r = without_repeats(sorted);
    assert forall|i: int| 0 <= i < r.len() implies comes_from(#[trigger] r[i], written, state, home) by {
        let k = choose|k: int| 0 <= k < sorted.len() && sorted[k] == r[i];
        assert(sorted[k] == es[order[k]]);
    }
}

/// Whether an entry is that of a file that Studio has written and that belongs
/// in a rice.
pub open spec fn comes_from(
    e: EntryView,
    written: Seq<WrittenView>,
    state: Seq<char>,
    home: Seq<char>,
) -> bool {
    &&& is_safe_rel(e.home_rel)
    &&& is_portable(e.home_rel)
    &&& exists|i: int|
        0 <= i < written.len() && export_entry(#[trigger] written[i], state, home) == Some(e)
}

proof fn lemma_entries_come_from(written: Seq<WrittenView>, state: Seq<char>, home: Seq<char>)
    ensures
        forall|i: int|
            0 <= i < export_entries(written, state, home).len() ==> comes_from(
                #[trigger] export_entries(written, state, home)[i],
                written,
                state,
                home,
            ),
    decreases written.len(),
{
    if written.len() > 0 {
        let front = written.drop_last();
        lemma_entries_come_from(front, state, home);
        let before = export_entries(front, state, home);
        let all = export_entries(written, state, home);
        assert forall|i: int| 0 <= i < all.len() implies comes_from(
            #[trigger] all[i],
            written,
            state,
            home,
        ) by {
            if i < before.len() {
                assert(all[i] == before[i]);
                let k = choose|k: int|
                    0 <= k < front.len() && export_entry(#[trigger] front[k], state, home) == Some(
                        before[i],
                    );
                assert(written[k] == front[k]);
            } else {
                assert(export_entry(written[written.len() - 1], state, home) == Some(all[i]));
            }
        }
    }
}

proof fn lemma_without_repeats(es: Seq<EntryView>)
    requires
        forall|i: int, j: int|
            0 <= i < j < es.len() ==> text_before(
                (#[trigger] es[i]).home_rel,
                (#[trigger] es[j]).home_rel,
            ) || es[i].home_rel == es[j].home_rel,
    ensures
        ({
            let r = without_repeats(es);
            &&& forall|i: int, j: int|
                0 <= i < j < r.len() ==> text_before(
                    (#[trigger] r[i]).home_rel,
                    (#[trigger] r[j]).home_rel,
                )
            &&& forall|i: int| 0 <= i < r.len() ==> es.contains(#[trigger] r[i])
            &&& es.len() > 0 ==> r.len() > 0 && r.last().home_rel == es.last().home_rel
        }),
    decreases es.len(),
{
    if es.len() > 0 {
        let front = es.drop_last();
        assert forall|i: int, j: int| 0 <= i < j < front.len() implies text_before(
            (#[trigger] front[i]).home_rel,
            (#[trigger] front[j]).home_rel,
        ) || front[i].home_rel == front[j].home_rel by {
            assert(front[i] == es[i] && front[j] == es[j]);
        }
        lemma_without_repeats(front);
        let before = without_repeats(front);
        let r = without_repeats(es);
        let last = es.last();
        assert forall|i: int| 0 <= i < r.len() implies es.contains(#[trigger] r[i]) by {
            if i < before.len() {
                let k = choose|k: int| 0 <= k < front.len() && front[k] == before[i];
                assert(es[k] == r[i]);
            } else {
                assert(es[es.len() - 1] == r[i]);
            }
        }
        if before.len() > 0 && before.last().home_rel != last.home_rel {
            let p = before.last().home_rel;
            assert(front.len() > 0);
            assert(p == es[es.len() - 2].home_rel);
            assert(text_before(p, last.home_rel));
            assert forall|i: int, j: int| 0 <= i < j < r.len() implies text_before(
                (#[trigger] r[i]).home_rel,
                (#[trigger] r[j]).home_rel,
            ) by {
                if j < before.len() {
                    assert(r[i] == before[i] && r[j] == before[j]);
                } else if i == before.len() - 1 {
                    assert(r[i] == before.last());
                } else {
                    assert(r[i] == before[i]);
                    assert(text_before(before[i].home_rel, before[before.len() - 1].home_rel));
                    lemma_text_transitive(before[i].home_rel, p, last.home_rel);
                }
            }
        }
    }
}

pub proof fn lemma_text_order_exists(keys: Seq<Seq<char>>) -> (order: Seq<int>)
    ensures
        is_text_order(keys, order),
    decreases keys.len(),
{
    if keys.len() == 0 {
        Seq::empty()
    } else {
        let front = keys.drop_last();
        let inner = lemma_text_order_exists(front);
        let k = keys.len() - 1;
        let j = lemma_text_slot(keys, inner, inner.len() as int);
        let order = inner.insert(j, k);
        assert forall|i: int| 0 <= i < inner.len() implies keys[#[trigger] inner[i]]
            == front[inner[i]] by {}
        assert forall|i: int| 0 <= i < j implies text_before(
            keys[#[trigger] inner[i]],
            keys[k],
        ) || keys[inner[i]] == keys[k] by {
            let last = keys[inner[j - 1]];
            lemma_text_total(last, keys[k]);
            if i < j - 1 {
                assert(text_before(front[inner[i]], front[inner[j - 1]]) || front[inner[i]]
                    == front[inner[j - 1]]);
                if text_before(keys[inner[i]], last) && text_before(last, keys[k]) {
                    lemma_text_transitive(keys[inner[i]], last, keys[k]);
                }
            }
        }
        assert forall|a: int, b: int| 0 <= a < b < order.len() implies text_before(
            keys[#[trigger] order[a]],
            keys[#[trigger] order[b]],
        ) || (keys[order[a]] == keys[order[b]] && order[a] < order[b]) by {
            if b < j {
                assert(order[a] == inner[a] && order[b] == inner[b]);
                assert(front[inner[a]] == keys[order[a]] && front[inner[b]] == keys[order[b]]);
            } else if a < j && b == j {
                assert(order[a] == inner[a]);
            } else if a < j {
                assert(order[a] == inner[a] && order[b] == inner[b - 1]);
                assert(front[inner[a]] == keys[order[a]] && front[inner[b - 1]] == keys[order[b]]);
            } else if a == j {
                assert(order[b] == inner[b - 1]);
            } else {
                assert(order[a] == inner[a - 1] && order[b] == inner[b - 1]);
                assert(front[inner[a - 1]] == keys[order[a]] && front[inner[b - 1]]
                    == keys[order[b]]);
            }
        }
        assert forall|i: int| 0 <= i < order.len() implies 0 <= #[trigger] order[i] < keys.len() by {
            if i < j {
                assert(order[i] == inner[i]);
            } else if i > j {
                assert(order[i] == inner[i - 1]);
            }
        }
        order
    }
}

proof fn lemma_text_slot(keys: Seq<Seq<char>>, inner: Seq<int>, n: int) -> (j: int)
    requires
        keys.len() > 0,
        0 <= n <= inner.len(),
    ensures
        0 <= j <= n,
        forall|i: int| j <= i < n ==> text_before(keys.last(), keys[#[trigger] inner[i]]),
        j > 0 ==> !text_before(keys.last(), keys[inner[j - 1]]),
    decreases n,
{
    if n > 0 && text_before(keys.last(), keys[inner[n - 1]]) {
        lemma_text_slot(keys, inner, n - 1)
    } else {
        n
    }
}

} // verus!
