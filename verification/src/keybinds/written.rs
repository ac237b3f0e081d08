//! What a bindings file says once changes were written to it.

use vstd::prelude::*;

use crate::configfs::managed::{
    block_end, law_write_then_read, lemma_markers, lemma_one_side, lemma_within_line, located,
    removed, starts_line, CommentStyle,
};
use crate::engine::{content, PlanView};
use crate::keybinds::laws::{
    law_changes_read_back, law_marked_bind_is_found, lemma_filter_unmarked, lemma_unmarked, shown,
    spellable_change,
};
use crate::keybinds::overrides::{
    block_body, block_close, block_open, first_marked, is_marked, marked_bind, override_line,
    override_lines, overrides_in, overrides_on, overrides_plan, unmarked, with_marked,
    with_overrides, OverrideView,
};
use crate::keybinds::reread::{
    law_read_changes_are_readable, lemma_no_hash, lemma_plain_bind_is_readable, readable_change,
    says_all,
};
use crate::keybinds::{has_description, mask_in};
use crate::split::{is_trimmed, join};
use crate::text::{contains, find, holds, lemma_find_from, occurs};

verus! {

/// Changes that are read back from their lines.
pub open spec fn readable(os: Seq<OverrideView>) -> bool {
    forall|k: int| 0 <= k < os.len() ==> readable_change(#[trigger] os[k])
}

/// Whether a bindings file can take a list of changes. One with an opening
/// marker must have the closing one too; and where the block goes, for want of
/// changes, it must stand on lines of its own and no second one behind it.
pub open spec fn takes(text: Seq<char>, os: Seq<OverrideView>) -> bool {
    match located(text, block_open(), block_close()) {
        Some((i, j)) => os.len() > 0 || starts_line(text, i) && !contains(
            text.skip(block_end(text, j, block_close())),
            block_open(),
        ),
        None => os.len() == 0 || !contains(text, block_open()),
    }
}

/// The block of readable changes does not hold its own closing marker.
proof fn lemma_body_has_no_marker(os: Seq<OverrideView>)
    requires
        readable(os),
    ensures
        !contains(block_body(os), block_close()),
{
    let header = "# Managed by Omarchy Studio — your keybind changes live here."@;
    reveal_strlit("# Managed by Omarchy Studio — your keybind changes live here.");
    reveal_strlit("# Managed by Omarchy Studio — your keybind changes live here.\n");
    reveal_strlit("# ");
    reveal_strlit("<<< omarchy-studio:");
    reveal_strlit("\n");
    reveal_strlit("keybinds");
    let close = block_close();
    assert(close[0] == '#' && close[2] == '<');
    lemma_markers("keybinds"@, CommentStyle::Hash);
    let lines = override_lines(os);
    let all = seq![header] + lines;
    assert forall|k: int| 0 <= k < all.len() implies !contains(#[trigger] all[k], close) by {
        if k > 0 {
            assert(all[k] == override_line(os[k - 1]));
        } else if contains(header, close) {
            let at = choose|at: int| occurs(header, close, at);
            let part = header.subrange(at, at + close.len());
            assert(part[0] == '#' && part[2] == '<');
            assert(header[at] == '#' && header[at + 2] == '<');
        }
    }
    lemma_within_line(all, close);
    if os.len() == 0 {
        assert(lines == Seq::<Seq<char>>::empty());
        assert(all == seq![header]);
        if contains(block_body(os), close) {
            let at = choose|at: int| occurs(block_body(os), close, at);
            assert(block_body(os) == header + seq!['\n'] + Seq::<char>::empty());
            lemma_one_side(header, Seq::empty(), close, at);
            assert(contains(all[0], close));
        }
    } else {
        assert(all.skip(1) == lines);
        assert(join(all, "\n"@) == header + "\n"@ + join(lines, "\n"@));
        assert(block_body(os) == join(all, "\n"@));
    }
}

/// Changes that can be spelled and hold no `#` can be read back.
pub proof fn law_changes_without_hash_are_readable(os: Seq<OverrideView>)
    requires
        forall|k: int|
            0 <= k < os.len() ==> spellable_change(#[trigger] os[k]) && !holds(
                override_line(os[k]),
                '#',
            ),
    ensures
        readable(os),
{
    assert forall|k: int| 0 <= k < os.len() implies readable_change(#[trigger] os[k]) by {
        lemma_no_hash(override_line(os[k]));
    }
}

/// Without its block a file has none, where there was but one.
proof fn lemma_block_gone(text: Seq<char>)
    requires
        takes(text, Seq::empty()),
    ensures
        located(removed(text, block_open(), block_close()), block_open(), block_close()) is None,
{
    reveal_strlit("keybinds");
    let open = block_open();
    let close = block_close();
    lemma_markers("keybinds"@, CommentStyle::Hash);
    if let Some((i, j)) = located(text, open, close) {
        let end = block_end(text, j, close);
        let rest = text.skip(end);
        let now = removed(text, open, close);
        lemma_find_from(text, open, 0);
        if find(now, open) is Some {
            let k = find(now, open)->0;
            lemma_find_from(now, open, 0);
            assert(occurs(now, open, k));
            if i == 0 {
                assert(now == rest);
            } else {
                let front = text.take(i - 1);
                assert(now == front + seq!['\n'] + rest);
                lemma_one_side(front, rest, open, k);
                if k + open.len() <= front.len() {
                    assert(text.subrange(k, k + open.len()) == front.subrange(k, k + open.len()));
                    assert(occurs(text, open, k));
                }
            }
        }
    }
}

/// What is read from a bindings file after changes were written to it is those
/// changes, none where none were written; and writing them again changes nothing.
pub proof fn law_written_changes_read_back(text: Seq<char>, os: Seq<OverrideView>)
    requires
        readable(os),
        takes(text, os),
    ensures
        overrides_in(with_overrides(text, os)) == os,
        with_overrides(with_overrides(text, os), os) == with_overrides(text, os),
{
    if os.len() == 0 {
        assert(os == Seq::<OverrideView>::empty());
        lemma_block_gone(text);
    } else {
        lemma_body_has_no_marker(os);
        assert forall|k: int| 0 <= k < os.len() implies spellable_change(#[trigger] os[k]) by {
            assert(readable_change(os[k]));
        }
        law_changes_read_back(text, os);
        reveal_strlit("keybinds");
        law_write_then_read(text, "keybinds"@, CommentStyle::Hash, block_body(os));
    }
}

/// The bindings file after a plan was applied; without a plan it stays.
pub open spec fn file_after(on_disk: Option<Seq<char>>, plan: Option<PlanView>) -> Option<
    Seq<char>,
> {
    match plan {
        Some(p) => Some(p.edits[0].new_content),
        None => on_disk,
    }
}

/// What is read from the bindings file after a plan for some changes was applied
/// is those changes, also where there was nothing to apply; and then there is
/// nothing more to apply for them.
pub proof fn law_applied_changes_read_back(
    path: Seq<char>,
    on_disk: Option<Seq<char>>,
    os: Seq<OverrideView>,
    summary: Seq<char>,
    hypr_usable: bool,
)
    requires
        readable(os),
        takes(content(on_disk), os),
    ensures
        ({
            let now = file_after(on_disk, overrides_plan(path, on_disk, os, summary, hypr_usable));
            overrides_on(now) == os && overrides_plan(path, now, os, summary, hypr_usable) is None
        }),
{
    law_written_changes_read_back(content(on_disk), os);
    if on_disk is None && with_overrides(content(on_disk), os) == content(on_disk) {
        let none = content(on_disk);
        reveal_strlit("keybinds");
        lemma_markers("keybinds"@, CommentStyle::Hash);
        if find(none, block_open()) is Some {
            lemma_find_from(none, block_open(), 0);
        }
        assert(overrides_in(none) == Seq::<OverrideView>::empty());
    }
}

/// The changes of a file, all of which its lines say in full, are readable.
pub proof fn lemma_file_is_readable(on_disk: Option<Seq<char>>)
    requires
        all_said(on_disk),
    ensures
        readable(overrides_on(on_disk)),
{
    if let Some(text) = on_disk {
        law_read_changes_are_readable(text);
    }
}

/// Whether the changes of a file are such that their lines say all of them: each
/// modifier has a name, and there is no argument without a dispatcher.
pub open spec fn all_said(on_disk: Option<Seq<char>>) -> bool {
    forall|k: int|
        0 <= k < overrides_on(on_disk).len() ==> says_all(#[trigger] overrides_on(on_disk)[k])
}

proof fn lemma_unmarked_readable(os: Seq<OverrideView>, desc: Seq<char>)
    requires
        readable(os),
    ensures
        readable(unmarked(os, desc)),
    decreases os.len(),
{
    reveal(Seq::filter);
    if os.len() > 0 {
        let front = os.drop_last();
        assert forall|k: int| 0 <= k < front.len() implies readable_change(#[trigger] front[k]) by {
            assert(front[k] == os[k]);
        }
        lemma_unmarked_readable(front, desc);
        let before = unmarked(front, desc);
        let kept = unmarked(os, desc);
        assert(readable_change(os[os.len() - 1]));
        assert forall|k: int| 0 <= k < kept.len() implies readable_change(#[trigger] kept[k]) by {
            if k < before.len() {
                assert(kept[k] == before[k]);
            } else {
                assert(kept[k] == os.last());
            }
        }
    }
}

/// A field that stands on one line and holds no `#`.
pub open spec fn is_tidy(s: Seq<char>) -> bool {
    is_trimmed(s) && !holds(s, '\n') && !holds(s, '#')
}

/// The fields of a marked bind that its line can spell.
pub open spec fn are_marked_fields(
    desc: Seq<char>,
    mods: Seq<char>,
    key: Seq<char>,
    dispatcher: Seq<char>,
    arg: Seq<char>,
) -> bool {
    &&& is_tidy(desc) && !holds(desc, ',')
    &&& shown(mask_in(mods)) == mask_in(mods)
    &&& is_tidy(key) && !holds(key, ',')
    &&& is_tidy(dispatcher) && !holds(dispatcher, ',') && dispatcher.len() > 0
    &&& is_tidy(arg)
}

pub proof fn lemma_marked_is_readable(
    desc: Seq<char>,
    mods: Seq<char>,
    key: Seq<char>,
    dispatcher: Seq<char>,
    arg: Seq<char>,
)
    requires
        are_marked_fields(desc, mods, key, dispatcher, arg),
    ensures
        readable_change(OverrideView::Bind(marked_bind(desc, mods, key, dispatcher, arg))),
{
    let b = marked_bind(desc, mods, key, dispatcher, arg);
    reveal_strlit("bindd");
    reveal_strlit("bind");
    assert(b.flags.take(4) == "bind"@);
    assert(b.flags.skip(4)[0] == 'd');
    assert(has_description(b.flags));
    lemma_plain_bind_is_readable(b);
}

/// A bind that was installed under a marker stands in the file behind the old
/// changes, those with the same marker left out, and is found by its marker.
pub proof fn law_installed_bind_reads_back(
    path: Seq<char>,
    on_disk: Option<Seq<char>>,
    desc: Seq<char>,
    mods: Seq<char>,
    key: Seq<char>,
    dispatcher: Seq<char>,
    arg: Seq<char>,
    summary: Seq<char>,
    hypr_usable: bool,
)
    requires
        are_marked_fields(desc, mods, key, dispatcher, arg),
        all_said(on_disk),
        takes(
            content(on_disk),
            with_marked(
                overrides_on(on_disk),
                desc,
                marked_bind(desc, mods, key, dispatcher, arg),
            ),
        ),
    ensures
        ({
            let b = marked_bind(desc, mods, key, dispatcher, arg);
            let os = with_marked(overrides_on(on_disk), desc, b);
            let plan = overrides_plan(path, on_disk, os, summary, hypr_usable);
            let now = overrides_on(file_after(on_disk, plan));
            &&& now == unmarked(overrides_on(on_disk), desc).push(OverrideView::Bind(b))
            &&& first_marked(now, desc) == Some(b)
            &&& forall|k: int| 0 <= k < now.len() - 1 ==> !is_marked(#[trigger] now[k], desc)
        }),
{
    let b = marked_bind(desc, mods, key, dispatcher, arg);
    let old = overrides_on(on_disk);
    let kept = unmarked(old, desc);
    let os = with_marked(old, desc, b);
    lemma_file_is_readable(on_disk);
    lemma_unmarked_readable(old, desc);
    lemma_marked_is_readable(desc, mods, key, dispatcher, arg);
    assert forall|k: int| 0 <= k < os.len() implies readable_change(#[trigger] os[k]) by {
        if k < kept.len() {
            assert(os[k] == kept[k]);
        }
    }
    law_applied_changes_read_back(path, on_disk, os, summary, hypr_usable);
    law_marked_bind_is_found(old, desc, b);
    lemma_unmarked(old, desc);
    assert forall|k: int| 0 <= k < os.len() - 1 implies !is_marked(#[trigger] os[k], desc) by {
        assert(os[k] == kept[k]);
    }
}

/// After a marked bind was taken out the file has the other changes, in their
/// order, and there is nothing left to take out.
pub proof fn law_removed_bind_is_gone(
    path: Seq<char>,
    on_disk: Option<Seq<char>>,
    desc: Seq<char>,
    summary: Seq<char>,
    hypr_usable: bool,
)
    requires
        all_said(on_disk),
        takes(content(on_disk), unmarked(overrides_on(on_disk), desc)),
    ensures
        ({
            let kept = unmarked(overrides_on(on_disk), desc);
            let plan = overrides_plan(path, on_disk, kept, summary, hypr_usable);
            let now = overrides_on(file_after(on_disk, plan));
            now == kept && unmarked(now, desc).len() == now.len()
        }),
{
    let os = overrides_on(on_disk);
    lemma_file_is_readable(on_disk);
    lemma_unmarked_readable(os, desc);
    law_applied_changes_read_back(path, on_disk, unmarked(os, desc), summary, hypr_usable);
    lemma_unmarked(os, desc);
    lemma_filter_unmarked(unmarked(os, desc), desc);
}

/// A marked bind is there to be taken out just where one of the changes carries
/// the marker.
pub proof fn law_removal_hits_what_is_marked(os: Seq<OverrideView>, desc: Seq<char>)
    ensures
        unmarked(os, desc).len() < os.len() <==> exists|k: int|
            0 <= k < os.len() && is_marked(#[trigger] os[k], desc),
        unmarked(os, desc).len() <= os.len(),
    decreases os.len(),
{
    reveal(Seq::filter);
    if os.len() > 0 {
        let front = os.drop_last();
        law_removal_hits_what_is_marked(front, desc);
        if exists|k: int| 0 <= k < front.len() && is_marked(#[trigger] front[k], desc) {
            let k = choose|k: int| 0 <= k < front.len() && is_marked(#[trigger] front[k], desc);
            assert(is_marked(os[k], desc));
        }
        if is_marked(os.last(), desc) {
            assert(is_marked(os[os.len() - 1], desc));
        }
        assert forall|k: int| 0 <= k < os.len() && is_marked(#[trigger] os[k], desc) implies unmarked(
            os,
            desc,
        ).len() < os.len() by {
            if k < front.len() {
                assert(is_marked(front[k], desc));
            }
        }
    }
}

} // verus!
