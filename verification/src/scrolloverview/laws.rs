//! What holds of the overview's settings and binds as a whole.

use vstd::prelude::*;

use crate::configfs::managed::{
    CommentStyle, close_marker, law_write_then_read, lemma_within_line, located, upserted, wrapped,
};
use crate::decimal::{fixed_text, lemma_fixed_reads_back};
use crate::engine::content;
use crate::keybinds::overrides::{OverrideView, is_marked, overrides_on, overrides_plan};
use crate::keybinds::laws::{law_modifiers_read_back, shown};
use crate::keybinds::reread::readable_change;
use crate::keybinds::written::{
    all_said, are_marked_fields, file_after, law_applied_changes_read_back, lemma_file_is_readable,
    lemma_marked_is_readable, readable, takes,
};
use crate::keybinds::{mask_in, mod_names};
use crate::number::{bool_text, int_text, lemma_parse_of_text};
use crate::paths::OmarchyPaths;
use crate::scrolloverview::{
    AUTHOR, AUTOLOAD_LINE, LICENSE, NavView, PLUGIN, REPO, SettingsView, all_nav, autoload_closing,
    autoload_edit, autoload_opening, closing, conf, default_settings, is_ours, is_there,
    loads_plugins, nav_change, nav_complete, opening, others, settings_in, settings_lines,
    source_closing, source_edit, source_opening, source_text, with_line, with_lines, with_nav,
    with_settings,
};
use crate::split::{all_space, is_trimmed, join, lemma_trim_padded, lemma_trim_result, lines};
use crate::text::{
    contains, holds, is_digit, is_space, lemma_find_from, lemma_pos_is, occurs, pos, trim,
};

verus! {

// -------------------------------------------------------------------- text helpers

proof fn lemma_holds_sum(a: Seq<char>, b: Seq<char>, c: char)
    ensures
        holds(a + b, c) <==> holds(a, c) || holds(b, c),
{
    if holds(a + b, c) {
        let i = choose|i: int| 0 <= i < (a + b).len() && (a + b)[i] == c;
        if i < a.len() {
            assert(a[i] == c);
        } else {
            assert(b[i - a.len()] == c);
        }
    }
    if holds(a, c) {
        let i = choose|i: int| 0 <= i < a.len() && a[i] == c;
        assert((a + b)[i] == c);
    }
    if holds(b, c) {
        let i = choose|i: int| 0 <= i < b.len() && b[i] == c;
        assert((a + b)[a.len() + i] == c);
    }
}

/// A line that stays whole when lines are joined and taken apart again.
pub open spec fn is_whole(line: Seq<char>) -> bool {
    !holds(line, '\n') && (line.len() == 0 || line.last() != '\r')
}

pub proof fn lemma_lines_of_join(ls: Seq<Seq<char>>)
    requires
        ls.len() > 0,
        ls.last().len() > 0,
        forall|i: int| 0 <= i < ls.len() ==> is_whole(#[trigger] ls[i]),
    ensures
        lines(join(ls, "\n"@)) == ls,
    decreases ls.len(),
{
    reveal_strlit("\n");
    assert("\n"@ == seq!['\n']);
    let head = ls[0];
    let tail = ls.skip(1);
    assert(is_whole(ls[0]));
    let all = join(ls, "\n"@);
    if ls.len() == 1 {
        lemma_pos_is(head, '\n', head.len() as int);
        assert(lines(all) =~= ls);
    } else {
        assert forall|i: int| 0 <= i < tail.len() implies is_whole(#[trigger] tail[i]) by {
            assert(tail[i] == ls[i + 1]);
        }
        assert(tail.last() == ls.last());
        lemma_lines_of_join(tail);
        let more = join(tail, "\n"@);
        assert(all == head + seq!['\n'] + more);
        lemma_pos_is(all, '\n', head.len() as int);
        assert(all.take(head.len() as int) =~= head);
        assert(all.skip(head.len() + 1int) =~= more);
        assert(lines(all) == seq![head] + lines(more));
        assert(lines(all) =~= ls);
    }
}

// ----------------------------------------------------------------------- settings

/// A settings line gives its key and its value.
pub proof fn lemma_field(pad: Seq<char>, key: Seq<char>, value: Seq<char>)
    requires
        all_space(pad),
        key.len() > 0,
        is_trimmed(key),
        !holds(key, '='),
        is_trimmed(value),
    ensures
        ({
            let t = trim(pad + key + " = "@ + value);
            &&& holds(t, '=')
            &&& trim(t.take(pos(t, '='))) == key
            &&& trim(t.skip(pos(t, '=') + 1)) == value
        }),
{
    reveal_strlit(" = ");
    let line = pad + key + " = "@ + value;
    let none = Seq::<char>::empty();
    let core = if value.len() > 0 {
        key + " = "@ + value
    } else {
        key + seq![' ', '=']
    };
    let after = if value.len() > 0 {
        none
    } else {
        seq![' ']
    };
    assert(line =~= pad + core + after);
    assert(core[0] == key[0]);
    assert(is_trimmed(core)) by {
        if value.len() > 0 {
            assert(core.last() == value.last());
        } else {
            assert(core.last() == '=');
        }
    }
    lemma_trim_padded(pad, core, after);
    let t = trim(line);
    assert(t == core);
    let p = key.len() as int + 1;
    assert(t[p] == '=');
    assert forall|j: int| 0 <= j < p implies t[j] != '=' by {
        if j < key.len() {
            assert(t[j] == key[j]);
        }
    }
    lemma_pos_is(t, '=', p);
    assert(t.take(p) =~= none + key + seq![' ']);
    lemma_trim_padded(none, key, seq![' ']);
    if value.len() > 0 {
        assert(t.skip(p + 1) =~= seq![' '] + value + none);
        lemma_trim_padded(seq![' '], value, none);
    } else {
        assert(t.skip(p + 1) =~= none);
        assert(value =~= none);
        assert(trim(none) == none);
    }
}

proof fn lemma_step(s: SettingsView, ls: Seq<Seq<char>>, k: int)
    requires
        0 <= k < ls.len(),
    ensures
        with_lines(s, ls.take(k + 1)) == with_line(with_lines(s, ls.take(k)), ls[k]),
{
    assert(ls.take(k + 1).drop_last() =~= ls.take(k));
    assert(ls.take(k + 1).last() == ls[k]);
}

/// A line that gives nothing.
pub proof fn lemma_silent(s: SettingsView, line: Seq<char>)
    requires
        !holds(line, '='),
    ensures
        with_line(s, line) == s,
{
    lemma_trim_result(line);
}

proof fn lemma_number_trimmed(v: Seq<char>)
    requires
        v.len() > 0,
        forall|i: int| 0 <= i < v.len() ==> is_digit(#[trigger] v[i]) || v[i] == '-' || v[i] == '.',
    ensures
        is_trimmed(v),
        !holds(v, '\n'),
        !holds(v, '#'),
        v.last() != '\r',
{
    assert(is_digit(v[0]) || v[0] == '-' || v[0] == '.');
    assert(is_digit(v[v.len() - 1]) || v[v.len() - 1] == '-' || v[v.len() - 1] == '.');
}

/// Settings that their block can spell: the scale has two digits behind the
/// point, and the layout fits on a line.
pub open spec fn spellable(s: SettingsView) -> bool {
    &&& s.scale % 10000 == 0
    &&& is_trimmed(s.layout)
    &&& !holds(s.layout, '\n')
    &&& !contains(s.layout, closing())
}

proof fn lemma_scale_line(s: SettingsView, to: SettingsView)
    requires
        to.scale % 10000 == 0,
    ensures
        with_line(s, "        scale = "@ + fixed_text(to.scale as int)) == (SettingsView {
            scale: to.scale,
            ..s
        }),
{
    reveal_strlit("        scale = ");
    reveal_strlit("        ");
    reveal_strlit("scale");
    reveal_strlit(" = ");
    lemma_fixed_reads_back(to.scale);
    let v = fixed_text(to.scale as int);
    lemma_number_trimmed(v);
    assert("        scale = "@ + v =~= "        "@ + "scale"@ + " = "@ + v);
    lemma_field("        "@, "scale"@, v);
}

proof fn lemma_layout_line(s: SettingsView, to: SettingsView)
    requires
        is_trimmed(to.layout),
    ensures
        with_line(s, "        layout = "@ + to.layout) == (SettingsView { layout: to.layout, ..s }),
{
    reveal_strlit("        layout = ");
    reveal_strlit("        ");
    reveal_strlit("scale");
    reveal_strlit("layout");
    reveal_strlit(" = ");
    assert("        layout = "@ + to.layout =~= "        "@ + "layout"@ + " = "@ + to.layout);
    lemma_field("        "@, "layout"@, to.layout);
    assert("layout"@.len() != "scale"@.len());
}

proof fn lemma_gap_line(s: SettingsView, n: i64)
    ensures
        with_line(s, "        workspace_gap = "@ + int_text(n as int)) == (SettingsView {
            workspace_gap: n,
            ..s
        }),
{
    reveal_strlit("        workspace_gap = ");
    reveal_strlit("        ");
    reveal_strlit("scale");
    reveal_strlit("layout");
    reveal_strlit("workspace_gap");
    reveal_strlit(" = ");
    lemma_parse_of_text(n as int);
    let v = int_text(n as int);
    lemma_number_trimmed(v);
    assert("        workspace_gap = "@ + v =~= "        "@ + "workspace_gap"@ + " = "@ + v);
    lemma_field("        "@, "workspace_gap"@, v);
    assert("workspace_gap"@.len() == 13 && "scale"@.len() == 5 && "layout"@.len() == 6);
}

proof fn lemma_blur_line(s: SettingsView, b: bool)
    ensures
        with_line(s, "        blur = "@ + bool_text(b)) == (SettingsView { blur: b, ..s }),
{
    reveal_strlit("        blur = ");
    reveal_strlit("        ");
    reveal_strlit("scale");
    reveal_strlit("layout");
    reveal_strlit("workspace_gap");
    reveal_strlit("blur");
    reveal_strlit(" = ");
    reveal_strlit("true");
    reveal_strlit("false");
    let v = bool_text(b);
    assert("        blur = "@ + v =~= "        "@ + "blur"@ + " = "@ + v);
    lemma_field("        "@, "blur"@, v);
    assert("blur"@.len() == 4 && "scale"@.len() == 5 && "layout"@.len() == 6
        && "workspace_gap"@.len() == 13);
    assert("true"@.len() != "false"@.len());
}

proof fn lemma_distance_line(s: SettingsView, n: i64)
    ensures
        with_line(s, "        gesture_distance = "@ + int_text(n as int)) == (SettingsView {
            gesture_distance: n,
            ..s
        }),
{
    reveal_strlit("        gesture_distance = ");
    reveal_strlit("        ");
    reveal_strlit("scale");
    reveal_strlit("layout");
    reveal_strlit("workspace_gap");
    reveal_strlit("blur");
    reveal_strlit("gesture_distance");
    reveal_strlit(" = ");
    lemma_parse_of_text(n as int);
    let v = int_text(n as int);
    lemma_number_trimmed(v);
    assert("        gesture_distance = "@ + v =~= "        "@ + "gesture_distance"@ + " = "@ + v);
    lemma_field("        "@, "gesture_distance"@, v);
    assert("gesture_distance"@.len() == 16 && "scale"@.len() == 5 && "layout"@.len() == 6
        && "workspace_gap"@.len() == 13 && "blur"@.len() == 4);
}

/// The lines that give nothing.
proof fn lemma_plain_lines(s: SettingsView)
    ensures
        ({
            let ls = settings_lines(s);
            &&& forall|i: int|
                0 <= i < 4 || 9 <= i < 11 ==> !holds(#[trigger] ls[i], '=') && is_whole(ls[i])
            &&& forall|i: int| 2 <= i < 4 || 9 <= i < 11 ==> !holds(#[trigger] ls[i], '#')
            &&& forall|i: int| 0 <= i < 2 ==> (#[trigger] ls[i]).len() > 2 && ls[i][2] != '<'
            &&& forall|i: int, j: int|
                0 <= i < 2 && 1 <= j < ls[i].len() ==> #[trigger] ls[i][j] != '#'
        }),
{
    reveal_strlit("# Managed by Omarchy Studio — ScrollOverview by ");
    reveal_strlit("yayuuu");
    reveal_strlit(" (");
    reveal_strlit("BSD-3-Clause");
    reveal_strlit(").");
    reveal_strlit("# Upstream: ");
    reveal_strlit("https://github.com/yayuuu/hyprland-scroll-overview.git");
    reveal_strlit("plugin {");
    reveal_strlit("    ");
    reveal_strlit("scrolloverview");
    reveal_strlit(" {");
    reveal_strlit("    }");
    reveal_strlit("}");
    let ls = settings_lines(s);
    let a = "# Managed by Omarchy Studio — ScrollOverview by "@;
    let b = a + AUTHOR@;
    let c = b + " ("@;
    let d = c + LICENSE@;
    lemma_holds_sum(a, AUTHOR@, '=');
    lemma_holds_sum(b, " ("@, '=');
    lemma_holds_sum(c, LICENSE@, '=');
    lemma_holds_sum(d, ")."@, '=');
    lemma_holds_sum(a, AUTHOR@, '\n');
    lemma_holds_sum(b, " ("@, '\n');
    lemma_holds_sum(c, LICENSE@, '\n');
    lemma_holds_sum(d, ")."@, '\n');
    assert(ls[0] == d + ")."@);
    assert(ls[0][2] == a[2]);
    assert forall|j: int| 1 <= j < ls[0].len() implies #[trigger] ls[0][j] != '#' by {
        if j < a.len() {
            assert(ls[0][j] == a[j]);
        } else if j < b.len() {
            assert(ls[0][j] == AUTHOR@[j - a.len()]);
        } else if j < c.len() {
            assert(ls[0][j] == " ("@[j - b.len()]);
        } else if j < d.len() {
            assert(ls[0][j] == LICENSE@[j - c.len()]);
        } else {
            assert(ls[0][j] == ")."@[j - d.len()]);
        }
    }
    let u = "# Upstream: "@;
    lemma_holds_sum(u, REPO@, '=');
    lemma_holds_sum(u, REPO@, '\n');
    assert(ls[1] == u + REPO@);
    assert(ls[1][2] == u[2]);
    assert forall|j: int| 1 <= j < ls[1].len() implies #[trigger] ls[1][j] != '#' by {
        if j < u.len() {
            assert(ls[1][j] == u[j]);
        } else {
            assert(ls[1][j] == REPO@[j - u.len()]);
        }
    }
    let w = "    "@ + PLUGIN@;
    lemma_holds_sum("    "@, PLUGIN@, '=');
    lemma_holds_sum(w, " {"@, '=');
    lemma_holds_sum("    "@, PLUGIN@, '\n');
    lemma_holds_sum(w, " {"@, '\n');
    lemma_holds_sum("    "@, PLUGIN@, '#');
    lemma_holds_sum(w, " {"@, '#');
    assert(ls[3] == w + " {"@);
}

/// The lines that give something stay whole.
proof fn lemma_field_lines(s: SettingsView)
    requires
        spellable(s),
    ensures
        forall|i: int| 4 <= i < 9 ==> is_whole(#[trigger] settings_lines(s)[i]),
        forall|i: int|
            4 <= i < 9 && i != 5 ==> !holds(#[trigger] settings_lines(s)[i], '#'),
{
    reveal_strlit("        scale = ");
    reveal_strlit("        layout = ");
    reveal_strlit("        workspace_gap = ");
    reveal_strlit("        blur = ");
    reveal_strlit("        gesture_distance = ");
    reveal_strlit("true");
    reveal_strlit("false");
    lemma_fixed_reads_back(s.scale);
    lemma_parse_of_text(s.workspace_gap as int);
    lemma_parse_of_text(s.gesture_distance as int);
    let scale = fixed_text(s.scale as int);
    let gap = int_text(s.workspace_gap as int);
    let distance = int_text(s.gesture_distance as int);
    lemma_number_trimmed(scale);
    lemma_number_trimmed(gap);
    lemma_number_trimmed(distance);
    let ls = settings_lines(s);
    lemma_holds_sum("        scale = "@, scale, '\n');
    lemma_holds_sum("        scale = "@, scale, '#');
    assert(ls[4].last() == scale.last());
    lemma_holds_sum("        layout = "@, s.layout, '\n');
    assert(is_whole(ls[5])) by {
        if s.layout.len() > 0 {
            assert(ls[5].last() == s.layout.last());
            assert(is_space('\r'));
        } else {
            assert(ls[5] =~= "        layout = "@);
        }
    }
    lemma_holds_sum("        workspace_gap = "@, gap, '\n');
    lemma_holds_sum("        workspace_gap = "@, gap, '#');
    assert(ls[6].last() == gap.last());
    lemma_holds_sum("        blur = "@, bool_text(s.blur), '\n');
    lemma_holds_sum("        blur = "@, bool_text(s.blur), '#');
    assert(ls[7].last() == bool_text(s.blur).last());
    lemma_holds_sum("        gesture_distance = "@, distance, '\n');
    lemma_holds_sum("        gesture_distance = "@, distance, '#');
    assert(ls[8].last() == distance.last());
}

/// What the lines of a block say.
proof fn lemma_lines_say(s: SettingsView, start: SettingsView)
    requires
        spellable(s),
    ensures
        with_lines(start, settings_lines(s)) == s,
{
    let ls = settings_lines(s);
    lemma_plain_lines(s);
    assert(ls.take(0) =~= Seq::<Seq<char>>::empty());
    lemma_step(start, ls, 0);
    lemma_silent(start, ls[0]);
    lemma_step(start, ls, 1);
    lemma_silent(start, ls[1]);
    lemma_step(start, ls, 2);
    lemma_silent(start, ls[2]);
    lemma_step(start, ls, 3);
    lemma_silent(start, ls[3]);
    assert(with_lines(start, ls.take(4)) == start);
    lemma_step(start, ls, 4);
    lemma_scale_line(start, s);
    let s1 = with_lines(start, ls.take(5));
    lemma_step(start, ls, 5);
    lemma_layout_line(s1, s);
    let s2 = with_lines(start, ls.take(6));
    lemma_step(start, ls, 6);
    lemma_gap_line(s2, s.workspace_gap);
    let s3 = with_lines(start, ls.take(7));
    lemma_step(start, ls, 7);
    lemma_blur_line(s3, s.blur);
    let s4 = with_lines(start, ls.take(8));
    lemma_step(start, ls, 8);
    lemma_distance_line(s4, s.gesture_distance);
    let s5 = with_lines(start, ls.take(9));
    assert(s5 == s);
    lemma_step(start, ls, 9);
    lemma_silent(s5, ls[9]);
    lemma_step(start, ls, 10);
    lemma_silent(s5, ls[10]);
    assert(ls.take(11) =~= ls);
}

proof fn lemma_marker(name: Seq<char>)
    ensures
        close_marker(name, CommentStyle::Hash).len() > 2,
        close_marker(name, CommentStyle::Hash)[0] == '#',
        close_marker(name, CommentStyle::Hash)[2] == '<',
        !holds(name, '\n') ==> !holds(close_marker(name, CommentStyle::Hash), '\n'),
{
    reveal_strlit("# ");
    reveal_strlit("<<< omarchy-studio:");
    reveal_strlit(" <<<");
    reveal_strlit("");
    let a = "# "@ + "<<< omarchy-studio:"@;
    let c = close_marker(name, CommentStyle::Hash);
    assert(c =~= a + (name + " <<<"@));
    assert(c[0] == a[0]);
    assert(c[2] == a[2]);
    lemma_holds_sum("# "@, "<<< omarchy-studio:"@, '\n');
    lemma_holds_sum(name, " <<<"@, '\n');
    lemma_holds_sum(a, name + " <<<"@, '\n');
}

proof fn lemma_free(line: Seq<char>, pat: Seq<char>)
    requires
        !holds(line, '#'),
        pat.len() > 0,
        pat[0] == '#',
    ensures
        !contains(line, pat),
{
    if contains(line, pat) {
        let k = choose|k: int| occurs(line, pat, k);
        assert(line.subrange(k, k + pat.len())[0] == line[k]);
    }
}

/// The block does not spell its own closing marker.
proof fn lemma_lines_unmarked(s: SettingsView)
    requires
        spellable(s),
    ensures
        !contains(join(settings_lines(s), "\n"@), closing()),
        !holds("scrolloverview"@, '\n'),
{
    reveal_strlit("scrolloverview");
    let pat = closing();
    lemma_marker("scrolloverview"@);
    lemma_plain_lines(s);
    lemma_field_lines(s);
    let ls = settings_lines(s);
    assert forall|i: int| 0 <= i < ls.len() implies !contains(#[trigger] ls[i], pat) by {
        if i < 2 {
            if contains(ls[i], pat) {
                let k = choose|k: int| occurs(ls[i], pat, k);
                let at = ls[i].subrange(k, k + pat.len());
                assert(at[0] == ls[i][k]);
                assert(at[2] == ls[i][k + 2]);
            }
        } else if i == 5 {
            reveal_strlit("        layout = ");
            let head = "        layout = "@;
            if contains(ls[i], pat) {
                let k = choose|k: int| occurs(ls[i], pat, k);
                let at = ls[i].subrange(k, k + pat.len());
                assert(at[0] == ls[i][k]);
                if k < head.len() {
                    assert(ls[i][k] == head[k]);
                } else {
                    assert(s.layout.subrange(k - head.len(), k - head.len() + pat.len()) =~= at);
                    assert(occurs(s.layout, pat, k - head.len()));
                }
            }
        } else {
            lemma_free(ls[i], pat);
        }
    }
    lemma_within_line(ls, pat);
}

/// The settings that are written are what is read back, and writing them again
/// changes nothing. Where an opening marker stands a closing one must stand
/// behind it.
pub proof fn law_settings_read_back(text: Seq<char>, s: SettingsView)
    requires
        spellable(s),
        located(text, opening(), closing()) is Some || !contains(text, opening()),
    ensures
        settings_in(Some(with_settings(text, s))) == s,
        with_settings(with_settings(text, s), s) == with_settings(text, s),
{
    let ls = settings_lines(s);
    lemma_lines_unmarked(s);
    law_write_then_read(text, "scrolloverview"@, CommentStyle::Hash, join(ls, "\n"@));
    lemma_plain_lines(s);
    lemma_field_lines(s);
    reveal_strlit("}");
    assert forall|i: int| 0 <= i < ls.len() implies is_whole(#[trigger] ls[i]) by {}
    lemma_lines_of_join(ls);
    lemma_lines_say(s, default_settings());
}

// --------------------------------------------------------------------- navigation

proof fn lemma_others(os: Seq<OverrideView>)
    ensures
        forall|i: int| 0 <= i < others(os).len() ==> !is_ours(#[trigger] others(os)[i]),
    decreases os.len(),
{
    reveal(Seq::filter);
    if os.len() > 0 {
        lemma_others(os.drop_last());
        let before = others(os.drop_last());
        let all = others(os);
        assert forall|i: int| 0 <= i < all.len() implies !is_ours(#[trigger] all[i]) by {
            if i < before.len() {
                assert(all[i] == before[i]);
            }
        }
    }
}

proof fn lemma_others_stay(os: Seq<OverrideView>)
    requires
        forall|i: int| 0 <= i < os.len() ==> !is_ours(#[trigger] os[i]),
    ensures
        others(os) == os,
    decreases os.len(),
{
    reveal(Seq::filter);
    if os.len() > 0 {
        let front = os.drop_last();
        assert forall|i: int| 0 <= i < front.len() implies !is_ours(#[trigger] front[i]) by {
            assert(front[i] == os[i]);
        }
        lemma_others_stay(front);
        assert(!is_ours(os[os.len() - 1]));
        assert(others(os) =~= os);
    } else {
        assert(others(os) =~= os);
    }
}

proof fn lemma_ours_go(os: Seq<OverrideView>, more: Seq<OverrideView>)
    requires
        forall|i: int| 0 <= i < more.len() ==> is_ours(#[trigger] more[i]),
    ensures
        others(os + more) == others(os),
    decreases more.len(),
{
    reveal(Seq::filter);
    if more.len() > 0 {
        let front = more.drop_last();
        assert forall|i: int| 0 <= i < front.len() implies is_ours(#[trigger] front[i]) by {
            assert(front[i] == more[i]);
        }
        lemma_ours_go(os, front);
        assert((os + more).drop_last() =~= os + front);
        assert((os + more).last() == more[more.len() - 1]);
        assert(is_ours(more[more.len() - 1]));
    } else {
        assert(os + more =~= os);
    }
}

/// With the navigation binds put in they are all there, whatever there was;
/// taking them out, or putting them in again, is as if they had never been.
/// The other changes stay in either case.
pub proof fn law_navigation_comes_and_goes(os: Seq<OverrideView>, first: bool, next: bool)
    ensures
        nav_complete(with_nav(os, true)),
        others(with_nav(os, first)) == others(os),
        with_nav(with_nav(os, first), next) == with_nav(os, next),
{
    let binds = all_nav().map_values(|n: NavView| nav_change(n));
    assert forall|i: int| 0 <= i < binds.len() implies is_ours(#[trigger] binds[i]) by {
        assert(is_marked(binds[i], all_nav()[i].0));
    }
    lemma_others(os);
    lemma_others_stay(others(os));
    lemma_ours_go(others(os), binds);
    assert(others(with_nav(os, first)) == others(os));
    let now = with_nav(os, true);
    let n = others(os).len();
    assert forall|i: int| 0 <= i < all_nav().len() implies is_there(now, #[trigger] all_nav()[i].0) by {
        assert(now[n + i] == binds[i]);
        assert(is_marked(now[n + i], all_nav()[i].0));
    }
}

/// The modifiers of the navigation binds have names.
proof fn lemma_nav_modifiers()
    ensures
        shown(mask_in("SUPER"@)) == mask_in("SUPER"@),
        shown(mask_in("SUPER SHIFT"@)) == mask_in("SUPER SHIFT"@),
{
    reveal_strlit("SUPER");
    reveal_strlit("SHIFT");
    reveal_strlit("SUPER SHIFT");
    reveal_strlit(" ");
    let one = mod_names(64);
    let two = mod_names(65);
    assert(64u16 & 64 != 0 && 64u16 & 4 == 0 && 64u16 & 8 == 0 && 64u16 & 1 == 0 && 64u16 & 2 == 0
        && 64u16 & 128 == 0) by (bit_vector);
    assert(65u16 & 64 != 0 && 65u16 & 4 == 0 && 65u16 & 8 == 0 && 65u16 & 1 != 0 && 65u16 & 2 == 0
        && 65u16 & 128 == 0) by (bit_vector);
    assert(one =~= seq!["SUPER"@]);
    assert(two =~= seq!["SUPER"@, "SHIFT"@]);
    assert(two.skip(1) =~= seq!["SHIFT"@]);
    assert(join(one, " "@) =~= "SUPER"@);
    assert(join(two.skip(1), " "@) == "SHIFT"@);
    assert(join(two, " "@) == "SUPER"@ + " "@ + "SHIFT"@);
    assert(join(two, " "@) =~= "SUPER SHIFT"@);
    law_modifiers_read_back(64);
    law_modifiers_read_back(65);
    assert((64u16 & 207) & 207 == 64u16 & 207) by (bit_vector);
    assert((65u16 & 207) & 207 == 65u16 & 207) by (bit_vector);
}

/// The navigation binds are read back from their lines.
proof fn lemma_nav_is_readable()
    ensures
        forall|i: int| 0 <= i < all_nav().len() ==> readable_change(nav_change(#[trigger] all_nav()[i])),
{
    lemma_nav_modifiers();
    reveal_strlit("Scroll left");
    reveal_strlit("Scroll right");
    reveal_strlit("Narrow column");
    reveal_strlit("Widen column");
    reveal_strlit("Fit all columns");
    reveal_strlit("LEFT");
    reveal_strlit("RIGHT");
    reveal_strlit("MINUS");
    reveal_strlit("EQUAL");
    reveal_strlit("layoutmsg");
    reveal_strlit("focus l");
    reveal_strlit("focus r");
    reveal_strlit("colresize -0.1");
    reveal_strlit("colresize +0.1");
    reveal_strlit("fit all");
    assert forall|i: int| 0 <= i < all_nav().len() implies readable_change(
        nav_change(#[trigger] all_nav()[i]),
    ) by {
        let n = all_nav()[i];
        assert(are_marked_fields(n.0, n.1, n.2, n.3, n.4));
        lemma_marked_is_readable(n.0, n.1, n.2, n.3, n.4);
    }
}

proof fn lemma_others_readable(os: Seq<OverrideView>)
    requires
        readable(os),
    ensures
        readable(others(os)),
    decreases os.len(),
{
    reveal(Seq::filter);
    if os.len() > 0 {
        let front = os.drop_last();
        assert forall|k: int| 0 <= k < front.len() implies readable_change(#[trigger] front[k]) by {
            assert(front[k] == os[k]);
        }
        lemma_others_readable(front);
        let before = others(front);
        let kept = others(os);
        assert(readable_change(os[os.len() - 1]));
        assert forall|k: int| 0 <= k < kept.len() implies readable_change(#[trigger] kept[k]) by {
            if k < before.len() {
                assert(kept[k] == before[k]);
            } else {
                assert(kept[k] == os.last());
            }
        }
    }
}

/// What is read from the bindings file once the planned set went in or out is
/// the other changes with the set in or out, whole; and to plan the same again
/// gives nothing to apply.
pub proof fn law_navigation_reads_back(
    path: Seq<char>,
    on_disk: Option<Seq<char>>,
    on: bool,
    summary: Seq<char>,
    hypr_usable: bool,
)
    requires
        all_said(on_disk),
        takes(content(on_disk), with_nav(overrides_on(on_disk), on)),
    ensures
        ({
            let os = with_nav(overrides_on(on_disk), on);
            let plan = overrides_plan(path, on_disk, os, summary, hypr_usable);
            let now = file_after(on_disk, plan);
            &&& overrides_on(now) == os
            &&& overrides_plan(
                path,
                now,
                with_nav(overrides_on(now), on),
                summary,
                hypr_usable,
            ) is None
        }),
{
    let old = overrides_on(on_disk);
    let os = with_nav(old, on);
    lemma_file_is_readable(on_disk);
    lemma_others_readable(old);
    lemma_nav_is_readable();
    let rest = others(old);
    assert forall|k: int| 0 <= k < os.len() implies readable_change(#[trigger] os[k]) by {
        if k < rest.len() {
            assert(os[k] == rest[k]);
        } else {
            assert(os[k] == nav_change(all_nav()[k - rest.len()]));
        }
    }
    law_applied_changes_read_back(path, on_disk, os, summary, hypr_usable);
    law_navigation_comes_and_goes(old, on, on);
}

// ----------------------------------------------------------------------- sourcing

proof fn lemma_block_holds_body(
    text: Seq<char>,
    open: Seq<char>,
    body: Seq<char>,
    close: Seq<char>,
)
    requires
        open.len() > 0,
    ensures
        contains(upserted(text, open, body, close), body),
{
    let all = upserted(text, open, body, close);
    let pre = match located(text, open, close) {
        Some((i, j)) => text.take(i),
        None => crate::configfs::managed::line_ended(text),
    };
    lemma_find_from(text, open, 0);
    let at = pre.len() + open.len() + 1int;
    let block = wrapped(open, body, close);
    assert(block =~= open.push('\n') + body + (seq!['\n'] + close.push('\n')));
    assert(all.subrange(at, at + body.len()) =~= body) by {
        assert(all.len() >= pre.len() + block.len());
        assert forall|i: int| 0 <= i < body.len() implies all[at + i] == body[i] by {
            assert(all[at + i] == block[open.len() + 1 + i]);
        }
    }
    assert(occurs(all, body, at));
}

proof fn lemma_contains_part(s: Seq<char>, a: Seq<char>, b: Seq<char>)
    requires
        contains(s, a + b),
    ensures
        contains(s, a),
        contains(s, b),
{
    let k = choose|k: int| occurs(s, a + b, k);
    let at = s.subrange(k, k + (a + b).len());
    assert(s.subrange(k, k + a.len()) =~= a) by {
        assert(at.take(a.len() as int) =~= a);
    }
    assert(occurs(s, a, k));
    assert(s.subrange(k + a.len(), k + a.len() + b.len()) =~= b) by {
        assert(at.skip(a.len() as int) =~= b);
    }
    assert(occurs(s, b, k + a.len()));
}

/// Once the settings file is sourced, Hyprland's file is seen to name it, and
/// sourcing it again changes nothing.
pub proof fn law_sourcing_holds(paths: &OmarchyPaths, text: Seq<char>)
    requires
        !contains(source_text(paths), source_closing()),
        located(text, source_opening(), source_closing()) is Some || !contains(
            text,
            source_opening(),
        ),
    ensures
        ({
            let now = upserted(text, source_opening(), source_text(paths), source_closing());
            contains(now, conf(paths)) && source_edit(paths, Some(now)) is None
        }),
{
    reveal_strlit("scrolloverview-source");
    reveal_strlit("# ");
    let name = "scrolloverview-source"@;
    law_write_then_read(text, name, CommentStyle::Hash, source_text(paths));
    assert(source_opening().len() > 0);
    lemma_block_holds_body(text, source_opening(), source_text(paths), source_closing());
    let now = upserted(text, source_opening(), source_text(paths), source_closing());
    lemma_contains_part(now, "source = "@, conf(paths));
}

/// Once the plugins are loaded at the start, the file is seen to do so, and
/// nothing is left to plan.
pub proof fn law_autoload_holds(paths: &OmarchyPaths, text: Seq<char>)
    requires
        located(text, autoload_opening(), autoload_closing()) is Some || !contains(
            text,
            autoload_opening(),
        ),
    ensures
        ({
            let now = upserted(text, autoload_opening(), AUTOLOAD_LINE@, autoload_closing());
            loads_plugins(Some(now)) && autoload_edit(paths, Some(now)) is None
        }),
{
    reveal_strlit("plugin-autoload");
    reveal_strlit("# ");
    reveal_strlit("exec-once = hyprpm reload -n");
    reveal_strlit("hyprpm reload");
    let name = "plugin-autoload"@;
    lemma_marker(name);
    let line = AUTOLOAD_LINE@;
    assert(!holds(line, '#'));
    lemma_free(line, autoload_closing());
    law_write_then_read(text, name, CommentStyle::Hash, line);
    assert(autoload_opening().len() > 0);
    lemma_block_holds_body(text, autoload_opening(), line, autoload_closing());
    let now = upserted(text, autoload_opening(), line, autoload_closing());
    let a = line.take(12);
    let b = line.skip(25);
    assert(line =~= a + ("hyprpm reload"@ + b));
    lemma_contains_part(now, a, "hyprpm reload"@ + b);
    lemma_contains_part(now, "hyprpm reload"@, b);
}

} // verus!
