//! What is saved reads back.

use vstd::prelude::*;

use crate::configfs::hyprlang::{
    EntryView, LineView, entries_from, entries_in, line_view, stack_after,
};
use crate::configfs::managed::{
    CommentStyle, law_write_then_read, law_write_then_remove, lemma_within_line, line_ended,
    located, removed,
};
use crate::looknfeel::laws::{is_tidy, is_tidy_key, lemma_settings_tidy};
use crate::looknfeel::model::{
    Values, all_fit, block_facts, body_of, closing, found_in, lemma_setting_of, opening, put_all,
    said, target_entries, with_block,
};
use crate::looknfeel::nested::{
    Placed, all_placed, category_lines, close_line, ended, facts, heads, indent, is_fact_of,
    is_name, is_name_char, is_placed, leaf_lines, lemma_facts_come_from, lemma_facts_hold,
    lemma_nested_lines_are_lines, lemma_nested_say, longest, nested_facts, nested_lines, open_line,
    value_line,
};
use crate::looknfeel::schema::all_settings;
use crate::looknfeel::{Target, setting_at};
use crate::order::{
    as_map, ascending, has_key, lemma_text_irreflexive, lemma_text_transitive, lemma_value_at,
    text_before,
};
use crate::split::{
    is_trimmed, join, lemma_join_of_split, lemma_join_push, lemma_split_cons, lemma_split_none,
    lemma_split_of_join, lemma_trim_end_space, lemma_trim_id, split,
};
use crate::text::{contains, holds, lemma_pos_from, occurs, pos, trim, trim_end};

verus! {

/// The names of a tidy key are names.
proof fn lemma_tidy_names(k: Seq<char>)
    requires
        is_tidy_key(k),
    ensures
        split(k, '.').len() >= 1,
        forall|i: int| 0 <= i < split(k, '.').len() ==> is_name(#[trigger] split(k, '.')[i]),
        holds(k, '.') ==> split(k, '.').len() > 1,
        join(split(k, '.'), "."@) == k,
    decreases k.len(),
{
    reveal_strlit(".");
    assert("."@ == seq!['.']);
    lemma_join_of_split(k, '.');
    lemma_pos_from(k, '.', 0);
    let p = pos(k, '.');
    let parts = split(k, '.');
    if p < k.len() {
        let head = k.take(p);
        let tail = k.skip(p + 1);
        assert(k[0] != '.');
        assert(is_name(head)) by {
            assert forall|i: int| 0 <= i < head.len() implies is_name_char(#[trigger] head[i]) by {
                assert(head[i] == k[i]);
            }
        }
        assert(p < k.len() - 1) by {
            assert(k.last() == k[k.len() - 1]);
        }
        assert(k[p] == '.');
        assert(is_tidy_key(tail)) by {
            assert(tail[0] == k[p + 1]);
            assert(tail.last() == k.last());
            assert forall|i: int| 0 <= i < tail.len() implies is_name_char(#[trigger] tail[i])
                || tail[i] == '.' by {
                assert(tail[i] == k[p + 1 + i]);
            }
            assert forall|i: int| 0 <= i < tail.len() - 1 && #[trigger] tail[i] == '.' implies tail[i
                + 1] != '.' by {
                assert(tail[i] == k[p + 1 + i]);
                assert(tail[i + 1] == k[p + 1 + i + 1]);
            }
        }
        lemma_tidy_names(tail);
        assert forall|i: int| 0 <= i < parts.len() implies is_name(#[trigger] parts[i]) by {
            if i > 0 {
                assert(parts[i] == split(tail, '.')[i - 1]);
            }
        }
    } else {
        assert(parts == seq![k]);
        assert forall|i: int| 0 <= i < k.len() implies is_name_char(#[trigger] k[i]) by {
            assert(k[i] != '.');
        }
        assert(is_name(parts[0]));
    }
}

/// A known key is tidy and has a dot.
proof fn lemma_known_key(key: Seq<char>)
    requires
        setting_at(key) is Some,
    ensures
        is_tidy_key(key),
        holds(key, '.'),
{
    lemma_settings_tidy();
    lemma_setting_of(all_settings(), key);
    let s = setting_at(key)->0;
    let i = choose|i: int| 0 <= i < all_settings().len() && all_settings()[i] == s;
    assert(is_tidy(all_settings()[i]));
}

/// Whether a key belongs to a target.
pub open spec fn is_of(key: Seq<char>, t: Target) -> bool {
    setting_at(key) matches Some(s) && s.target == t
}

/// Where an entry of a target comes from.
proof fn lemma_entry_from(pairs: Seq<(Seq<char>, Seq<char>)>, t: Target, j: int) -> (i: int)
    requires
        0 <= j < target_entries(pairs, t).len(),
    ensures
        0 <= i < pairs.len(),
        is_of(pairs[i].0, t),
        target_entries(pairs, t)[j] == (split(pairs[i].0, '.'), pairs[i].1),
    decreases pairs.len(),
{
    let before = target_entries(pairs.drop_last(), t);
    if j < before.len() {
        let i = lemma_entry_from(pairs.drop_last(), t, j);
        i
    } else {
        pairs.len() - 1
    }
}

proof fn lemma_entry_holds(pairs: Seq<(Seq<char>, Seq<char>)>, t: Target, i: int) -> (j: int)
    requires
        0 <= i < pairs.len(),
        is_of(pairs[i].0, t),
    ensures
        0 <= j < target_entries(pairs, t).len(),
        target_entries(pairs, t)[j] == (split(pairs[i].0, '.'), pairs[i].1),
    decreases pairs.len(),
{
    let before = target_entries(pairs.drop_last(), t);
    if i < pairs.len() - 1 {
        let j = lemma_entry_holds(pairs.drop_last(), t, i);
        assert(target_entries(pairs, t)[j] == before[j]);
        j
    } else {
        before.len() as int
    }
}

proof fn lemma_longest(entries: Seq<Placed>, c: int)
    requires
        0 <= c < entries.len(),
    ensures
        entries[c].0.len() <= longest(entries),
    decreases entries.len(),
{
    if c < entries.len() - 1 {
        lemma_longest(entries.drop_last(), c);
    }
}

/// The entries of a target can be written and stand in categories.
proof fn lemma_entries_placed(pairs: Seq<(Seq<char>, Seq<char>)>, t: Target)
    requires
        ascending(pairs),
        all_fit(as_map(pairs)),
    ensures
        all_placed(target_entries(pairs, t)),
        forall|j: int|
            0 <= j < target_entries(pairs, t).len() ==> (#[trigger] target_entries(
                pairs,
                t,
            )[j]).0.len() > 1,
{
    let entries = target_entries(pairs, t);
    assert forall|j: int| 0 <= j < entries.len() implies is_placed(#[trigger] entries[j])
        && entries[j].0.len() > 1 by {
        let i = lemma_entry_from(pairs, t, j);
        lemma_known_key(pairs[i].0);
        lemma_tidy_names(pairs[i].0);
        lemma_value_at(pairs, i);
        assert(as_map(pairs).dom().contains(pairs[i].0));
    }
}

proof fn lemma_no_leaves(entries: Seq<Placed>, depth: nat)
    requires
        forall|j: int| 0 <= j < entries.len() ==> (#[trigger] entries[j]).0.len() > 1,
    ensures
        leaf_lines(entries, depth) == Seq::<Seq<char>>::empty(),
        entries.len() > 0 ==> heads(entries).len() > 0,
    decreases entries.len(),
{
    if entries.len() > 0 {
        let front = entries.drop_last();
        assert forall|j: int| 0 <= j < front.len() implies (#[trigger] front[j]).0.len() > 1 by {
            assert(front[j] == entries[j]);
        }
        lemma_no_leaves(front, depth);
        assert(entries[entries.len() - 1].0.len() > 1);
    }
}

/// Lines with a break behind each are the joined lines with a break at the end.
proof fn lemma_ended_joined(lines: Seq<Seq<char>>)
    requires
        lines.len() > 0,
    ensures
        ended(lines) == join(lines, "\n"@) + "\n"@,
    decreases lines.len(),
{
    let front = lines.drop_last();
    assert(lines == front.push(lines.last()));
    lemma_join_push(front, "\n"@, lines.last());
    if front.len() > 0 {
        lemma_ended_joined(front);
    } else {
        assert(ended(front) == Seq::<char>::empty());
        assert(ended(lines) == lines.last() + "\n"@);
    }
}

pub open spec fn header() -> Seq<char> {
    "# Managed by Omarchy Studio — your look & feel tweaks."@
}

/// The lines of a target's block.
pub open spec fn block_lines(pairs: Seq<(Seq<char>, Seq<char>)>, t: Target) -> Seq<Seq<char>> {
    let entries = target_entries(pairs, t);
    seq![header()] + nested_lines(entries, 0, longest(entries))
}

proof fn lemma_join_cons(x: Seq<char>, rest: Seq<Seq<char>>, sep: Seq<char>)
    requires
        rest.len() > 0,
    ensures
        join(seq![x] + rest, sep) == x + sep + join(rest, sep),
    decreases rest.len(),
{
    let all = seq![x] + rest;
    let front = rest.drop_last();
    assert(all == (seq![x] + front).push(rest.last()));
    lemma_join_push(seq![x] + front, sep, rest.last());
    assert(rest == front.push(rest.last()));
    lemma_join_push(front, sep, rest.last());
    if front.len() > 0 {
        lemma_join_cons(x, front, sep);
        assert(join(all, sep) =~= x + sep + join(rest, sep));
    } else {
        assert(seq![x] + front == seq![x]);
        assert(join(seq![x], sep) == x);
    }
}

/// A block's body is its lines, joined.
proof fn lemma_body(pairs: Seq<(Seq<char>, Seq<char>)>, t: Target)
    requires
        ascending(pairs),
        all_fit(as_map(pairs)),
        target_entries(pairs, t).len() > 0,
    ensures
        body_of(pairs, t) == Some(join(block_lines(pairs, t), "\n"@)),
{
    let entries = target_entries(pairs, t);
    let deep = longest(entries);
    let lines = nested_lines(entries, 0, deep);
    lemma_entries_placed(pairs, t);
    lemma_no_leaves(entries, 0);
    lemma_longest(entries, 0);
    let order = heads(entries);
    let cats = category_lines(entries, order, 0, deep);
    assert(lines =~= cats);
    assert(lines.last() == close_line(0));
    assert(indent(0) == Seq::<char>::empty());
    reveal_strlit("}");
    reveal_strlit("\n");
    assert(close_line(0) =~= "}"@);
    lemma_ended_joined(lines);
    lemma_join_cons(header(), lines, "\n"@);
    let all = join(block_lines(pairs, t), "\n"@);
    let front = lines.drop_last();
    assert(lines == front.push(lines.last()));
    lemma_join_push(front, "\n"@, lines.last());
    assert(all.last() == '}');
    lemma_trim_end_space(all, "\n"@);
    assert(trim_end(all) == all);
    reveal_strlit("# Managed by Omarchy Studio — your look & feel tweaks.\n");
    reveal_strlit("# Managed by Omarchy Studio — your look & feel tweaks.");
    assert("# Managed by Omarchy Studio — your look & feel tweaks.\n"@ =~= header() + "\n"@);
    assert("# Managed by Omarchy Studio — your look & feel tweaks.\n"@ + ended(lines) =~= all
        + "\n"@);
}

proof fn lemma_header()
    ensures
        !holds(header(), '\n'),
        line_view(header()) == LineView::Plain,
        forall|i: int| 1 <= i < header().len() ==> #[trigger] header()[i] != '#',
        header().len() > 2,
        header()[2] == 'M',
{
    reveal_strlit("# Managed by Omarchy Studio — your look & feel tweaks.");
    assert(is_trimmed(header()));
    lemma_trim_id(header());
}

/// The closing marker begins with `# <`.
proof fn lemma_closing(t: Target)
    ensures
        closing(t).len() > 2,
        closing(t)[0] == '#',
        closing(t)[2] == '<',
        !holds(closing(t), '\n'),
        !holds(t.block(), '\n'),
{
    reveal_strlit("# ");
    reveal_strlit("<<< omarchy-studio:");
    reveal_strlit("looknfeel");
    reveal_strlit("input");
    reveal_strlit(" <<<");
    reveal_strlit("");
    let c = closing(t);
    assert(c == "# "@ + "<<< omarchy-studio:"@ + t.block() + " <<<"@ + ""@);
    let a = "# "@ + "<<< omarchy-studio:"@;
    assert(c =~= a + (t.block() + " <<<"@));
    assert(c[0] == a[0]);
    assert(c[2] == a[2]);
    assert forall|i: int| 0 <= i < c.len() implies c[i] != '\n' by {
        if i < a.len() {
            assert(c[i] == a[i]);
        } else {
            assert(c[i] == (t.block() + " <<<"@)[i - a.len()]);
        }
    }
}

/// Whether a line can hold the closing marker only in a value.
pub open spec fn is_free(line: Seq<char>, pat: Seq<char>) -> bool {
    !contains(line, pat)
}

proof fn lemma_indent_plain(depth: nat)
    ensures
        !holds(indent(depth), '#'),
    decreases depth,
{
    reveal_strlit("    ");
    if depth > 0 {
        lemma_indent_plain((depth - 1) as nat);
        let before = indent((depth - 1) as nat);
        let all = indent(depth);
        assert(all == before + "    "@);
        assert forall|i: int| 0 <= i < all.len() implies all[i] != '#' by {
            if i < before.len() {
                assert(all[i] == before[i]);
            } else {
                assert(all[i] == "    "@[i - before.len()]);
            }
        }
    }
}

proof fn lemma_no_hash(line: Seq<char>, pat: Seq<char>)
    requires
        !holds(line, '#'),
        pat.len() > 0,
        pat[0] == '#',
    ensures
        is_free(line, pat),
{
    if contains(line, pat) {
        let k = choose|k: int| occurs(line, pat, k);
        assert(line.subrange(k, k + pat.len())[0] == line[k]);
    }
}

proof fn lemma_value_free(depth: nat, key: Seq<char>, value: Seq<char>, pat: Seq<char>)
    requires
        is_name(key),
        pat.len() > 0,
        pat[0] == '#',
        !contains(value, pat),
    ensures
        is_free(value_line(depth, key, value), pat),
{
    reveal_strlit(" = ");
    lemma_indent_plain(depth);
    let line = value_line(depth, key, value);
    let n = (indent(depth).len() + key.len() + 3) as int;
    if contains(line, pat) {
        let k = choose|k: int| occurs(line, pat, k);
        assert(line.subrange(k, k + pat.len())[0] == line[k]);
        if k < indent(depth).len() {
            assert(line[k] == indent(depth)[k]);
        } else if k < indent(depth).len() + key.len() {
            assert(line[k] == key[k - indent(depth).len()]);
            assert(is_name_char(key[k - indent(depth).len()]));
        } else if k < n {
            assert(line[k] == " = "@[k - indent(depth).len() - key.len()]);
        } else {
            assert(value.subrange(k - n, k - n + pat.len()) =~= line.subrange(k, k + pat.len()));
            assert(occurs(value, pat, k - n));
        }
    }
}

proof fn lemma_mark_free(depth: nat, name: Seq<char>, pat: Seq<char>)
    requires
        is_name(name),
        pat.len() > 0,
        pat[0] == '#',
    ensures
        is_free(open_line(depth, name), pat),
        is_free(close_line(depth), pat),
{
    reveal_strlit(" {");
    reveal_strlit("}");
    lemma_indent_plain(depth);
    let a = open_line(depth, name);
    assert forall|i: int| 0 <= i < a.len() implies a[i] != '#' by {
        if i < indent(depth).len() {
            assert(a[i] == indent(depth)[i]);
        } else if i < indent(depth).len() + name.len() {
            assert(a[i] == name[i - indent(depth).len()]);
            assert(is_name_char(name[i - indent(depth).len()]));
        } else {
            assert(a[i] == " {"@[i - indent(depth).len() - name.len()]);
        }
    }
    lemma_no_hash(a, pat);
    let b = close_line(depth);
    assert forall|i: int| 0 <= i < b.len() implies b[i] != '#' by {
        if i < indent(depth).len() {
            assert(b[i] == indent(depth)[i]);
        }
    }
    lemma_no_hash(b, pat);
}

/// Whether no value spells a pattern.
pub open spec fn values_free(entries: Seq<Placed>, pat: Seq<char>) -> bool {
    forall|i: int| 0 <= i < entries.len() ==> !contains((#[trigger] entries[i]).1, pat)
}

proof fn lemma_leaves_free(entries: Seq<Placed>, depth: nat, pat: Seq<char>)
    requires
        all_placed(entries),
        values_free(entries, pat),
        pat.len() > 0,
        pat[0] == '#',
    ensures
        forall|k: int|
            0 <= k < leaf_lines(entries, depth).len() ==> is_free(
                #[trigger] leaf_lines(entries, depth)[k],
                pat,
            ),
    decreases entries.len(),
{
    if entries.len() > 0 {
        let front = entries.drop_last();
        assert forall|k: int| 0 <= k < front.len() implies is_placed(#[trigger] front[k])
            && !contains(front[k].1, pat) by {
            assert(front[k] == entries[k]);
        }
        lemma_leaves_free(front, depth, pat);
        let (path, value) = entries.last();
        assert(is_placed(entries[entries.len() - 1]));
        if path.len() == 1 {
            assert(is_name(path[0]));
            lemma_value_free(depth, path[0], value, pat);
        }
        let all = leaf_lines(entries, depth);
        let before = leaf_lines(front, depth);
        assert forall|k: int| 0 <= k < all.len() implies is_free(#[trigger] all[k], pat) by {
            if k < before.len() {
                assert(all[k] == before[k]);
            }
        }
    }
}

proof fn lemma_children_free(entries: Seq<Placed>, name: Seq<char>, pat: Seq<char>)
    requires
        all_placed(entries),
        values_free(entries, pat),
    ensures
        all_placed(crate::looknfeel::nested::children(entries, name)),
        values_free(crate::looknfeel::nested::children(entries, name), pat),
{
    crate::looknfeel::nested::lemma_children_placed(entries, name);
    let inner = crate::looknfeel::nested::children(entries, name);
    assert forall|j: int| 0 <= j < inner.len() implies !contains((#[trigger] inner[j]).1, pat) by {
        let c = crate::looknfeel::nested::lemma_child_from(entries, name, j);
        assert(!contains(entries[c].1, pat));
    }
}

proof fn lemma_nested_free(entries: Seq<Placed>, depth: nat, deep: nat, pat: Seq<char>)
    requires
        all_placed(entries),
        values_free(entries, pat),
        pat.len() > 0,
        pat[0] == '#',
    ensures
        forall|k: int|
            0 <= k < nested_lines(entries, depth, deep).len() ==> is_free(
                #[trigger] nested_lines(entries, depth, deep)[k],
                pat,
            ),
    decreases deep, 1nat, 0nat,
{
    if deep > 0 {
        lemma_leaves_free(entries, depth, pat);
        crate::looknfeel::nested::lemma_heads_are_names(entries);
        lemma_categories_free(entries, heads(entries), depth, deep, pat);
        let a = leaf_lines(entries, depth);
        let b = category_lines(entries, heads(entries), depth, deep);
        assert forall|k: int| 0 <= k < (a + b).len() implies is_free(#[trigger] (a + b)[k], pat) by {
            if k < a.len() {
                assert((a + b)[k] == a[k]);
            } else {
                assert((a + b)[k] == b[k - a.len()]);
            }
        }
    }
}

proof fn lemma_categories_free(
    entries: Seq<Placed>,
    order: Seq<Seq<char>>,
    depth: nat,
    deep: nat,
    pat: Seq<char>,
)
    requires
        deep > 0,
        all_placed(entries),
        values_free(entries, pat),
        pat.len() > 0,
        pat[0] == '#',
        forall|k: int| 0 <= k < order.len() ==> is_name(#[trigger] order[k]),
    ensures
        forall|k: int|
            0 <= k < category_lines(entries, order, depth, deep).len() ==> is_free(
                #[trigger] category_lines(entries, order, depth, deep)[k],
                pat,
            ),
    decreases deep, 0nat, order.len(),
{
    if order.len() > 0 {
        let front = order.drop_last();
        let name = order.last();
        assert(is_name(order[order.len() - 1]));
        lemma_categories_free(entries, front, depth, deep, pat);
        lemma_children_free(entries, name, pat);
        let inner = crate::looknfeel::nested::children(entries, name);
        lemma_nested_free(inner, depth + 1, (deep - 1) as nat, pat);
        lemma_mark_free(depth, name, pat);
        let before = category_lines(entries, front, depth, deep);
        let within = nested_lines(inner, depth + 1, (deep - 1) as nat);
        let all = category_lines(entries, order, depth, deep);
        assert forall|k: int| 0 <= k < all.len() implies is_free(#[trigger] all[k], pat) by {
            let n = before.len();
            if k < n {
                assert(all[k] == before[k]);
            } else if k == n {
                assert(all[k] == open_line(depth, name));
            } else if k < n + 1 + within.len() {
                assert(all[k] == within[k - n - 1]);
            } else {
                assert(all[k] == close_line(depth));
            }
        }
    }
}

/// Whether no value of a target spells the marker that closes its block.
pub open spec fn unmarked(pairs: Seq<(Seq<char>, Seq<char>)>, t: Target) -> bool {
    forall|i: int|
        0 <= i < pairs.len() && is_of(pairs[i].0, t) ==> !contains(
            (#[trigger] pairs[i]).1,
            closing(t),
        )
}

proof fn lemma_body_unmarked(pairs: Seq<(Seq<char>, Seq<char>)>, t: Target)
    requires
        ascending(pairs),
        all_fit(as_map(pairs)),
        unmarked(pairs, t),
        target_entries(pairs, t).len() > 0,
    ensures
        !contains(join(block_lines(pairs, t), "\n"@), closing(t)),
{
    let pat = closing(t);
    lemma_closing(t);
    let entries = target_entries(pairs, t);
    lemma_entries_placed(pairs, t);
    assert forall|j: int| 0 <= j < entries.len() implies !contains((#[trigger] entries[j]).1, pat) by {
        let i = lemma_entry_from(pairs, t, j);
        assert(!contains(pairs[i].1, pat));
    }
    lemma_nested_free(entries, 0, longest(entries), pat);
    let lines = block_lines(pairs, t);
    lemma_header();
    assert(is_free(header(), pat)) by {
        if contains(header(), pat) {
            let k = choose|k: int| occurs(header(), pat, k);
            let at = header().subrange(k, k + pat.len());
            assert(at[0] == header()[k]);
            assert(at[2] == header()[k + 2]);
        }
    }
    assert forall|i: int| 0 <= i < lines.len() implies !contains(#[trigger] lines[i], pat) by {
        if i > 0 {
            assert(lines[i] == nested_lines(entries, 0, longest(entries))[i - 1]);
            assert(is_free(lines[i], pat));
        }
    }
    lemma_within_line(lines, pat);
}

/// What the body of a block says.
proof fn lemma_body_says(pairs: Seq<(Seq<char>, Seq<char>)>, t: Target)
    requires
        ascending(pairs),
        all_fit(as_map(pairs)),
    ensures
        facts(entries_in(join(block_lines(pairs, t), "\n"@))) == nested_facts(
            target_entries(pairs, t),
            Seq::empty(),
            longest(target_entries(pairs, t)),
        ),
{
    reveal_strlit("\n");
    assert("\n"@ == seq!['\n']);
    let entries = target_entries(pairs, t);
    let deep = longest(entries);
    let inner = nested_lines(entries, 0, deep);
    let lines = block_lines(pairs, t);
    lemma_entries_placed(pairs, t);
    lemma_nested_lines_are_lines(entries, 0, deep);
    lemma_header();
    assert forall|i: int| 0 <= i < lines.len() implies !holds(#[trigger] lines[i], '\n') by {
        if i > 0 {
            assert(lines[i] == inner[i - 1]);
        }
    }
    lemma_split_of_join(lines, '\n');
    let none = Seq::<Seq<char>>::empty();
    assert(lines[0] == header());
    assert(entries_from(lines, 0, none) == entries_from(lines, 1, none));
    assert(lines.subrange(1, 1int + inner.len()) =~= inner);
    lemma_nested_say(lines, 1, none, entries, 0, deep);
    assert(entries_from(lines, 1int + inner.len(), none) == Seq::<EntryView>::empty());
    let said = nested_facts(entries, none, deep);
    assert(facts(Seq::<EntryView>::empty()) =~= Seq::<(Seq<char>, Seq<char>)>::empty());
    assert(said + Seq::<(Seq<char>, Seq<char>)>::empty() =~= said);
}

/// Whether some facts speak of a key.
pub open spec fn speaks_of(ps: Seq<(Seq<char>, Seq<char>)>, key: Seq<char>) -> bool {
    exists|i: int| 0 <= i < ps.len() && (#[trigger] ps[i]).0 == key
}

proof fn lemma_put_all_other(m: Values, ps: Seq<(Seq<char>, Seq<char>)>, key: Seq<char>)
    requires
        !speaks_of(ps, key),
    ensures
        found_in(put_all(m, ps), key) == found_in(m, key),
    decreases ps.len(),
{
    if ps.len() > 0 {
        let front = ps.drop_last();
        assert(ps[ps.len() - 1].0 != key);
        if speaks_of(front, key) {
            let i = choose|i: int| 0 <= i < front.len() && (#[trigger] front[i]).0 == key;
            assert(ps[i].0 == key);
        }
        lemma_put_all_other(m, front, key);
    }
}

proof fn lemma_put_all_one(
    m: Values,
    ps: Seq<(Seq<char>, Seq<char>)>,
    key: Seq<char>,
    value: Seq<char>,
)
    requires
        speaks_of(ps, key),
        forall|i: int| 0 <= i < ps.len() && (#[trigger] ps[i]).0 == key ==> ps[i].1 == value,
    ensures
        found_in(put_all(m, ps), key) == Some(value),
    decreases ps.len(),
{
    let front = ps.drop_last();
    assert(ps.last() == ps[ps.len() - 1]);
    if ps.last().0 != key {
        let i = choose|i: int| 0 <= i < ps.len() && (#[trigger] ps[i]).0 == key;
        assert(front[i].0 == key);
        assert forall|i: int| 0 <= i < front.len() && (#[trigger] front[i]).0 == key implies front[i].1
            == value by {
            assert(front[i] == ps[i]);
        }
        lemma_put_all_one(m, front, key, value);
    }
}

/// A fact of a target's block is one of the pairs.
proof fn lemma_fact_pair(pairs: Seq<(Seq<char>, Seq<char>)>, t: Target, k: int) -> (i: int)
    requires
        0 <= k < nested_facts(
            target_entries(pairs, t),
            Seq::empty(),
            longest(target_entries(pairs, t)),
        ).len(),
    ensures
        0 <= i < pairs.len(),
        is_of(pairs[i].0, t),
        nested_facts(target_entries(pairs, t), Seq::empty(), longest(target_entries(pairs, t)))[k]
            == pairs[i],
{
    let entries = target_entries(pairs, t);
    let none = Seq::<Seq<char>>::empty();
    let ps = nested_facts(entries, none, longest(entries));
    lemma_facts_come_from(entries, none, longest(entries));
    assert(is_fact_of(ps[k], entries, none));
    let j = choose|j: int|
        0 <= j < entries.len() && ps[k] == (join(none + (#[trigger] entries[j]).0, "."@), entries[j].1);
    let i = lemma_entry_from(pairs, t, j);
    lemma_known_key(pairs[i].0);
    lemma_tidy_names(pairs[i].0);
    assert(none + entries[j].0 =~= entries[j].0);
    i
}

/// What a target's block says of a key, put over other values.
proof fn lemma_block_says(
    m: Values,
    pairs: Seq<(Seq<char>, Seq<char>)>,
    t: Target,
    key: Seq<char>,
)
    requires
        ascending(pairs),
        all_fit(as_map(pairs)),
    ensures
        found_in(
            put_all(
                m,
                nested_facts(
                    target_entries(pairs, t),
                    Seq::empty(),
                    longest(target_entries(pairs, t)),
                ),
            ),
            key,
        ) == if is_of(key, t) && as_map(pairs).dom().contains(key) {
            Some(as_map(pairs)[key])
        } else {
            found_in(m, key)
        },
{
    let entries = target_entries(pairs, t);
    let none = Seq::<Seq<char>>::empty();
    let ps = nested_facts(entries, none, longest(entries));
    if is_of(key, t) && as_map(pairs).dom().contains(key) {
        let i = choose|i: int| 0 <= i < pairs.len() && #[trigger] pairs[i].0 == key;
        lemma_value_at(pairs, i);
        let value = pairs[i].1;
        let j = lemma_entry_holds(pairs, t, i);
        lemma_entries_placed(pairs, t);
        lemma_longest(entries, j);
        lemma_facts_hold(entries, none, longest(entries), j);
        lemma_known_key(key);
        lemma_tidy_names(key);
        assert(none + entries[j].0 =~= entries[j].0);
        assert(ps.contains((key, value)));
        let k = choose|k: int| 0 <= k < ps.len() && ps[k] == (key, value);
        assert(ps[k].0 == key);
        assert forall|k: int| 0 <= k < ps.len() && (#[trigger] ps[k]).0 == key implies ps[k].1
            == value by {
            let i2 = lemma_fact_pair(pairs, t, k);
            lemma_value_at(pairs, i2);
        }
        lemma_put_all_one(m, ps, key, value);
    } else {
        if speaks_of(ps, key) {
            let k = choose|k: int| 0 <= k < ps.len() && (#[trigger] ps[k]).0 == key;
            let i = lemma_fact_pair(pairs, t, k);
            lemma_value_at(pairs, i);
            assert(as_map(pairs).dom().contains(key));
        }
        lemma_put_all_other(m, ps, key);
    }
}

/// Whether a block can be written into a text and found again: where an opening
/// marker stands, a closing one stands behind it, and no second block is left
/// when the block is removed.
pub open spec fn is_sound(text: Seq<char>, t: Target) -> bool {
    &&& located(text, opening(t), closing(t)) is Some || !contains(text, opening(t))
    &&& located(removed(text, opening(t), closing(t)), opening(t), closing(t)) is None
}

/// What a target's block holds once it is written, put over other values: the
/// changes of that target and nothing else.
pub proof fn law_saved_changes_read_back(
    m: Values,
    text: Seq<char>,
    pairs: Seq<(Seq<char>, Seq<char>)>,
    t: Target,
    key: Seq<char>,
)
    requires
        ascending(pairs),
        all_fit(as_map(pairs)),
        unmarked(pairs, t),
        is_sound(text, t),
    ensures
        found_in(put_all(m, block_facts(Some(with_block(text, pairs, t)), t)), key) == if is_of(
            key,
            t,
        ) && as_map(pairs).dom().contains(key) {
            Some(as_map(pairs)[key])
        } else {
            found_in(m, key)
        },
{
    let entries = target_entries(pairs, t);
    lemma_closing(t);
    if entries.len() > 0 {
        lemma_body(pairs, t);
        lemma_body_unmarked(pairs, t);
        lemma_body_says(pairs, t);
        law_write_then_read(text, t.block(), CommentStyle::Hash, body_of(pairs, t)->0);
        lemma_block_says(m, pairs, t, key);
    } else {
        if is_of(key, t) && as_map(pairs).dom().contains(key) {
            let i = choose|i: int| 0 <= i < pairs.len() && #[trigger] pairs[i].0 == key;
            let j = lemma_entry_holds(pairs, t, i);
        }
        assert(block_facts(Some(with_block(text, pairs, t)), t) == Seq::<
            (Seq<char>, Seq<char>),
        >::empty());
    }
}

/// Saving a second time changes nothing.
pub proof fn law_saving_twice_changes_nothing(
    text: Seq<char>,
    pairs: Seq<(Seq<char>, Seq<char>)>,
    t: Target,
)
    requires
        ascending(pairs),
        all_fit(as_map(pairs)),
        unmarked(pairs, t),
        is_sound(text, t),
    ensures
        with_block(with_block(text, pairs, t), pairs, t) == with_block(text, pairs, t),
{
    lemma_closing(t);
    if target_entries(pairs, t).len() > 0 {
        lemma_body(pairs, t);
        lemma_body_unmarked(pairs, t);
        law_write_then_read(text, t.block(), CommentStyle::Hash, body_of(pairs, t)->0);
    }
}

/// With its changes dropped, a file that never had a block is what it was, but
/// for a line break at its end; one that had a block is as if that had been
/// removed.
pub proof fn law_dropping_changes_restores_the_file(
    text: Seq<char>,
    pairs: Seq<(Seq<char>, Seq<char>)>,
    later: Seq<(Seq<char>, Seq<char>)>,
    t: Target,
)
    requires
        ascending(pairs),
        all_fit(as_map(pairs)),
        unmarked(pairs, t),
        is_sound(text, t),
        body_of(pairs, t) is Some,
        body_of(later, t) is None,
    ensures
        with_block(with_block(text, pairs, t), later, t) == if located(
            text,
            opening(t),
            closing(t),
        ) is Some {
            removed(text, opening(t), closing(t))
        } else {
            line_ended(text)
        },
{
    lemma_closing(t);
    lemma_body(pairs, t);
    lemma_body_unmarked(pairs, t);
    law_write_then_remove(text, t.block(), CommentStyle::Hash, body_of(pairs, t)->0);
}

// ----------------------------------------------------------- the user's own lines

proof fn lemma_split_ended(s: Seq<char>)
    ensures
        split(s.push('\n'), '\n') == split(s, '\n').push(Seq::empty()),
    decreases s.len(),
{
    lemma_pos_from(s, '\n', 0);
    let p = pos(s, '\n');
    let none = Seq::<char>::empty();
    lemma_split_none(none, '\n');
    if p < s.len() {
        let head = s.take(p);
        let tail = s.skip(p + 1);
        lemma_split_ended(tail);
        assert(s.push('\n') =~= head + seq!['\n'] + tail.push('\n'));
        lemma_split_cons(head, '\n', tail.push('\n'));
        assert(split(s.push('\n'), '\n') =~= split(s, '\n').push(none));
    } else {
        assert(s.push('\n') =~= s + seq!['\n'] + none);
        lemma_split_cons(s, '\n', none);
        assert(split(s.push('\n'), '\n') =~= split(s, '\n').push(none));
    }
}

proof fn lemma_entries_ended(lines: Seq<Seq<char>>, i: int, stack: Seq<Seq<char>>)
    requires
        0 <= i <= lines.len(),
    ensures
        entries_from(lines.push(Seq::empty()), i, stack) == entries_from(lines, i, stack),
    decreases lines.len() - i,
{
    let more = lines.push(Seq::empty());
    if i < lines.len() {
        assert(more[i] == lines[i]);
        lemma_entries_ended(lines, i + 1, stack_after(line_view(lines[i]), stack));
    } else {
        let none = Seq::<char>::empty();
        assert(more[i] == none);
        assert(trim(none) == none);
        assert(line_view(none) == LineView::Plain);
        assert(entries_from(more, i + 1, stack) == Seq::<EntryView>::empty());
    }
}

/// Saving leaves what the user's own lines say as it is.
pub proof fn law_saving_keeps_the_users_lines(
    text: Seq<char>,
    pairs: Seq<(Seq<char>, Seq<char>)>,
    t: Target,
    key: Seq<char>,
)
    requires
        ascending(pairs),
        all_fit(as_map(pairs)),
        unmarked(pairs, t),
        is_sound(text, t),
    ensures
        said(Some(with_block(text, pairs, t)), t, key) == said(Some(text), t, key),
{
    lemma_closing(t);
    if target_entries(pairs, t).len() > 0 {
        lemma_body(pairs, t);
        lemma_body_unmarked(pairs, t);
        law_write_then_remove(text, t.block(), CommentStyle::Hash, body_of(pairs, t)->0);
        if located(text, opening(t), closing(t)) is None {
            lemma_split_ended(text);
            lemma_entries_ended(split(text, '\n'), 0, Seq::empty());
            assert(removed(text, opening(t), closing(t)) == text);
        }
    }
}

/// A reload after a save shows each setting's own change, and no more: of a
/// known key what was changed, of others nothing.
pub proof fn law_reload_gives_the_changes_back(
    looknfeel: Seq<char>,
    input: Seq<char>,
    pairs: Seq<(Seq<char>, Seq<char>)>,
    key: Seq<char>,
)
    requires
        ascending(pairs),
        all_fit(as_map(pairs)),
        unmarked(pairs, Target::Looknfeel),
        unmarked(pairs, Target::Input),
        is_sound(looknfeel, Target::Looknfeel),
        is_sound(input, Target::Input),
    ensures
        found_in(
            put_all(
                put_all(
                    Map::empty(),
                    block_facts(
                        Some(with_block(looknfeel, pairs, Target::Looknfeel)),
                        Target::Looknfeel,
                    ),
                ),
                block_facts(Some(with_block(input, pairs, Target::Input)), Target::Input),
            ),
            key,
        ) == if setting_at(key) is Some {
            found_in(as_map(pairs), key)
        } else {
            None
        },
{
    let first = put_all(
        Map::<Seq<char>, Seq<char>>::empty(),
        block_facts(Some(with_block(looknfeel, pairs, Target::Looknfeel)), Target::Looknfeel),
    );
    law_saved_changes_read_back(Map::empty(), looknfeel, pairs, Target::Looknfeel, key);
    law_saved_changes_read_back(first, input, pairs, Target::Input, key);
}

// -------------------------------------------------------------- one file, the other

/// The pairs of one target.
spec fn pairs_of(pairs: Seq<(Seq<char>, Seq<char>)>, t: Target) -> Seq<(Seq<char>, Seq<char>)>
    decreases pairs.len(),
{
    if pairs.len() == 0 {
        Seq::empty()
    } else {
        let before = pairs_of(pairs.drop_last(), t);
        if is_of(pairs.last().0, t) {
            before.push(pairs.last())
        } else {
            before
        }
    }
}

/// Where a pair of a target comes from.
proof fn lemma_pair_from(pairs: Seq<(Seq<char>, Seq<char>)>, t: Target, j: int) -> (i: int)
    requires
        0 <= j < pairs_of(pairs, t).len(),
    ensures
        j <= i < pairs.len(),
        is_of(pairs[i].0, t),
        pairs_of(pairs, t)[j] == pairs[i],
    decreases pairs.len(),
{
    let before = pairs_of(pairs.drop_last(), t);
    lemma_pairs_fewer(pairs.drop_last(), t);
    if j < before.len() {
        let i = lemma_pair_from(pairs.drop_last(), t, j);
        i
    } else {
        pairs.len() - 1
    }
}

proof fn lemma_pairs_fewer(pairs: Seq<(Seq<char>, Seq<char>)>, t: Target)
    ensures
        pairs_of(pairs, t).len() <= pairs.len(),
    decreases pairs.len(),
{
    if pairs.len() > 0 {
        lemma_pairs_fewer(pairs.drop_last(), t);
    }
}

proof fn lemma_pair_holds(pairs: Seq<(Seq<char>, Seq<char>)>, t: Target, i: int) -> (j: int)
    requires
        0 <= i < pairs.len(),
        is_of(pairs[i].0, t),
    ensures
        0 <= j < pairs_of(pairs, t).len(),
        pairs_of(pairs, t)[j] == pairs[i],
    decreases pairs.len(),
{
    let before = pairs_of(pairs.drop_last(), t);
    if i < pairs.len() - 1 {
        let j = lemma_pair_holds(pairs.drop_last(), t, i);
        assert(pairs_of(pairs, t)[j] == before[j]);
        j
    } else {
        before.len() as int
    }
}

proof fn lemma_pairs_ascend(pairs: Seq<(Seq<char>, Seq<char>)>, t: Target)
    requires
        ascending(pairs),
    ensures
        ascending(pairs_of(pairs, t)),
    decreases pairs.len(),
{
    if pairs.len() > 0 {
        let front = pairs.drop_last();
        assert(ascending(front)) by {
            assert forall|i: int, j: int| 0 <= i < j < front.len() implies text_before(
                #[trigger] front[i].0,
                #[trigger] front[j].0,
            ) by {
                assert(text_before(pairs[i].0, pairs[j].0));
            }
        }
        lemma_pairs_ascend(front, t);
        let before = pairs_of(front, t);
        let all = pairs_of(pairs, t);
        assert forall|i: int, j: int| 0 <= i < j < all.len() implies text_before(
            #[trigger] all[i].0,
            #[trigger] all[j].0,
        ) by {
            if j < before.len() {
                assert(text_before(before[i].0, before[j].0));
            } else {
                let k = lemma_pair_from(front, t, i);
                assert(text_before(pairs[k].0, pairs[pairs.len() - 1].0));
            }
        }
    }
}

/// A map has one list of its pairs in order.
proof fn lemma_one_order(a: Seq<(Seq<char>, Seq<char>)>, b: Seq<(Seq<char>, Seq<char>)>)
    requires
        ascending(a),
        ascending(b),
        forall|x: (Seq<char>, Seq<char>)| #[trigger] a.contains(x) <==> b.contains(x),
    ensures
        a == b,
    decreases a.len(),
{
    if a.len() == 0 {
        if b.len() > 0 {
            assert(b.contains(b[0]));
            assert(a.contains(b[0]));
        }
        assert(a =~= b);
    } else {
        assert(a.contains(a.last())) by {
            assert(a[a.len() - 1] == a.last());
        }
        assert(b.contains(a.last()));
        let j = choose|j: int| 0 <= j < b.len() && b[j] == a.last();
        if j < b.len() - 1 {
            assert(text_before(b[j].0, b[b.len() - 1].0));
            assert(b.contains(b[b.len() - 1]));
            assert(a.contains(b[b.len() - 1]));
            let i = choose|i: int| 0 <= i < a.len() && a[i] == b[b.len() - 1];
            lemma_text_irreflexive(a.last().0);
            if i < a.len() - 1 {
                assert(text_before(a[i].0, a[a.len() - 1].0));
                lemma_text_transitive(a.last().0, a[i].0, a.last().0);
            }
        }
        let (x, y) = (a.drop_last(), b.drop_last());
        lemma_ascending_front(a);
        lemma_ascending_front(b);
        assert forall|p: (Seq<char>, Seq<char>)| #[trigger] x.contains(p) <==> y.contains(p) by {
            if x.contains(p) {
                let i = choose|i: int| 0 <= i < x.len() && x[i] == p;
                assert(a[i] == p);
                assert(a.contains(p));
                assert(b.contains(p));
                let k = choose|k: int| 0 <= k < b.len() && b[k] == p;
                assert(text_before(a[i].0, a[a.len() - 1].0));
                lemma_text_irreflexive(p.0);
                assert(k != b.len() - 1);
                assert(y[k] == p);
            }
            if y.contains(p) {
                let k = choose|k: int| 0 <= k < y.len() && y[k] == p;
                assert(b[k] == p);
                assert(b.contains(p));
                assert(a.contains(p));
                let i = choose|i: int| 0 <= i < a.len() && a[i] == p;
                assert(text_before(b[k].0, b[b.len() - 1].0));
                lemma_text_irreflexive(p.0);
                assert(i != a.len() - 1);
                assert(x[i] == p);
            }
        }
        lemma_one_order(x, y);
        assert(a =~= x.push(a.last()));
        assert(b =~= y.push(b.last()));
    }
}

proof fn lemma_ascending_front(a: Seq<(Seq<char>, Seq<char>)>)
    requires
        ascending(a),
        a.len() > 0,
    ensures
        ascending(a.drop_last()),
{
    let front = a.drop_last();
    assert forall|i: int, j: int| 0 <= i < j < front.len() implies text_before(
        #[trigger] front[i].0,
        #[trigger] front[j].0,
    ) by {
        assert(text_before(a[i].0, a[j].0));
    }
}

proof fn lemma_entries_of_pairs(pairs: Seq<(Seq<char>, Seq<char>)>, t: Target)
    ensures
        target_entries(pairs, t) == pairs_of(pairs, t).map_values(
            |p: (Seq<char>, Seq<char>)| (split(p.0, '.'), p.1),
        ),
    decreases pairs.len(),
{
    if pairs.len() > 0 {
        lemma_entries_of_pairs(pairs.drop_last(), t);
    }
    assert(target_entries(pairs, t) =~= pairs_of(pairs, t).map_values(
        |p: (Seq<char>, Seq<char>)| (split(p.0, '.'), p.1),
    ));
}

/// A file whose settings have the same changes before and after is left alone:
/// its block is the same.
pub proof fn law_other_files_stay(
    before: Seq<(Seq<char>, Seq<char>)>,
    after: Seq<(Seq<char>, Seq<char>)>,
    t: Target,
)
    requires
        ascending(before),
        ascending(after),
        forall|key: Seq<char>|
            is_of(key, t) ==> #[trigger] found_in(as_map(before), key) == found_in(
                as_map(after),
                key,
            ),
    ensures
        body_of(before, t) == body_of(after, t),
{
    let (a, b) = (pairs_of(before, t), pairs_of(after, t));
    lemma_pairs_ascend(before, t);
    lemma_pairs_ascend(after, t);
    assert forall|p: (Seq<char>, Seq<char>)| #[trigger] a.contains(p) <==> b.contains(p) by {
        if a.contains(p) {
            let j = choose|j: int| 0 <= j < a.len() && a[j] == p;
            let i = lemma_pair_from(before, t, j);
            lemma_value_at(before, i);
            assert(found_in(as_map(before), p.0) == Some(p.1));
            assert(has_key(after, p.0));
            let k = choose|k: int| 0 <= k < after.len() && #[trigger] after[k].0 == p.0;
            lemma_value_at(after, k);
            let m = lemma_pair_holds(after, t, k);
            assert(b[m] == p);
        }
        if b.contains(p) {
            let j = choose|j: int| 0 <= j < b.len() && b[j] == p;
            let i = lemma_pair_from(after, t, j);
            lemma_value_at(after, i);
            assert(found_in(as_map(after), p.0) == Some(p.1));
            assert(found_in(as_map(before), p.0) == Some(p.1));
            assert(has_key(before, p.0));
            let k = choose|k: int| 0 <= k < before.len() && #[trigger] before[k].0 == p.0;
            lemma_value_at(before, k);
            let m = lemma_pair_holds(before, t, k);
            assert(a[m] == p);
        }
    }
    lemma_one_order(a, b);
    lemma_entries_of_pairs(before, t);
    lemma_entries_of_pairs(after, t);
}

} // verus!
