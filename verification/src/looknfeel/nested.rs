//! Values written as nested categories, and how they read back.

use vstd::prelude::*;

use crate::configfs::hyprlang::{EntryView, LineView, dotted, entries_from, line_view};
use crate::split::{
    all_space, append_times, is_trimmed, join, lemma_trim_padded, lemma_trim_start_space, repeat,
};
use crate::text::{
    holds, is_alpha, is_digit, is_space, lemma_pos_is, owned, same_str, texts, trim, trim_start,
};

verus! {

/// A value with the path of names that leads to it.
pub type Placed = (Seq<Seq<char>>, Seq<char>);

pub open spec fn placed(v: Seq<(Vec<String>, String)>) -> Seq<Placed> {
    v.map_values(|e: (Vec<String>, String)| (texts(e.0@), e.1@))
}

/// The length of the longest path.
pub open spec fn longest(entries: Seq<Placed>) -> nat
    decreases entries.len(),
{
    if entries.len() == 0 {
        0
    } else {
        let before = longest(entries.drop_last());
        if entries.last().0.len() > before {
            entries.last().0.len()
        } else {
            before
        }
    }
}

pub open spec fn indent(depth: nat) -> Seq<char> {
    repeat("    "@, depth)
}

pub open spec fn value_line(depth: nat, key: Seq<char>, value: Seq<char>) -> Seq<char> {
    indent(depth) + key + " = "@ + value
}

pub open spec fn open_line(depth: nat, name: Seq<char>) -> Seq<char> {
    indent(depth) + name + " {"@
}

pub open spec fn close_line(depth: nat) -> Seq<char> {
    indent(depth) + "}"@
}

/// The lines of the values that stand at this level.
pub open spec fn leaf_lines(entries: Seq<Placed>, depth: nat) -> Seq<Seq<char>>
    decreases entries.len(),
{
    if entries.len() == 0 {
        Seq::empty()
    } else {
        let before = leaf_lines(entries.drop_last(), depth);
        let (path, value) = entries.last();
        if path.len() == 1 {
            before.push(value_line(depth, path[0], value))
        } else {
            before
        }
    }
}

/// The categories below this level, each where it is first seen.
pub open spec fn heads(entries: Seq<Placed>) -> Seq<Seq<char>>
    decreases entries.len(),
{
    if entries.len() == 0 {
        Seq::empty()
    } else {
        let before = heads(entries.drop_last());
        let path = entries.last().0;
        if path.len() > 1 && !before.contains(path[0]) {
            before.push(path[0])
        } else {
            before
        }
    }
}

/// The values of one category.
pub open spec fn children(entries: Seq<Placed>, name: Seq<char>) -> Seq<Placed>
    decreases entries.len(),
{
    if entries.len() == 0 {
        Seq::empty()
    } else {
        let before = children(entries.drop_last(), name);
        let (path, value) = entries.last();
        if path.len() > 1 && path[0] == name {
            before.push((path.skip(1), value))
        } else {
            before
        }
    }
}

/// The values at this level, and then each category with what is in it. Paths
/// have `deep` names at most.
pub open spec fn nested_lines(entries: Seq<Placed>, depth: nat, deep: nat) -> Seq<Seq<char>>
    decreases deep, 1nat, 0nat,
{
    if deep == 0 {
        Seq::empty()
    } else {
        leaf_lines(entries, depth) + category_lines(entries, heads(entries), depth, deep)
    }
}

pub open spec fn category_lines(
    entries: Seq<Placed>,
    order: Seq<Seq<char>>,
    depth: nat,
    deep: nat,
) -> Seq<Seq<char>>
    decreases deep, 0nat, order.len(),
{
    if deep == 0 || order.len() == 0 {
        Seq::empty()
    } else {
        category_lines(entries, order.drop_last(), depth, deep).push(
            open_line(depth, order.last()),
        ) + nested_lines(children(entries, order.last()), depth + 1, (deep - 1) as nat).push(
            close_line(depth),
        )
    }
}

/// Lines with a line break behind each.
pub open spec fn ended(lines: Seq<Seq<char>>) -> Seq<char>
    decreases lines.len(),
{
    if lines.len() == 0 {
        Seq::empty()
    } else {
        ended(lines.drop_last()) + lines.last() + "\n"@
    }
}

proof fn lemma_ended_push(lines: Seq<Seq<char>>, line: Seq<char>)
    ensures
        ended(lines.push(line)) == ended(lines) + line + "\n"@,
{
    assert(lines.push(line).drop_last() == lines);
}

proof fn lemma_ended_sum(a: Seq<Seq<char>>, b: Seq<Seq<char>>)
    ensures
        ended(a + b) == ended(a) + ended(b),
    decreases b.len(),
{
    if b.len() == 0 {
        assert(a + b == a);
        assert(ended(a) + ended(b) == ended(a));
    } else {
        lemma_ended_sum(a, b.drop_last());
        assert((a + b).drop_last() == a + b.drop_last());
        assert(ended(a + b) =~= ended(a) + ended(b));
    }
}

// ------------------------------------------------------------------- rendering

fn longest_path(entries: &Vec<(Vec<String>, String)>) -> (r: usize)
    ensures
        r == longest(placed(entries@)),
{
    let ghost all = placed(entries@);
    let mut n: usize = 0;
    let mut i: usize = 0;
    assert(all.take(0).len() == 0);
    while i < entries.len()
        invariant
            i <= entries@.len(),
            all == placed(entries@),
            n == longest(all.take(i as int)),
        decreases entries.len() - i,
    {
        assert(all.take(i + 1).drop_last() == all.take(i as int));
        assert(all.take(i + 1).last() == all[i as int]);
        assert(all[i as int].0.len() == entries@[i as int].0@.len());
        if entries[i].0.len() > n {
            n = entries[i].0.len();
        }
        i = i + 1;
    }
    assert(all.take(all.len() as int) == all);
    n
}

fn named_heads(entries: &Vec<(Vec<String>, String)>) -> (r: Vec<String>)
    ensures
        texts(r@) == heads(placed(entries@)),
{
    let ghost all = placed(entries@);
    let mut out: Vec<String> = Vec::new();
    let mut i: usize = 0;
    assert(all.take(0).len() == 0);
    assert(texts(out@) == Seq::<Seq<char>>::empty());
    while i < entries.len()
        invariant
            i <= entries@.len(),
            all == placed(entries@),
            texts(out@) == heads(all.take(i as int)),
        decreases entries.len() - i,
    {
        let path = &entries[i].0;
        proof {
            assert(all.take(i + 1).drop_last() == all.take(i as int));
            assert(all.take(i + 1).last() == all[i as int]);
            assert(all[i as int].0 == texts(path@));
        }
        if path.len() > 1 {
            assert(texts(path@)[0] == path@[0]@);
            if !has_text(&out, path[0].as_str()) {
                let ghost was = texts(out@);
                out.push(owned(path[0].as_str()));
                assert(texts(out@) == was.push(path@[0]@));
            }
        }
        i = i + 1;
    }
    assert(all.take(all.len() as int) == all);
    out
}

fn has_text(all: &Vec<String>, x: &str) -> (r: bool)
    ensures
        r == texts(all@).contains(x@),
{
    let mut i: usize = 0;
    while i < all.len()
        invariant
            i <= all@.len(),
            forall|k: int| 0 <= k < i ==> texts(all@)[k] != x@,
        decreases all.len() - i,
    {
        assert(texts(all@)[i as int] == all@[i as int]@);
        if same_str(all[i].as_str(), x) {
            return true;
        }
        i = i + 1;
    }
    false
}

fn category(entries: &Vec<(Vec<String>, String)>, name: &str) -> (r: Vec<(Vec<String>, String)>)
    ensures
        placed(r@) == children(placed(entries@), name@),
{
    let ghost all = placed(entries@);
    let mut out: Vec<(Vec<String>, String)> = Vec::new();
    let mut i: usize = 0;
    assert(all.take(0).len() == 0);
    assert(placed(out@) == Seq::<Placed>::empty());
    while i < entries.len()
        invariant
            i <= entries@.len(),
            all == placed(entries@),
            placed(out@) == children(all.take(i as int), name@),
        decreases entries.len() - i,
    {
        let path = &entries[i].0;
        proof {
            assert(all.take(i + 1).drop_last() == all.take(i as int));
            assert(all.take(i + 1).last() == all[i as int]);
            assert(all[i as int] == (texts(path@), entries@[i as int].1@));
        }
        if path.len() > 1 {
            assert(texts(path@)[0] == path@[0]@);
            if same_str(path[0].as_str(), name) {
                let tail = tail_of(path);
                let ghost was = placed(out@);
                let value = owned(entries[i].1.as_str());
                out.push((tail, value));
                assert(placed(out@) =~= was.push((texts(path@).skip(1), value@)));
            }
        }
        i = i + 1;
    }
    assert(all.take(all.len() as int) == all);
    out
}

fn tail_of(path: &Vec<String>) -> (r: Vec<String>)
    requires
        path@.len() > 0,
    ensures
        texts(r@) == texts(path@).skip(1),
{
    let ghost want = texts(path@).skip(1);
    let mut out: Vec<String> = Vec::new();
    let mut i: usize = 1;
    assert(texts(out@) == want.take(0));
    while i < path.len()
        invariant
            1 <= i <= path@.len(),
            want == texts(path@).skip(1),
            texts(out@) == want.take(i - 1),
        decreases path.len() - i,
    {
        let ghost was = texts(out@);
        out.push(owned(path[i].as_str()));
        assert(texts(out@) == was.push(path@[i as int]@));
        assert(want[i - 1] == path@[i as int]@);
        assert(want.take(i as int) == want.take(i - 1).push(want[i - 1]));
        i = i + 1;
    }
    assert(want.take(want.len() as int) == want);
    out
}

/// Appends the values as nested categories.
pub fn render_nested(entries: &Vec<(Vec<String>, String)>, depth: usize, out: &mut String)
    requires
        depth + longest(placed(entries@)) <= usize::MAX,
    ensures
        final(out)@ == old(out)@ + ended(
            nested_lines(placed(entries@), depth as nat, longest(placed(entries@))),
        ),
{
    let deep = longest_path(entries);
    render_level(entries, depth, deep, out);
}

fn render_level(entries: &Vec<(Vec<String>, String)>, depth: usize, deep: usize, out: &mut String)
    requires
        depth + deep <= usize::MAX,
    ensures
        final(out)@ == old(out)@ + ended(
            nested_lines(placed(entries@), depth as nat, deep as nat),
        ),
    decreases deep,
{
    let ghost head = out@;
    let ghost all = placed(entries@);
    if deep == 0 {
        assert(ended(Seq::<Seq<char>>::empty()) == Seq::<char>::empty());
        assert(out@ =~= head + Seq::<char>::empty());
        return;
    }
    let mut i: usize = 0;
    assert(all.take(0).len() == 0);
    assert(out@ =~= head + ended(leaf_lines(all.take(0), depth as nat)));
    while i < entries.len()
        invariant
            i <= entries@.len(),
            all == placed(entries@),
            out@ == head + ended(leaf_lines(all.take(i as int), depth as nat)),
        decreases entries.len() - i,
    {
        let path = &entries[i].0;
        proof {
            assert(all.take(i + 1).drop_last() == all.take(i as int));
            assert(all.take(i + 1).last() == all[i as int]);
            assert(all[i as int] == (texts(path@), entries@[i as int].1@));
        }
        if path.len() == 1 {
            let ghost was = out@;
            append_times(out, "    ", depth);
            out.append(path[0].as_str());
            out.append(" = ");
            out.append(entries[i].1.as_str());
            out.append("\n");
            proof {
                assert(texts(path@)[0] == path@[0]@);
                let line = value_line(depth as nat, path@[0]@, entries@[i as int].1@);
                assert(out@ =~= was + line + "\n"@);
                lemma_ended_push(leaf_lines(all.take(i as int), depth as nat), line);
                assert(out@ =~= head + ended(leaf_lines(all.take(i + 1), depth as nat)));
            }
        }
        i = i + 1;
    }
    assert(all.take(all.len() as int) == all);
    let ghost leaves = leaf_lines(all, depth as nat);
    let order = named_heads(entries);
    let ghost names = texts(order@);
    let ghost upto = out@;
    let mut k: usize = 0;
    assert(names.take(0).len() == 0);
    assert(out@ =~= upto + ended(category_lines(all, names.take(0), depth as nat, deep as nat)));
    while k < order.len()
        invariant
            k <= order@.len(),
            deep > 0,
            depth + deep <= usize::MAX,
            all == placed(entries@),
            names == texts(order@),
            out@ == upto + ended(
                category_lines(all, names.take(k as int), depth as nat, deep as nat),
            ),
        decreases order.len() - k,
    {
        let name = order[k].as_str();
        let ghost done = category_lines(all, names.take(k as int), depth as nat, deep as nat);
        proof {
            assert(names.take(k + 1).drop_last() == names.take(k as int));
            assert(names.take(k + 1).last() == name@);
        }
        append_times(out, "    ", depth);
        out.append(name);
        out.append(" {");
        out.append("\n");
        let ghost opened = done.push(open_line(depth as nat, name@));
        proof {
            lemma_ended_push(done, open_line(depth as nat, name@));
            assert(out@ =~= upto + ended(opened));
        }
        let inner = category(entries, name);
        render_level(&inner, depth + 1, deep - 1, out);
        let ghost within = nested_lines(children(all, name@), (depth + 1) as nat, (deep - 1) as nat);
        append_times(out, "    ", depth);
        out.append("}");
        out.append("\n");
        proof {
            lemma_ended_push(within, close_line(depth as nat));
            lemma_ended_sum(opened, within.push(close_line(depth as nat)));
            assert(out@ =~= upto + ended(opened + within.push(close_line(depth as nat))));
        }
        k = k + 1;
    }
    proof {
        assert(names.take(names.len() as int) == names);
        lemma_ended_sum(leaves, category_lines(all, names, depth as nat, deep as nat));
        assert(out@ =~= head + ended(nested_lines(all, depth as nat, deep as nat)));
    }
}

// ---------------------------------------------------------------- reading back

/// A character of a name.
pub open spec fn is_name_char(c: char) -> bool {
    is_alpha(c) || is_digit(c) || c == '_' || c == '-'
}

pub open spec fn is_name(s: Seq<char>) -> bool {
    s.len() > 0 && forall|i: int| 0 <= i < s.len() ==> is_name_char(#[trigger] s[i])
}

/// A value that fits on a line.
pub open spec fn is_line_value(v: Seq<char>) -> bool {
    is_trimmed(v) && !holds(v, '\n')
}

pub open spec fn is_placed(e: Placed) -> bool {
    &&& e.0.len() >= 1
    &&& forall|i: int| 0 <= i < e.0.len() ==> is_name(#[trigger] e.0[i])
    &&& is_line_value(e.1)
}

pub open spec fn all_placed(entries: Seq<Placed>) -> bool {
    forall|i: int| 0 <= i < entries.len() ==> is_placed(#[trigger] entries[i])
}

proof fn lemma_indent(depth: nat)
    ensures
        all_space(indent(depth)),
        !holds(indent(depth), '\n'),
        !holds(indent(depth), '='),
    decreases depth,
{
    reveal_strlit("    ");
    if depth > 0 {
        lemma_indent((depth - 1) as nat);
        let before = indent((depth - 1) as nat);
        let all = indent(depth);
        assert(all == before + "    "@);
        assert forall|i: int| 0 <= i < all.len() implies is_space(#[trigger] all[i]) && all[i]
            != '\n' && all[i] != '=' by {
            if i < before.len() {
                assert(all[i] == before[i]);
                assert(before[i] != '\n' && before[i] != '=');
                assert(is_space(before[i]));
            } else {
                assert(all[i] == "    "@[i - before.len()]);
            }
        }
    }
}

proof fn lemma_name(name: Seq<char>)
    requires
        is_name(name),
    ensures
        is_trimmed(name),
        !holds(name, '='),
        !holds(name, '\n'),
        name[0] != '#' && name[0] != '}',
        !is_space(name[0]),
{
    assert(is_name_char(name[0]));
    assert(is_name_char(name[name.len() - 1]));
}

/// A value's line says what it was made of.
proof fn lemma_value_line(depth: nat, key: Seq<char>, value: Seq<char>)
    requires
        is_name(key),
        is_line_value(value),
    ensures
        line_view(value_line(depth, key, value)) == LineView::Entry(key, value),
        !holds(value_line(depth, key, value), '\n'),
{
    reveal_strlit(" = ");
    lemma_indent(depth);
    lemma_name(key);
    let pad = indent(depth);
    let line = value_line(depth, key, value);
    let p = (pad.len() + key.len() + 1) as int;
    assert forall|j: int| 0 <= j < p implies line[j] != '=' by {
        if j < pad.len() {
            assert(line[j] == pad[j]);
        } else if j < pad.len() + key.len() {
            assert(line[j] == key[j - pad.len()]);
        }
    }
    assert(line[p] == '=');
    lemma_pos_is(line, '=', p);
    assert(holds(line, '='));
    let blank = seq![' '];
    assert(line.take(p) =~= pad + key + blank);
    lemma_trim_padded(pad, key, blank);
    assert(line.skip(p + 1) =~= blank + value + Seq::<char>::empty());
    lemma_trim_padded(blank, value, Seq::empty());
    assert(line =~= pad + (key + " = "@ + value));
    crate::configfs::hyprlang::lemma_trim_head(pad + key, " = "@ + value, pad.len() as int);
    lemma_trim_start_space(pad, key);
    assert(trim_start(key) == key);
    assert(line =~= (pad + key) + (" = "@ + value));
    assert(trim(line).len() > 0 && trim(line)[0] == key[0]);
    assert forall|j: int| 0 <= j < line.len() implies line[j] != '\n' by {
        if j < pad.len() {
            assert(line[j] == pad[j]);
        } else if j < pad.len() + key.len() {
            assert(line[j] == key[j - pad.len()]);
        } else if j >= p + 2 {
            assert(line[j] == value[j - p - 2]);
        }
    }
}

proof fn lemma_open_line(depth: nat, name: Seq<char>)
    requires
        is_name(name),
    ensures
        line_view(open_line(depth, name)) == LineView::Open(name),
        !holds(open_line(depth, name), '\n'),
{
    reveal_strlit(" {");
    lemma_indent(depth);
    lemma_name(name);
    let pad = indent(depth);
    let core = name + " {"@;
    let line = open_line(depth, name);
    assert(line =~= pad + core + Seq::<char>::empty());
    assert(core[0] == name[0]);
    assert(core.last() == '{');
    assert(is_trimmed(core));
    lemma_trim_padded(pad, core, Seq::empty());
    assert forall|j: int| 0 <= j < line.len() implies line[j] != '=' && line[j] != '\n' by {
        if j < pad.len() {
            assert(line[j] == pad[j]);
            assert(pad[j] != '=' && pad[j] != '\n');
        } else if j < pad.len() + name.len() {
            assert(line[j] == name[j - pad.len()]);
            assert(is_name_char(name[j - pad.len()]));
        }
    }
    assert(core.drop_last() =~= Seq::<char>::empty() + name + seq![' ']);
    lemma_trim_padded(Seq::empty(), name, seq![' ']);
}

proof fn lemma_close_line(depth: nat)
    ensures
        line_view(close_line(depth)) == LineView::Close,
        !holds(close_line(depth), '\n'),
{
    reveal_strlit("}");
    lemma_indent(depth);
    let pad = indent(depth);
    let line = close_line(depth);
    assert(line =~= pad + "}"@ + Seq::<char>::empty());
    lemma_trim_padded(pad, "}"@, Seq::empty());
    assert forall|j: int| 0 <= j < line.len() implies line[j] != '\n' by {
        if j < pad.len() {
            assert(line[j] == pad[j]);
        }
    }
}

/// The dotted keys and values of some entries.
pub open spec fn facts(es: Seq<EntryView>) -> Seq<(Seq<char>, Seq<char>)> {
    es.map_values(|e: EntryView| (dotted(e), e.value))
}

/// What the values at one level say, below some sections.
pub open spec fn leaf_facts(
    entries: Seq<Placed>,
    stack: Seq<Seq<char>>,
) -> Seq<(Seq<char>, Seq<char>)>
    decreases entries.len(),
{
    if entries.len() == 0 {
        Seq::empty()
    } else {
        let before = leaf_facts(entries.drop_last(), stack);
        let (path, value) = entries.last();
        if path.len() == 1 {
            before.push((join(stack + path, "."@), value))
        } else {
            before
        }
    }
}

/// What nested values say, in the order they are written.
pub open spec fn nested_facts(
    entries: Seq<Placed>,
    stack: Seq<Seq<char>>,
    deep: nat,
) -> Seq<(Seq<char>, Seq<char>)>
    decreases deep, 1nat, 0nat,
{
    if deep == 0 {
        Seq::empty()
    } else {
        leaf_facts(entries, stack) + category_facts(entries, heads(entries), stack, deep)
    }
}

pub open spec fn category_facts(
    entries: Seq<Placed>,
    order: Seq<Seq<char>>,
    stack: Seq<Seq<char>>,
    deep: nat,
) -> Seq<(Seq<char>, Seq<char>)>
    decreases deep, 0nat, order.len(),
{
    if deep == 0 || order.len() == 0 {
        Seq::empty()
    } else {
        category_facts(entries, order.drop_last(), stack, deep) + nested_facts(
            children(entries, order.last()),
            stack.push(order.last()),
            (deep - 1) as nat,
        )
    }
}

/// Whether `n` lines from line `i` on say `ps` and leave the sections as they
/// were.
spec fn says(
    lines: Seq<Seq<char>>,
    i: int,
    n: int,
    stack: Seq<Seq<char>>,
    ps: Seq<(Seq<char>, Seq<char>)>,
) -> bool {
    facts(entries_from(lines, i, stack)) == ps + facts(entries_from(lines, i + n, stack))
}

proof fn lemma_says_both(
    lines: Seq<Seq<char>>,
    i: int,
    n: int,
    m: int,
    stack: Seq<Seq<char>>,
    ps: Seq<(Seq<char>, Seq<char>)>,
    qs: Seq<(Seq<char>, Seq<char>)>,
)
    requires
        says(lines, i, n, stack, ps),
        says(lines, i + n, m, stack, qs),
    ensures
        says(lines, i, n + m, stack, ps + qs),
{
    let end = facts(entries_from(lines, i + n + m, stack));
    assert(ps + (qs + end) =~= (ps + qs) + end);
    assert(i + n + m == i + (n + m));
}

proof fn lemma_says_entry(
    lines: Seq<Seq<char>>,
    i: int,
    stack: Seq<Seq<char>>,
    key: Seq<char>,
    value: Seq<char>,
)
    requires
        0 <= i < lines.len(),
        line_view(lines[i]) == LineView::Entry(key, value),
    ensures
        says(lines, i, 1, stack, seq![(join(stack.push(key), "."@), value)]),
{
    let e = EntryView { section: stack, key, value, line: i };
    let tail = entries_from(lines, i + 1, stack);
    assert(entries_from(lines, i, stack) == seq![e] + tail);
    assert(facts(seq![e] + tail) =~= seq![(dotted(e), value)] + facts(tail));
}

proof fn lemma_says_nothing(lines: Seq<Seq<char>>, i: int, stack: Seq<Seq<char>>)
    ensures
        says(lines, i, 0, stack, Seq::empty()),
{
    let end = facts(entries_from(lines, i, stack));
    assert(Seq::<(Seq<char>, Seq<char>)>::empty() + end =~= end);
}

proof fn lemma_leaves_say(
    lines: Seq<Seq<char>>,
    i: int,
    stack: Seq<Seq<char>>,
    entries: Seq<Placed>,
    depth: nat,
)
    requires
        0 <= i,
        i + leaf_lines(entries, depth).len() <= lines.len(),
        lines.subrange(i, i + leaf_lines(entries, depth).len()) == leaf_lines(entries, depth),
        all_placed(entries),
    ensures
        says(lines, i, leaf_lines(entries, depth).len() as int, stack, leaf_facts(entries, stack)),
    decreases entries.len(),
{
    let all = leaf_lines(entries, depth);
    if entries.len() == 0 {
        lemma_says_nothing(lines, i, stack);
    } else {
        let front = entries.drop_last();
        let before = leaf_lines(front, depth);
        let (path, value) = entries.last();
        assert(is_placed(entries[entries.len() - 1]));
        assert forall|k: int| 0 <= k < front.len() implies is_placed(#[trigger] front[k]) by {
            assert(front[k] == entries[k]);
        }
        if path.len() == 1 {
            assert(lines.subrange(i, i + before.len()) =~= before) by {
                assert(before =~= all.drop_last());
                assert(lines.subrange(i, i + before.len()) =~= lines.subrange(
                    i,
                    i + all.len(),
                ).drop_last());
            }
            lemma_leaves_say(lines, i, stack, front, depth);
            let at = i + before.len();
            assert(lines[at] == lines.subrange(i, i + all.len())[before.len() as int]);
            assert(is_name(path[0]));
            lemma_value_line(depth, path[0], value);
            lemma_says_entry(lines, at, stack, path[0], value);
            assert(stack + path =~= stack.push(path[0]));
            lemma_says_both(
                lines,
                i,
                before.len() as int,
                1,
                stack,
                leaf_facts(front, stack),
                seq![(join(stack.push(path[0]), "."@), value)],
            );
            assert(leaf_facts(entries, stack) =~= leaf_facts(front, stack) + seq![
                (join(stack.push(path[0]), "."@), value),
            ]);
        } else {
            lemma_leaves_say(lines, i, stack, front, depth);
        }
    }
}

pub proof fn lemma_children_placed(entries: Seq<Placed>, name: Seq<char>)
    requires
        all_placed(entries),
    ensures
        all_placed(children(entries, name)),
    decreases entries.len(),
{
    if entries.len() > 0 {
        let front = entries.drop_last();
        assert forall|k: int| 0 <= k < front.len() implies is_placed(#[trigger] front[k]) by {
            assert(front[k] == entries[k]);
        }
        lemma_children_placed(front, name);
        let (path, value) = entries.last();
        assert(is_placed(entries[entries.len() - 1]));
        let all = children(entries, name);
        let before = children(front, name);
        assert forall|k: int| 0 <= k < all.len() implies is_placed(#[trigger] all[k]) by {
            if k < before.len() {
                assert(all[k] == before[k]);
            } else {
                assert forall|j: int| 0 <= j < path.skip(1).len() implies is_name(
                    #[trigger] path.skip(1)[j],
                ) by {
                    assert(path.skip(1)[j] == path[j + 1]);
                }
            }
        }
    }
}

pub proof fn lemma_heads_are_names(entries: Seq<Placed>)
    requires
        all_placed(entries),
    ensures
        forall|k: int| 0 <= k < heads(entries).len() ==> is_name(#[trigger] heads(entries)[k]),
    decreases entries.len(),
{
    if entries.len() > 0 {
        let front = entries.drop_last();
        assert forall|k: int| 0 <= k < front.len() implies is_placed(#[trigger] front[k]) by {
            assert(front[k] == entries[k]);
        }
        lemma_heads_are_names(front);
        assert(is_placed(entries[entries.len() - 1]));
        let path = entries.last().0;
        assert(is_name(path[0]));
        let all = heads(entries);
        let before = heads(front);
        assert forall|k: int| 0 <= k < all.len() implies is_name(#[trigger] all[k]) by {
            if k < before.len() {
                assert(all[k] == before[k]);
            }
        }
    }
}

/// The lines of nested values say what the values are.
pub proof fn lemma_nested_say(
    lines: Seq<Seq<char>>,
    i: int,
    stack: Seq<Seq<char>>,
    entries: Seq<Placed>,
    depth: nat,
    deep: nat,
)
    requires
        0 <= i,
        i + nested_lines(entries, depth, deep).len() <= lines.len(),
        lines.subrange(i, i + nested_lines(entries, depth, deep).len()) == nested_lines(
            entries,
            depth,
            deep,
        ),
        all_placed(entries),
    ensures
        facts(entries_from(lines, i, stack)) == nested_facts(entries, stack, deep) + facts(
            entries_from(lines, i + nested_lines(entries, depth, deep).len(), stack),
        ),
    decreases deep, 1nat, 0nat,
{
    let all = nested_lines(entries, depth, deep);
    if deep == 0 {
        lemma_says_nothing(lines, i, stack);
    } else {
        let leaves = leaf_lines(entries, depth);
        let cats = category_lines(entries, heads(entries), depth, deep);
        let here = lines.subrange(i, i + all.len());
        assert(lines.subrange(i, i + leaves.len()) =~= leaves) by {
            assert(lines.subrange(i, i + leaves.len()) =~= here.take(leaves.len() as int));
            assert(all.take(leaves.len() as int) =~= leaves);
        }
        lemma_leaves_say(lines, i, stack, entries, depth);
        let at = i + leaves.len();
        assert(lines.subrange(at, at + cats.len()) =~= cats) by {
            assert(lines.subrange(at, at + cats.len()) =~= here.skip(leaves.len() as int));
            assert(all.skip(leaves.len() as int) =~= cats);
        }
        lemma_heads_are_names(entries);
        lemma_categories_say(lines, at, stack, entries, heads(entries), depth, deep);
        lemma_says_both(
            lines,
            i,
            leaves.len() as int,
            cats.len() as int,
            stack,
            leaf_facts(entries, stack),
            category_facts(entries, heads(entries), stack, deep),
        );
    }
}

proof fn lemma_categories_say(
    lines: Seq<Seq<char>>,
    i: int,
    stack: Seq<Seq<char>>,
    entries: Seq<Placed>,
    order: Seq<Seq<char>>,
    depth: nat,
    deep: nat,
)
    requires
        0 <= i,
        deep > 0,
        i + category_lines(entries, order, depth, deep).len() <= lines.len(),
        lines.subrange(i, i + category_lines(entries, order, depth, deep).len())
            == category_lines(entries, order, depth, deep),
        all_placed(entries),
        forall|k: int| 0 <= k < order.len() ==> is_name(#[trigger] order[k]),
    ensures
        says(
            lines,
            i,
            category_lines(entries, order, depth, deep).len() as int,
            stack,
            category_facts(entries, order, stack, deep),
        ),
    decreases deep, 0nat, order.len(),
{
    let all = category_lines(entries, order, depth, deep);
    if order.len() == 0 {
        lemma_says_nothing(lines, i, stack);
    } else {
        let front = order.drop_last();
        let name = order.last();
        let before = category_lines(entries, front, depth, deep);
        let inner = children(entries, name);
        let within = nested_lines(inner, depth + 1, (deep - 1) as nat);
        let n = before.len() as int;
        let m = within.len() as int;
        let here = lines.subrange(i, i + all.len());
        assert(all =~= before + seq![open_line(depth, name)] + within + seq![close_line(depth)]);
        assert(lines.subrange(i, i + n) =~= before) by {
            assert(lines.subrange(i, i + n) =~= here.take(n));
            assert(all.take(n) =~= before);
        }
        lemma_categories_say(lines, i, stack, entries, front, depth, deep);
        let at = i + n;
        assert(lines[at] == here[n]);
        assert(is_name(order[order.len() - 1]));
        lemma_open_line(depth, name);
        let open = stack.push(name);
        assert(entries_from(lines, at, stack) == entries_from(lines, at + 1, open));
        assert(lines.subrange(at + 1, at + 1 + m) =~= within) by {
            assert(lines.subrange(at + 1, at + 1 + m) =~= here.subrange(n + 1, n + 1 + m));
            assert(all.subrange(n + 1, n + 1 + m) =~= within);
        }
        lemma_children_placed(entries, name);
        lemma_nested_say(lines, at + 1, open, inner, depth + 1, (deep - 1) as nat);
        assert(lines[at + 1 + m] == here[n + 1 + m]);
        lemma_close_line(depth);
        assert(open.drop_last() =~= stack);
        assert(entries_from(lines, at + 1 + m, open) == entries_from(lines, at + 2 + m, stack));
        let said = nested_facts(inner, open, (deep - 1) as nat);
        assert(says(lines, at, m + 2, stack, said));
        lemma_says_both(
            lines,
            i,
            n,
            m + 2,
            stack,
            category_facts(entries, front, stack, deep),
            said,
        );
    }
}

/// No line of nested values breaks.
pub proof fn lemma_nested_lines_are_lines(entries: Seq<Placed>, depth: nat, deep: nat)
    requires
        all_placed(entries),
    ensures
        forall|k: int|
            0 <= k < nested_lines(entries, depth, deep).len() ==> !holds(
                #[trigger] nested_lines(entries, depth, deep)[k],
                '\n',
            ),
    decreases deep, 1nat, 0nat,
{
    if deep > 0 {
        lemma_leaf_lines_are_lines(entries, depth);
        lemma_heads_are_names(entries);
        lemma_category_lines_are_lines(entries, heads(entries), depth, deep);
        let a = leaf_lines(entries, depth);
        let b = category_lines(entries, heads(entries), depth, deep);
        assert forall|k: int| 0 <= k < (a + b).len() implies !holds(#[trigger] (a + b)[k], '\n') by {
            if k < a.len() {
                assert((a + b)[k] == a[k]);
            } else {
                assert((a + b)[k] == b[k - a.len()]);
            }
        }
    }
}

proof fn lemma_leaf_lines_are_lines(entries: Seq<Placed>, depth: nat)
    requires
        all_placed(entries),
    ensures
        forall|k: int|
            0 <= k < leaf_lines(entries, depth).len() ==> !holds(
                #[trigger] leaf_lines(entries, depth)[k],
                '\n',
            ),
    decreases entries.len(),
{
    if entries.len() > 0 {
        let front = entries.drop_last();
        assert forall|k: int| 0 <= k < front.len() implies is_placed(#[trigger] front[k]) by {
            assert(front[k] == entries[k]);
        }
        lemma_leaf_lines_are_lines(front, depth);
        assert(is_placed(entries[entries.len() - 1]));
        let (path, value) = entries.last();
        if path.len() == 1 {
            assert(is_name(path[0]));
            lemma_value_line(depth, path[0], value);
        }
        let all = leaf_lines(entries, depth);
        let before = leaf_lines(front, depth);
        assert forall|k: int| 0 <= k < all.len() implies !holds(#[trigger] all[k], '\n') by {
            if k < before.len() {
                assert(all[k] == before[k]);
            }
        }
    }
}

proof fn lemma_category_lines_are_lines(
    entries: Seq<Placed>,
    order: Seq<Seq<char>>,
    depth: nat,
    deep: nat,
)
    requires
        all_placed(entries),
        deep > 0,
        forall|k: int| 0 <= k < order.len() ==> is_name(#[trigger] order[k]),
    ensures
        forall|k: int|
            0 <= k < category_lines(entries, order, depth, deep).len() ==> !holds(
                #[trigger] category_lines(entries, order, depth, deep)[k],
                '\n',
            ),
    decreases deep, 0nat, order.len(),
{
    if order.len() > 0 {
        let front = order.drop_last();
        let name = order.last();
        lemma_category_lines_are_lines(entries, front, depth, deep);
        lemma_children_placed(entries, name);
        lemma_nested_lines_are_lines(children(entries, name), depth + 1, (deep - 1) as nat);
        assert(is_name(order[order.len() - 1]));
        lemma_open_line(depth, name);
        lemma_close_line(depth);
        let before = category_lines(entries, front, depth, deep);
        let within = nested_lines(children(entries, name), depth + 1, (deep - 1) as nat);
        let all = category_lines(entries, order, depth, deep);
        assert forall|k: int| 0 <= k < all.len() implies !holds(#[trigger] all[k], '\n') by {
            let n = before.len();
            if k < n {
                assert(all[k] == before[k]);
            } else if k == n {
                assert(all[k] == open_line(depth, name));
            } else if k < n + 1 + within.len() {
                assert(all[k] == within[k - n - 1]);
            } else {
                assert(all[k] == close_line(depth));
            }
        }
    }
}

/// Whether a fact is that of one of the values.
pub open spec fn is_fact_of(
    f: (Seq<char>, Seq<char>),
    entries: Seq<Placed>,
    stack: Seq<Seq<char>>,
) -> bool {
    exists|k: int|
        0 <= k < entries.len() && f == (join(stack + (#[trigger] entries[k]).0, "."@), entries[k].1)
}

/// Every fact comes from a value.
pub proof fn lemma_facts_come_from(entries: Seq<Placed>, stack: Seq<Seq<char>>, deep: nat)
    ensures
        forall|k: int|
            0 <= k < nested_facts(entries, stack, deep).len() ==> is_fact_of(
                #[trigger] nested_facts(entries, stack, deep)[k],
                entries,
                stack,
            ),
    decreases deep, 1nat, 0nat,
{
    if deep > 0 {
        lemma_leaf_facts_come_from(entries, stack);
        lemma_category_facts_come_from(entries, heads(entries), stack, deep);
        let a = leaf_facts(entries, stack);
        let b = category_facts(entries, heads(entries), stack, deep);
        assert forall|k: int| 0 <= k < (a + b).len() implies is_fact_of(
            #[trigger] (a + b)[k],
            entries,
            stack,
        ) by {
            if k < a.len() {
                assert((a + b)[k] == a[k]);
            } else {
                assert((a + b)[k] == b[k - a.len()]);
            }
        }
    }
}

proof fn lemma_leaf_facts_come_from(entries: Seq<Placed>, stack: Seq<Seq<char>>)
    ensures
        forall|k: int|
            0 <= k < leaf_facts(entries, stack).len() ==> is_fact_of(
                #[trigger] leaf_facts(entries, stack)[k],
                entries,
                stack,
            ),
    decreases entries.len(),
{
    if entries.len() > 0 {
        let front = entries.drop_last();
        lemma_leaf_facts_come_from(front, stack);
        let all = leaf_facts(entries, stack);
        let before = leaf_facts(front, stack);
        assert forall|k: int| 0 <= k < all.len() implies is_fact_of(
            #[trigger] all[k],
            entries,
            stack,
        ) by {
            if k < before.len() {
                assert(all[k] == before[k]);
                lemma_fact_of_front(all[k], entries, stack);
            } else {
                assert(entries[entries.len() - 1] == entries.last());
            }
        }
    }
}

proof fn lemma_fact_of_front(
    f: (Seq<char>, Seq<char>),
    entries: Seq<Placed>,
    stack: Seq<Seq<char>>,
)
    requires
        entries.len() > 0,
        is_fact_of(f, entries.drop_last(), stack),
    ensures
        is_fact_of(f, entries, stack),
{
    let front = entries.drop_last();
    let k = choose|k: int|
        0 <= k < front.len() && f == (join(stack + (#[trigger] front[k]).0, "."@), front[k].1);
    assert(entries[k] == front[k]);
}

proof fn lemma_category_facts_come_from(
    entries: Seq<Placed>,
    order: Seq<Seq<char>>,
    stack: Seq<Seq<char>>,
    deep: nat,
)
    requires
        deep > 0,
    ensures
        forall|k: int|
            0 <= k < category_facts(entries, order, stack, deep).len() ==> is_fact_of(
                #[trigger] category_facts(entries, order, stack, deep)[k],
                entries,
                stack,
            ),
    decreases deep, 0nat, order.len(),
{
    if order.len() > 0 {
        let front = order.drop_last();
        let name = order.last();
        lemma_category_facts_come_from(entries, front, stack, deep);
        let inner = children(entries, name);
        lemma_facts_come_from(inner, stack.push(name), (deep - 1) as nat);
        let a = category_facts(entries, front, stack, deep);
        let b = nested_facts(inner, stack.push(name), (deep - 1) as nat);
        assert forall|k: int| 0 <= k < (a + b).len() implies is_fact_of(
            #[trigger] (a + b)[k],
            entries,
            stack,
        ) by {
            if k < a.len() {
                assert((a + b)[k] == a[k]);
            } else {
                let f = b[k - a.len()];
                assert((a + b)[k] == f);
                let j = choose|j: int|
                    0 <= j < inner.len() && f == (
                        join(stack.push(name) + (#[trigger] inner[j]).0, "."@),
                        inner[j].1,
                    );
                let c = lemma_child_from(entries, name, j);
                assert(stack.push(name) + inner[j].0 =~= stack + entries[c].0);
            }
        }
    }
}

/// A child is a value of the category with its first name taken off.
pub proof fn lemma_child_from(entries: Seq<Placed>, name: Seq<char>, j: int) -> (c: int)
    requires
        0 <= j < children(entries, name).len(),
    ensures
        0 <= c < entries.len(),
        entries[c].0.len() > 1,
        entries[c].0[0] == name,
        children(entries, name)[j] == (entries[c].0.skip(1), entries[c].1),
    decreases entries.len(),
{
    let before = children(entries.drop_last(), name);
    if j < before.len() {
        let c = lemma_child_from(entries.drop_last(), name, j);
        c
    } else {
        entries.len() - 1
    }
}

/// Every value is among the facts.
pub proof fn lemma_facts_hold(entries: Seq<Placed>, stack: Seq<Seq<char>>, deep: nat, c: int)
    requires
        0 <= c < entries.len(),
        1 <= entries[c].0.len() <= deep,
    ensures
        nested_facts(entries, stack, deep).contains(
            (join(stack + entries[c].0, "."@), entries[c].1),
        ),
    decreases deep, 1nat, 0nat,
{
    let f = (join(stack + entries[c].0, "."@), entries[c].1);
    let a = leaf_facts(entries, stack);
    let order = heads(entries);
    let b = category_facts(entries, order, stack, deep);
    if entries[c].0.len() == 1 {
        let k = lemma_leaf_holds(entries, stack, c);
        assert((a + b)[k] == f);
    } else {
        let o = lemma_head_holds(entries, c);
        lemma_category_holds(entries, order, stack, deep, c, o);
        let k = choose|k: int| 0 <= k < b.len() && b[k] == f;
        assert((a + b)[a.len() + k] == f);
    }
}

proof fn lemma_leaf_holds(entries: Seq<Placed>, stack: Seq<Seq<char>>, c: int) -> (k: int)
    requires
        0 <= c < entries.len(),
        entries[c].0.len() == 1,
    ensures
        0 <= k < leaf_facts(entries, stack).len(),
        leaf_facts(entries, stack)[k] == (join(stack + entries[c].0, "."@), entries[c].1),
    decreases entries.len(),
{
    let before = leaf_facts(entries.drop_last(), stack);
    if c < entries.len() - 1 {
        let k = lemma_leaf_holds(entries.drop_last(), stack, c);
        assert(leaf_facts(entries, stack)[k] == before[k]);
        k
    } else {
        before.len() as int
    }
}

proof fn lemma_head_holds(entries: Seq<Placed>, c: int) -> (o: int)
    requires
        0 <= c < entries.len(),
        entries[c].0.len() > 1,
    ensures
        0 <= o < heads(entries).len(),
        heads(entries)[o] == entries[c].0[0],
    decreases entries.len(),
{
    let before = heads(entries.drop_last());
    let name = entries[c].0[0];
    if c < entries.len() - 1 {
        let o = lemma_head_holds(entries.drop_last(), c);
        assert(heads(entries)[o] == before[o]);
        o
    } else if before.contains(name) {
        choose|o: int| 0 <= o < before.len() && before[o] == name
    } else {
        before.len() as int
    }
}

proof fn lemma_child_holds(entries: Seq<Placed>, c: int) -> (j: int)
    requires
        0 <= c < entries.len(),
        entries[c].0.len() > 1,
    ensures
        0 <= j < children(entries, entries[c].0[0]).len(),
        children(entries, entries[c].0[0])[j] == (entries[c].0.skip(1), entries[c].1),
    decreases entries.len(),
{
    let name = entries[c].0[0];
    let before = children(entries.drop_last(), name);
    if c < entries.len() - 1 {
        let j = lemma_child_holds(entries.drop_last(), c);
        assert(children(entries, name)[j] == before[j]);
        j
    } else {
        before.len() as int
    }
}

proof fn lemma_category_holds(
    entries: Seq<Placed>,
    order: Seq<Seq<char>>,
    stack: Seq<Seq<char>>,
    deep: nat,
    c: int,
    o: int,
)
    requires
        0 <= c < entries.len(),
        1 < entries[c].0.len() <= deep,
        0 <= o < order.len(),
        order[o] == entries[c].0[0],
    ensures
        category_facts(entries, order, stack, deep).contains(
            (join(stack + entries[c].0, "."@), entries[c].1),
        ),
    decreases deep, 0nat, order.len(),
{
    let f = (join(stack + entries[c].0, "."@), entries[c].1);
    let front = order.drop_last();
    let name = order.last();
    let a = category_facts(entries, front, stack, deep);
    let inner = children(entries, name);
    let b = nested_facts(inner, stack.push(name), (deep - 1) as nat);
    if o < order.len() - 1 {
        lemma_category_holds(entries, front, stack, deep, c, o);
        let k = choose|k: int| 0 <= k < a.len() && a[k] == f;
        assert((a + b)[k] == f);
    } else {
        let j = lemma_child_holds(entries, c);
        lemma_facts_hold(inner, stack.push(name), (deep - 1) as nat, j);
        assert(stack.push(name) + inner[j].0 =~= stack + entries[c].0);
        let k = choose|k: int| 0 <= k < b.len() && b[k] == f;
        assert((a + b)[a.len() + k] == f);
    }
}

} // verus!
