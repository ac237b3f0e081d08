//! What the lines of a Hyprland config say.

use vstd::prelude::*;

use crate::configfs::hyprlang::{
    EntryView, LineView, dotted, entries_from, entries_of, lemma_last_match, lemma_trim_end_head,
    line_view, value_at,
};
use crate::split::{all_space, is_trimmed, lemma_trim_padded, lemma_trim_start_space};
use crate::text::{holds, is_space, lemma_pos_is, trim, trim_start};

verus! {

/// A key, an equals sign and a value on one line are an entry, whatever white
/// space stands around them.
pub proof fn law_key_and_value_are_an_entry(
    a: Seq<char>,
    key: Seq<char>,
    b: Seq<char>,
    c: Seq<char>,
    value: Seq<char>,
    d: Seq<char>,
)
    requires
        all_space(a) && all_space(b) && all_space(c) && all_space(d),
        key.len() > 0,
        is_trimmed(key),
        !holds(key, '='),
        key[0] != '#' && key[0] != '}',
        is_trimmed(value),
    ensures
        line_view(a + key + b + seq!['='] + (c + value + d)) == LineView::Entry(key, value),
{
    let head = a + key + b;
    let tail = c + value + d;
    let line = head + seq!['='] + tail;
    assert(!is_space('='));
    assert forall|i: int| 0 <= i < head.len() implies line[i] != '=' by {
        assert(line[i] == head[i]);
        if i < a.len() {
            assert(is_space(a[i]));
            assert(head[i] == a[i]);
        } else if i < a.len() + key.len() {
            assert(head[i] == key[i - a.len()]);
        } else {
            assert(is_space(b[i - a.len() - key.len()]));
            assert(head[i] == b[i - a.len() - key.len()]);
        }
    }
    assert(line[head.len() as int] == '=');
    lemma_pos_is(line, '=', head.len() as int);
    assert(line.take(head.len() as int) =~= head);
    assert(line.skip(head.len() as int + 1) =~= tail);
    lemma_trim_padded(a, key, b);
    lemma_trim_padded(c, value, d);
    lemma_first_of_trim(a, key + b + seq!['='] + tail);
    assert(line =~= a + (key + b + seq!['='] + tail));
}

/// The first character of what is left when white space in front is taken off.
proof fn lemma_first_of_trim(a: Seq<char>, s: Seq<char>)
    requires
        all_space(a),
        s.len() > 0,
        !is_space(s[0]),
    ensures
        trim(a + s).len() > 0,
        trim(a + s)[0] == s[0],
{
    lemma_trim_start_space(a, s);
    assert(trim_start(s) == s);
    lemma_trim_end_head(s);
}

/// A name in front of an opening brace opens a section.
pub proof fn law_name_and_brace_open_a_section(
    a: Seq<char>,
    name: Seq<char>,
    b: Seq<char>,
    c: Seq<char>,
)
    requires
        all_space(a) && all_space(b) && all_space(c),
        name.len() > 0,
        is_trimmed(name),
        !holds(name, '='),
        name[0] != '#' && name[0] != '}',
    ensures
        line_view(a + (name + b + seq!['{']) + c) == LineView::Open(name),
{
    let core = name + b + seq!['{'];
    let line = a + core + c;
    assert(!is_space('{') && !is_space('='));
    assert(core[0] == name[0]);
    assert(core.last() == '{');
    lemma_trim_padded(a, core, c);
    assert(!holds(line, '=')) by {
        assert forall|i: int| 0 <= i < line.len() implies line[i] != '=' by {
            let n = a.len();
            if i < n {
                assert(is_space(a[i]));
            } else if i < n + name.len() {
                assert(line[i] == name[i - n]);
            } else if i < n + name.len() + b.len() {
                assert(is_space(b[i - n - name.len()]));
                assert(line[i] == b[i - n - name.len()]);
            } else if i >= n + core.len() {
                assert(is_space(c[i - n - core.len()]));
                assert(line[i] == c[i - n - core.len()]);
            }
        }
    }
    let none = Seq::<char>::empty();
    assert(core.drop_last() =~= none + name + b);
    lemma_trim_padded(none, name, b);
}

/// A closing brace closes a section, and a comment says nothing, whatever stands
/// behind them on the line.
pub proof fn law_braces_close_and_comments_are_silent(a: Seq<char>, more: Seq<char>)
    requires
        all_space(a),
    ensures
        line_view(a + (seq!['}'] + more)) == LineView::Close,
        line_view(a + (seq!['#'] + more)) == LineView::Plain,
        line_view(a) == LineView::Plain,
{
    assert(!is_space('}') && !is_space('#'));
    lemma_first_of_trim(a, seq!['}'] + more);
    lemma_first_of_trim(a, seq!['#'] + more);
    let none = Seq::<char>::empty();
    lemma_trim_padded(a, none, none);
    assert(a + none + none =~= a);
}

/// An entry belongs to the sections that are open where it stands: an opening
/// line opens one more, a closing one closes the innermost.
pub proof fn law_entries_belong_to_open_sections(
    lines: Seq<Seq<char>>,
    i: int,
    stack: Seq<Seq<char>>,
)
    requires
        0 <= i < lines.len(),
    ensures
        ({
            let es = entries_from(lines, i, stack);
            match line_view(lines[i]) {
                LineView::Entry(key, value) => es.len() > 0 && es[0].section == stack && es[0].key
                    == key && es[0].value == value && es[0].line == i && es.skip(1) == entries_from(
                    lines,
                    i + 1,
                    stack,
                ),
                LineView::Open(name) => es == entries_from(lines, i + 1, stack.push(name)),
                LineView::Close => stack.len() > 0 ==> es == entries_from(
                    lines,
                    i + 1,
                    stack.drop_last(),
                ),
                LineView::Plain => es == entries_from(lines, i + 1, stack),
            }
        }),
{
    let es = entries_from(lines, i, stack);
    if let LineView::Entry(key, value) = line_view(lines[i]) {
        assert(es.skip(1) =~= entries_from(lines, i + 1, stack));
    }
}

/// An entry outside any section goes by its key, and one in a section by the
/// section's name, a dot and what it goes by inside.
pub proof fn law_sections_come_first_in_a_name(e: EntryView)
    ensures
        e.section.len() == 0 ==> dotted(e) == e.key,
        e.section.len() > 0 ==> dotted(e) == e.section[0] + "."@ + dotted(
            EntryView { section: e.section.skip(1), ..e },
        ),
{
    let parts = e.section.push(e.key);
    if e.section.len() == 0 {
        assert(parts =~= seq![e.key]);
    } else {
        assert(parts.skip(1) =~= e.section.skip(1).push(e.key));
        assert(parts[0] == e.section[0]);
    }
}

/// Of the values that a key is given the last one counts, and a key that is given
/// none has none.
pub proof fn law_last_value_counts(lines: Seq<Seq<char>>, key: Seq<char>)
    ensures
        ({
            let es = entries_of(lines);
            &&& value_at(lines, key) is None <==> forall|k: int|
                0 <= k < es.len() ==> dotted(#[trigger] es[k]) != key
            &&& forall|k: int|
                0 <= k < es.len() && dotted(#[trigger] es[k]) == key && (forall|j: int|
                    k < j < es.len() ==> dotted(#[trigger] es[j]) != key) ==> value_at(lines, key)
                    == Some(es[k].value)
        }),
{
    lemma_last_match(entries_of(lines), key);
}

} // verus!
