//! Changes that were read from a bindings file can be written to it again.

use vstd::prelude::*;

use crate::configfs::hyprlang::{
    entries_from, entries_in, entries_of, is_bind, line_view, stack_after, EntryView, LineView,
};
use crate::configfs::managed::{extracted, lemma_markers, located, CommentStyle};
use crate::keybinds::laws::{plain_field, shown, spellable, spellable_change};
use crate::keybinds::overrides::{
    block_close, block_open, override_line, override_of, overrides_in, overrides_of, unbind_line,
    OverrideView,
};
use crate::keybinds::{bind_line, bind_of, field, has_description, mod_names, BindView};
use crate::split::{
    is_trimmed, join, lemma_split_pieces, lemma_trim_end_result, lemma_trim_result,
    lemma_trim_start_result, split, splitn,
};
use crate::text::{
    contains, holds, lemma_find_from, lemma_pos_from, occurs, pos, trim, trim_start,
};

verus! {

// ------------------------------------------------------------------------ parts

/// What stands in a part of a text stands in the text.
proof fn lemma_part(s: Seq<char>, a: Seq<char>, pat: Seq<char>)
    requires
        contains(s, a),
        contains(a, pat),
    ensures
        contains(s, pat),
{
    let i = choose|i: int| occurs(s, a, i);
    let j = choose|j: int| occurs(a, pat, j);
    assert(s.subrange(i, i + a.len()).subrange(j, j + pat.len()) == s.subrange(
        i + j,
        i + j + pat.len(),
    ));
    assert(occurs(s, pat, i + j));
}

proof fn lemma_part_char(s: Seq<char>, a: Seq<char>, c: char)
    requires
        contains(s, a),
        holds(a, c),
    ensures
        holds(s, c),
{
    let i = choose|i: int| occurs(s, a, i);
    let j = choose|j: int| 0 <= j < a.len() && a[j] == c;
    assert(s.subrange(i, i + a.len())[j] == s[i + j]);
}

proof fn lemma_range_is_part(s: Seq<char>, i: int, j: int)
    requires
        0 <= i <= j <= s.len(),
    ensures
        contains(s, s.subrange(i, j)),
{
    assert(occurs(s, s.subrange(i, j), i));
}

proof fn lemma_trim_is_part(s: Seq<char>)
    ensures
        contains(s, trim(s)),
        is_trimmed(trim(s)),
{
    lemma_trim_result(s);
    lemma_trim_start_result(s);
    let t = trim_start(s);
    lemma_trim_end_result(t);
    let k = s.len() - t.len();
    assert(trim(s) == s.subrange(k, k + trim(s).len()));
    lemma_range_is_part(s, k, k + trim(s).len());
}

proof fn lemma_splitn_parts(s: Seq<char>, n: nat, sep: char)
    ensures
        forall|i: int|
            0 <= i < splitn(s, n, sep).len() ==> contains(s, #[trigger] splitn(s, n, sep)[i]),
        forall|i: int|
            0 <= i < splitn(s, n, sep).len() && i < n - 1 ==> !holds(
                #[trigger] splitn(s, n, sep)[i],
                sep,
            ),
    decreases n,
{
    let all = splitn(s, n, sep);
    let p = pos(s, sep);
    lemma_pos_from(s, sep, 0);
    if n >= 2 && 0 <= p < s.len() {
        let rest = s.skip(p + 1);
        let tail = splitn(rest, (n - 1) as nat, sep);
        lemma_splitn_parts(rest, (n - 1) as nat, sep);
        assert(s.take(p) == s.subrange(0, p));
        assert(rest == s.subrange(p + 1, s.len() as int));
        lemma_range_is_part(s, 0, p);
        lemma_range_is_part(s, p + 1, s.len() as int);
        assert forall|i: int| 0 <= i < all.len() implies contains(s, #[trigger] all[i]) by {
            if i > 0 {
                assert(all[i] == tail[i - 1]);
                lemma_part(s, rest, all[i]);
            }
        }
        assert forall|i: int| 0 <= i < all.len() && i < n - 1 implies !holds(
            #[trigger] all[i],
            sep,
        ) by {
            if i > 0 {
                assert(all[i] == tail[i - 1]);
            } else {
                assert(all[0] == s.take(p));
            }
        }
    } else {
        assert(s == s.subrange(0, s.len() as int));
        lemma_range_is_part(s, 0, s.len() as int);
    }
}

proof fn lemma_split_parts(s: Seq<char>, sep: char)
    ensures
        forall|i: int| 0 <= i < split(s, sep).len() ==> contains(s, #[trigger] split(s, sep)[i]),
    decreases s.len(),
{
    let all = split(s, sep);
    let p = pos(s, sep);
    if 0 <= p < s.len() {
        let rest = s.skip(p + 1);
        let tail = split(rest, sep);
        lemma_split_parts(rest, sep);
        assert(s.take(p) == s.subrange(0, p));
        assert(rest == s.subrange(p + 1, s.len() as int));
        lemma_range_is_part(s, 0, p);
        lemma_range_is_part(s, p + 1, s.len() as int);
        assert forall|i: int| 0 <= i < all.len() implies contains(s, #[trigger] all[i]) by {
            if i > 0 {
                assert(all[i] == tail[i - 1]);
                lemma_part(s, rest, all[i]);
            }
        }
    } else {
        assert(s == s.subrange(0, s.len() as int));
        lemma_range_is_part(s, 0, s.len() as int);
    }
}

// ---------------------------------------------------------------------- markers

/// What the closing marker cannot reach over.
proof fn lemma_close()
    ensures
        block_close().len() > 0,
        block_close()[0] == '#',
        block_close().last() != ' ',
        !holds(block_close(), ','),
        !holds(block_close(), '='),
        !holds(block_close(), '\n'),
{
    reveal_strlit("# ");
    reveal_strlit("<<< omarchy-studio:");
    reveal_strlit("keybinds");
    reveal_strlit(" <<<");
    reveal_strlit("");
    lemma_markers("keybinds"@, CommentStyle::Hash);
}

/// A pattern without a character does not reach over it.
proof fn lemma_apart(a: Seq<char>, c: char, b: Seq<char>, pat: Seq<char>)
    requires
        pat.len() > 0,
        !holds(pat, c),
        !contains(a, pat),
        !contains(b, pat),
    ensures
        !contains(a + seq![c] + b, pat),
{
    let s = a + seq![c] + b;
    if contains(s, pat) {
        let k = choose|k: int| occurs(s, pat, k);
        let n = a.len() as int;
        let at = s.subrange(k, k + pat.len());
        if k <= n < k + pat.len() {
            assert(at[n - k] == c);
            assert(pat[n - k] == c);
        } else if k + pat.len() <= n {
            assert(a.subrange(k, k + pat.len()) == pat);
            assert(occurs(a, pat, k));
        } else {
            assert(b.subrange(k - n - 1, k - n - 1 + pat.len()) == pat);
            assert(occurs(b, pat, k - n - 1));
        }
    }
}

/// A blank at either end adds no marker.
proof fn lemma_blanks(a: Seq<char>)
    requires
        !contains(a, block_close()),
    ensures
        !contains(seq![' '] + a, block_close()),
        !contains(a + seq![' '], block_close()),
{
    let pat = block_close();
    lemma_close();
    let s = seq![' '] + a;
    if contains(s, pat) {
        let k = choose|k: int| occurs(s, pat, k);
        assert(s.subrange(k, k + pat.len())[0] == s[k]);
        assert(k > 0);
        assert(a.subrange(k - 1, k - 1 + pat.len()) == s.subrange(k, k + pat.len()));
        assert(occurs(a, pat, k - 1));
    }
    let t = a + seq![' '];
    if contains(t, pat) {
        let k = choose|k: int| occurs(t, pat, k);
        let end = k + pat.len() - 1;
        assert(t.subrange(k, k + pat.len()).last() == t[end]);
        assert(end < a.len());
        assert(a.subrange(k, k + pat.len()) == t.subrange(k, k + pat.len()));
        assert(occurs(a, pat, k));
    }
}

/// Two fields with a comma between them hold no marker where neither does.
proof fn lemma_fields_apart(a: Seq<char>, b: Seq<char>)
    requires
        !contains(a, block_close()),
        !contains(b, block_close()),
    ensures
        !contains(a + ", "@ + b, block_close()),
{
    reveal_strlit(", ");
    lemma_close();
    lemma_blanks(b);
    lemma_apart(a, ',', seq![' '] + b, block_close());
    assert(a + ", "@ + b == a + seq![','] + (seq![' '] + b));
}

pub proof fn lemma_no_hash(a: Seq<char>)
    requires
        !holds(a, '#'),
    ensures
        !contains(a, block_close()),
{
    let pat = block_close();
    lemma_close();
    if contains(a, pat) {
        let k = choose|k: int| occurs(a, pat, k);
        assert(a.subrange(k, k + pat.len())[0] == a[k]);
        assert(holds(a, '#'));
    }
}

proof fn lemma_join_no_char(ws: Seq<Seq<char>>, c: char)
    requires
        c != ' ',
        forall|i: int| 0 <= i < ws.len() ==> !holds(#[trigger] ws[i], c),
    ensures
        !holds(join(ws, " "@), c),
    decreases ws.len(),
{
    reveal_strlit(" ");
    if ws.len() > 1 {
        let more = ws.skip(1);
        assert forall|i: int| 0 <= i < more.len() implies !holds(#[trigger] more[i], c) by {
            assert(more[i] == ws[i + 1]);
        }
        lemma_join_no_char(more, c);
        let s = join(ws, " "@);
        let t = join(more, " "@);
        assert(s == ws[0] + " "@ + t);
        if holds(s, c) {
            let i = choose|i: int| 0 <= i < s.len() && s[i] == c;
            if i < ws[0].len() {
                assert(ws[0][i] == c);
            } else if i > ws[0].len() {
                assert(t[i - ws[0].len() - 1] == c);
            }
        }
    }
}

proof fn lemma_names_plain(mask: u16, c: char)
    requires
        c == '#' || c == '\n',
    ensures
        !holds(join(mod_names(mask), " "@), c),
{
    reveal_strlit("SUPER");
    reveal_strlit("CTRL");
    reveal_strlit("ALT");
    reveal_strlit("SHIFT");
    reveal_strlit("CAPS");
    reveal_strlit("MOD5");
    let ws = mod_names(mask);
    assert forall|i: int| 0 <= i < ws.len() implies !holds(#[trigger] ws[i], c) by {
        assert(ws[i] == "SUPER"@ || ws[i] == "CTRL"@ || ws[i] == "ALT"@ || ws[i] == "SHIFT"@
            || ws[i] == "CAPS"@ || ws[i] == "MOD5"@);
    }
    lemma_join_no_char(ws, c);
}

// ------------------------------------------------------------------- one change

/// A change whose line says all of it: the modifiers have names, and there is no
/// argument without a dispatcher.
pub open spec fn says_all(o: OverrideView) -> bool {
    match o {
        OverrideView::Bind(b) => shown(b.modmask) == b.modmask && (b.dispatcher.len() == 0
            ==> b.arg.len() == 0),
        OverrideView::Disable { modmask, .. } => shown(modmask) == modmask,
    }
}

/// A change that is read back from its line, which does not hold the block's
/// closing marker.
pub open spec fn readable_change(o: OverrideView) -> bool {
    spellable_change(o) && !contains(override_line(o), block_close())
}

/// Whether the fields of a bind hold no line break and no marker.
spec fn is_clean(s: Seq<char>) -> bool {
    !holds(s, '\n') && !contains(s, block_close())
}

proof fn lemma_no_char_sum(a: Seq<char>, b: Seq<char>, c: char)
    requires
        !holds(a, c),
        !holds(b, c),
    ensures
        !holds(a + b, c),
{
    if holds(a + b, c) {
        let i = choose|i: int| 0 <= i < (a + b).len() && (a + b)[i] == c;
        if i < a.len() {
            assert(a[i] == c);
        } else {
            assert(b[i - a.len()] == c);
        }
    }
}

proof fn lemma_clean_fields(a: Seq<char>, b: Seq<char>)
    requires
        is_clean(a),
        is_clean(b),
    ensures
        is_clean(a + ", "@ + b),
{
    reveal_strlit(", ");
    lemma_fields_apart(a, b);
    lemma_no_char_sum(a, ", "@, '\n');
    lemma_no_char_sum(a + ", "@, b, '\n');
}

/// A directive, its modifiers and its key.
proof fn lemma_clean_head(flags: Seq<char>, mask: u16, key: Seq<char>)
    requires
        is_clean(flags),
        is_clean(key),
    ensures
        is_clean(flags + " = "@ + join(mod_names(mask), " "@) + ", "@ + key),
{
    reveal_strlit(" = ");
    let names = join(mod_names(mask), " "@);
    lemma_names_plain(mask, '#');
    lemma_names_plain(mask, '\n');
    lemma_no_hash(names);
    lemma_close();
    lemma_blanks(flags);
    lemma_blanks(names);
    lemma_apart(flags + seq![' '], '=', seq![' '] + names, block_close());
    let left = flags + " = "@ + names;
    assert(left == (flags + seq![' ']) + seq!['='] + (seq![' '] + names));
    lemma_no_char_sum(flags, " = "@, '\n');
    lemma_no_char_sum(flags + " = "@, names, '\n');
    lemma_clean_fields(left, key);
}

proof fn lemma_clean_bind(b: BindView)
    requires
        is_clean(b.flags),
        is_clean(b.key),
        b.description matches Some(d) ==> is_clean(d),
        is_clean(b.dispatcher),
        is_clean(b.arg),
    ensures
        is_clean(bind_line(b)),
{
    lemma_clean_head(b.flags, b.modmask, b.key);
    let head = b.flags + " = "@ + join(mod_names(b.modmask), " "@) + ", "@ + b.key;
    let described = match b.description {
        Some(d) => head + ", "@ + d,
        None => head,
    };
    if let Some(d) = b.description {
        lemma_clean_fields(head, d);
    }
    if b.dispatcher.len() > 0 {
        lemma_clean_fields(described, b.dispatcher);
        if b.arg.len() > 0 {
            lemma_clean_fields(described + ", "@ + b.dispatcher, b.arg);
        }
    }
}

/// A bind whose fields are on one line and hold no `#` is read back.
pub proof fn lemma_plain_bind_is_readable(b: BindView)
    requires
        spellable(b),
        forall|c: char|
            c == '#' || c == '\n' ==> !holds(b.flags, c) && !holds(b.key, c) && (
            b.description matches Some(d) ==> !holds(d, c)) && !holds(b.dispatcher, c) && !holds(
                b.arg,
                c,
            ),
    ensures
        readable_change(OverrideView::Bind(b)),
{
    lemma_no_hash(b.flags);
    lemma_no_hash(b.key);
    if let Some(d) = b.description {
        lemma_no_hash(d);
    }
    lemma_no_hash(b.dispatcher);
    lemma_no_hash(b.arg);
    lemma_clean_bind(b);
}

proof fn lemma_part_is_clean(s: Seq<char>, a: Seq<char>)
    requires
        is_clean(s),
        contains(s, a),
    ensures
        is_clean(a),
{
    if holds(a, '\n') {
        lemma_part_char(s, a, '\n');
    }
    if contains(a, block_close()) {
        lemma_part(s, a, block_close());
    }
}

proof fn lemma_empty_is_clean()
    ensures
        is_clean(Seq::empty()),
        plain_field(Seq::empty()),
{
    lemma_no_hash(Seq::empty());
}

/// A field of a clean value is clean and trimmed, and holds no comma where others
/// may follow it.
proof fn lemma_field(value: Seq<char>, n: nat, i: int)
    requires
        is_clean(value),
        0 <= i,
    ensures
        is_clean(field(splitn(value, n, ','), i)),
        is_trimmed(field(splitn(value, n, ','), i)),
        i < n - 1 ==> plain_field(field(splitn(value, n, ','), i)),
{
    let parts = splitn(value, n, ',');
    if i < parts.len() {
        lemma_splitn_parts(value, n, ',');
        assert(contains(value, parts[i]));
        lemma_trim_is_part(parts[i]);
        lemma_part(value, parts[i], trim(parts[i]));
        lemma_part_is_clean(value, trim(parts[i]));
        if i < n - 1 && holds(trim(parts[i]), ',') {
            lemma_part_char(parts[i], trim(parts[i]), ',');
        }
    } else {
        lemma_empty_is_clean();
    }
}

/// The key and the value of an entry that a clean line says.
proof fn lemma_entry(line: Seq<char>)
    requires
        is_clean(line),
        line_view(line) is Entry,
    ensures
        is_clean(line_view(line)->Entry_0),
        is_clean(line_view(line)->Entry_1),
        is_trimmed(line_view(line)->Entry_0),
        !holds(line_view(line)->Entry_0, '='),
{
    let p = pos(line, '=');
    lemma_pos_from(line, '=', 0);
    let a = line.take(p);
    let b = line.skip(p + 1);
    assert(a == line.subrange(0, p));
    assert(b == line.subrange(p + 1, line.len() as int));
    lemma_range_is_part(line, 0, p);
    lemma_range_is_part(line, p + 1, line.len() as int);
    lemma_trim_is_part(a);
    lemma_trim_is_part(b);
    lemma_part(line, a, trim(a));
    lemma_part(line, b, trim(b));
    lemma_part_is_clean(line, trim(a));
    lemma_part_is_clean(line, trim(b));
    if holds(trim(a), '=') {
        lemma_part_char(a, trim(a), '=');
        let i = choose|i: int| 0 <= i < a.len() && a[i] == '=';
        assert(line[i] == '=');
    }
}

/// A change that a clean line spells, and that says all of it, is readable.
proof fn lemma_reread(e: EntryView)
    requires
        is_clean(e.key),
        is_clean(e.value),
        is_trimmed(e.key),
        !holds(e.key, '='),
        override_of(e) is Some,
        says_all(override_of(e)->0),
    ensures
        readable_change(override_of(e)->0),
{
    let o = override_of(e)->0;
    match o {
        OverrideView::Disable { modmask, key } => {
            lemma_field(e.value, 2, 1);
            assert(key == field(splitn(e.value, 2, ','), 1));
            reveal_strlit("unbind");
            reveal_strlit("unbind = ");
            reveal_strlit(" = ");
            let word = "unbind"@;
            assert("unbind = "@ == word + " = "@);
            assert(!holds(word, '#') && !holds(word, '\n'));
            lemma_no_hash(word);
            lemma_clean_head(word, modmask, key);
            assert(unbind_line(modmask, key) == word + " = "@ + join(mod_names(modmask), " "@)
                + ", "@ + key);
        },
        OverrideView::Bind(b) => {
            let described = has_description(e.key);
            let n: nat = if described {
                5
            } else {
                4
            };
            let at: int = if described {
                3
            } else {
                2
            };
            lemma_field(e.value, n, 1);
            lemma_field(e.value, n, 2);
            lemma_field(e.value, n, at);
            lemma_field(e.value, n, at + 1);
            assert(bind_of(e.key, e.value) == Some(b));
            lemma_clean_bind(b);
        },
    }
}

// ------------------------------------------------------------------------ a block

/// Whether an entry is what a line of a list says.
spec fn is_said(lines: Seq<Seq<char>>, e: EntryView) -> bool {
    exists|i: int|
        0 <= i < lines.len() && #[trigger] line_view(lines[i]) == LineView::Entry(e.key, e.value)
}

proof fn lemma_entries_said(lines: Seq<Seq<char>>, i: int, stack: Seq<Seq<char>>)
    requires
        0 <= i,
    ensures
        forall|k: int|
            0 <= k < entries_from(lines, i, stack).len() ==> is_said(
                lines,
                #[trigger] entries_from(lines, i, stack)[k],
            ),
    decreases lines.len() - i,
{
    if i < lines.len() {
        let line = line_view(lines[i]);
        let next = stack_after(line, stack);
        lemma_entries_said(lines, i + 1, next);
        let all = entries_from(lines, i, stack);
        let tail = entries_from(lines, i + 1, next);
        assert forall|k: int| 0 <= k < all.len() implies is_said(lines, #[trigger] all[k]) by {
            if let LineView::Entry(key, value) = line {
                if k > 0 {
                    assert(all[k] == tail[k - 1]);
                } else {
                    assert(line_view(lines[i]) == LineView::Entry(all[k].key, all[k].value));
                }
            } else {
                assert(all[k] == tail[k]);
            }
        }
    }
}

proof fn lemma_filtered_said(lines: Seq<Seq<char>>, es: Seq<EntryView>)
    requires
        forall|k: int| 0 <= k < es.len() ==> is_said(lines, #[trigger] es[k]),
    ensures
        ({
            let kept = es.filter(|e: EntryView| is_bind(e));
            forall|k: int| 0 <= k < kept.len() ==> is_said(lines, #[trigger] kept[k])
        }),
    decreases es.len(),
{
    reveal(Seq::filter);
    if es.len() > 0 {
        let front = es.drop_last();
        assert forall|k: int| 0 <= k < front.len() implies is_said(lines, #[trigger] front[k]) by {
            assert(front[k] == es[k]);
        }
        lemma_filtered_said(lines, front);
        let f = |e: EntryView| is_bind(e);
        let before = front.filter(f);
        let kept = es.filter(f);
        assert(is_said(lines, es[es.len() - 1]));
        assert forall|k: int| 0 <= k < kept.len() implies is_said(lines, #[trigger] kept[k]) by {
            if k < before.len() {
                assert(kept[k] == before[k]);
            } else {
                assert(kept[k] == es.last());
            }
        }
    }
}

proof fn lemma_all_reread(lines: Seq<Seq<char>>, es: Seq<EntryView>)
    requires
        forall|i: int| 0 <= i < lines.len() ==> is_clean(#[trigger] lines[i]),
        forall|k: int| 0 <= k < es.len() ==> is_said(lines, #[trigger] es[k]),
        forall|k: int| 0 <= k < overrides_of(es).len() ==> says_all(#[trigger] overrides_of(es)[k]),
    ensures
        forall|k: int|
            0 <= k < overrides_of(es).len() ==> readable_change(#[trigger] overrides_of(es)[k]),
    decreases es.len(),
{
    if es.len() > 0 {
        let front = es.drop_last();
        let last = es.last();
        let head = overrides_of(front);
        let all = overrides_of(es);
        assert forall|k: int| 0 <= k < front.len() implies is_said(lines, #[trigger] front[k]) by {
            assert(front[k] == es[k]);
        }
        assert forall|k: int| 0 <= k < head.len() implies says_all(#[trigger] head[k]) by {
            assert(all[k] == head[k]);
        }
        lemma_all_reread(lines, front);
        assert(is_said(lines, es[es.len() - 1]));
        if override_of(last) is Some {
            let i = choose|i: int|
                0 <= i < lines.len() && #[trigger] line_view(lines[i]) == LineView::Entry(
                    last.key,
                    last.value,
                );
            lemma_entry(lines[i]);
            assert(all[all.len() - 1] == override_of(last)->0);
            lemma_reread(last);
        }
        assert forall|k: int| 0 <= k < all.len() implies readable_change(#[trigger] all[k]) by {
            if k < head.len() {
                assert(all[k] == head[k]);
            }
        }
    }
}

/// What stands in a block holds no closing marker.
proof fn lemma_body_is_open(text: Seq<char>)
    ensures
        extracted(text, block_open(), block_close()) matches Some(body) ==> !contains(
            body,
            block_close(),
        ),
{
    let open = block_open();
    let close = block_close();
    lemma_close();
    lemma_find_from(text, open, 0);
    if let Some((i, j)) = located(text, open, close) {
        lemma_find_from(text, close, i + open.len());
        let body = extracted(text, open, close)->0;
        let a = i + open.len();
        let from = if a < j && text[a] == '\n' {
            a + 1
        } else {
            a
        };
        if contains(body, close) {
            let k = choose|k: int| occurs(body, close, k);
            assert(text.subrange(from + k, from + k + close.len()) == body.subrange(
                k,
                k + close.len(),
            ));
            assert(occurs(text, close, from + k));
        }
    }
}

/// The changes that were read from a bindings file are read back when they are
/// written again. A modifier without a name and an argument without a dispatcher
/// would be lost.
pub proof fn law_read_changes_are_readable(text: Seq<char>)
    requires
        forall|k: int| 0 <= k < overrides_in(text).len() ==> says_all(#[trigger] overrides_in(text)[k]),
    ensures
        forall|k: int|
            0 <= k < overrides_in(text).len() ==> readable_change(#[trigger] overrides_in(text)[k]),
{
    if let Some(body) = extracted(text, block_open(), block_close()) {
        lemma_body_is_open(text);
        let lines = split(body, '\n');
        lemma_split_pieces(body, '\n');
        lemma_split_parts(body, '\n');
        assert forall|i: int| 0 <= i < lines.len() implies is_clean(#[trigger] lines[i]) by {
            if contains(lines[i], block_close()) {
                lemma_part(body, lines[i], block_close());
            }
        }
        let es = entries_in(body);
        assert(es == entries_of(lines));
        lemma_entries_said(lines, 0, Seq::empty());
        lemma_filtered_said(lines, es);
        let kept = es.filter(|e: EntryView| is_bind(e));
        assert(overrides_in(text) == overrides_of(kept));
        lemma_all_reread(lines, kept);
    }
}

} // verus!
