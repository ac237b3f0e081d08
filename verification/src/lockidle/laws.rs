//! Retiming one listener of a hypridle file leaves the others as they are.

use vstd::prelude::*;

use crate::lockidle::{
    brace_at, closes, closing, digits_len, gap_len, gives, inside, int_field, int_in_line, is_gap,
    lemma_closing, lemma_digits_len, lemma_gap_len, lemma_gives, lemma_int_field, lemma_int_in_line,
    lemma_keyword, lemma_spans, listener_in, listeners_in, position_of, retimed, str_field,
    value_start, ListenerView, Timed,
};
use crate::number::{int_text, lemma_parse_of_text, parse_i64};
use crate::split::{
    join, lemma_join_of_split, lemma_split_of_join, lemma_split_pieces, lemma_trim_start_result,
    lemma_trim_start_space, lines, split, without_return,
};
use crate::text::{
    find, holds, is_digit, is_space, lemma_find_from, lemma_find_is, lemma_pos_from, lemma_pos_is,
    occurs, pos, starts_with, trim_start,
};

verus! {

// ------------------------------------------------------------------ one line

proof fn lemma_trim_start_append(a: Seq<char>, b: Seq<char>)
    requires
        trim_start(a).len() > 0,
    ensures
        trim_start(a + b) == trim_start(a) + b,
    decreases a.len(),
{
    if is_space(a[0]) {
        lemma_trim_start_append(a.skip(1), b);
        assert((a + b).skip(1) == a.skip(1) + b);
    }
}

/// Whether a line gives a key is told by what stands in front of its first
/// equals sign.
proof fn lemma_gives_by_head(head: Seq<char>, tail: Seq<char>, key: Seq<char>)
    requires
        !holds(head, '='),
        !holds(key, '='),
    ensures
        gives(head + seq!['='] + tail, key) == gives(head + seq!['='], key),
{
    let h = head + seq!['='];
    let line = h + tail;
    assert(!is_space('='));
    lemma_trim_start_result(h);
    assert(trim_start(h).len() > 0) by {
        if trim_start(h).len() == 0 {
            assert(h.take(h.len() as int)[h.len() - 1] == '=');
        }
    }
    lemma_trim_start_append(h, tail);
    let t = trim_start(h);
    assert(t.last() == '=');
    assert(trim_start(line) == t + tail);
    if key.len() < t.len() {
        assert((t + tail).take(key.len() as int) == t.take(key.len() as int));
        let u = t.skip(key.len() as int);
        assert((t + tail).skip(key.len() as int) == u + tail);
        lemma_trim_start_result(u);
        assert(trim_start(u).len() > 0) by {
            if trim_start(u).len() == 0 {
                assert(u.take(u.len() as int)[u.len() - 1] == '=');
            }
        }
        lemma_trim_start_append(u, tail);
    } else {
        if starts_with(t + tail, key) {
            assert((t + tail).take(key.len() as int)[t.len() - 1] == '=');
            assert(key[t.len() - 1] == '=');
            assert(holds(key, '='));
        }
        if starts_with(t, key) {
            assert(t.take(key.len() as int)[t.len() - 1] == '=');
            assert(holds(key, '='));
        }
    }
}

pub proof fn lemma_digits_len_is(d: Seq<char>, tail: Seq<char>)
    requires
        forall|i: int| 0 <= i < d.len() ==> is_digit(#[trigger] d[i]) || d[i] == '-',
        tail.len() > 0 ==> !is_digit(tail[0]) && tail[0] != '-',
    ensures
        digits_len(d + tail) == d.len(),
    decreases d.len(),
{
    if d.len() > 0 {
        assert((d + tail).skip(1) == d.skip(1) + tail);
        assert forall|i: int| 0 <= i < d.skip(1).len() implies is_digit(#[trigger] d.skip(1)[i])
            || d.skip(1)[i] == '-' by {
            assert(d.skip(1)[i] == d[i + 1]);
        }
        lemma_digits_len_is(d.skip(1), tail);
    } else {
        assert(d + tail == tail);
    }
}

/// A text of a number begins with a digit or a minus sign.
pub proof fn lemma_int_text(seconds: i64)
    ensures
        int_text(seconds as int).len() > 0,
        parse_i64(int_text(seconds as int)) == Some(seconds),
        forall|i: int|
            0 <= i < int_text(seconds as int).len() ==> is_digit(
                #[trigger] int_text(seconds as int)[i],
            ) || int_text(seconds as int)[i] == '-',
{
    lemma_parse_of_text(seconds as int);
}

/// A line whose number is replaced gives the new number in the same place.
proof fn lemma_line_retimed(line: Seq<char>, key: Seq<char>, seconds: i64)
    requires
        int_in_line(line, key) is Some,
        !holds(key, '='),
    ensures
        ({
            let (v, a, b) = int_in_line(line, key)->0;
            let now = retimed(line, a, b, seconds);
            &&& int_in_line(now, key) == Some(
                (seconds, a, a + int_text(seconds as int).len()),
            )
            &&& 0 <= a <= b <= line.len()
            &&& trim_start(now).len() > 0
            &&& trim_start(line).len() > 0
            &&& trim_start(now)[0] == trim_start(line)[0]
        }),
{
    let (v, a, b) = int_in_line(line, key)->0;
    let text = int_text(seconds as int);
    lemma_gives(line, key);
    lemma_int_in_line(line, key);
    lemma_int_text(seconds);
    lemma_digits_len(line.skip(a));
    let p = pos(line, '=');
    lemma_pos_from(line, '=', 0);
    let head = line.take(p);
    let now = retimed(line, a, b, seconds);
    assert(!holds(head, '=')) by {
        assert forall|i: int| 0 <= i < head.len() implies head[i] != '=' by {
            assert(head[i] == line[i]);
        }
    }
    assert(line == head + seq!['='] + line.skip(p + 1));
    assert(now == head + seq!['='] + now.skip(p + 1));
    lemma_gives_by_head(head, line.skip(p + 1), key);
    lemma_gives_by_head(head, now.skip(p + 1), key);
    assert forall|i: int| 0 <= i < p implies now[i] != '=' by {
        assert(now[i] == line[i]);
    }
    assert(now[p] == '=');
    lemma_pos_is(now, '=', p);
    // the value begins where it did
    let after = line.skip(p + 1);
    lemma_trim_start_result(after);
    let gap = line.subrange(p + 1, a);
    assert(gap == after.take(after.len() - trim_start(after).len()));
    let tail = text + line.skip(b);
    assert(now.skip(p + 1) == gap + tail);
    lemma_trim_start_space(gap, tail);
    assert(tail[0] == text[0]);
    assert(!is_space(tail[0]));
    assert(trim_start(tail) == tail);
    assert(now.len() - tail.len() == a);
    assert(value_start(now) == a);
    assert(now.skip(a) == tail);
    if b < line.len() {
        assert(line.skip(b)[0] == line.skip(a)[b - a]);
    }
    lemma_digits_len_is(text, line.skip(b));
    assert(now.subrange(a, a + text.len()) == text);
    // and the line begins as it did
    let h = head + seq!['='];
    lemma_trim_start_result(h);
    assert(trim_start(h).len() > 0) by {
        if trim_start(h).len() == 0 {
            assert(h.take(h.len() as int)[h.len() - 1] == '=');
        }
    }
    lemma_trim_start_append(h, line.skip(p + 1));
    lemma_trim_start_append(h, now.skip(p + 1));
}

// ---------------------------------------------------------------- many lines

/// The lines of a block with the number that counts replaced, and which line
/// that was.
proof fn lemma_lines_retimed(ls: Seq<Seq<char>>, key: Seq<char>, off: int, seconds: i64) -> (at:
    int)
    requires
        int_field(ls, key, off) is Some,
        !holds(key, '='),
    ensures
        0 <= at < ls.len(),
        int_in_line(ls[at], key) is Some,
        ({
            let (v, from, to) = int_field(ls, key, off)->0;
            let (w, a, b) = int_in_line(ls[at], key)->0;
            let now = ls.update(at, retimed(ls[at], a, b, seconds));
            &&& int_field(now, key, off) == Some(
                (seconds, from, from + int_text(seconds as int).len()),
            )
            &&& join(now, seq!['\n']) == retimed(
                join(ls, seq!['\n']),
                from - off,
                to - off,
                seconds,
            )
            &&& 0 <= from - off <= to - off <= join(ls, seq!['\n']).len()
        }),
    decreases ls.len(),
{
    let nl: Seq<char> = seq!['\n'];
    let (v, from, to) = int_field(ls, key, off)->0;
    lemma_int_field(ls, key, off);
    if int_in_line(ls[0], key) is Some {
        let (w, a, b) = int_in_line(ls[0], key)->0;
        lemma_line_retimed(ls[0], key, seconds);
        let line = retimed(ls[0], a, b, seconds);
        let now = ls.update(0, line);
        assert(now.skip(1) == ls.skip(1));
        if ls.len() > 1 {
            let tail = nl + join(ls.skip(1), nl);
            assert(join(ls, nl) == ls[0] + tail);
            assert(join(now, nl) == line + tail);
            assert(line + tail == retimed(ls[0] + tail, a, b, seconds));
        }
        0
    } else {
        let more = ls.skip(1);
        let next = off + ls[0].len() + 1;
        let k = lemma_lines_retimed(more, key, next, seconds);
        let at = k + 1;
        let (w, a, b) = int_in_line(ls[at], key)->0;
        assert(ls[at] == more[k]);
        let line = retimed(ls[at], a, b, seconds);
        let now = ls.update(at, line);
        assert(now.skip(1) == more.update(k, line));
        assert(now[0] == ls[0]);
        assert(ls.len() > 1);
        let head = ls[0] + nl;
        let rest = join(more, nl);
        assert(join(ls, nl) == head + rest);
        assert(join(now, nl) == head + retimed(rest, from - next, to - next, seconds));
        lemma_int_field(more, key, next);
        assert(head + retimed(rest, from - next, to - next, seconds) == retimed(
            head + rest,
            from - off,
            to - off,
            seconds,
        ));
        at
    }
}

/// The lines that pieces without line breaks make.
pub open spec fn lines_of(ls: Seq<Seq<char>>) -> Seq<Seq<char>>
    decreases ls.len(),
{
    if ls.len() == 0 {
        Seq::empty()
    } else if ls.len() == 1 {
        if ls[0].len() == 0 {
            Seq::empty()
        } else {
            ls
        }
    } else {
        seq![without_return(ls[0])] + lines_of(ls.skip(1))
    }
}

pub proof fn lemma_lines_of(ls: Seq<Seq<char>>)
    requires
        ls.len() > 0,
        forall|i: int| 0 <= i < ls.len() ==> !holds(#[trigger] ls[i], '\n'),
    ensures
        lines(join(ls, seq!['\n'])) == lines_of(ls),
    decreases ls.len(),
{
    let nl: Seq<char> = seq!['\n'];
    let s = join(ls, nl);
    assert(!holds(ls[0], '\n'));
    if ls.len() == 1 {
        if s.len() > 0 {
            lemma_pos_is(s, '\n', s.len() as int);
            assert(ls == seq![s]);
        }
    } else {
        let more = ls.skip(1);
        assert forall|i: int| 0 <= i < more.len() implies !holds(#[trigger] more[i], '\n') by {
            assert(more[i] == ls[i + 1]);
        }
        lemma_lines_of(more);
        let n = ls[0].len() as int;
        assert(s == ls[0] + nl + join(more, nl));
        assert forall|i: int| 0 <= i < n implies s[i] != '\n' by {
            assert(s[i] == ls[0][i]);
        }
        assert(s[n] == '\n');
        lemma_pos_is(s, '\n', n);
        assert(s.take(n) == ls[0]);
        assert(s.skip(n + 1) == join(more, nl));
    }
}

/// A line that begins with another character than a key does not give it.
proof fn lemma_other_head(line: Seq<char>, key: Seq<char>)
    requires
        key.len() > 0,
        trim_start(line).len() == 0 || trim_start(line)[0] != key[0],
    ensures
        !gives(line, key),
{
    let t = trim_start(line);
    if starts_with(t, key) {
        assert(t.take(key.len() as int)[0] == t[0]);
    }
}

proof fn lemma_without_return_head(line: Seq<char>)
    ensures
        trim_start(without_return(line)).len() > 0 ==> trim_start(line).len() > 0 && trim_start(
            without_return(line),
        )[0] == trim_start(line)[0],
{
    let w = without_return(line);
    if w != line && trim_start(w).len() > 0 {
        lemma_trim_start_append(w, seq!['\r']);
        assert(line == w + seq!['\r']);
    }
}

/// A text field does not depend on a line that gives another key.
proof fn lemma_str_field_same(ls: Seq<Seq<char>>, at: int, line: Seq<char>, key: Seq<char>)
    requires
        0 <= at < ls.len(),
        key.len() > 0,
        trim_start(ls[at]).len() > 0,
        trim_start(ls[at])[0] != key[0],
        trim_start(line).len() > 0,
        trim_start(line)[0] != key[0],
    ensures
        str_field(lines_of(ls.update(at, line)), key) == str_field(lines_of(ls), key),
    decreases ls.len(),
{
    let now = ls.update(at, line);
    lemma_without_return_head(ls[at]);
    lemma_without_return_head(line);
    lemma_other_head(ls[at], key);
    lemma_other_head(line, key);
    lemma_other_head(without_return(ls[at]), key);
    lemma_other_head(without_return(line), key);
    if ls.len() == 1 {
        assert(ls[0].len() > 0 && line.len() > 0);
        let none = Seq::<Seq<char>>::empty();
        assert(ls.skip(1) == none);
        assert(now.skip(1) == none);
        assert(str_field(none, key) == Seq::<char>::empty());
        assert(lines_of(ls) == ls && lines_of(now) == now);
        assert(str_field(ls, key) == str_field(none, key));
        assert(str_field(now, key) == str_field(none, key));
    } else if at == 0 {
        assert(now.skip(1) == ls.skip(1));
        let more = lines_of(ls.skip(1));
        let a = seq![without_return(ls[0])] + more;
        let b = seq![without_return(line)] + more;
        assert(a.skip(1) == more);
        assert(b.skip(1) == more);
    } else {
        assert(now.skip(1) == ls.skip(1).update(at - 1, line));
        assert(ls.skip(1)[at - 1] == ls[at]);
        lemma_str_field_same(ls.skip(1), at - 1, line, key);
        let a = seq![without_return(ls[0])] + lines_of(ls.skip(1));
        let b = seq![without_return(ls[0])] + lines_of(now.skip(1));
        assert(a.skip(1) == lines_of(ls.skip(1)));
        assert(b.skip(1) == lines_of(now.skip(1)));
        assert(now[0] == ls[0]);
    }
}

// ------------------------------------------------------------------- a block

/// A listener with another timeout.
pub open spec fn with_timeout(l: ListenerView, seconds: i64) -> ListenerView {
    ListenerView { timeout: seconds, ..l }
}

/// A block whose timeout is replaced describes the same listener with the new
/// timeout.
proof fn lemma_block_retimed(block: Seq<char>, off: int, seconds: i64)
    requires
        listener_in(block, off) is Some,
    ensures
        ({
            let t = listener_in(block, off)->0;
            let now = retimed(block, t.from - off, t.to - off, seconds);
            &&& 0 <= t.from - off <= t.to - off <= block.len()
            &&& listener_in(now, off) matches Some(u) && u.listener == with_timeout(
                t.listener,
                seconds,
            )
        }),
{
    reveal_strlit("timeout");
    reveal_strlit("on-timeout");
    let key = "timeout"@;
    let other = "on-timeout"@;
    assert(!holds(key, '='));
    let t = listener_in(block, off)->0;
    let ls = split(block, '\n');
    lemma_join_of_split(block, '\n');
    lemma_split_pieces(block, '\n');
    let at = lemma_lines_retimed(ls, key, off, seconds);
    let (w, a, b) = int_in_line(ls[at], key)->0;
    let line = retimed(ls[at], a, b, seconds);
    let now = ls.update(at, line);
    let block2 = join(now, seq!['\n']);
    lemma_line_retimed(ls[at], key, seconds);
    lemma_int_text(seconds);
    let text = int_text(seconds as int);
    assert(!holds(ls[at], '\n'));
    assert(!holds(line, '\n')) by {
        assert forall|i: int| 0 <= i < line.len() implies line[i] != '\n' by {
            if i < a {
                assert(line[i] == ls[at][i]);
            } else if i < a + text.len() {
                assert(line[i] == text[i - a]);
            } else {
                assert(line[i] == ls[at][i - text.len() - a + b]);
            }
        }
    }
    assert forall|i: int| 0 <= i < now.len() implies !holds(#[trigger] now[i], '\n') by {
        if i != at {
            assert(now[i] == ls[i]);
        }
    }
    lemma_split_of_join(now, '\n');
    lemma_lines_of(ls);
    lemma_lines_of(now);
    // the line that gives the timeout begins with its first letter
    assert(gives(ls[at], key));
    assert(trim_start(ls[at])[0] == 't') by {
        assert(trim_start(ls[at]).take(key.len() as int)[0] == key[0]);
    }
    assert(other[0] == 'o');
    lemma_str_field_same(ls, at, line, other);
    assert(block2 == retimed(block, t.from - off, t.to - off, seconds));
}

/// What stands inside a block and holds no brace does not move its end but by
/// its length.
proof fn lemma_closing_over(p: Seq<char>, y: Seq<char>, z: Seq<char>, w: Seq<char>, depth: nat)
    requires
        !holds(y, '{') && !holds(y, '}'),
        !holds(w, '{') && !holds(w, '}'),
        closing(p + y + z, depth) > p.len() + y.len(),
    ensures
        closing(p + w + z, depth) - w.len() == closing(p + y + z, depth) - y.len(),
    decreases p.len(),
{
    if p.len() > 0 {
        let u = p + y + z;
        let v = p + w + z;
        assert(u.skip(1) == p.skip(1) + y + z);
        assert(v.skip(1) == p.skip(1) + w + z);
        assert(u[0] == p[0] && v[0] == p[0]);
        let d: nat = if p[0] == '{' {
            depth + 1
        } else if p[0] == '}' {
            (depth - 1) as nat
        } else {
            depth
        };
        lemma_closing_over(p.skip(1), y, z, w, d);
    } else {
        assert(p + y + z == y + z);
        assert(p + w + z == w + z);
        lemma_closing_skip(y, z, depth);
        lemma_closing_skip(w, z, depth);
    }
}

pub proof fn lemma_closing_skip(y: Seq<char>, z: Seq<char>, depth: nat)
    requires
        !holds(y, '{') && !holds(y, '}'),
        depth > 0,
    ensures
        closing(y + z, depth) == y.len() + closing(z, depth),
    decreases y.len(),
{
    if y.len() > 0 {
        assert((y + z).skip(1) == y.skip(1) + z);
        assert((y + z)[0] == y[0]);
        assert forall|c: char| holds(y.skip(1), c) implies holds(y, c) by {
            let i = choose|i: int| 0 <= i < y.skip(1).len() && y.skip(1)[i] == c;
            assert(y[i + 1] == c);
        }
        lemma_closing_skip(y.skip(1), z, depth);
    } else {
        assert(y + z == z);
    }
}

/// What holds no brace does not change whether a text closes.
proof fn lemma_closes_over(p: Seq<char>, y: Seq<char>, z: Seq<char>, w: Seq<char>, depth: nat)
    requires
        !holds(y, '{') && !holds(y, '}'),
        !holds(w, '{') && !holds(w, '}'),
    ensures
        closes(p + w + z, depth) == closes(p + y + z, depth),
    decreases p.len(),
{
    if depth > 0 && p.len() > 0 {
        let u = p + y + z;
        let v = p + w + z;
        assert(u.skip(1) == p.skip(1) + y + z);
        assert(v.skip(1) == p.skip(1) + w + z);
        assert(u[0] == p[0] && v[0] == p[0]);
        let d: nat = if p[0] == '{' {
            depth + 1
        } else if p[0] == '}' {
            (depth - 1) as nat
        } else {
            depth
        };
        lemma_closes_over(p.skip(1), y, z, w, d);
    } else if depth > 0 {
        assert(p + y + z == y + z);
        assert(p + w + z == w + z);
        lemma_closes_skip(y, z, depth);
        lemma_closes_skip(w, z, depth);
    }
}

pub proof fn lemma_closes_skip(y: Seq<char>, z: Seq<char>, depth: nat)
    requires
        !holds(y, '{') && !holds(y, '}'),
    ensures
        closes(y + z, depth) == closes(z, depth),
    decreases y.len(),
{
    if y.len() > 0 {
        assert((y + z).skip(1) == y.skip(1) + z);
        assert((y + z)[0] == y[0]);
        assert forall|c: char| holds(y.skip(1), c) implies holds(y, c) by {
            let i = choose|i: int| 0 <= i < y.skip(1).len() && y.skip(1)[i] == c;
            assert(y[i + 1] == c);
        }
        lemma_closes_skip(y.skip(1), z, depth);
    } else {
        assert(y + z == z);
    }
}

/// A text that does not close is taken to its end.
proof fn lemma_never_closed(s: Seq<char>, depth: nat)
    requires
        !closes(s, depth),
    ensures
        closing(s, depth) == s.len(),
    decreases s.len(),
{
    if s.len() > 0 {
        let d: nat = if s[0] == '{' {
            depth + 1
        } else if s[0] == '}' {
            (depth - 1) as nat
        } else {
            depth
        };
        lemma_never_closed(s.skip(1), d);
    }
}

/// Where a block ends does not depend on what follows it.
proof fn lemma_closing_stop(p: Seq<char>, q: Seq<char>, r: Seq<char>, depth: nat)
    requires
        closing(p + q, depth) == p.len(),
        q.len() > 0,
    ensures
        closing(p + r, depth) == p.len(),
        closes(p + q, depth),
        closes(p + r, depth),
    decreases p.len(),
{
    if p.len() > 0 {
        assert((p + q).skip(1) == p.skip(1) + q);
        assert((p + r).skip(1) == p.skip(1) + r);
        assert((p + q)[0] == p[0] && (p + r)[0] == p[0]);
        let d: nat = if p[0] == '{' {
            depth + 1
        } else if p[0] == '}' {
            (depth - 1) as nat
        } else {
            depth
        };
        assert(depth > 0);
        lemma_closing_stop(p.skip(1), q, r, d);
    } else {
        assert(p + q == q);
        assert(p + r == r);
        assert(depth == 0);
    }
}

// ------------------------------------------------------------------ the file

/// Two texts with the same beginning have the keyword at the same place.
proof fn lemma_same_keyword(s: Seq<char>, u: Seq<char>, n: int)
    requires
        find(s, "listener"@) is Some,
        find(s, "listener"@)->0 + 8 <= n <= s.len(),
        n <= u.len(),
        s.take(n) == u.take(n),
    ensures
        find(u, "listener"@) == find(s, "listener"@),
{
    let key = "listener"@;
    lemma_keyword(s);
    lemma_find_from(s, key, 0);
    let kw = find(s, key)->0;
    assert(u.subrange(kw, kw + 8) == u.take(n).subrange(kw, kw + 8));
    assert(s.subrange(kw, kw + 8) == s.take(n).subrange(kw, kw + 8));
    assert forall|j: int| 0 <= j < kw implies !occurs(u, key, j) by {
        if occurs(u, key, j) {
            assert(u.subrange(j, j + 8) == u.take(n).subrange(j, j + 8));
            assert(s.subrange(j, j + 8) == s.take(n).subrange(j, j + 8));
            assert(occurs(s, key, j));
        }
    }
    lemma_find_is(u, key, 0, kw);
}

/// Two texts with the same beginning have the same gap there, where a mark
/// ends it.
proof fn lemma_same_gap(s: Seq<char>, u: Seq<char>, n: int)
    requires
        gap_len(s) < n <= s.len(),
        n <= u.len(),
        s.take(n) == u.take(n),
    ensures
        gap_len(u) == gap_len(s),
        u[gap_len(s) as int] == s[gap_len(s) as int],
    decreases s.len(),
{
    assert(s.take(n)[0] == s[0] && u.take(n)[0] == u[0]);
    if is_gap(s[0]) {
        assert(s.skip(1).take(n - 1) == s.take(n).skip(1));
        assert(u.skip(1).take(n - 1) == u.take(n).skip(1));
        lemma_same_gap(s.skip(1), u.skip(1), n - 1);
        let g = gap_len(s.skip(1)) as int;
        assert(s.skip(1)[g] == s[g + 1]);
        assert(u.skip(1)[g] == u[g + 1]);
    }
}

/// Every timeout stands behind the first keyword and its brace.
proof fn lemma_behind_keyword(s: Seq<char>, off: int, i: int)
    requires
        0 <= i < listeners_in(s, off).len(),
    ensures
        find(s, "listener"@) is Some,
        listeners_in(s, off)[i].from - off > find(s, "listener"@)->0 + 8,
        listeners_in(s, off)[i].from - off > brace_at(s, find(s, "listener"@)->0),
        listeners_in(s, off)[i].from <= listeners_in(s, off)[i].to,
        listeners_in(s, off)[i].to - off <= s.len(),
    decreases s.len(),
{
    lemma_keyword(s);
    lemma_spans(s, off);
    let kw = find(s, "listener"@)->0;
    let n = kw + 8;
    lemma_gap_len(s.skip(n));
    let open = brace_at(s, kw);
    if open >= s.len() || s[open] != '{' {
        let r = s.skip(n);
        lemma_behind_keyword(r, off + n, i);
        // the next keyword is no gap
        let k2 = find(r, "listener"@)->0;
        lemma_find_from(r, "listener"@, 0);
        reveal_strlit("listener");
        lemma_keyword(r);
        assert(r.subrange(k2, k2 + 8)[0] == r[k2]);
        assert(r[k2] == 'l');
        if k2 < gap_len(r) {
            assert(is_gap(r[k2]));
        }
    } else {
        let body = s.skip(open + 1);
        let k = closing(body, 1);
        lemma_closing(body, 1);
        let block = inside(body, k);
        lemma_join_of_split(block, '\n');
        lemma_int_field(split(block, '\n'), "timeout"@, off + open + 1);
        lemma_spans(body.skip(k as int), off + open + 1 + k);
        let more = listeners_in(body.skip(k as int), off + open + 1 + k);
        let all = listeners_in(s, off);
        if listener_in(block, off + open + 1) is Some {
            if i > 0 {
                assert(all[i] == more[i - 1]);
            }
        } else {
            assert(all[i] == more[i]);
        }
    }
}

/// A block in the text that follows its brace keeps its end when its timeout is
/// replaced.
proof fn lemma_body_retimed(body: Seq<char>, base: int, seconds: i64)
    requires
        listener_in(inside(body, closing(body, 1)), base) is Some,
    ensures
        ({
            let k = closing(body, 1);
            let block = inside(body, k);
            let t = listener_in(block, base)->0;
            let (x, y) = (t.from - base, t.to - base);
            let now = retimed(body, x, y, seconds);
            let k2 = closing(now, 1);
            &&& inside(now, k2) == retimed(block, x, y, seconds)
            &&& now.skip(k2 as int) == body.skip(k as int)
        }),
{
    let k = closing(body, 1);
    lemma_closing(body, 1);
    let block = inside(body, k);
    let t = listener_in(block, base)->0;
    let (x, y) = (t.from - base, t.to - base);
    let text = int_text(seconds as int);
    lemma_int_text(seconds);
    lemma_block_retimed(block, base, seconds);
    assert(k > 0) by {
        if k == 0 {
            assert(block == Seq::<char>::empty());
            lemma_empty_block(base);
        }
    }
    assert(block == body.take(block.len() as int));
    assert(y <= block.len());
    let p = body.take(x);
    let was = body.subrange(x, y);
    let z = body.skip(y);
    let now = retimed(body, x, y, seconds);
    assert(body == p + was + z);
    assert(now == p + text + z);
    lemma_no_braces(block, base);
    assert(was == block.subrange(x, y));
    assert(!holds(text, '{') && !holds(text, '}')) by {
        assert forall|i: int| 0 <= i < text.len() implies text[i] != '{' && text[i] != '}' by {
            assert(is_digit(text[i]) || text[i] == '-');
        }
    }
    lemma_closes_over(p, was, z, text, 1);
    let k2 = closing(now, 1);
    let n = block.len() as int;
    let m = n - (y - x) + text.len();
    assert(now.take(m) == retimed(block, x, y, seconds));
    if closes(body, 1) {
        lemma_closing_over(p, was, z, text, 1);
        assert(k2 - 1 == m);
        assert(inside(now, k2) == now.take(m));
    } else {
        lemma_never_closed(body, 1);
        lemma_never_closed(now, 1);
        assert(k2 == m);
        assert(inside(now, k2) == now.take(m));
    }
    assert(k2 == k - (y - x) + text.len());
    assert(now.skip(k2 as int) == body.skip(k as int));
}

/// An empty block describes nothing.
proof fn lemma_empty_block(base: int)
    ensures
        listener_in(Seq::<char>::empty(), base) is None,
{
    let none = Seq::<char>::empty();
    crate::split::lemma_split_none(none, '\n');
    let ls = seq![none];
    reveal_strlit("timeout");
    assert(ls.skip(1) == Seq::<Seq<char>>::empty());
    assert(!gives(none, "timeout"@));
    assert(int_field(ls.skip(1), "timeout"@, base + 1) is None);
    assert(int_field(ls, "timeout"@, base) is None);
}

/// Whether the listeners are the same but for the timeout of one.
pub open spec fn retimes(was: Seq<Timed>, now: Seq<Timed>, m: int, seconds: i64) -> bool {
    &&& now.len() == was.len()
    &&& now[m].listener == with_timeout(was[m].listener, seconds)
    &&& forall|i: int|
        0 <= i < was.len() && i != m ==> (#[trigger] now[i]).listener == was[i].listener
}

proof fn lemma_retimes_behind(first: Timed, was: Seq<Timed>, now: Seq<Timed>, m: int, seconds: i64)
    requires
        0 <= m < was.len(),
        retimes(was, now, m, seconds),
    ensures
        retimes(seq![first] + was, seq![first] + now, m + 1, seconds),
{
    let (x, y) = (seq![first] + was, seq![first] + now);
    assert forall|i: int| 0 <= i < x.len() && i != m + 1 implies (#[trigger] y[i]).listener
        == x[i].listener by {
        if i > 0 {
            assert(y[i] == now[i - 1] && x[i] == was[i - 1]);
        }
    }
}

proof fn lemma_retimes_first(t: Timed, u: Timed, more: Seq<Timed>, later: Seq<Timed>, seconds: i64)
    requires
        u.listener == with_timeout(t.listener, seconds),
        more.len() == later.len(),
        forall|i: int|
            0 <= i < later.len() ==> (#[trigger] later[i]).listener == more[i].listener,
    ensures
        retimes(seq![t] + more, seq![u] + later, 0, seconds),
{
    let (x, y) = (seq![t] + more, seq![u] + later);
    assert forall|i: int| 0 <= i < x.len() && i != 0 implies (#[trigger] y[i]).listener
        == x[i].listener by {
        assert(y[i] == later[i - 1] && x[i] == more[i - 1]);
    }
}

/// A text whose first keyword opens no block.
proof fn lemma_no_block(s: Seq<char>, off: int, kw: int)
    requires
        find(s, "listener"@) == Some(kw),
        brace_at(s, kw) >= s.len() || s[brace_at(s, kw)] != '{',
    ensures
        listeners_in(s, off) == listeners_in(s.skip(kw + 8), off + kw + 8),
{
    lemma_keyword(s);
}

/// A text whose first keyword opens a block.
pub proof fn lemma_one_block(s: Seq<char>, off: int, kw: int)
    requires
        find(s, "listener"@) == Some(kw),
        brace_at(s, kw) < s.len() && s[brace_at(s, kw)] == '{',
    ensures
        ({
            let open = brace_at(s, kw);
            let body = s.skip(open + 1);
            let k = closing(body, 1);
            let more = listeners_in(body.skip(k as int), off + open + 1 + k);
            listeners_in(s, off) == match listener_in(inside(body, k), off + open + 1) {
                Some(t) => seq![t] + more,
                None => more,
            }
        }),
{
}

/// A text that is changed behind its first block's brace has the same keyword
/// and brace.
proof fn lemma_same_head(s: Seq<char>, u: Seq<char>, kw: int, a: int)
    requires
        find(s, "listener"@) == Some(kw),
        kw + 8 <= brace_at(s, kw) < a <= s.len(),
        a <= u.len(),
        s.take(a) == u.take(a),
    ensures
        find(u, "listener"@) == Some(kw),
        brace_at(u, kw) == brace_at(s, kw),
        u[brace_at(s, kw)] == s[brace_at(s, kw)],
{
    let n = kw + 8;
    lemma_keyword(s);
    lemma_same_keyword(s, u, a);
    assert(s.skip(n).take(a - n) == s.take(a).skip(n));
    assert(u.skip(n).take(a - n) == u.take(a).skip(n));
    lemma_same_gap(s.skip(n), u.skip(n), a - n);
    assert(s.take(a)[brace_at(s, kw)] == s[brace_at(s, kw)]);
    assert(u.take(a)[brace_at(s, kw)] == u[brace_at(s, kw)]);
}

/// The change is in the first block.
proof fn lemma_retime_first(s: Seq<char>, off: int, kw: int, u: Seq<char>, seconds: i64)
    requires
        find(s, "listener"@) == Some(kw),
        find(u, "listener"@) == Some(kw),
        brace_at(s, kw) < s.len() && s[brace_at(s, kw)] == '{',
        brace_at(u, kw) == brace_at(s, kw) < u.len(),
        u[brace_at(s, kw)] == '{',
        ({
            let open = brace_at(s, kw);
            let body = s.skip(open + 1);
            let base = off + open + 1;
            let first = listener_in(inside(body, closing(body, 1)), base);
            &&& first is Some
            &&& u.skip(open + 1) == retimed(
                body,
                first->0.from - base,
                first->0.to - base,
                seconds,
            )
        }),
    ensures
        retimes(listeners_in(s, off), listeners_in(u, off), 0, seconds),
{
    let open = brace_at(s, kw);
    let body = s.skip(open + 1);
    let base = off + open + 1;
    let k = closing(body, 1);
    let block = inside(body, k);
    let t = listener_in(block, base)->0;
    let now = u.skip(open + 1);
    let k2 = closing(now, 1);
    lemma_block_retimed(block, base, seconds);
    lemma_body_retimed(body, base, seconds);
    lemma_one_block(s, off, kw);
    lemma_one_block(u, off, kw);
    let tail = body.skip(k as int);
    lemma_shift(tail, base + k2, base + k);
    lemma_retimes_first(
        t,
        listener_in(inside(now, k2), base)->0,
        listeners_in(tail, base + k),
        listeners_in(tail, base + k2),
        seconds,
    );
}

/// The change is behind the first block.
proof fn lemma_retime_later(
    s: Seq<char>,
    off: int,
    kw: int,
    u: Seq<char>,
    tail: Seq<char>,
    j: int,
    seconds: i64,
)
    requires
        find(s, "listener"@) == Some(kw),
        find(u, "listener"@) == Some(kw),
        brace_at(s, kw) < s.len() && s[brace_at(s, kw)] == '{',
        brace_at(u, kw) == brace_at(s, kw) < u.len(),
        u[brace_at(s, kw)] == '{',
        ({
            let open = brace_at(s, kw);
            let body = s.skip(open + 1);
            let k = closing(body, 1);
            let base = off + open + 1;
            let more = listeners_in(body.skip(k as int), base + k);
            &&& body.skip(k as int).len() > 0
            &&& u.skip(open + 1) == body.take(k as int) + tail
            &&& 0 <= j < more.len()
            &&& retimes(more, listeners_in(tail, base + k), j, seconds)
        }),
    ensures
        ({
            let open = brace_at(s, kw);
            let body = s.skip(open + 1);
            let first = listener_in(inside(body, closing(body, 1)), off + open + 1);
            retimes(
                listeners_in(s, off),
                listeners_in(u, off),
                if first is Some {
                    j + 1
                } else {
                    j
                },
                seconds,
            )
        }),
{
    let open = brace_at(s, kw);
    let body = s.skip(open + 1);
    let k = closing(body, 1);
    lemma_closing(body, 1);
    let base = off + open + 1;
    let now = u.skip(open + 1);
    let front = body.take(k as int);
    let rest = body.skip(k as int);
    assert(body == front + rest);
    lemma_closing_stop(front, rest, tail, 1);
    assert(inside(now, k) == inside(body, k)) by {
        assert(now == front + tail);
        if k > 0 {
            assert(now.take(k - 1) == body.take(k - 1));
        }
        assert(now.take(k as int) == body.take(k as int));
    }
    assert(now.skip(k as int) == tail);
    lemma_one_block(s, off, kw);
    lemma_one_block(u, off, kw);
    let more = listeners_in(rest, base + k);
    let later = listeners_in(tail, base + k);
    if let Some(t) = listener_in(inside(body, k), base) {
        lemma_retimes_behind(t, more, later, j, seconds);
    }
}

/// What stands in front of the change is as it was, and the change is the same
/// in any end of the text that holds it.
proof fn lemma_retimed_ends(s: Seq<char>, a: int, b: int, n: int, seconds: i64)
    requires
        0 <= n <= a <= b <= s.len(),
    ensures
        retimed(s, a, b, seconds).take(a) == s.take(a),
        retimed(s, a, b, seconds).len() >= a,
        retimed(s, a, b, seconds).skip(n) == retimed(s.skip(n), a - n, b - n, seconds),
        retimed(s, a, b, seconds) == s.take(n) + retimed(s.skip(n), a - n, b - n, seconds),
{
    let u = retimed(s, a, b, seconds);
    let v = retimed(s.skip(n), a - n, b - n, seconds);
    assert(s.skip(n).take(a - n) == s.take(a).skip(n));
    assert(s.skip(n).skip(b - n) == s.skip(b));
    assert(u.take(a) == s.take(a));
    assert(u.skip(n) == v);
    assert(u == s.take(n) + v);
}

/// One step of retiming: the change is behind the first keyword.
proof fn lemma_retime_step(s: Seq<char>, off: int, kw: int, m: int, seconds: i64)
    requires
        find(s, "listener"@) == Some(kw),
        0 <= m < listeners_in(s, off).len(),
        brace_at(s, kw) < s.len() && s[brace_at(s, kw)] == '{',
        kw + 8 <= brace_at(s, kw),
        ({
            let open = brace_at(s, kw);
            let body = s.skip(open + 1);
            let k = closing(body, 1);
            let base = off + open + 1;
            let tail = body.skip(k as int);
            let more = listeners_in(tail, base + k);
            let a = listeners_in(s, off)[m].from - off;
            let b = listeners_in(s, off)[m].to - off;
            let first = listener_in(inside(body, k), base);
            let j = if first is Some {
                m - 1
            } else {
                m
            };
            &&& open < a <= b <= s.len()
            &&& j >= 0 ==> {
                &&& open + 1 + k <= a
                &&& tail.len() > 0
                &&& retimes(
                    more,
                    listeners_in(
                        retimed(tail, a - open - 1 - k, b - open - 1 - k, seconds),
                        base + k,
                    ),
                    j,
                    seconds,
                )
            }
        }),
    ensures
        retimes(
            listeners_in(s, off),
            listeners_in(
                retimed(
                    s,
                    listeners_in(s, off)[m].from - off,
                    listeners_in(s, off)[m].to - off,
                    seconds,
                ),
                off,
            ),
            m,
            seconds,
        ),
{
    let was = listeners_in(s, off);
    let a = was[m].from - off;
    let b = was[m].to - off;
    let open = brace_at(s, kw);
    let u = retimed(s, a, b, seconds);
    let body = s.skip(open + 1);
    let k = closing(body, 1);
    let base = off + open + 1;
    let tail = body.skip(k as int);
    lemma_closing(body, 1);
    lemma_keyword(s);
    lemma_retimed_ends(s, a, b, open + 1, seconds);
    lemma_same_head(s, u, kw, a);
    lemma_one_block(s, off, kw);
    let first = listener_in(inside(body, k), base);
    if first is Some && m == 0 {
        assert(was[0] == first->0);
        lemma_retime_first(s, off, kw, u, seconds);
    } else {
        let j = if first is Some {
            m - 1
        } else {
            m
        };
        let (x, y) = (a - open - 1, b - open - 1);
        lemma_retimed_ends(body, x, y, k as int, seconds);
        lemma_retime_later(s, off, kw, u, retimed(tail, x - k, y - k, seconds), j, seconds);
    }
}

/// Whether retiming the listener `m` of a text changes that timeout alone.
#[verifier::opaque]
spec fn retimes_well(s: Seq<char>, off: int, m: int, seconds: i64) -> bool {
    retimes(
        listeners_in(s, off),
        listeners_in(
            retimed(
                s,
                listeners_in(s, off)[m].from - off,
                listeners_in(s, off)[m].to - off,
                seconds,
            ),
            off,
        ),
        m,
        seconds,
    )
}

/// The first keyword opens no block: the listeners are those behind it.
proof fn lemma_retime_past(s: Seq<char>, off: int, kw: int, m: int, seconds: i64)
    requires
        0 <= m < listeners_in(s, off).len(),
        find(s, "listener"@) == Some(kw),
        brace_at(s, kw) < s.len(),
        s[brace_at(s, kw)] != '{',
        listeners_in(s, off) == listeners_in(s.skip(kw + 8), off + kw + 8),
        retimes_well(s.skip(kw + 8), off + kw + 8, m, seconds),
    ensures
        retimes_well(s, off, m, seconds),
{
    reveal(retimes_well);
    lemma_behind_keyword(s, off, m);
    lemma_keyword(s);
    let a = listeners_in(s, off)[m].from - off;
    let b = listeners_in(s, off)[m].to - off;
    let n = kw + 8;
    let u = retimed(s, a, b, seconds);
    lemma_retimed_ends(s, a, b, n, seconds);
    lemma_same_head(s, u, kw, a);
    lemma_no_block(u, off, kw);
}

/// The first keyword opens a block: the listener is in it, or behind it.
proof fn lemma_retime_block(s: Seq<char>, off: int, kw: int, m: int, seconds: i64)
    requires
        0 <= m < listeners_in(s, off).len(),
        find(s, "listener"@) == Some(kw),
        kw + 8 <= brace_at(s, kw) < s.len(),
        s[brace_at(s, kw)] == '{',
        ({
            let open = brace_at(s, kw);
            let body = s.skip(open + 1);
            let k = closing(body, 1);
            let base = off + open + 1;
            let tail = body.skip(k as int);
            let first = listener_in(inside(body, k), base);
            let j = if first is Some {
                m - 1
            } else {
                m
            };
            &&& k <= body.len()
            &&& j >= 0 ==> {
                &&& j < listeners_in(tail, base + k).len()
                &&& listeners_in(s, off)[m] == listeners_in(tail, base + k)[j]
                &&& retimes_well(tail, base + k, j, seconds)
            }
        }),
    ensures
        retimes_well(s, off, m, seconds),
{
    reveal(retimes_well);
    lemma_behind_keyword(s, off, m);
    let open = brace_at(s, kw);
    let body = s.skip(open + 1);
    let k = closing(body, 1);
    let base = off + open + 1;
    let tail = body.skip(k as int);
    let first = listener_in(inside(body, k), base);
    let j = if first is Some {
        m - 1
    } else {
        m
    };
    if j >= 0 {
        lemma_behind_keyword(tail, base + k, j);
        lemma_keyword(tail);
    }
    lemma_retime_step(s, off, kw, m, seconds);
}

proof fn lemma_retime(s: Seq<char>, off: int, m: int, seconds: i64)
    requires
        0 <= m < listeners_in(s, off).len(),
    ensures
        retimes_well(s, off, m, seconds),
    decreases s.len(),
{
    lemma_behind_keyword(s, off, m);
    lemma_keyword(s);
    let kw = find(s, "listener"@)->0;
    let open = brace_at(s, kw);
    if s[open] != '{' {
        lemma_no_block(s, off, kw);
        lemma_retime(s.skip(kw + 8), off + kw + 8, m, seconds);
        lemma_retime_past(s, off, kw, m, seconds);
    } else {
        lemma_one_block(s, off, kw);
        let body = s.skip(open + 1);
        let k = closing(body, 1);
        lemma_closing(body, 1);
        let tail = body.skip(k as int);
        let first = listener_in(inside(body, k), off + open + 1);
        let j = if first is Some {
            m - 1
        } else {
            m
        };
        if j >= 0 {
            lemma_retime(tail, off + open + 1 + k, j, seconds);
        }
        lemma_retime_block(s, off, kw, m, seconds);
    }
}

/// Retiming the listener `m` of a text changes its timeout and no other
/// listener.
pub proof fn law_retime_one(s: Seq<char>, off: int, m: int, seconds: i64)
    requires
        0 <= m < listeners_in(s, off).len(),
    ensures
        retimes(
            listeners_in(s, off),
            listeners_in(
                retimed(
                    s,
                    listeners_in(s, off)[m].from - off,
                    listeners_in(s, off)[m].to - off,
                    seconds,
                ),
                off,
            ),
            m,
            seconds,
        ),
{
    reveal(retimes_well);
    lemma_retime(s, off, m, seconds);
}

/// The digits of a timeout hold no brace.
proof fn lemma_no_braces(block: Seq<char>, base: int)
    requires
        listener_in(block, base) is Some,
    ensures
        ({
            let t = listener_in(block, base)->0;
            let d = block.subrange(t.from - base, t.to - base);
            !holds(d, '{') && !holds(d, '}')
        }),
{
    let ls = split(block, '\n');
    lemma_join_of_split(block, '\n');
    let t = listener_in(block, base)->0;
    lemma_field_digits(ls, "timeout"@, base);
    let d = block.subrange(t.from - base, t.to - base);
    assert forall|i: int| 0 <= i < d.len() implies d[i] != '{' && d[i] != '}' by {
        assert(is_digit(d[i]) || d[i] == '-');
    }
}

proof fn lemma_field_digits(ls: Seq<Seq<char>>, key: Seq<char>, off: int)
    requires
        int_field(ls, key, off) is Some,
    ensures
        ({
            let (v, a, b) = int_field(ls, key, off)->0;
            let all = join(ls, seq!['\n']);
            &&& 0 <= a - off <= b - off <= all.len()
            &&& forall|i: int|
                a - off <= i < b - off ==> is_digit(#[trigger] all[i]) || all[i] == '-'
        }),
    decreases ls.len(),
{
    let nl: Seq<char> = seq!['\n'];
    let (v, a, b) = int_field(ls, key, off)->0;
    lemma_int_field(ls, key, off);
    let all = join(ls, nl);
    lemma_int_in_line(ls[0], key);
    if int_in_line(ls[0], key) is Some {
        let (w, x, y) = int_in_line(ls[0], key)->0;
        lemma_digits_len(ls[0].skip(x));
        assert forall|i: int| x <= i < y implies is_digit(#[trigger] all[i]) || all[i] == '-' by {
            assert(ls[0].skip(x)[i - x] == ls[0][i]);
            if ls.len() > 1 {
                assert(all == ls[0] + (nl + join(ls.skip(1), nl)));
                assert(all[i] == ls[0][i]);
            }
        }
    } else {
        let more = ls.skip(1);
        let next = off + ls[0].len() + 1;
        lemma_field_digits(more, key, next);
        let tail = join(more, nl);
        assert(all == ls[0] + nl + tail);
        assert forall|i: int| a - off <= i < b - off implies is_digit(#[trigger] all[i]) || all[i]
            == '-' by {
            assert(all[i] == tail[i - ls[0].len() - 1]);
        }
    }
}

proof fn lemma_field_shift(ls: Seq<Seq<char>>, key: Seq<char>, off: int, other: int)
    ensures
        int_field(ls, key, other) == match int_field(ls, key, off) {
            Some((v, a, b)) => Some((v, a - off + other, b - off + other)),
            None => None,
        },
    decreases ls.len(),
{
    if ls.len() > 0 && int_in_line(ls[0], key) is None {
        lemma_field_shift(
            ls.skip(1),
            key,
            off + ls[0].len() + 1,
            other + ls[0].len() + 1,
        );
    }
}

/// Counting from elsewhere changes where listeners stand, not what they say.
proof fn lemma_shift(s: Seq<char>, off: int, other: int)
    ensures
        listeners_in(s, off).len() == listeners_in(s, other).len(),
        forall|i: int|
            0 <= i < listeners_in(s, off).len() ==> (#[trigger] listeners_in(s, off)[i]).listener
                == listeners_in(s, other)[i].listener,
    decreases s.len(),
{
    lemma_keyword(s);
    if let Some(kw) = find(s, "listener"@) {
        let n = kw + 8;
        lemma_gap_len(s.skip(n));
        let open = brace_at(s, kw);
        if open >= s.len() || s[open] != '{' {
            lemma_shift(s.skip(n), off + n, other + n);
        } else {
            let body = s.skip(open + 1);
            let k = closing(body, 1);
            lemma_closing(body, 1);
            let tail = body.skip(k as int);
            lemma_shift(tail, off + open + 1 + k, other + open + 1 + k);
            let block = inside(body, k);
            lemma_field_shift(
                split(block, '\n'),
                "timeout"@,
                off + open + 1,
                other + open + 1,
            );
            let (x, y) = (listeners_in(s, off), listeners_in(s, other));
            let more = listeners_in(tail, off + open + 1 + k);
            let less = listeners_in(tail, other + open + 1 + k);
            assert forall|i: int| 0 <= i < x.len() implies (#[trigger] x[i]).listener
                == y[i].listener by {
                if listener_in(block, off + open + 1) is Some {
                    if i > 0 {
                        assert(x[i] == more[i - 1]);
                        assert(y[i] == less[i - 1]);
                    }
                } else {
                    assert(x[i] == more[i] && y[i] == less[i]);
                }
            }
        }
    }
}

/// The listener that a timeout and an action name is the first such one, or
/// there is none.
pub proof fn law_position_is_the_first(ls: Seq<Timed>, timeout: i64, action: Seq<char>)
    ensures
        ({
            let k = position_of(ls, timeout, action);
            &&& 0 <= k <= ls.len()
            &&& k < ls.len() ==> ls[k].listener.timeout == timeout && ls[k].listener.on_timeout
                == action
            &&& forall|i: int|
                0 <= i < k ==> (#[trigger] ls[i]).listener.timeout != timeout
                    || ls[i].listener.on_timeout != action
        }),
    decreases ls.len(),
{
    if ls.len() > 0 && !(ls[0].listener.timeout == timeout && ls[0].listener.on_timeout
        == action) {
        law_position_is_the_first(ls.skip(1), timeout, action);
        let k = position_of(ls, timeout, action);
        assert forall|i: int| 0 <= i < k implies (#[trigger] ls[i]).listener.timeout != timeout
            || ls[i].listener.on_timeout != action by {
            if i > 0 {
                assert(ls.skip(1)[i - 1] == ls[i]);
            }
        }
    }
}

} // verus!
