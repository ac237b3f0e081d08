//! Splitting texts into pieces and joining pieces into texts.

use vstd::prelude::*;

use crate::text::{
    front, holds, is_space, lemma_pos_from, lemma_pos_is, pos, position, rest, slices, space, texts,
    trim, trim_end, trim_start,
};

verus! {

/// The pieces of `s` between the separators. There is one piece more than
/// there are separators.
pub open spec fn split(s: Seq<char>, sep: char) -> Seq<Seq<char>>
    decreases s.len(),
{
    let p = pos(s, sep);
    if 0 <= p < s.len() {
        seq![s.take(p)] + split(s.skip(p + 1), sep)
    } else {
        seq![s]
    }
}

/// The first `n - 1` pieces of `s`, and then the rest as one piece.
pub open spec fn splitn(s: Seq<char>, n: nat, sep: char) -> Seq<Seq<char>>
    decreases n,
{
    let p = pos(s, sep);
    if n >= 2 && 0 <= p < s.len() {
        seq![s.take(p)] + splitn(s.skip(p + 1), (n - 1) as nat, sep)
    } else {
        seq![s]
    }
}

/// A line without the carriage return at its end.
pub open spec fn without_return(s: Seq<char>) -> Seq<char> {
    if s.len() > 0 && s.last() == '\r' {
        s.drop_last()
    } else {
        s
    }
}

/// The lines of a text. A final line break starts no further line.
pub open spec fn lines(s: Seq<char>) -> Seq<Seq<char>>
    decreases s.len(),
{
    let p = pos(s, '\n');
    if s.len() == 0 {
        seq![]
    } else if 0 <= p < s.len() {
        seq![without_return(s.take(p))] + lines(s.skip(p + 1))
    } else {
        seq![s]
    }
}

/// The pieces with the separator between each two of them.
pub open spec fn join(parts: Seq<Seq<char>>, sep: Seq<char>) -> Seq<char>
    decreases parts.len(),
{
    if parts.len() == 0 {
        seq![]
    } else if parts.len() == 1 {
        parts[0]
    } else {
        parts[0] + sep + join(parts.skip(1), sep)
    }
}

/// The same text, several times over.
pub open spec fn repeat(s: Seq<char>, n: nat) -> Seq<char>
    decreases n,
{
    if n == 0 {
        seq![]
    } else {
        repeat(s, (n - 1) as nat) + s
    }
}

/// The number of characters in front of the first white space.
pub open spec fn word_len(s: Seq<char>) -> nat
    decreases s.len(),
{
    if s.len() == 0 || is_space(s[0]) {
        0
    } else {
        1 + word_len(s.skip(1))
    }
}

pub proof fn lemma_word_len(s: Seq<char>)
    ensures
        word_len(s) <= s.len(),
        forall|i: int| 0 <= i < word_len(s) ==> !is_space(#[trigger] s[i]),
        word_len(s) < s.len() ==> is_space(s[word_len(s) as int]),
    decreases s.len(),
{
    if s.len() > 0 && !is_space(s[0]) {
        lemma_word_len(s.skip(1));
        assert forall|i: int| 0 <= i < word_len(s) implies !is_space(#[trigger] s[i]) by {
            if i > 0 {
                assert(s.skip(1)[i - 1] == s[i]);
            }
        }
    }
}

/// The words of a text, with white space between them.
pub open spec fn words(s: Seq<char>) -> Seq<Seq<char>>
    decreases s.len(),
{
    if s.len() == 0 {
        seq![]
    } else if is_space(s[0]) {
        words(s.skip(1))
    } else {
        proof {
            lemma_word_len(s);
        }
        seq![s.take(word_len(s) as int)] + words(s.skip(word_len(s) as int))
    }
}

// --------------------------------------------------------------- executable

pub fn words_of(s: &[char]) -> (r: Vec<&[char]>)
    ensures
        slices(r@) == words(s@),
{
    let mut out: Vec<&[char]> = Vec::new();
    let mut tail: &[char] = s;
    assert(slices(out@) + words(tail@) == words(s@));
    while tail.len() > 0
        invariant
            slices(out@) + words(tail@) == words(s@),
        decreases tail@.len(),
    {
        if space(tail[0]) {
            tail = rest(tail, 1);
        } else {
            proof {
                lemma_word_len(tail@);
            }
            let ghost whole = tail@;
            let mut n: usize = 1;
            assert(word_len(tail@) == 1 + word_len(tail@.skip(1)));
            while n < tail.len() && !space(tail[n])
                invariant
                    1 <= n <= tail@.len(),
                    word_len(tail@) == n + word_len(tail@.skip(n as int)),
                decreases tail.len() - n,
            {
                assert(tail@.skip(n as int).skip(1) == tail@.skip(n + 1));
                n = n + 1;
            }
            assert(word_len(tail@) == n);
            let ghost before = slices(out@);
            out.push(front(tail, n));
            assert(slices(out@) == before.push(whole.take(n as int)));
            tail = rest(tail, n);
            assert(words(whole) == seq![whole.take(n as int)] + words(tail@));
            assert(before.push(whole.take(n as int)) + words(tail@) == before + (
            seq![whole.take(n as int)] + words(tail@)));
        }
    }
    assert(slices(out@) + Seq::<Seq<char>>::empty() == slices(out@));
    out
}

pub fn pieces(s: &[char], sep: char) -> (r: Vec<&[char]>)
    ensures
        slices(r@) == split(s@, sep),
        r@.len() >= 1,
{
    let mut out: Vec<&[char]> = Vec::new();
    let mut tail: &[char] = s;
    assert(slices(out@) + split(tail@, sep) == split(s@, sep));
    loop
        invariant
            slices(out@) + split(tail@, sep) == split(s@, sep),
        decreases tail@.len(),
    {
        let p = position(tail, sep);
        if p == tail.len() {
            let ghost before = slices(out@);
            out.push(tail);
            assert(slices(out@) == before.push(tail@));
            assert(slices(out@) == split(s@, sep));
            return out;
        }
        let ghost before = slices(out@);
        let ghost head = tail@;
        out.push(front(tail, p));
        tail = rest(tail, p + 1);
        assert(slices(out@) == before.push(head.take(p as int)));
        assert(slices(out@) + split(tail@, sep) == split(s@, sep));
    }
}

/// At most `n` pieces, the last of which is the rest.
pub fn pieces_at_most(s: &[char], n: usize, sep: char) -> (r: Vec<&[char]>)
    requires
        n >= 1,
    ensures
        slices(r@) == splitn(s@, n as nat, sep),
        1 <= r@.len() <= n,
{
    let mut out: Vec<&[char]> = Vec::new();
    let mut tail: &[char] = s;
    let mut left: usize = n;
    assert(slices(out@) + splitn(tail@, left as nat, sep) == splitn(s@, n as nat, sep));
    loop
        invariant
            slices(out@) + splitn(tail@, left as nat, sep) == splitn(s@, n as nat, sep),
            1 <= left <= n,
            out@.len() + left == n,
        decreases left,
    {
        let p = position(tail, sep);
        if p == tail.len() || left == 1 {
            let ghost before = slices(out@);
            out.push(tail);
            assert(slices(out@) == before.push(tail@));
            assert(slices(out@) == splitn(s@, n as nat, sep));
            return out;
        }
        let ghost before = slices(out@);
        let ghost head = tail@;
        out.push(front(tail, p));
        tail = rest(tail, p + 1);
        left = left - 1;
        assert(slices(out@) == before.push(head.take(p as int)));
        assert(slices(out@) + splitn(tail@, left as nat, sep) == splitn(s@, n as nat, sep));
    }
}

pub fn text_lines(s: &[char]) -> (r: Vec<&[char]>)
    ensures
        slices(r@) == lines(s@),
{
    let mut out: Vec<&[char]> = Vec::new();
    let mut tail: &[char] = s;
    assert(slices(out@) + lines(tail@) == lines(s@));
    while tail.len() > 0
        invariant
            slices(out@) + lines(tail@) == lines(s@),
        decreases tail@.len(),
    {
        let p = position(tail, '\n');
        let ghost before = slices(out@);
        let ghost head = tail@;
        if p == tail.len() {
            out.push(tail);
            tail = rest(tail, p);
            assert(slices(out@) == before.push(head));
        } else {
            let end = if p > 0 && tail[p - 1] == '\r' {
                p - 1
            } else {
                p
            };
            assert(head.take(p as int).len() > 0 ==> head.take(p as int).last() == head[p - 1]);
            assert(head.take(end as int) == without_return(head.take(p as int)));
            out.push(front(tail, end));
            tail = rest(tail, p + 1);
            assert(slices(out@) == before.push(without_return(head.take(p as int))));
        }
        assert(slices(out@) + lines(tail@) == lines(s@));
    }
    out
}

/// Joins strings with a separator.
pub fn joined(parts: &Vec<String>, sep: &str) -> (r: String)
    ensures
        r@ == join(texts(parts@), sep@),
{
    let mut out = String::new();
    let mut i: usize = 0;
    while i < parts.len()
        invariant
            i <= parts@.len(),
            out@ == join(texts(parts@.take(i as int)), sep@),
        decreases parts.len() - i,
    {
        if i > 0 {
            out.append(sep);
        }
        out.append(parts[i].as_str());
        proof {
            let a = texts(parts@.take(i as int));
            assert(texts(parts@.take(i + 1)) == a.push(parts@[i as int]@));
            lemma_join_push(a, sep@, parts@[i as int]@);
            assert(out@ == join(texts(parts@.take(i + 1)), sep@));
        }
        i = i + 1;
    }
    assert(parts@.take(parts@.len() as int) == parts@);
    out
}

/// Appends `s` to `out`, `n` times.
pub fn append_times(out: &mut String, s: &str, n: usize)
    ensures
        final(out)@ == old(out)@ + repeat(s@, n as nat),
{
    let mut i: usize = 0;
    assert(out@ == old(out)@ + repeat(s@, 0));
    while i < n
        invariant
            i <= n,
            out@ == old(out)@ + repeat(s@, i as nat),
        decreases n - i,
    {
        out.append(s);
        i = i + 1;
        assert(out@ == old(out)@ + repeat(s@, i as nat));
    }
}

// -------------------------------------------------------------------- lemmas

pub proof fn lemma_join_push(parts: Seq<Seq<char>>, sep: Seq<char>, x: Seq<char>)
    ensures
        join(parts.push(x), sep) == if parts.len() == 0 {
            x
        } else {
            join(parts, sep) + sep + x
        },
    decreases parts.len(),
{
    if parts.len() == 0 {
    } else if parts.len() == 1 {
        assert(parts.push(x).skip(1) == seq![x]);
        assert(join(seq![x], sep) == x);
    } else {
        lemma_join_push(parts.skip(1), sep, x);
        assert(parts.push(x).skip(1) == parts.skip(1).push(x));
        assert(join(parts.push(x), sep) == join(parts, sep) + sep + x);
    }
}

/// Splitting and joining with the same separator gives the text back.
pub proof fn lemma_join_of_split(s: Seq<char>, sep: char)
    ensures
        join(split(s, sep), seq![sep]) == s,
        split(s, sep).len() >= 1,
    decreases s.len(),
{
    lemma_pos_from(s, sep, 0);
    let p = pos(s, sep);
    if p < s.len() {
        lemma_join_of_split(s.skip(p + 1), sep);
        let tail = split(s.skip(p + 1), sep);
        assert((seq![s.take(p)] + tail).skip(1) == tail);
        assert(s == s.take(p) + seq![sep] + s.skip(p + 1));
    }
}

/// A first piece without the separator is split off as it is.
pub proof fn lemma_split_cons(a: Seq<char>, sep: char, b: Seq<char>)
    requires
        !holds(a, sep),
    ensures
        split(a + seq![sep] + b, sep) == seq![a] + split(b, sep),
{
    let s = a + seq![sep] + b;
    lemma_pos_is(s, sep, a.len() as int);
    assert(s.take(a.len() as int) == a);
    assert(s.skip(a.len() as int + 1) == b);
}

pub proof fn lemma_split_none(a: Seq<char>, sep: char)
    requires
        !holds(a, sep),
    ensures
        split(a, sep) == seq![a],
{
    lemma_pos_is(a, sep, a.len() as int);
}

/// Joining pieces that hold no separator and splitting gives the pieces back.
pub proof fn lemma_split_of_join(parts: Seq<Seq<char>>, sep: char)
    requires
        parts.len() >= 1,
        forall|i: int| 0 <= i < parts.len() ==> !holds(#[trigger] parts[i], sep),
    ensures
        split(join(parts, seq![sep]), sep) == parts,
    decreases parts.len(),
{
    if parts.len() == 1 {
        lemma_split_none(parts[0], sep);
        assert(parts == seq![parts[0]]);
    } else {
        let tail = parts.skip(1);
        assert forall|i: int| 0 <= i < tail.len() implies !holds(#[trigger] tail[i], sep) by {
            assert(tail[i] == parts[i + 1]);
        }
        lemma_split_of_join(tail, sep);
        lemma_split_cons(parts[0], sep, join(tail, seq![sep]));
        assert(parts == seq![parts[0]] + tail);
    }
}

/// No piece of a split holds the separator.
pub proof fn lemma_split_pieces(s: Seq<char>, sep: char)
    ensures
        forall|i: int| 0 <= i < split(s, sep).len() ==> !holds(#[trigger] split(s, sep)[i], sep),
    decreases s.len(),
{
    lemma_pos_from(s, sep, 0);
    let p = pos(s, sep);
    if p < s.len() {
        lemma_split_pieces(s.skip(p + 1), sep);
        let tail = split(s.skip(p + 1), sep);
        let all = seq![s.take(p)] + tail;
        assert forall|i: int| 0 <= i < all.len() implies !holds(#[trigger] all[i], sep) by {
            if i > 0 {
                assert(all[i] == tail[i - 1]);
            }
        }
    }
}

/// A first piece without the separator is split off as it is.
pub proof fn lemma_splitn_cons(a: Seq<char>, n: nat, sep: char, b: Seq<char>)
    requires
        !holds(a, sep),
        n >= 2,
    ensures
        splitn(a + seq![sep] + b, n, sep) == seq![a] + splitn(b, (n - 1) as nat, sep),
{
    let s = a + seq![sep] + b;
    lemma_pos_is(s, sep, a.len() as int);
    assert(s.take(a.len() as int) == a);
    assert(s.skip(a.len() as int + 1) == b);
}

pub proof fn lemma_splitn_none(a: Seq<char>, n: nat, sep: char)
    requires
        !holds(a, sep) || n < 2,
    ensures
        splitn(a, n, sep) == seq![a],
{
    if n >= 2 {
        lemma_pos_is(a, sep, a.len() as int);
    }
}

/// A word is a text without white space that is not empty.
pub open spec fn is_word(s: Seq<char>) -> bool {
    s.len() > 0 && forall|i: int| 0 <= i < s.len() ==> !is_space(#[trigger] s[i])
}

proof fn lemma_word_len_is(w: Seq<char>, tail: Seq<char>)
    requires
        forall|i: int| 0 <= i < w.len() ==> !is_space(#[trigger] w[i]),
        tail.len() == 0 || is_space(tail[0]),
    ensures
        word_len(w + tail) == w.len(),
    decreases w.len(),
{
    if w.len() > 0 {
        assert((w + tail).skip(1) == w.skip(1) + tail);
        lemma_word_len_is(w.skip(1), tail);
    } else {
        assert(w + tail == tail);
    }
}

/// Words joined by a blank are the words of the text.
pub proof fn lemma_words_of_join(ws: Seq<Seq<char>>)
    requires
        forall|i: int| 0 <= i < ws.len() ==> is_word(#[trigger] ws[i]),
    ensures
        words(join(ws, seq![' '])) == ws,
    decreases ws.len(),
{
    let blank: Seq<char> = seq![' '];
    let s = join(ws, blank);
    if ws.len() == 1 {
        assert(s + Seq::<char>::empty() == s);
        lemma_word_len_is(ws[0], Seq::empty());
        assert(s.take(s.len() as int) == s);
        assert(s.skip(s.len() as int) == Seq::<char>::empty());
        assert(words(s) == seq![s] + words(Seq::<char>::empty()));
        assert(words(s) == ws);
    } else if ws.len() > 1 {
        let more = ws.skip(1);
        assert forall|i: int| 0 <= i < more.len() implies is_word(#[trigger] more[i]) by {
            assert(more[i] == ws[i + 1]);
        }
        lemma_words_of_join(more);
        let rest = blank + join(more, blank);
        assert(s == ws[0] + rest);
        lemma_word_len_is(ws[0], rest);
        assert(s.take(ws[0].len() as int) == ws[0]);
        assert(s.skip(ws[0].len() as int) == rest);
        assert(rest.skip(1) == join(more, blank));
        assert(is_space(' '));
        assert(words(rest) == words(join(more, blank)));
        assert(seq![ws[0]] + more == ws);
    }
}

/// The pieces of a split, each trimmed.
pub open spec fn trims(parts: Seq<Seq<char>>) -> Seq<Seq<char>> {
    parts.map_values(|p: Seq<char>| trim(p))
}

proof fn lemma_trims_cons(a: Seq<char>, parts: Seq<Seq<char>>)
    ensures
        trims(seq![a] + parts) == seq![trim(a)] + trims(parts),
{
}

/// Trimming a text before it is split changes no trimmed piece.
pub proof fn lemma_splitn_of_trim(s: Seq<char>, n: nat, sep: char)
    requires
        !is_space(sep),
        n >= 1,
    ensures
        trims(splitn(trim(s), n, sep)) == trims(splitn(s, n, sep)),
{
    lemma_splitn_of_trim_start(s, n, sep);
    lemma_splitn_of_trim_end(trim_start(s), n, sep);
}

proof fn lemma_trim_twice(s: Seq<char>)
    ensures
        trim(trim_start(s)) == trim(s),
        trim(trim_end(s)) == trim(s),
{
    lemma_trim_start_result(s);
    lemma_trim_id_start(trim_start(s));
    lemma_trim_end_result(s);
    let e = trim_end(s);
    let ws = s.skip(e.len() as int);
    assert(s == e + ws);
    lemma_trim_end_keeps(e, ws);
}

proof fn lemma_trim_id_start(s: Seq<char>)
    requires
        s.len() > 0 ==> !is_space(s[0]),
    ensures
        trim_start(s) == s,
{
}

proof fn lemma_trim_end_keeps(e: Seq<char>, ws: Seq<char>)
    requires
        all_space(ws),
    ensures
        trim(e + ws) == trim(e),
    decreases e.len(),
{
    if e.len() == 0 {
        assert(e + ws == ws + e);
        lemma_trim_start_space(ws, e);
    } else if is_space(e[0]) {
        assert((e + ws).skip(1) == e.skip(1) + ws);
        lemma_trim_end_keeps(e.skip(1), ws);
    } else {
        lemma_trim_end_space(e, ws);
    }
}

proof fn lemma_splitn_of_trim_start(s: Seq<char>, n: nat, sep: char)
    requires
        !is_space(sep),
        n >= 1,
    ensures
        trims(splitn(trim_start(s), n, sep)) == trims(splitn(s, n, sep)),
{
    lemma_trim_start_result(s);
    let t = trim_start(s);
    let k = s.len() - t.len();
    let ws = s.take(k);
    assert(s == ws + t);
    lemma_pos_from(t, sep, 0);
    let p = pos(t, sep);
    if n >= 2 && p < t.len() {
        assert forall|i: int| 0 <= i < k + p implies s[i] != sep by {
            if i < k {
                assert(s[i] == ws[i]);
            } else {
                assert(s[i] == t[i - k]);
            }
        }
        assert(s[k + p] == sep);
        lemma_pos_is(s, sep, k + p);
        assert(s.skip(k + p + 1) == t.skip(p + 1));
        assert(s.take(k + p) == ws + t.take(p));
        lemma_trim_start_space(ws, t.take(p));
        lemma_trims_cons(t.take(p), splitn(t.skip(p + 1), (n - 1) as nat, sep));
        lemma_trims_cons(s.take(k + p), splitn(t.skip(p + 1), (n - 1) as nat, sep));
    } else {
        if n >= 2 {
            assert forall|i: int| 0 <= i < s.len() implies s[i] != sep by {
                if i < k {
                    assert(s[i] == ws[i]);
                } else {
                    assert(s[i] == t[i - k]);
                }
            }
            lemma_pos_is(s, sep, s.len() as int);
        }
        lemma_trim_twice(s);
        assert(trims(seq![t]) == trims(seq![s]));
    }
}

proof fn lemma_splitn_of_trim_end(s: Seq<char>, n: nat, sep: char)
    requires
        !is_space(sep),
        n >= 1,
    ensures
        trims(splitn(trim_end(s), n, sep)) == trims(splitn(s, n, sep)),
    decreases n,
{
    lemma_trim_end_result(s);
    let t = trim_end(s);
    let ws = s.skip(t.len() as int);
    assert(s == t + ws);
    lemma_pos_from(t, sep, 0);
    let p = pos(t, sep);
    if n >= 2 && p < t.len() {
        assert forall|i: int| 0 <= i < p implies s[i] != sep by {
            assert(s[i] == t[i]);
        }
        assert(s[p] == sep);
        lemma_pos_is(s, sep, p);
        assert(s.take(p) == t.take(p));
        let a = s.skip(p + 1);
        let b = t.skip(p + 1);
        assert(a == b + ws);
        lemma_trim_end_space(b, ws);
        assert(b.len() > 0 ==> b.last() == t.last());
        assert(trim_end(b) == b);
        lemma_splitn_of_trim_end(a, (n - 1) as nat, sep);
        lemma_trims_cons(s.take(p), splitn(a, (n - 1) as nat, sep));
        lemma_trims_cons(s.take(p), splitn(b, (n - 1) as nat, sep));
    } else {
        if n >= 2 {
            assert forall|i: int| 0 <= i < s.len() implies s[i] != sep by {
                if i < t.len() {
                    assert(s[i] == t[i]);
                } else {
                    assert(s[i] == ws[i - t.len()]);
                }
            }
            lemma_pos_is(s, sep, s.len() as int);
        }
        lemma_trim_twice(s);
        assert(trims(seq![t]) == trims(seq![s]));
    }
}

/// A text whose two ends are no white space is its own trimming.
pub open spec fn is_trimmed(s: Seq<char>) -> bool {
    s.len() == 0 || (!is_space(s[0]) && !is_space(s.last()))
}

pub proof fn lemma_trim_id(s: Seq<char>)
    requires
        is_trimmed(s),
    ensures
        trim(s) == s,
        trim_start(s) == s,
        trim_end(s) == s,
{
}

pub open spec fn all_space(s: Seq<char>) -> bool {
    forall|i: int| 0 <= i < s.len() ==> is_space(#[trigger] s[i])
}

pub proof fn lemma_trim_start_space(a: Seq<char>, s: Seq<char>)
    requires
        all_space(a),
    ensures
        trim_start(a + s) == trim_start(s),
    decreases a.len(),
{
    if a.len() > 0 {
        assert((a + s).skip(1) == a.skip(1) + s);
        assert(is_space((a + s)[0]));
        lemma_trim_start_space(a.skip(1), s);
    } else {
        assert(a + s == s);
    }
}

pub proof fn lemma_trim_end_space(s: Seq<char>, b: Seq<char>)
    requires
        all_space(b),
    ensures
        trim_end(s + b) == trim_end(s),
    decreases b.len(),
{
    if b.len() > 0 {
        assert((s + b).drop_last() == s + b.drop_last());
        assert(is_space((s + b).last()));
        lemma_trim_end_space(s, b.drop_last());
    } else {
        assert(s + b == s);
    }
}

/// White space around a trimmed text is what trimming removes.
pub proof fn lemma_trim_padded(a: Seq<char>, s: Seq<char>, b: Seq<char>)
    requires
        all_space(a),
        all_space(b),
        is_trimmed(s),
    ensures
        trim(a + s + b) == s,
{
    assert(a + s + b == a + (s + b));
    lemma_trim_start_space(a, s + b);
    if s.len() > 0 {
        assert((s + b)[0] == s[0]);
        lemma_trim_end_space(s, b);
    } else {
        assert(s + b == b + s);
        lemma_trim_start_space(b, s);
        assert(trim_start(s) == s);
    }
}

/// The result of trimming is trimmed, and is a part of the text.
pub proof fn lemma_trim_result(s: Seq<char>)
    ensures
        is_trimmed(trim(s)),
        trim(s).len() <= s.len(),
        forall|c: char| holds(trim(s), c) ==> holds(s, c),
{
    lemma_trim_start_result(s);
    lemma_trim_end_result(trim_start(s));
}

pub proof fn lemma_trim_start_result(s: Seq<char>)
    ensures
        trim_start(s).len() <= s.len(),
        trim_start(s) == s.skip(s.len() - trim_start(s).len()),
        trim_start(s).len() > 0 ==> !is_space(trim_start(s)[0]),
        all_space(s.take(s.len() - trim_start(s).len())),
    decreases s.len(),
{
    if s.len() > 0 && is_space(s[0]) {
        lemma_trim_start_result(s.skip(1));
        let k = s.skip(1).len() - trim_start(s.skip(1)).len();
        assert(s.skip(1).skip(k) == s.skip(k + 1));
        let front = s.take(k + 1);
        assert forall|i: int| 0 <= i < front.len() implies is_space(#[trigger] front[i]) by {
            if i > 0 {
                assert(s.skip(1).take(k)[i - 1] == front[i]);
            }
        }
    } else {
        assert(s.skip(0) == s);
    }
}

pub proof fn lemma_trim_end_result(s: Seq<char>)
    ensures
        trim_end(s).len() <= s.len(),
        trim_end(s) == s.take(trim_end(s).len() as int),
        trim_end(s).len() > 0 ==> !is_space(trim_end(s).last()),
        all_space(s.skip(trim_end(s).len() as int)),
    decreases s.len(),
{
    if s.len() > 0 && is_space(s.last()) {
        lemma_trim_end_result(s.drop_last());
        let k = trim_end(s.drop_last()).len() as int;
        assert(s.drop_last().take(k) == s.take(k));
        let back = s.skip(k);
        assert forall|i: int| 0 <= i < back.len() implies is_space(#[trigger] back[i]) by {
            if i < back.len() - 1 {
                assert(s.drop_last().skip(k)[i] == back[i]);
            }
        }
    } else {
        assert(s.take(s.len() as int) == s);
    }
}

} // verus!
