//! The grammar of JSON with comments, given by how long the longest gap,
//! string, value or list at the start of a text is.

use vstd::prelude::*;

use crate::text::{
    digit, found_from, find, front, is_digit, is_text, lemma_find_from, lemma_find_is,
    lemma_pos_from, lemma_pos_is, occurs, opt_text, pos, position, rest, string,
};

verus! {

// -------------------------------------------------------------------- scanning

pub open spec fn is_blank(c: char) -> bool {
    c == ' ' || c == '\t' || c == '\n' || c == '\r'
}

pub fn blank(c: char) -> (r: bool)
    ensures
        r == is_blank(c),
{
    c == ' ' || c == '\t' || c == '\n' || c == '\r'
}

/// The two characters that end a block comment.
pub open spec fn comment_end() -> Seq<char> {
    seq!['*', '/']
}

pub open spec fn opens_line(s: Seq<char>) -> bool {
    s.len() >= 2 && s[0] == '/' && s[1] == '/'
}

pub open spec fn opens_block(s: Seq<char>) -> bool {
    s.len() >= 2 && s[0] == '/' && s[1] == '*'
}

/// How many characters at the start of a text are blanks and comments.
pub open spec fn gap_len(s: Seq<char>) -> nat
    decreases s.len(),
{
    if s.len() == 0 {
        0
    } else if is_blank(s[0]) {
        1 + gap_len(s.skip(1))
    } else if opens_line(s) {
        proof {
            lemma_line(s);
        }
        (pos(s, '\n') + gap_len(s.skip(pos(s, '\n')))) as nat
    } else if opens_block(s) {
        proof {
            lemma_find_from(s.skip(2), comment_end(), 0);
        }
        match find(s.skip(2), comment_end()) {
            Some(k) => (k + 4 + gap_len(s.skip(k + 4))) as nat,
            None => 0,
        }
    } else {
        0
    }
}

pub proof fn lemma_line(s: Seq<char>)
    requires
        opens_line(s),
    ensures
        2 <= pos(s, '\n') <= s.len(),
        pos(s, '\n') < s.len() ==> s[pos(s, '\n')] == '\n',
{
    lemma_pos_from(s, '\n', 0);
    let p = pos(s, '\n');
    if p < 2 {
        assert(s[p] == '\n');
    }
}

pub proof fn lemma_gap_len(s: Seq<char>)
    ensures
        gap_len(s) <= s.len(),
    decreases s.len(),
{
    if s.len() == 0 {
    } else if is_blank(s[0]) {
        lemma_gap_len(s.skip(1));
    } else if opens_line(s) {
        lemma_line(s);
        lemma_gap_len(s.skip(pos(s, '\n')));
    } else if opens_block(s) {
        lemma_find_from(s.skip(2), comment_end(), 0);
        match find(s.skip(2), comment_end()) {
            Some(k) => {
                lemma_gap_len(s.skip(k + 4));
            },
            None => {},
        }
    }
}

pub fn gap_length(s: &[char]) -> (r: usize)
    ensures
        r == gap_len(s@),
        r <= s@.len(),
{
    proof {
        lemma_gap_len(s@);
    }
    let end = vec!['*', '/'];
    let n = s.len();
    let mut i: usize = 0;
    assert(s@.skip(0) == s@);
    assert(end@ == comment_end());
    loop
        invariant
            i <= n,
            n == s@.len(),
            end@ == comment_end(),
            gap_len(s@) == i + gap_len(s@.skip(i as int)),
            gap_len(s@) <= s@.len(),
        decreases n - i,
    {
        let ghost t = s@.skip(i as int);
        if i == n {
            return i;
        }
        assert(t[0] == s@[i as int]);
        if blank(s[i]) {
            assert(t.skip(1) == s@.skip(i + 1));
            i = i + 1;
        } else if i + 1 < n && s[i] == '/' && s[i + 1] == '/' {
            assert(t[1] == s@[i + 1]);
            proof {
                lemma_line(t);
            }
            let p = position(rest(s, i), '\n');
            assert(t.skip(p as int) == s@.skip(i + p));
            i = i + p;
        } else if i + 1 < n && s[i] == '/' && s[i + 1] == '*' {
            assert(t[1] == s@[i + 1]);
            let tail = rest(s, i + 2);
            assert(tail@ == t.skip(2));
            match found_from(tail, end.as_slice(), 0) {
                Some(k) => {
                    assert(t.skip(k + 4) == s@.skip(i + k + 4));
                    i = i + k + 4;
                },
                None => {
                    return i;
                },
            }
        } else {
            assert(i + 1 < n ==> t[1] == s@[i + 1]);
            return i;
        }
    }
}

/// How long a string is whose opening quote has been read; the closing quote
/// counts.
pub open spec fn body_len(s: Seq<char>) -> Option<nat>
    decreases s.len(),
{
    if s.len() == 0 {
        None
    } else if s[0] == '"' {
        Some(1)
    } else if s[0] == '\\' {
        if s.len() < 2 {
            None
        } else {
            match body_len(s.skip(2)) {
                Some(n) => Some(n + 2),
                None => None,
            }
        }
    } else {
        match body_len(s.skip(1)) {
            Some(n) => Some(n + 1),
            None => None,
        }
    }
}

pub proof fn lemma_body_len(s: Seq<char>, more: Seq<char>)
    requires
        body_len(s) is Some,
    ensures
        1 <= body_len(s)->0 <= s.len(),
        body_len(s.take(body_len(s)->0 as int) + more) == body_len(s),
    decreases s.len(),
{
    let n = body_len(s)->0 as int;
    if s[0] == '"' {
    } else if s[0] == '\\' {
        lemma_body_len(s.skip(2), more);
        assert((s.take(n) + more).skip(2) == s.skip(2).take(n - 2) + more);
    } else {
        lemma_body_len(s.skip(1), more);
        assert((s.take(n) + more).skip(1) == s.skip(1).take(n - 1) + more);
    }
}

pub fn body_length(s: &[char]) -> (r: Option<usize>)
    ensures
        match r {
            Some(n) => body_len(s@) == Some(n as nat) && n <= s@.len(),
            None => body_len(s@) is None,
        },
{
    let n = s.len();
    let mut i: usize = 0;
    assert(s@.skip(0) == s@);
    loop
        invariant
            i <= n,
            n == s@.len(),
            body_len(s@) == (match body_len(s@.skip(i as int)) {
                Some(k) => Some((k + i) as nat),
                None => None,
            }),
        decreases n - i,
    {
        let ghost t = s@.skip(i as int);
        if i == n {
            return None;
        }
        assert(t[0] == s@[i as int]);
        if s[i] == '"' {
            return Some(i + 1);
        }
        if s[i] == '\\' {
            if n - i < 2 {
                return None;
            }
            assert(t.skip(2) == s@.skip(i + 2));
            i = i + 2;
        } else {
            assert(t.skip(1) == s@.skip(i + 1));
            i = i + 1;
        }
    }
}

/// A character that ends a bare word.
pub open spec fn is_delimiter(c: char) -> bool {
    is_blank(c) || c == ',' || c == ']' || c == '}' || c == ':' || c == '/' || c == '[' || c == '{'
        || c == '"'
}

pub fn delimiter(c: char) -> (r: bool)
    ensures
        r == is_delimiter(c),
{
    blank(c) || c == ',' || c == ']' || c == '}' || c == ':' || c == '/' || c == '[' || c == '{'
        || c == '"'
}

/// How many characters stand in front of the first delimiter.
pub open spec fn bare_len(s: Seq<char>) -> nat
    decreases s.len(),
{
    if s.len() == 0 || is_delimiter(s[0]) {
        0
    } else {
        1 + bare_len(s.skip(1))
    }
}

proof fn lemma_bare_len(s: Seq<char>, more: Seq<char>)
    requires
        more.len() == 0 || is_delimiter(more[0]),
    ensures
        bare_len(s) <= s.len(),
        bare_len(s.take(bare_len(s) as int) + more) == bare_len(s),
    decreases s.len(),
{
    let n = bare_len(s) as int;
    if s.len() == 0 || is_delimiter(s[0]) {
        assert(s.take(0) + more == more);
    } else {
        lemma_bare_len(s.skip(1), more);
        assert((s.take(n) + more).skip(1) == s.skip(1).take(n - 1) + more);
        assert((s.take(n) + more)[0] == s[0]);
    }
}

pub fn bare_length(s: &[char]) -> (r: usize)
    ensures
        r == bare_len(s@),
        r <= s@.len(),
{
    let mut i: usize = 0;
    assert(s@.skip(0) == s@);
    while i < s.len() && !delimiter(s[i])
        invariant
            i <= s@.len(),
            bare_len(s@) == i + bare_len(s@.skip(i as int)),
        decreases s.len() - i,
    {
        assert(s@.skip(i as int)[0] == s@[i as int]);
        assert(s@.skip(i as int).skip(1) == s@.skip(i + 1));
        i = i + 1;
    }
    assert(i < s@.len() ==> s@.skip(i as int)[0] == s@[i as int]);
    i
}

/// How many digits a text starts with.
pub open spec fn digits_len(s: Seq<char>) -> nat
    decreases s.len(),
{
    if s.len() == 0 || !is_digit(s[0]) {
        0
    } else {
        1 + digits_len(s.skip(1))
    }
}

/// The fraction and exponent of a number.
pub open spec fn is_exponent(s: Seq<char>) -> bool {
    s.len() > 1 && (s[0] == 'e' || s[0] == 'E') && {
        let t = if s[1] == '+' || s[1] == '-' {
            s.skip(2)
        } else {
            s.skip(1)
        };
        t.len() > 0 && digits_len(t) == t.len()
    }
}

pub open spec fn is_number_tail(s: Seq<char>) -> bool {
    if s.len() > 1 && s[0] == '.' {
        let n = digits_len(s.skip(1)) as int;
        let t = s.skip(n + 1);
        n > 0 && (t.len() == 0 || is_exponent(t))
    } else {
        s.len() == 0 || is_exponent(s)
    }
}

pub open spec fn is_number(s: Seq<char>) -> bool {
    let t = if s.len() > 0 && s[0] == '-' {
        s.skip(1)
    } else {
        s
    };
    let n = digits_len(t) as int;
    n > 0 && is_number_tail(t.skip(n))
}

/// A bare word that is a value.
pub open spec fn is_literal(w: Seq<char>) -> bool {
    w == "true"@ || w == "false"@ || w == "null"@ || is_number(w)
}

fn digits_length(s: &[char]) -> (r: usize)
    ensures
        r == digits_len(s@),
        r <= s@.len(),
{
    let mut i: usize = 0;
    assert(s@.skip(0) == s@);
    while i < s.len() && digit(s[i])
        invariant
            i <= s@.len(),
            digits_len(s@) == i + digits_len(s@.skip(i as int)),
        decreases s.len() - i,
    {
        assert(s@.skip(i as int)[0] == s@[i as int]);
        assert(s@.skip(i as int).skip(1) == s@.skip(i + 1));
        i = i + 1;
    }
    assert(i < s@.len() ==> s@.skip(i as int)[0] == s@[i as int]);
    i
}

fn exponent(s: &[char]) -> (r: bool)
    ensures
        r == is_exponent(s@),
{
    if s.len() <= 1 || !(s[0] == 'e' || s[0] == 'E') {
        return false;
    }
    let t = if s[1] == '+' || s[1] == '-' {
        rest(s, 2)
    } else {
        rest(s, 1)
    };
    t.len() > 0 && digits_length(t) == t.len()
}

fn number_tail(s: &[char]) -> (r: bool)
    ensures
        r == is_number_tail(s@),
{
    if s.len() > 1 && s[0] == '.' {
        let d = rest(s, 1);
        let n = digits_length(d);
        let t = rest(d, n);
        assert(t@ == s@.skip(n + 1));
        n > 0 && (t.len() == 0 || exponent(t))
    } else {
        s.len() == 0 || exponent(s)
    }
}

fn number(s: &[char]) -> (r: bool)
    ensures
        r == is_number(s@),
{
    let t = if s.len() > 0 && s[0] == '-' {
        rest(s, 1)
    } else {
        s
    };
    let n = digits_length(t);
    n > 0 && number_tail(rest(t, n))
}

fn literal(w: &[char]) -> (r: bool)
    ensures
        r == is_literal(w@),
{
    is_text(w, "true") || is_text(w, "false") || is_text(w, "null") || number(w)
}

// --------------------------------------------------------------------- grammar

/// One element of a list, with the gaps around it.
#[verifier::ext_equal]
pub struct PieceView {
    pub before: Seq<char>,
    pub text: Seq<char>,
    pub after: Seq<char>,
}

/// What stands between two brackets. `end` is the gap in front of the closing
/// bracket where the list is empty or its last element has a comma behind it.
#[verifier::ext_equal]
pub struct ListView {
    pub items: Seq<PieceView>,
    pub end: Option<Seq<char>>,
}

pub open spec fn closing(members: bool) -> char {
    if members {
        '}'
    } else {
        ']'
    }
}

/// How long the value at the start of a text is.
#[verifier::opaque]
pub open spec fn value_len(s: Seq<char>) -> Option<nat>
    decreases s.len(), 0nat,
{
    if s.len() == 0 {
        None
    } else if s[0] == '"' {
        match body_len(s.skip(1)) {
            Some(n) => Some(n + 1),
            None => None,
        }
    } else if s[0] == '[' || s[0] == '{' {
        match list_at(s.skip(1), s[0] == '{') {
            Some((_, n)) => Some(n + 1),
            None => None,
        }
    } else if is_literal(s.take(bare_len(s) as int)) {
        Some(bare_len(s))
    } else {
        None
    }
}

/// How long the key, colon and gaps in front of a member's value are.
pub open spec fn head_len(s: Seq<char>) -> Option<nat> {
    if s.len() == 0 || s[0] != '"' {
        None
    } else {
        match body_len(s.skip(1)) {
            None => None,
            Some(a) => {
                let b = gap_len(s.skip(1 + a as int));
                let t = s.skip(1 + a as int + b as int);
                if t.len() == 0 || t[0] != ':' {
                    None
                } else {
                    Some(1 + a + b + 1 + gap_len(t.skip(1)))
                }
            },
        }
    }
}

/// How long the element at the start of a text is: a value, or a key with its
/// value.
#[verifier::opaque]
pub open spec fn elem_len(s: Seq<char>, members: bool) -> Option<nat>
    decreases s.len(), 1nat,
{
    if !members {
        value_len(s)
    } else {
        match head_len(s) {
            None => None,
            Some(h) => {
                proof {
                    lemma_head_len(s);
                }
                match value_len(s.skip(h as int)) {
                    Some(n) => Some(h + n),
                    None => None,
                }
            },
        }
    }
}

/// The list whose opening bracket has been read, and how long it is with its
/// closing bracket. A comma behind the last element is allowed.
#[verifier::opaque]
pub open spec fn list_at(s: Seq<char>, members: bool) -> Option<(ListView, nat)>
    decreases s.len(), 2nat,
{
    proof {
        lemma_gap_len(s);
    }
    let g = gap_len(s);
    let t = s.skip(g as int);
    if t.len() == 0 {
        None
    } else if t[0] == closing(members) {
        Some((ListView { items: Seq::empty(), end: Some(s.take(g as int)) }, g + 1))
    } else {
        match elem_len(t, members) {
            None => None,
            Some(n) => {
                let u = t.skip(n as int);
                let h = gap_len(u);
                let w = u.skip(h as int);
                let item = PieceView {
                    before: s.take(g as int),
                    text: t.take(n as int),
                    after: u.take(h as int),
                };
                if !(1 <= n <= t.len()) || !(h <= u.len()) || w.len() == 0 {
                    None
                } else if w[0] == ',' {
                    match list_at(w.skip(1), members) {
                        Some((l, m)) => Some(
                            (
                                ListView { items: seq![item] + l.items, end: l.end },
                                g + n + h + 1 + m,
                            ),
                        ),
                        None => None,
                    }
                } else if w[0] == closing(members) {
                    Some((ListView { items: seq![item], end: None }, g + n + h + 1))
                } else {
                    None
                }
            },
        }
    }
}

pub proof fn lemma_head_len(s: Seq<char>)
    ensures
        head_len(s) matches Some(h) ==> 3 <= h <= s.len(),
{
    if head_len(s) is Some {
        lemma_body_len(s.skip(1), Seq::empty());
        let a = body_len(s.skip(1))->0;
        lemma_gap_len(s.skip(1 + a as int));
        let b = gap_len(s.skip(1 + a as int));
        lemma_gap_len(s.skip(1 + a as int + b as int).skip(1));
    }
}

/// What a value is, by its first character.
pub proof fn lemma_value_is(s: Seq<char>)
    ensures
        value_len(s) == (if s.len() == 0 {
            None
        } else if s[0] == '"' {
            match body_len(s.skip(1)) {
                Some(n) => Some(n + 1),
                None => None,
            }
        } else if s[0] == '[' || s[0] == '{' {
            match list_at(s.skip(1), s[0] == '{') {
                Some((_, n)) => Some(n + 1),
                None => None,
            }
        } else if is_literal(s.take(bare_len(s) as int)) {
            Some(bare_len(s))
        } else {
            None
        }),
{
    reveal(value_len);
    reveal(list_at);
}

/// What an element is.
pub proof fn lemma_elem_is(s: Seq<char>, members: bool)
    ensures
        elem_len(s, members) == (if !members {
            value_len(s)
        } else {
            match head_len(s) {
                None => None,
                Some(h) => match value_len(s.skip(h as int)) {
                    Some(n) => Some(h + n),
                    None => None,
                },
            }
        }),
{
    reveal(value_len);
    reveal(elem_len);
}

// ------------------------------------------------------------------- stability

/// Blanks and comments that end where they stand: what follows is not drawn
/// into a comment.
pub open spec fn is_gap(g: Seq<char>) -> bool {
    gap_len(g.push('"')) == g.len()
}

proof fn lemma_find_grows(a: Seq<char>, b: Seq<char>, pat: Seq<char>)
    requires
        find(a, pat) is Some,
    ensures
        find(a + b, pat) == find(a, pat),
{
    lemma_find_from(a, pat, 0);
    let k = find(a, pat)->0;
    assert((a + b).subrange(k, k + pat.len()) == a.subrange(k, k + pat.len()));
    assert forall|j: int| 0 <= j < k implies !occurs(a + b, pat, j) by {
        if occurs(a + b, pat, j) {
            assert((a + b).subrange(j, j + pat.len()) == a.subrange(j, j + pat.len()));
            assert(occurs(a, pat, j));
        }
    }
    lemma_find_is(a + b, pat, 0, k);
}

/// A closed gap is read as it stands, and then whatever gap follows it.
pub proof fn lemma_gap_ends(g: Seq<char>, more: Seq<char>)
    requires
        is_gap(g),
    ensures
        gap_len(g + more) == g.len() + gap_len(more),
    decreases g.len(),
{
    let q = g.push('"');
    let s = g + more;
    if g.len() == 0 {
        assert(s == more);
    } else if is_blank(g[0]) {
        assert(q[0] == g[0]);
        assert(q.skip(1) == g.skip(1).push('"'));
        lemma_gap_ends(g.skip(1), more);
        assert(s.skip(1) == g.skip(1) + more);
    } else if opens_line(q) {
        lemma_line(q);
        let p = pos(q, '\n');
        lemma_pos_from(q, '\n', 0);
        if p == q.len() {
            assert(q.skip(p).len() == 0);
            assert(false);
        }
        assert(p < g.len());
        assert(g[0] == q[0] && g[1] == q[1]);
        assert(s[0] == g[0] && s[1] == g[1]);
        assert(g[p] == '\n');
        assert forall|j: int| 0 <= j < p implies s[j] != '\n' by {
            assert(s[j] == q[j]);
        }
        lemma_pos_is(s, '\n', p);
        assert(q.skip(p) == g.skip(p).push('"'));
        lemma_gap_ends(g.skip(p), more);
        assert(s.skip(p) == g.skip(p) + more);
    } else if opens_block(q) {
        let inner = q.skip(2);
        lemma_find_from(inner, comment_end(), 0);
        match find(inner, comment_end()) {
            Some(k) => {
                assert(inner.subrange(k, k + 2)[1] == '/');
                assert(inner[k + 1] == '/');
                assert(k + 4 <= g.len());
                assert(g[0] == q[0] && g[1] == q[1]);
                assert(s[0] == g[0] && s[1] == g[1]);
                let within = g.skip(2);
                assert(inner == within.push('"'));
                lemma_find_from(within, comment_end(), 0);
                assert(within.subrange(k, k + 2) == inner.subrange(k, k + 2));
                assert forall|j: int| 0 <= j < k implies !occurs(within, comment_end(), j) by {
                    if occurs(within, comment_end(), j) {
                        assert(inner.subrange(j, j + 2) == within.subrange(j, j + 2));
                        assert(occurs(inner, comment_end(), j));
                    }
                }
                lemma_find_is(within, comment_end(), 0, k);
                lemma_find_grows(within, more, comment_end());
                assert(s.skip(2) == within + more);
                assert(q.skip(k + 4) == g.skip(k + 4).push('"'));
                lemma_gap_ends(g.skip(k + 4), more);
                assert(s.skip(k + 4) == g.skip(k + 4) + more);
            },
            None => {},
        }
    } else {
        assert(q[0] == g[0]);
    }
}

/// The gap that a text starts with is closed where something follows it, and
/// what follows starts with no gap.
pub proof fn lemma_gap_taken(s: Seq<char>)
    requires
        gap_len(s) < s.len(),
    ensures
        is_gap(s.take(gap_len(s) as int)),
        gap_len(s.skip(gap_len(s) as int)) == 0,
    decreases s.len(),
{
    let n = gap_len(s) as int;
    let q = s.take(n).push('"');
    if is_blank(s[0]) {
        lemma_gap_taken(s.skip(1));
        assert(q.skip(1) == s.skip(1).take(n - 1).push('"'));
        assert(s.skip(1).skip(n - 1) == s.skip(n));
        assert(q[0] == s[0]);
    } else if opens_line(s) {
        lemma_line(s);
        let p = pos(s, '\n');
        lemma_gap_len(s.skip(p));
        assert(p < s.len());
        lemma_pos_from(s, '\n', 0);
        lemma_gap_taken(s.skip(p));
        assert(s.skip(p)[0] == '\n');
        assert(gap_len(s.skip(p)) >= 1);
        assert(q[0] == s[0] && q[1] == s[1]);
        assert forall|j: int| 0 <= j < p implies q[j] != '\n' by {
            assert(q[j] == s[j]);
        }
        assert(q[p] == s[p]);
        lemma_pos_is(q, '\n', p);
        assert(q.skip(p) == s.skip(p).take(n - p).push('"'));
        assert(s.skip(p).skip(n - p) == s.skip(n));
    } else if opens_block(s) {
        let inner = s.skip(2);
        lemma_find_from(inner, comment_end(), 0);
        match find(inner, comment_end()) {
            Some(k) => {
                lemma_gap_len(s.skip(k + 4));
                lemma_gap_taken(s.skip(k + 4));
                assert(q[0] == s[0] && q[1] == s[1]);
                let front = inner.take(k + 2);
                assert(front.subrange(k, k + 2) == inner.subrange(k, k + 2));
                assert forall|j: int| 0 <= j < k implies !occurs(front, comment_end(), j) by {
                    if occurs(front, comment_end(), j) {
                        assert(inner.subrange(j, j + 2) == front.subrange(j, j + 2));
                        assert(occurs(inner, comment_end(), j));
                    }
                }
                lemma_find_is(front, comment_end(), 0, k);
                let tail = q.skip(k + 4);
                lemma_find_grows(front, tail, comment_end());
                assert(q.skip(2) == front + tail);
                assert(q.skip(k + 4) == s.skip(k + 4).take(n - k - 4).push('"'));
                assert(s.skip(k + 4).skip(n - k - 4) == s.skip(n));
            },
            None => {
                assert(q == seq!['"']);
                assert(s.skip(0) == s);
            },
        }
    } else {
        assert(q == seq!['"']);
        assert(s.skip(0) == s);
    }
}

/// What may stand behind a value.
pub open spec fn may_follow(more: Seq<char>) -> bool {
    more.len() == 0 || is_delimiter(more[0])
}

proof fn lemma_literal_starts(w: Seq<char>)
    requires
        is_literal(w),
    ensures
        w.len() > 0,
        !is_blank(w[0]),
        w[0] != '/',
        w[0] != '"',
        w[0] != '[',
        w[0] != '{',
        w[0] != ']',
        w[0] != '}',
        w[0] != ',',
{
    reveal_strlit("true");
    reveal_strlit("false");
    reveal_strlit("null");
    if is_number(w) {
        if w.len() > 0 && w[0] == '-' {
        } else {
            assert(digits_len(w) > 0);
        }
    }
}

/// A value is within the text, starts with no gap, and stays the value at the
/// start whatever may follow it.
pub proof fn lemma_value(s: Seq<char>, more: Seq<char>)
    requires
        value_len(s) is Some,
        may_follow(more),
    ensures
        1 <= value_len(s)->0 <= s.len(),
        gap_len(s) == 0,
        !is_blank(s[0]) && s[0] != '/' && s[0] != ']' && s[0] != '}' && s[0] != ',',
        value_len(s.take(value_len(s)->0 as int) + more) == value_len(s),
    decreases s.len(), 0nat,
{
    lemma_value_is(s);
    let n = value_len(s)->0 as int;
    let x = s.take(n) + more;
    lemma_value_is(x);
    if s[0] == '"' {
        lemma_body_len(s.skip(1), more);
        assert(x.skip(1) == s.skip(1).take(n - 1) + more);
        assert(x[0] == s[0]);
    } else if s[0] == '[' || s[0] == '{' {
        lemma_list(s.skip(1), s[0] == '{', more);
        assert(x.skip(1) == s.skip(1).take(n - 1) + more);
        assert(x[0] == s[0]);
    } else {
        lemma_bare_value(s, more);
    }
}

proof fn lemma_bare_value(s: Seq<char>, more: Seq<char>)
    requires
        s.len() > 0,
        s[0] != '"' && s[0] != '[' && s[0] != '{',
        value_len(s) is Some,
        may_follow(more),
    ensures
        1 <= value_len(s)->0 <= s.len(),
        !is_blank(s[0]) && s[0] != '/' && s[0] != ']' && s[0] != '}' && s[0] != ',',
        value_len(s.take(value_len(s)->0 as int) + more) == value_len(s),
{
    lemma_value_is(s);
    let n = bare_len(s) as int;
    let x = s.take(n) + more;
    lemma_value_is(x);
    lemma_bare_len(s, more);
    let w = s.take(n);
    lemma_literal_starts(w);
    assert(w[0] == s[0]);
    assert(x[0] == s[0]);
    assert(x.take(n) == w);
}

pub proof fn lemma_elem(s: Seq<char>, members: bool, more: Seq<char>)
    requires
        elem_len(s, members) is Some,
        may_follow(more),
    ensures
        1 <= elem_len(s, members)->0 <= s.len(),
        gap_len(s) == 0,
        !is_blank(s[0]) && s[0] != '/' && s[0] != ']' && s[0] != '}' && s[0] != ',',
        elem_len(s.take(elem_len(s, members)->0 as int) + more, members) == elem_len(s, members),
    decreases s.len(), 1nat,
{
    lemma_elem_is(s, members);
    if !members {
        lemma_value(s, more);
        lemma_elem_is(s.take(value_len(s)->0 as int) + more, members);
    } else {
        lemma_head_len(s);
        let h = head_len(s)->0 as int;
        let v = s.skip(h);
        lemma_value(v, more);
        let n = value_len(v)->0 as int;
        let x = s.take(h + n) + more;
        lemma_elem_is(x, members);
        lemma_gap_none(v.take(n) + more, v[0]);
        lemma_head_stays(s, v.take(n) + more);
        assert(x == s.take(h) + (v.take(n) + more));
        assert(x.skip(h) == v.take(n) + more);
    }
}

proof fn lemma_gap_none(s: Seq<char>, c: char)
    requires
        s.len() > 0,
        s[0] == c,
        !is_blank(c),
        c != '/',
    ensures
        gap_len(s) == 0,
{
}

/// The head of a member stays the head in front of any value.
pub proof fn lemma_head_stays(s: Seq<char>, value: Seq<char>)
    requires
        head_len(s) is Some,
        gap_len(s.skip(head_len(s)->0 as int)) == 0,
        head_len(s)->0 < s.len(),
        value.len() > 0,
        gap_len(value) == 0,
    ensures
        head_len(s.take(head_len(s)->0 as int) + value) == head_len(s),
{
    lemma_head_len(s);
    let h = head_len(s)->0 as int;
    let x = s.take(h) + value;
    let a = body_len(s.skip(1))->0 as int;
    lemma_body_len(s.skip(1), x.skip(1 + a));
    assert(x.skip(1) == s.skip(1).take(a) + x.skip(1 + a));
    assert(x[0] == s[0]);
    let b = gap_len(s.skip(1 + a)) as int;
    lemma_gap_len(s.skip(1 + a));
    let t = s.skip(1 + a + b);
    assert(s.skip(1 + a).skip(b) == t);
    lemma_gap_taken(s.skip(1 + a));
    let y = x.skip(1 + a + b);
    lemma_gap_len(t.skip(1));
    let c = gap_len(t.skip(1)) as int;
    assert(h == 1 + a + b + 1 + c);
    assert(y[0] == t[0]);
    assert(gap_len(y) == 0);
    lemma_gap_ends(s.skip(1 + a).take(b), y);
    assert(x.skip(1 + a) == s.skip(1 + a).take(b) + y);
    assert(t.skip(1).skip(c) == s.skip(h));
    lemma_gap_taken(t.skip(1));
    lemma_gap_ends(t.skip(1).take(c), value);
    assert(y.skip(1) == t.skip(1).take(c) + value);
}

/// What a list says behind its opening bracket.
pub open spec fn items_text(items: Seq<PieceView>) -> Seq<char>
    decreases items.len(),
{
    if items.len() == 0 {
        Seq::empty()
    } else {
        let one = items[0].before + items[0].text + items[0].after;
        if items.len() == 1 {
            one
        } else {
            one + seq![','] + items_text(items.skip(1))
        }
    }
}

pub open spec fn list_text(l: ListView) -> Seq<char> {
    items_text(l.items) + match l.end {
        None => Seq::empty(),
        Some(g) => if l.items.len() == 0 {
            g
        } else {
            seq![','] + g
        },
    }
}

pub open spec fn item_wf(i: PieceView, members: bool) -> bool {
    &&& is_gap(i.before)
    &&& is_gap(i.after)
    &&& elem_len(i.text, members) == Some(i.text.len())
}

/// A list that can stand in a document.
pub open spec fn list_wf(l: ListView, members: bool) -> bool {
    &&& forall|i: int| 0 <= i < l.items.len() ==> item_wf(#[trigger] l.items[i], members)
    &&& l.end matches Some(g) ==> is_gap(g)
    &&& l.items.len() == 0 ==> l.end is Some
}

/// An empty list, or what stands behind the last comma.
proof fn lemma_list_end(g: Seq<char>, members: bool, more: Seq<char>)
    requires
        is_gap(g),
    ensures
        list_at(g + seq![closing(members)] + more, members) == Some(
            (ListView { items: Seq::empty(), end: Some(g) }, g.len() + 1),
        ),
{
    reveal(elem_len);
    reveal(list_at);
    let y = seq![closing(members)] + more;
    let x = g + seq![closing(members)] + more;
    assert(x == g + y);
    assert(gap_len(y) == 0);
    lemma_gap_ends(g, y);
    assert(x.skip(g.len() as int) == y);
    assert(x.take(g.len() as int) == g);
}

/// An element whose list goes on behind it, or ends there.
#[verifier::spinoff_prover]
proof fn lemma_list_item(i: PieceView, members: bool, c: char, more: Seq<char>)
    requires
        is_gap(i.before),
        is_gap(i.after),
        i.text.len() > 0,
        !is_blank(i.text[0]) && i.text[0] != '/' && i.text[0] != ']' && i.text[0] != '}',
        c == ',' || c == closing(members),
        elem_len(i.text + (i.after + seq![c] + more), members) == Some(i.text.len()),
    ensures
        ({
            let n = i.before.len() + i.text.len() + i.after.len() + 1;
            list_at(i.before + i.text + i.after + seq![c] + more, members) == (if c == ',' {
                match list_at(more, members) {
                    Some((l, m)) => Some(
                        (ListView { items: seq![i] + l.items, end: l.end }, n + m),
                    ),
                    None => None,
                }
            } else {
                Some((ListView { items: seq![i], end: None }, n))
            })
        }),
{
    let w = seq![c] + more;
    let u = i.after + seq![c] + more;
    let t = i.text + u;
    let x = i.before + i.text + i.after + seq![c] + more;
    assert(t[0] == i.text[0]);
    assert(gap_len(x) == i.before.len()) by {
        assert(x == i.before + t);
        assert(gap_len(t) == 0);
        lemma_gap_ends(i.before, t);
    }
    assert(x.skip(i.before.len() as int) == t);
    assert(x.take(i.before.len() as int) == i.before);
    assert(t.skip(i.text.len() as int) == u);
    assert(t.take(i.text.len() as int) == i.text);
    assert(gap_len(u) == i.after.len()) by {
        assert(u == i.after + w);
        assert(gap_len(w) == 0);
        lemma_gap_ends(i.after, w);
    }
    assert(u.skip(i.after.len() as int) == w);
    assert(u.take(i.after.len() as int) == i.after);
    assert(w.skip(1) == more);
    assert(w[0] == c);
    reveal(elem_len);
    reveal(list_at);
}

/// The first element of a list that is there.
spec fn first_item(s: Seq<char>, members: bool) -> PieceView {
    let g = gap_len(s) as int;
    let t = s.skip(g);
    let n = elem_len(t, members)->0 as int;
    let u = t.skip(n);
    PieceView { before: s.take(g), text: t.take(n), after: u.take(gap_len(u) as int) }
}

/// How the text of a list that has an element falls apart.
proof fn lemma_list_parts(s: Seq<char>, members: bool)
    requires
        list_at(s, members) is Some,
        s.skip(gap_len(s) as int)[0] != closing(members),
    ensures
        ({
            let i = first_item(s, members);
            let k = (i.before.len() + i.text.len() + i.after.len()) as int;
            &&& k < s.len()
            &&& s.take(k) == i.before + i.text + i.after
            &&& is_gap(i.before)
            &&& is_gap(i.after)
            &&& elem_len(s.skip(gap_len(s) as int), members) == Some(i.text.len())
            &&& i.text == s.skip(gap_len(s) as int).take(i.text.len() as int)
            &&& i.text.len() > 0
            &&& s[k] == ',' || s[k] == closing(members)
            &&& s[k] == ',' ==> list_at(s.skip(k + 1), members) is Some && list_at(s, members)
                == Some(
                (
                    ListView {
                        items: seq![i] + (list_at(s.skip(k + 1), members)->0).0.items,
                        end: (list_at(s.skip(k + 1), members)->0).0.end,
                    },
                    (k + 1 + (list_at(s.skip(k + 1), members)->0).1) as nat,
                ),
            )
            &&& s[k] != ',' ==> list_at(s, members) == Some(
                (ListView { items: seq![i], end: None }, (k + 1) as nat),
            )
        }),
{
    reveal(elem_len);
    reveal(list_at);
    let g = gap_len(s) as int;
    lemma_gap_len(s);
    lemma_gap_taken(s);
    let t = s.skip(g);
    let n = elem_len(t, members)->0 as int;
    let u = t.skip(n);
    let h = gap_len(u) as int;
    lemma_gap_taken(u);
    let w = u.skip(h);
    let k = g + n + h;
    assert(w == s.skip(k));
    assert(w.skip(1) == s.skip(k + 1));
    assert(w[0] == s[k]);
    assert(s.take(k) == s.take(g) + t.take(n) + u.take(h));
}

/// How the text of a list without an element falls apart.
proof fn lemma_list_bare(s: Seq<char>, members: bool)
    requires
        list_at(s, members) is Some,
    ensures
        gap_len(s) < s.len(),
        s.skip(gap_len(s) as int)[0] == closing(members) ==> list_at(s, members) == Some(
            (
                ListView { items: Seq::empty(), end: Some(s.take(gap_len(s) as int)) },
                gap_len(s) + 1,
            ),
        ) && is_gap(s.take(gap_len(s) as int)) && s.take(gap_len(s) as int + 1) == s.take(
            gap_len(s) as int,
        ).push(closing(members)),
{
    reveal(elem_len);
    reveal(list_at);
    lemma_gap_len(s);
    let g = gap_len(s) as int;
    assert(g < s.len()) by {
        assert(s.skip(g).len() > 0);
    }
    lemma_gap_taken(s);
    if s.skip(g)[0] == closing(members) {
        assert(s[g] == closing(members));
        assert(s.take(g + 1) == s.take(g).push(closing(members)));
    }
}

/// A list is within the text, and stays the list at the start whatever follows
/// it.
pub proof fn lemma_list(s: Seq<char>, members: bool, more: Seq<char>)
    requires
        list_at(s, members) is Some,
    ensures
        1 <= (list_at(s, members)->0).1 <= s.len(),
        list_at(s.take((list_at(s, members)->0).1 as int) + more, members) == list_at(s, members),
    decreases s.len(), 2nat,
{
    let g = gap_len(s) as int;
    let all = (list_at(s, members)->0).1 as int;
    let t = s.skip(g);
    lemma_list_bare(s, members);
    if t[0] == closing(members) {
        lemma_list_end(s.take(g), members, more);
        assert(s.take(g + 1) == s.take(g) + seq![closing(members)]);
    } else {
        lemma_list_parts(s, members);
        let i = first_item(s, members);
        let k = (i.before.len() + i.text.len() + i.after.len()) as int;
        let tail = if s[k] == ',' {
            lemma_list(s.skip(k + 1), members, more);
            let m = (list_at(s.skip(k + 1), members)->0).1 as int;
            assert(s.take(all) == s.take(k) + seq![','] + s.skip(k + 1).take(m));
            s.skip(k + 1).take(m) + more
        } else {
            assert(s.take(all) == s.take(k) + seq![s[k]]);
            more
        };
        let z = i.after + seq![s[k]] + tail;
        assert(may_follow(z)) by {
            if i.after.len() > 0 {
                lemma_gap_starts(i.after);
                assert(z[0] == i.after[0]);
            } else {
                assert(z[0] == s[k]);
            }
        }
        lemma_elem(t, members, z);
        assert(i.text[0] == t[0]);
        lemma_list_item(i, members, s[k], tail);
        assert(s.take(all) + more == i.before + i.text + i.after + seq![s[k]] + tail);
    }
}

/// A gap starts with a blank or a comment.
proof fn lemma_gap_starts(g: Seq<char>)
    requires
        is_gap(g),
        g.len() > 0,
    ensures
        is_blank(g[0]) || g[0] == '/',
{
    assert(g.push('"')[0] == g[0]);
}

/// What a list says is what it was read from, and it is well formed.
pub proof fn lemma_list_says(s: Seq<char>, members: bool)
    requires
        list_at(s, members) is Some,
    ensures
        list_wf((list_at(s, members)->0).0, members),
        list_text((list_at(s, members)->0).0).push(closing(members)) == s.take(
            (list_at(s, members)->0).1 as int,
        ),
    decreases s.len(),
{
    let g = gap_len(s) as int;
    let all = (list_at(s, members)->0).1 as int;
    let l = (list_at(s, members)->0).0;
    let t = s.skip(g);
    lemma_list_bare(s, members);
    if t[0] == closing(members) {
        assert(list_text(l) == s.take(g));
    } else {
        lemma_list_parts(s, members);
        let i = first_item(s, members);
        let k = (i.before.len() + i.text.len() + i.after.len()) as int;
        lemma_elem(t, members, Seq::empty());
        assert(i.text + Seq::<char>::empty() == i.text);
        assert(item_wf(i, members));
        if s[k] == ',' {
            let tail = s.skip(k + 1);
            lemma_list_says(tail, members);
            let more = (list_at(tail, members)->0).0;
            let m = (list_at(tail, members)->0).1 as int;
            assert(l.items.skip(1) == more.items);
            assert forall|j: int| 0 <= j < l.items.len() implies item_wf(
                #[trigger] l.items[j],
                members,
            ) by {
                if j > 0 {
                    assert(l.items[j] == more.items[j - 1]);
                }
            }
            lemma_list(tail, members, Seq::empty());
            assert(all == k + 1 + m);
            assert(s.take(all) == s.take(k) + seq![','] + tail.take(m));
            lemma_list_text_cons(i, more);
            assert(list_text(l) == s.take(k) + seq![','] + list_text(more));
        } else {
            assert(s.take(all) == s.take(k).push(s[k]));
            assert(l.items.skip(1).len() == 0);
            assert(list_text(l) == s.take(k));
        }
    }
}

proof fn lemma_list_text_cons(i: PieceView, more: ListView)
    requires
        more.items.len() == 0 ==> more.end is Some,
    ensures
        list_text(ListView { items: seq![i] + more.items, end: more.end }) == i.before + i.text
            + i.after + seq![','] + list_text(more),
{
    let l = ListView { items: seq![i] + more.items, end: more.end };
    assert(l.items.skip(1) == more.items);
    if more.items.len() == 0 {
        assert(items_text(l.items) == i.before + i.text + i.after);
    }
}

/// A well-formed list is read back as what it is.
pub proof fn lemma_list_reads_back(l: ListView, members: bool, more: Seq<char>)
    requires
        list_wf(l, members),
    ensures
        list_at(list_text(l) + seq![closing(members)] + more, members) == Some(
            (l, list_text(l).len() + 1),
        ),
    decreases l.items.len(),
{
    let close = seq![closing(members)];
    if l.items.len() == 0 {
        lemma_list_end(l.end->0, members, more);
        assert(list_text(l) == l.end->0);
        assert(l.items == Seq::<PieceView>::empty());
    } else {
        let i = l.items[0];
        assert(item_wf(i, members));
        lemma_elem(i.text, members, Seq::empty());
        if l.items.len() == 1 && l.end is None {
            let z = i.after + close + more;
            lemma_follows(i.after, closing(members), more);
            lemma_elem(i.text, members, z);
            assert(i.text.take(i.text.len() as int) == i.text);
            lemma_list_item(i, members, closing(members), more);
            assert(l.items == seq![i]);
            assert(list_text(l) == i.before + i.text + i.after);
        } else {
            let rest_of = ListView { items: l.items.skip(1), end: l.end };
            assert forall|j: int| 0 <= j < rest_of.items.len() implies item_wf(
                #[trigger] rest_of.items[j],
                members,
            ) by {
                assert(rest_of.items[j] == l.items[j + 1]);
            }
            lemma_list_reads_back(rest_of, members, more);
            let tail = list_text(rest_of) + close + more;
            let z = i.after + seq![','] + tail;
            lemma_follows(i.after, ',', tail);
            lemma_elem(i.text, members, z);
            assert(i.text.take(i.text.len() as int) == i.text);
            lemma_list_item(i, members, ',', tail);
            lemma_list_text_cons(i, rest_of);
            assert(l.items == seq![i] + rest_of.items);
            assert(list_text(l) + close + more == i.before + i.text + i.after + seq![','] + tail);
        }
    }
}

proof fn lemma_follows(g: Seq<char>, c: char, more: Seq<char>)
    requires
        is_gap(g),
        is_delimiter(c),
    ensures
        may_follow(g + seq![c] + more),
{
    if g.len() > 0 {
        lemma_gap_starts(g);
        assert((g + seq![c] + more)[0] == g[0]);
    } else {
        assert((g + seq![c] + more)[0] == c);
    }
}

/// What a list is, by the gap and the element that it starts with.
pub proof fn lemma_list_is(s: Seq<char>, members: bool)
    ensures
        ({
            let g = gap_len(s);
            let t = s.skip(g as int);
            let n = elem_len(t, members)->0;
            let u = t.skip(n as int);
            let h = gap_len(u);
            let w = u.skip(h as int);
            let item = PieceView {
                before: s.take(g as int),
                text: t.take(n as int),
                after: u.take(h as int),
            };
            &&& t.len() == 0 ==> list_at(s, members) is None
            &&& t.len() > 0 && t[0] == closing(members) ==> list_at(s, members) == Some(
                (ListView { items: Seq::empty(), end: Some(s.take(g as int)) }, g + 1),
            )
            &&& t.len() > 0 && t[0] != closing(members) ==> (if elem_len(t, members) is None
                || w.len() == 0 {
                list_at(s, members) is None
            } else if w[0] == ',' {
                list_at(s, members) == (match list_at(w.skip(1), members) {
                    Some((l, m)) => Some(
                        (ListView { items: seq![item] + l.items, end: l.end }, g + n + h + 1 + m),
                    ),
                    None => None,
                })
            } else if w[0] == closing(members) {
                list_at(s, members) == Some(
                    (ListView { items: seq![item], end: None }, g + n + h + 1),
                )
            } else {
                list_at(s, members) is None
            })
        }),
{
    reveal(elem_len);
    reveal(list_at);
    lemma_gap_len(s);
    let t = s.skip(gap_len(s) as int);
    if elem_len(t, members) is Some {
        lemma_elem(t, members, Seq::empty());
        lemma_gap_len(t.skip(elem_len(t, members)->0 as int));
    }
}

// --------------------------------------------------------------------- reading

#[derive(Debug)]
pub struct Piece {
    pub before: String,
    pub text: String,
    pub after: String,
}

impl View for Piece {
    type V = PieceView;

    open spec fn view(&self) -> PieceView {
        PieceView { before: self.before@, text: self.text@, after: self.after@ }
    }
}

#[derive(Debug)]
pub struct JsonList {
    pub items: Vec<Piece>,
    pub end: Option<String>,
}

pub open spec fn item_views(v: Seq<Piece>) -> Seq<PieceView> {
    v.map_values(|i: Piece| i@)
}

impl View for JsonList {
    type V = ListView;

    open spec fn view(&self) -> ListView {
        ListView { items: item_views(self.items@), end: opt_text(self.end) }
    }
}

pub fn value_length(s: &[char]) -> (r: Option<usize>)
    ensures
        match r {
            Some(n) => value_len(s@) == Some(n as nat) && 1 <= n <= s@.len(),
            None => value_len(s@) is None,
        },
    decreases s@.len(), 0nat,
{
    proof {
        lemma_value_is(s@);
        if value_len(s@) is Some {
            lemma_value(s@, Seq::empty());
        }
    }
    if s.len() == 0 {
        return None;
    }
    if s[0] == '"' {
        match body_length(rest(s, 1)) {
            Some(n) => Some(n + 1),
            None => None,
        }
    } else if s[0] == '[' || s[0] == '{' {
        match read_list(rest(s, 1), s[0] == '{') {
            Some((_, n)) => Some(n + 1),
            None => None,
        }
    } else {
        let n = bare_length(s);
        if literal(front(s, n)) {
            Some(n)
        } else {
            None
        }
    }
}

pub fn head_length(s: &[char]) -> (r: Option<usize>)
    ensures
        match r {
            Some(n) => head_len(s@) == Some(n as nat) && n <= s@.len(),
            None => head_len(s@) is None,
        },
{
    proof {
        lemma_head_len(s@);
    }
    if s.len() == 0 || s[0] != '"' {
        return None;
    }
    let body = rest(s, 1);
    match body_length(body) {
        None => None,
        Some(a) => {
            let after = rest(body, a);
            assert(after@ == s@.skip(1 + a));
            let b = gap_length(after);
            let t = rest(after, b);
            assert(t@ == s@.skip(1 + a + b));
            if t.len() == 0 || t[0] != ':' {
                None
            } else {
                let c = gap_length(rest(t, 1));
                Some(1 + a + b + 1 + c)
            }
        },
    }
}

fn elem_length(s: &[char], members: bool) -> (r: Option<usize>)
    ensures
        match r {
            Some(n) => elem_len(s@, members) == Some(n as nat) && 1 <= n <= s@.len(),
            None => elem_len(s@, members) is None,
        },
    decreases s@.len(), 1nat,
{
    proof {
        lemma_elem_is(s@, members);
        if elem_len(s@, members) is Some {
            lemma_elem(s@, members, Seq::empty());
        }
        lemma_head_len(s@);
    }
    if !members {
        return value_length(s);
    }
    match head_length(s) {
        None => None,
        Some(h) => {
            let v = rest(s, h);
            assert(v.len() + h == s.len());
            match value_length(v) {
                Some(n) => Some(h + n),
                None => None,
            }
        },
    }
}

/// What comes of a list when `n` characters of elements have been read.
spec fn carried(done: Seq<PieceView>, n: nat, found: Option<(ListView, nat)>) -> Option<
    (ListView, nat),
> {
    match found {
        Some((l, m)) => Some((ListView { items: done + l.items, end: l.end }, n + m)),
        None => None,
    }
}

pub fn read_list(s: &[char], members: bool) -> (r: Option<(JsonList, usize)>)
    ensures
        match r {
            Some((l, n)) => list_at(s@, members) == Some((l@, n as nat)) && 1 <= n <= s@.len(),
            None => list_at(s@, members) is None,
        },
    decreases s@.len(), 2nat,
{
    let close = if members {
        '}'
    } else {
        ']'
    };
    let n = s.len();
    let mut items: Vec<Piece> = Vec::new();
    let mut i: usize = 0;
    proof {
        assert(s@.skip(0) == s@);
        assert(item_views(items@) == Seq::<PieceView>::empty());
        if list_at(s@, members) is Some {
            lemma_list(s@, members, Seq::empty());
            let l = (list_at(s@, members)->0).0;
            assert(item_views(items@) + l.items == l.items);
        }
        assert(list_at(s@, members) == carried(
            item_views(items@),
            0,
            list_at(s@.skip(0), members),
        ));
    }
    loop
        invariant
            i <= n,
            n == s@.len(),
            close == closing(members),
            list_at(s@, members) == carried(
                item_views(items@),
                i as nat,
                list_at(s@.skip(i as int), members),
            ),
        decreases n - i,
    {
        let tail = rest(s, i);
        proof {
            lemma_list_is(tail@, members);
            if list_at(tail@, members) is Some {
                lemma_list(tail@, members, Seq::empty());
            }
        }
        let g = gap_length(tail);
        let t = rest(tail, g);
        if t.len() == 0 {
            return None;
        }
        if t[0] == close {
            let end = Some(string(front(tail, g)));
            let l = JsonList { items, end };
            assert(item_views(items@) + Seq::<PieceView>::empty() == item_views(items@));
            return Some((l, i + g + 1));
        }
        let m = match elem_length(t, members) {
            Some(m) => m,
            None => {
                return None;
            },
        };
        let u = rest(t, m);
        let h = gap_length(u);
        let w = rest(u, h);
        if w.len() == 0 {
            return None;
        }
        let item = Piece {
            before: string(front(tail, g)),
            text: string(front(t, m)),
            after: string(front(u, h)),
        };
        let ghost before = item_views(items@);
        if w[0] == ',' {
            items.push(item);
            let step = g + m + h + 1;
            proof {
                assert(item_views(items@) == before.push(item@));
                assert(w@.skip(1) == s@.skip(i + step));
                if list_at(w@.skip(1), members) is Some {
                    let l = (list_at(w@.skip(1), members)->0).0;
                    assert(before + (seq![item@] + l.items) == before.push(item@) + l.items);
                }
            }
            i = i + step;
        } else if w[0] == close {
            items.push(item);
            let l = JsonList { items, end: None };
            assert(item_views(items@) == before + seq![item@]);
            return Some((l, i + g + m + h + 1));
        } else {
            return None;
        }
    }
}

} // verus!
