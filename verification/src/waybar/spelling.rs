//! What holds of the texts that a custom module is written with: its strings,
//! and the id that its name becomes.

use vstd::prelude::*;

use crate::configfs::jsonc::grammar::{body_len, lemma_value_is};
use crate::configfs::jsonc::is_value;
use crate::text::{is_alpha, is_digit, is_space, lower, strip_trailing, trim};
use crate::wallhaven::color::hex_value;
use crate::waybar::{dashed, escape_of, escaped, hex_char, in_quotes, is_control, slug_of};

verus! {

// --------------------------------------------------------------- JSON strings

/// The character that stands for itself, or for a blank, behind a backslash.
pub open spec fn short_escape(c: char) -> Option<char> {
    if c == '"' || c == '\\' || c == '/' {
        Some(c)
    } else if c == 'n' {
        Some('\n')
    } else if c == 't' {
        Some('\t')
    } else if c == 'r' {
        Some('\r')
    } else if c == 'b' {
        Some('\u{8}')
    } else if c == 'f' {
        Some('\u{c}')
    } else {
        None
    }
}

/// The number that four hexadecimal digits spell.
pub open spec fn code_unit(a: char, b: char, c: char, d: char) -> Option<int> {
    match (hex_value(a), hex_value(b), hex_value(c), hex_value(d)) {
        (Some(w), Some(x), Some(y), Some(z)) => Some(4096 * w + 256 * x + 16 * y + z),
        _ => None,
    }
}

/// What the text between the quotes of a JSON string says; `None` where it is
/// no such text, or where it spells half of a surrogate pair.
pub open spec fn said(s: Seq<char>) -> Option<Seq<char>>
    decreases s.len(),
{
    if s.len() == 0 {
        Some(Seq::empty())
    } else if s[0] == '"' || is_control(s[0]) {
        None
    } else if s[0] != '\\' {
        match said(s.skip(1)) {
            Some(more) => Some(seq![s[0]] + more),
            None => None,
        }
    } else if s.len() >= 2 && short_escape(s[1]) is Some {
        match said(s.skip(2)) {
            Some(more) => Some(seq![short_escape(s[1])->0] + more),
            None => None,
        }
    } else if s.len() >= 6 && s[1] == 'u' {
        match (code_unit(s[2], s[3], s[4], s[5]), said(s.skip(6))) {
            (Some(n), Some(more)) => if 0xD800 <= n <= 0xDFFF {
                None
            } else {
                Some(seq![n as u32 as char] + more)
            },
            _ => None,
        }
    } else {
        None
    }
}

/// A text is written character by character, the first one first.
proof fn lemma_escaped_first(s: Seq<char>)
    requires
        s.len() > 0,
    ensures
        escaped(s) == escape_of(s[0]) + escaped(s.skip(1)),
    decreases s.len(),
{
    if s.len() == 1 {
        assert(escaped(s.drop_last()) == Seq::<char>::empty());
        assert(escaped(s.skip(1)) == Seq::<char>::empty());
        assert(s.last() == s[0]);
        assert(Seq::<char>::empty() + escape_of(s[0]) == escape_of(s[0]) + Seq::<char>::empty());
    } else {
        lemma_escaped_first(s.drop_last());
        let middle = s.skip(1).drop_last();
        assert(s.drop_last().skip(1) == middle);
        assert(s.skip(1).last() == s.last());
        assert((escape_of(s[0]) + escaped(middle)) + escape_of(s.last()) == escape_of(s[0]) + (
        escaped(middle) + escape_of(s.last())));
    }
}

proof fn lemma_hex(c: char)
    requires
        is_control(c),
    ensures
        code_unit(
            '0',
            '0',
            hex_char(c as int / 16),
            hex_char(c as int % 16),
        ) == Some(c as int),
{
}

proof fn lemma_escape_is_read(c: char, more: Seq<char>)
    requires
        said(more) is Some,
    ensures
        said(escape_of(c) + more) == Some(seq![c] + said(more)->0),
{
    reveal_strlit("\\\"");
    reveal_strlit("\\\\");
    reveal_strlit("\\n");
    reveal_strlit("\\t");
    let s = escape_of(c) + more;
    if c == '"' || c == '\\' || c == '\n' || c == '\t' {
        assert(s.skip(2) == more);
        assert(s[0] == '\\');
        assert(s[1] == escape_of(c)[1]);
    } else if is_control(c) {
        lemma_hex(c);
        assert(s.skip(6) == more);
        assert(s[0] == '\\');
        assert(s[1] == 'u');
        assert(s[2] == '0' && s[3] == '0');
        assert(s[4] == hex_char(c as int / 16));
        assert(s[5] == hex_char(c as int % 16));
    } else {
        assert(s.skip(1) == more);
        assert(s[0] == c);
    }
}

proof fn lemma_escape_stays_inside(c: char, more: Seq<char>)
    requires
        body_len(more) is Some,
    ensures
        body_len(escape_of(c) + more) == Some((escape_of(c).len() + body_len(more)->0) as nat),
{
    reveal_strlit("\\\"");
    reveal_strlit("\\\\");
    reveal_strlit("\\n");
    reveal_strlit("\\t");
    let s = escape_of(c) + more;
    if c == '"' || c == '\\' || c == '\n' || c == '\t' {
        assert(s[0] == '\\');
        assert(s.skip(2) == more);
    } else if is_control(c) {
        let a = hex_char(c as int / 16);
        let b = hex_char(c as int % 16);
        lemma_hex(c);
        assert(s[0] == '\\');
        assert(s.skip(2) == seq!['0', '0', a, b] + more);
        assert(s.skip(2).skip(1) == seq!['0', a, b] + more);
        assert(s.skip(2).skip(1).skip(1) == seq![a, b] + more);
        assert(s.skip(2).skip(1).skip(1).skip(1) == seq![b] + more);
        assert((seq![b] + more).skip(1) == more);
        assert(body_len(seq![b] + more) == Some((1 + body_len(more)->0) as nat));
        assert(body_len(seq![a, b] + more) == Some((2 + body_len(more)->0) as nat));
        assert(body_len(seq!['0', a, b] + more) == Some((3 + body_len(more)->0) as nat));
        assert(body_len(s.skip(2)) == Some((4 + body_len(more)->0) as nat));
    } else {
        assert(s[0] == c);
        assert(s.skip(1) == more);
    }
}

proof fn lemma_escaped_stays_inside(s: Seq<char>)
    ensures
        body_len(escaped(s) + seq!['"']) == Some((escaped(s).len() + 1) as nat),
    decreases s.len(),
{
    if s.len() == 0 {
        assert((escaped(s) + seq!['"'])[0] == '"');
    } else {
        lemma_escaped_first(s);
        lemma_escaped_stays_inside(s.skip(1));
        lemma_escape_stays_inside(s[0], escaped(s.skip(1)) + seq!['"']);
        assert(escaped(s) + seq!['"'] == escape_of(s[0]) + (escaped(s.skip(1)) + seq!['"']));
    }
}

/// Whatever a text holds, what it is written as is legal between the quotes of
/// a JSON string, and says the text again.
pub proof fn law_escaped_text_is_said(s: Seq<char>)
    ensures
        said(escaped(s)) == Some(s),
        is_value(in_quotes(escaped(s))),
    decreases s.len(),
{
    if s.len() == 0 {
        assert(escaped(s) == Seq::<char>::empty());
        assert(s == Seq::<char>::empty());
    } else {
        law_escaped_text_is_said(s.skip(1));
        lemma_escaped_first(s);
        lemma_escape_is_read(s[0], escaped(s.skip(1)));
        assert(seq![s[0]] + s.skip(1) == s);
    }
    lemma_escaped_stays_inside(s);
    reveal_strlit("\"");
    let q = in_quotes(escaped(s));
    assert(q == seq!['"'] + escaped(s) + seq!['"']);
    assert(q.skip(1) == escaped(s) + seq!['"']);
    lemma_value_is(q);
}

// ----------------------------------------------------------------------- slugs

/// A character that a slug holds.
pub open spec fn is_slug_char(c: char) -> bool {
    'a' <= c <= 'z' || is_digit(c) || c == '-'
}

/// What a slug looks like: lower-case letters, digits and single dashes, none
/// of them at either end.
pub open spec fn is_slug(s: Seq<char>) -> bool {
    &&& forall|i: int| 0 <= i < s.len() ==> is_slug_char(#[trigger] s[i])
    &&& forall|i: int| 0 < i < s.len() && #[trigger] s[i] == '-' ==> s[i - 1] != '-'
    &&& s.len() > 0 ==> s[0] != '-' && s.last() != '-'
}

proof fn lemma_dashed(s: Seq<char>)
    ensures
        forall|i: int| 0 <= i < dashed(s).len() ==> is_slug_char(#[trigger] dashed(s)[i]),
        forall|i: int| 0 < i < dashed(s).len() && #[trigger] dashed(s)[i] == '-' ==> dashed(s)[i - 1] != '-',
        dashed(s).len() > 0 ==> dashed(s)[0] != '-',
    decreases s.len(),
{
    if s.len() > 0 {
        lemma_dashed(s.drop_last());
    }
}

/// A slug has the alphabet and the single dashes of one, whatever the name.
pub proof fn law_slug_is_a_slug(name: Seq<char>)
    ensures
        is_slug(slug_of(name)),
{
    let d = dashed(trim(name));
    lemma_dashed(trim(name));
    if d.len() > 0 && d.last() == '-' {
        let f = d.drop_last();
        if f.len() > 0 {
            assert(d[d.len() - 1] == '-');
            assert(f.last() == d[d.len() - 2]);
            assert(f[0] == d[0]);
        }
        assert(strip_trailing(f, '-') == f);
        assert(strip_trailing(d, '-') == f);
    }
}

proof fn lemma_dashed_slug(s: Seq<char>)
    requires
        forall|i: int| 0 <= i < s.len() ==> is_slug_char(#[trigger] s[i]),
        forall|i: int| 0 < i < s.len() && #[trigger] s[i] == '-' ==> s[i - 1] != '-',
        s.len() > 0 ==> s[0] != '-',
    ensures
        dashed(s) == s,
    decreases s.len(),
{
    if s.len() > 0 {
        let f = s.drop_last();
        lemma_dashed_slug(f);
        assert(s[s.len() - 1] == s.last());
        assert(f.push(s.last()) == s);
    }
}

/// A slug is its own slug.
pub proof fn law_slug_of_a_slug(name: Seq<char>)
    ensures
        slug_of(slug_of(name)) == slug_of(name),
{
    let s = slug_of(name);
    law_slug_is_a_slug(name);
    if s.len() > 0 {
        assert(!is_space(s[0]));
        assert(!is_space(s.last()));
    }
    assert(trim(s) == s);
    lemma_dashed_slug(s);
}

/// The letters and digits of a text, in lower case.
pub open spec fn kept_of(s: Seq<char>) -> Seq<char>
    decreases s.len(),
{
    if s.len() == 0 {
        Seq::empty()
    } else if is_alpha(s.last()) || is_digit(s.last()) {
        kept_of(s.drop_last()).push(lower(s.last()))
    } else {
        kept_of(s.drop_last())
    }
}

proof fn lemma_kept_push(s: Seq<char>, c: char)
    ensures
        kept_of(s.push(c)) == if is_alpha(c) || is_digit(c) {
            kept_of(s).push(lower(c))
        } else {
            kept_of(s)
        },
{
    assert(s.push(c).drop_last() =~= s);
}

proof fn lemma_dashed_keeps(s: Seq<char>)
    ensures
        kept_of(dashed(s)) == kept_of(s),
    decreases s.len(),
{
    if s.len() > 0 {
        let front = dashed(s.drop_last());
        let c = s.last();
        lemma_dashed_keeps(s.drop_last());
        lemma_kept_push(front, lower(c));
        lemma_kept_push(front, '-');
    }
}

proof fn lemma_kept_of_stripped(s: Seq<char>)
    ensures
        kept_of(strip_trailing(s, '-')) == kept_of(s),
    decreases s.len(),
{
    if s.len() > 0 && s.last() == '-' {
        lemma_kept_of_stripped(s.drop_last());
    }
}

/// A slug has every letter and digit of the trimmed name, in lower case and in
/// their order, and no other.
pub proof fn law_slug_keeps_letters_and_digits(name: Seq<char>)
    ensures
        kept_of(slug_of(name)) == kept_of(trim(name)),
{
    lemma_dashed_keeps(trim(name));
    lemma_kept_of_stripped(dashed(trim(name)));
}

/// Two letters or digits that something else parts have a dash between them.
pub proof fn law_slug_parts_words(s: Seq<char>, c: char)
    requires
        dashed(s).len() > 0,
        !is_alpha(c) && !is_digit(c),
    ensures
        dashed(s.push(c)).last() == '-',
{
    assert(s.push(c).drop_last() =~= s);
}

} // verus!
