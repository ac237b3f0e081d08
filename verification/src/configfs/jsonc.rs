//! JSON with comments, edited in place.
//!
//! A document keeps its text: an edit replaces values and leaves every comment
//! where it stands.

use vstd::prelude::*;

use crate::configfs::jsonc::grammar::{
    JsonList, ListView, Piece, PieceView, body_len, body_length, closing, elem_len, gap_len,
    gap_length, head_len, head_length, is_gap, item_views, item_wf, items_text, lemma_body_len,
    lemma_elem_is, lemma_gap_ends, lemma_gap_len, lemma_gap_taken, lemma_head_len, lemma_head_stays,
    lemma_list, lemma_list_reads_back, lemma_list_says, lemma_value, lemma_value_is, list_at,
    list_text, list_wf, may_follow, read_list, value_len, value_length,
};
use crate::text::{chars, front, is_text, opt_text, owned, rest, same_str, string, texts};

pub mod grammar;

verus! {

/// A text that is one value.
pub open spec fn is_value(s: Seq<char>) -> bool {
    value_len(s) == Some(s.len())
}

fn whole_value(s: &[char]) -> (r: bool)
    ensures
        r == is_value(s@),
{
    match value_length(s) {
        Some(n) => n == s.len(),
        None => false,
    }
}

/// A document: its value, and the gaps around it.
#[verifier::ext_equal]
pub struct DocView {
    pub lead: Seq<char>,
    pub root: Seq<char>,
    pub tail: Seq<char>,
}

pub open spec fn doc_text(d: DocView) -> Seq<char> {
    d.lead + d.root + d.tail
}

/// The document that a text is.
pub open spec fn doc_of(s: Seq<char>) -> Option<DocView> {
    let g = gap_len(s) as int;
    let t = s.skip(g);
    match value_len(t) {
        None => None,
        Some(n) => {
            let tail = t.skip(n as int);
            if gap_len(tail) == tail.len() {
                Some(DocView { lead: s.take(g), root: t.take(n as int), tail })
            } else {
                None
            }
        },
    }
}

pub open spec fn doc_wf(d: DocView) -> bool {
    &&& is_gap(d.lead)
    &&& is_value(d.root)
    &&& gap_len(d.tail) == d.tail.len()
}

proof fn lemma_tail_follows(tail: Seq<char>)
    requires
        gap_len(tail) == tail.len(),
    ensures
        may_follow(tail),
{
}

/// Reading a document and printing it gives the text back, comments and all.
pub proof fn law_lossless(s: Seq<char>)
    requires
        doc_of(s) is Some,
    ensures
        doc_text(doc_of(s)->0) == s,
        doc_wf(doc_of(s)->0),
{
    let g = gap_len(s) as int;
    lemma_gap_len(s);
    let t = s.skip(g);
    lemma_value(t, Seq::empty());
    let n = value_len(t)->0 as int;
    assert(s == s.take(g) + t.take(n) + t.skip(n));
    lemma_gap_taken(s);
    assert(t.take(n) + Seq::<char>::empty() == t.take(n));
}

/// Printing a document and reading it gives the document back.
pub proof fn law_reads_back(d: DocView)
    requires
        doc_wf(d),
    ensures
        doc_of(doc_text(d)) == Some(d),
{
    let s = doc_text(d);
    let t = d.root + d.tail;
    lemma_tail_follows(d.tail);
    lemma_value(d.root, d.tail);
    assert(d.root.take(d.root.len() as int) == d.root);
    lemma_value(t, Seq::empty());
    lemma_gap_ends(d.lead, t);
    assert(s == d.lead + t);
    assert(s.skip(d.lead.len() as int) == t);
    assert(s.take(d.lead.len() as int) == d.lead);
    assert(t.skip(d.root.len() as int) == d.tail);
    assert(t.take(d.root.len() as int) == d.root);
}

// --------------------------------------------------------------------- members

pub open spec fn quoted(s: Seq<char>) -> Seq<char> {
    seq!['"'] + s + seq!['"']
}

/// A text that stands for itself between quotes.
pub open spec fn is_plain(s: Seq<char>) -> bool {
    body_len(s.push('"')) == Some(s.len() + 1)
}

/// The key of a member, with its quotes.
pub open spec fn key_text(member: Seq<char>) -> Seq<char> {
    if member.len() == 0 {
        member
    } else {
        match body_len(member.skip(1)) {
            Some(n) => member.take(1 + n as int),
            None => member,
        }
    }
}

/// The value of a member.
pub open spec fn value_text(member: Seq<char>) -> Seq<char> {
    match head_len(member) {
        Some(h) => member.skip(h as int),
        None => Seq::empty(),
    }
}

/// The member with another value.
pub open spec fn with_value_text(member: Seq<char>, value: Seq<char>) -> Seq<char> {
    match head_len(member) {
        Some(h) => member.take(h as int) + value,
        None => member,
    }
}

/// The list that a bracketed text is.
pub open spec fn list_of(s: Seq<char>, members: bool) -> Option<ListView> {
    if s.len() > 0 && s[0] == (if members {
        '{'
    } else {
        '['
    }) {
        match list_at(s.skip(1), members) {
            Some((l, _)) => Some(l),
            None => None,
        }
    } else {
        None
    }
}

pub open spec fn bracketed(l: ListView, members: bool) -> Seq<char> {
    seq![if members {
        '{'
    } else {
        '['
    }] + list_text(l) + seq![closing(members)]
}

/// The first member under a key.
pub open spec fn member_at(items: Seq<PieceView>, key: Seq<char>) -> Option<int>
    decreases items.len(),
{
    if items.len() == 0 {
        None
    } else if key_text(items[0].text) == quoted(key) {
        Some(0)
    } else {
        match member_at(items.skip(1), key) {
            Some(i) => Some(i + 1),
            None => None,
        }
    }
}

proof fn lemma_member_at(items: Seq<PieceView>, key: Seq<char>)
    ensures
        match member_at(items, key) {
            Some(i) => 0 <= i < items.len() && key_text(items[i].text) == quoted(key) && forall|
                j: int,
            |
                0 <= j < i ==> key_text((#[trigger] items[j]).text) != quoted(key),
            None => forall|j: int|
                0 <= j < items.len() ==> key_text((#[trigger] items[j]).text) != quoted(key),
        },
    decreases items.len(),
{
    if items.len() > 0 && key_text(items[0].text) != quoted(key) {
        let tail = items.skip(1);
        lemma_member_at(tail, key);
        assert forall|j: int| 1 <= j < items.len() implies tail[j - 1] == #[trigger] items[j] by {}
    }
}

/// The value under a key of an object.
pub open spec fn value_under(root: Seq<char>, key: Seq<char>) -> Option<Seq<char>> {
    match list_of(root, true) {
        Some(l) => match member_at(l.items, key) {
            Some(i) => Some(value_text(l.items[i].text)),
            None => None,
        },
        None => None,
    }
}

/// Of the members under one key the first counts, and where there is none there
/// is no value.
pub proof fn law_first_member_counts(root: Seq<char>, key: Seq<char>, l: ListView)
    requires
        list_of(root, true) == Some(l),
    ensures
        value_under(root, key) is None <==> forall|j: int|
            0 <= j < l.items.len() ==> key_text((#[trigger] l.items[j]).text) != quoted(key),
        forall|i: int|
            0 <= i < l.items.len() && key_text((#[trigger] l.items[i]).text) == quoted(key) && (
            forall|j: int| 0 <= j < i ==> key_text((#[trigger] l.items[j]).text) != quoted(key))
                ==> value_under(root, key) == Some(value_text(l.items[i].text)),
{
    lemma_member_at(l.items, key);
}

/// The elements of the array under a key.
pub open spec fn elements(root: Seq<char>, key: Seq<char>) -> Option<Seq<Seq<char>>> {
    match value_under(root, key) {
        Some(v) => match list_of(v, false) {
            Some(l) => Some(piece_texts(l.items)),
            None => None,
        },
        None => None,
    }
}

pub open spec fn piece_texts(items: Seq<PieceView>) -> Seq<Seq<char>> {
    items.map_values(|i: PieceView| i.text)
}

/// The object with another value under a key that it has.
pub open spec fn with_value(root: Seq<char>, key: Seq<char>, value: Seq<char>) -> Seq<char> {
    match list_of(root, true) {
        Some(l) => match member_at(l.items, key) {
            Some(i) => bracketed(with_text(l, i, with_value_text(l.items[i].text, value)), true),
            None => root,
        },
        None => root,
    }
}

/// The list with another text at one place.
pub open spec fn with_text(l: ListView, i: int, text: Seq<char>) -> ListView {
    ListView {
        items: l.items.update(
            i,
            PieceView { before: l.items[i].before, text, after: l.items[i].after },
        ),
        end: l.end,
    }
}

// ------------------------------------------------------------------------ laws

/// A list that is well formed is what its text is.
pub proof fn lemma_bracketed(l: ListView, members: bool)
    requires
        list_wf(l, members),
    ensures
        is_value(bracketed(l, members)),
        list_of(bracketed(l, members), members) == Some(l),
{
    let s = bracketed(l, members);
    lemma_list_reads_back(l, members, Seq::empty());
    assert(s.skip(1) == list_text(l) + seq![closing(members)] + Seq::<char>::empty());
    lemma_value_is(s);
    assert(s[0] == (if members {
        '{'
    } else {
        '['
    }));
}

/// The list that a value is, is well formed and spells the value out.
proof fn lemma_list_of(s: Seq<char>, members: bool)
    requires
        is_value(s),
        list_of(s, members) is Some,
    ensures
        list_wf(list_of(s, members)->0, members),
        bracketed(list_of(s, members)->0, members) == s,
{
    lemma_value_is(s);
    lemma_list_says(s.skip(1), members);
    lemma_list(s.skip(1), members, Seq::empty());
    let n = (list_at(s.skip(1), members)->0).1 as int;
    assert(n == s.len() - 1);
    assert(s.skip(1).take(n) == s.skip(1));
    let l = list_of(s, members)->0;
    assert(list_text(l) + seq![closing(members)] == list_text(l).push(closing(members)));
    assert(seq![s[0]] + s.skip(1) == s);
    assert(bracketed(l, members) == seq![s[0]] + (list_text(l) + seq![closing(members)]));
}

/// A member keeps its key when its value is replaced.
proof fn lemma_with_value_text(member: Seq<char>, value: Seq<char>)
    requires
        elem_len(member, true) == Some(member.len()),
        is_value(value),
    ensures
        elem_len(with_value_text(member, value), true) == Some(
            with_value_text(member, value).len(),
        ),
        key_text(with_value_text(member, value)) == key_text(member),
        value_text(with_value_text(member, value)) == value,
        is_value(value_text(member)),
{
    lemma_elem_is(member, true);
    lemma_head_len(member);
    let h = head_len(member)->0 as int;
    let x = member.take(h) + value;
    lemma_value(member.skip(h), Seq::empty());
    lemma_value(value, Seq::empty());
    lemma_head_stays(member, value);
    lemma_elem_is(x, true);
    assert(x.skip(h) == value);
    let a = body_len(member.skip(1))->0 as int;
    lemma_body_len(member.skip(1), x.skip(1 + a));
    assert(1 + a <= h);
    assert(x.skip(1) == member.skip(1).take(a) + x.skip(1 + a));
    assert(x.take(1 + a) == member.take(1 + a));
}

/// After a value has been replaced it is what stands under the key; every other
/// key has what it had, and the object is well formed.
pub proof fn law_replaced_value_reads_back(
    root: Seq<char>,
    key: Seq<char>,
    value: Seq<char>,
    other: Seq<char>,
)
    requires
        is_value(root),
        value_under(root, key) is Some,
        is_value(value),
    ensures
        is_value(with_value(root, key, value)),
        value_under(with_value(root, key, value), key) == Some(value),
        quoted(other) != quoted(key) ==> value_under(with_value(root, key, value), other)
            == value_under(root, other),
{
    let l = list_of(root, true)->0;
    lemma_list_of(root, true);
    let i = member_at(l.items, key)->0;
    lemma_member_at(l.items, key);
    assert(item_wf(l.items[i], true));
    let text = with_value_text(l.items[i].text, value);
    lemma_with_value_text(l.items[i].text, value);
    let m = with_text(l, i, text);
    assert forall|j: int| 0 <= j < m.items.len() implies item_wf(#[trigger] m.items[j], true) by {
        assert(item_wf(l.items[j], true));
    }
    lemma_bracketed(m, true);
    assert forall|k: Seq<char>| #[trigger] member_at(m.items, k) == member_at(l.items, k) by {
        lemma_same_keys(l.items, m.items, k);
    }
    if quoted(other) != quoted(key) {
        lemma_member_at(l.items, other);
    }
}

proof fn lemma_same_keys(a: Seq<PieceView>, b: Seq<PieceView>, key: Seq<char>)
    requires
        a.len() == b.len(),
        forall|j: int|
            0 <= j < a.len() ==> key_text((#[trigger] a[j]).text) == key_text(b[j].text),
    ensures
        member_at(a, key) == member_at(b, key),
    decreases a.len(),
{
    if a.len() > 0 {
        assert(key_text(a[0].text) == key_text(b[0].text));
        let x = a.skip(1);
        let y = b.skip(1);
        assert forall|j: int| 0 <= j < x.len() implies key_text((#[trigger] x[j]).text)
            == key_text(y[j].text) by {
            assert(x[j] == a[j + 1] && y[j] == b[j + 1]);
        }
        lemma_same_keys(x, y, key);
    }
}

// ----------------------------------------------------------------------- edits

/// The gap in front of the closing bracket of a list without elements.
pub open spec fn end_gap(l: ListView) -> Seq<char> {
    match l.end {
        Some(g) => g,
        None => Seq::empty(),
    }
}

/// The list with one more element behind the others. The gap in front of the
/// closing bracket stays there; `lone` stands in front of an only element and
/// `before` in front of any other.
pub open spec fn appended(
    l: ListView,
    lone: Seq<char>,
    before: Seq<char>,
    text: Seq<char>,
) -> ListView {
    if l.items.len() == 0 {
        ListView {
            items: seq![PieceView { before: lone, text, after: end_gap(l) }],
            end: None,
        }
    } else if l.end is Some {
        ListView {
            items: l.items.push(PieceView { before, text, after: Seq::empty() }),
            end: l.end,
        }
    } else {
        let last = l.items.last();
        ListView {
            items: l.items.drop_last().push(
                PieceView { before: last.before, text: last.text, after: Seq::empty() },
            ).push(PieceView { before, text, after: last.after }),
            end: None,
        }
    }
}

/// The elements other than `raw`, and the gaps left over behind them.
pub open spec fn kept(items: Seq<PieceView>, raw: Seq<char>) -> (Seq<PieceView>, Seq<char>)
    decreases items.len(),
{
    if items.len() == 0 {
        (Seq::empty(), Seq::empty())
    } else {
        let (out, carry) = kept(items.drop_last(), raw);
        let x = items.last();
        if x.text == raw {
            (out, carry + x.before + x.after)
        } else {
            (
                out.push(PieceView { before: carry + x.before, text: x.text, after: x.after }),
                Seq::empty(),
            )
        }
    }
}

/// The list without the elements that read `raw`; the gaps around them stay.
pub open spec fn removed(l: ListView, raw: Seq<char>) -> ListView {
    let (out, carry) = kept(l.items, raw);
    if out.len() == 0 {
        ListView { items: Seq::empty(), end: Some(carry + end_gap(l)) }
    } else if l.end is Some {
        ListView { items: out, end: Some(carry + end_gap(l)) }
    } else {
        let last = out.last();
        ListView {
            items: out.drop_last().push(
                PieceView { before: last.before, text: last.text, after: last.after + carry },
            ),
            end: None,
        }
    }
}

/// The list with other texts in the same places.
pub open spec fn retexted(l: ListView, raws: Seq<Seq<char>>) -> ListView {
    ListView {
        items: Seq::new(
            l.items.len(),
            |i: int|
                PieceView { before: l.items[i].before, text: raws[i], after: l.items[i].after },
        ),
        end: l.end,
    }
}

/// How often a text occurs.
pub open spec fn count(all: Seq<Seq<char>>, x: Seq<char>) -> nat
    decreases all.len(),
{
    if all.len() == 0 {
        0
    } else {
        count(all.drop_last(), x) + if all.last() == x {
            1nat
        } else {
            0nat
        }
    }
}

/// Whether one list holds the texts of another, each as often, in whatever
/// order.
pub open spec fn same_texts(a: Seq<Seq<char>>, b: Seq<Seq<char>>) -> bool {
    &&& a.len() == b.len()
    &&& forall|i: int| 0 <= i < a.len() ==> count(a, #[trigger] a[i]) == count(b, a[i])
    &&& forall|i: int| 0 <= i < b.len() ==> count(a, #[trigger] b[i]) == count(b, b[i])
}

pub open spec fn rooted(d: DocView, root: Seq<char>) -> DocView {
    DocView { lead: d.lead, root, tail: d.tail }
}

/// The list under a key of a document.
pub open spec fn list_under(d: DocView, key: Seq<char>) -> ListView {
    list_of(value_under(d.root, key)->0, false)->0
}

/// The document with another list under a key.
pub open spec fn with_list(d: DocView, key: Seq<char>, l: ListView) -> DocView {
    rooted(d, with_value(d.root, key, bracketed(l, false)))
}

pub open spec fn no_array(key: Seq<char>) -> Seq<char> {
    "no array at `"@ + key + "`"@
}

pub open spec fn no_value(raw: Seq<char>) -> Seq<char> {
    "not a JSON value: "@ + raw
}

pub open spec fn add_item_to(d: DocView, key: Seq<char>, raw: Seq<char>) -> Result<
    DocView,
    Seq<char>,
> {
    if elements(d.root, key) is None {
        Err(no_array(key))
    } else if !is_value(raw) {
        Err(no_value(raw))
    } else {
        Ok(with_list(d, key, appended(list_under(d, key), Seq::empty(), seq![' '], raw)))
    }
}

/// Removing from an array that is not there removes nothing.
pub open spec fn remove_item_from(d: DocView, key: Seq<char>, raw: Seq<char>) -> DocView {
    if elements(d.root, key) is None {
        d
    } else {
        with_list(d, key, removed(list_under(d, key), raw))
    }
}

pub open spec fn reorder_in(d: DocView, key: Seq<char>, raws: Seq<Seq<char>>) -> Result<
    DocView,
    Seq<char>,
> {
    match elements(d.root, key) {
        None => Err(no_array(key)),
        Some(have) => if !same_texts(have, raws) {
            Err("not the items of `"@ + key + "`"@)
        } else {
            Ok(with_list(d, key, retexted(list_under(d, key), raws)))
        },
    }
}

/// A value that is no list.
pub open spec fn is_scalar(s: Seq<char>) -> bool {
    is_value(s) && s[0] != '[' && s[0] != '{'
}

pub open spec fn set_scalar_in(d: DocView, key: Seq<char>, raw: Seq<char>) -> Result<
    DocView,
    Seq<char>,
> {
    match value_under(d.root, key) {
        None => Err("no value at `"@ + key + "`"@),
        Some(v) => if !is_scalar(v) {
            Err("no scalar at `"@ + key + "`"@)
        } else if !is_scalar(raw) {
            Err("not a scalar: "@ + raw)
        } else {
            Ok(rooted(d, with_value(d.root, key, raw)))
        },
    }
}

pub open spec fn member_text(key: Seq<char>, value: Seq<char>) -> Seq<char> {
    quoted(key) + ": "@ + value
}

/// A new member goes behind the others, on a line of its own; a member that is
/// there gets the value.
pub open spec fn insert_member_into(d: DocView, key: Seq<char>, value: Seq<char>) -> Result<
    DocView,
    Seq<char>,
> {
    if list_of(d.root, true) is None {
        Err("not an object"@)
    } else if !is_plain(key) {
        Err("not a key: "@ + key)
    } else if !is_value(value) {
        Err(no_value(value))
    } else if value_under(d.root, key) is Some {
        Ok(rooted(d, with_value(d.root, key, value)))
    } else {
        Ok(
            rooted(
                d,
                bracketed(
                    appended(
                        list_of(d.root, true)->0,
                        "\n  "@,
                        "\n  "@,
                        member_text(key, value),
                    ),
                    true,
                ),
            ),
        )
    }
}

// -------------------------------------------------------------------- executable

proof fn lemma_items_push(items: Seq<PieceView>, x: PieceView)
    ensures
        items_text(items.push(x)) == (if items.len() == 0 {
            x.before + x.text + x.after
        } else {
            items_text(items) + seq![','] + (x.before + x.text + x.after)
        }),
    decreases items.len(),
{
    let all = items.push(x);
    if items.len() > 0 {
        lemma_items_push(items.skip(1), x);
        assert(all.skip(1) == items.skip(1).push(x));
        assert(all[0] == items[0]);
        if items.len() == 1 {
            assert(items.skip(1).len() == 0);
        }
        assert(items_text(all) == items_text(items) + seq![','] + (x.before + x.text + x.after));
    }
}

fn printed_list(l: &JsonList, members: bool) -> (r: String)
    ensures
        r@ == bracketed(l@, members),
{
    let mut out = String::new();
    out.push(if members {
        '{'
    } else {
        '['
    });
    let ghost head = out@;
    let ghost all = item_views(l.items@);
    let mut i: usize = 0;
    assert(items_text(all.take(0)) == Seq::<char>::empty());
    while i < l.items.len()
        invariant
            i <= l.items@.len(),
            all == item_views(l.items@),
            out@ == head + items_text(all.take(i as int)),
        decreases l.items.len() - i,
    {
        let x = &l.items[i];
        if i > 0 {
            out.push(',');
        }
        out.append(x.before.as_str());
        out.append(x.text.as_str());
        out.append(x.after.as_str());
        proof {
            lemma_items_push(all.take(i as int), x@);
            assert(all.take(i + 1) == all.take(i as int).push(x@));
            assert(out@ == head + items_text(all.take(i + 1)));
        }
        i = i + 1;
    }
    assert(all.take(all.len() as int) == all);
    match &l.end {
        Some(g) => {
            if l.items.len() > 0 {
                out.push(',');
            }
            out.append(g.as_str());
        },
        None => {},
    }
    assert(out@ == head + list_text(l@));
    out.push(closing_char(members));
    assert(out@ == bracketed(l@, members));
    out
}

fn closing_char(members: bool) -> (r: char)
    ensures
        r == closing(members),
{
    if members {
        '}'
    } else {
        ']'
    }
}

fn list_in(s: &[char], members: bool) -> (r: Option<JsonList>)
    ensures
        match r {
            Some(l) => list_of(s@, members) == Some(l@),
            None => list_of(s@, members) is None,
        },
{
    let open = if members {
        '{'
    } else {
        '['
    };
    if s.len() == 0 || s[0] != open {
        return None;
    }
    match read_list(rest(s, 1), members) {
        Some((l, _)) => Some(l),
        None => None,
    }
}

fn has_key_text(member: &[char], key: &str) -> (r: bool)
    ensures
        r == (key_text(member@) == quoted(key@)),
{
    let mut want = String::new();
    want.push('"');
    want.append(key);
    want.push('"');
    assert(want@ == quoted(key@));
    if member.len() == 0 {
        return is_text(member, want.as_str());
    }
    match body_length(rest(member, 1)) {
        Some(n) => is_text(front(member, 1 + n), want.as_str()),
        None => is_text(member, want.as_str()),
    }
}

fn member_index(l: &JsonList, key: &str) -> (r: Option<usize>)
    ensures
        match r {
            Some(i) => member_at(l@.items, key@) == Some(i as int) && i < l.items@.len(),
            None => member_at(l@.items, key@) is None,
        },
{
    let ghost all = l@.items;
    let mut i: usize = 0;
    assert(all.skip(0) == all);
    while i < l.items.len()
        invariant
            i <= l.items@.len(),
            all == item_views(l.items@),
            member_at(all, key@) == (match member_at(all.skip(i as int), key@) {
                Some(k) => Some(k + i),
                None => None,
            }),
        decreases l.items.len() - i,
    {
        assert(all.skip(i as int)[0] == l.items@[i as int]@);
        assert(all.skip(i as int).skip(1) == all.skip(i + 1));
        let text = chars(l.items[i].text.as_str());
        if has_key_text(text.as_slice(), key) {
            return Some(i);
        }
        i = i + 1;
    }
    None
}

fn member_value(text: &str) -> (r: String)
    ensures
        r@ == value_text(text@),
{
    let s = chars(text);
    match head_length(s.as_slice()) {
        Some(h) => string(rest(s.as_slice(), h)),
        None => {
            let none: String = String::new();
            assert(none@ == Seq::<char>::empty());
            none
        },
    }
}

fn revalued(text: &str, value: &str) -> (r: String)
    ensures
        r@ == with_value_text(text@, value@),
{
    let s = chars(text);
    match head_length(s.as_slice()) {
        Some(h) => {
            let mut out = string(front(s.as_slice(), h));
            out.append(value);
            out
        },
        None => owned(text),
    }
}

/// JSON with comments, read to be edited.
#[derive(Debug, Clone, PartialEq, Eq)]
pub struct JsoncDoc {
    lead: String,
    root: String,
    tail: String,
}

impl View for JsoncDoc {
    type V = DocView;

    closed spec fn view(&self) -> DocView {
        DocView { lead: self.lead@, root: self.root@, tail: self.tail@ }
    }
}

impl JsoncDoc {
    pub open spec fn wf(&self) -> bool {
        doc_wf(self@)
    }

    pub fn parse(src: &str) -> (r: Result<JsoncDoc, String>)
        ensures
            match r {
                Ok(d) => doc_of(src@) == Some(d@) && d.wf(),
                Err(e) => doc_of(src@) is None && e@ == "not valid JSON with comments"@,
            },
    {
        proof {
            if doc_of(src@) is Some {
                law_lossless(src@);
            }
        }
        let s = chars(src);
        let g = gap_length(s.as_slice());
        let t = rest(s.as_slice(), g);
        match value_length(t) {
            Some(n) => {
                let tail = rest(t, n);
                if gap_length(tail) == tail.len() {
                    return Ok(
                        JsoncDoc {
                            lead: string(front(s.as_slice(), g)),
                            root: string(front(t, n)),
                            tail: string(tail),
                        },
                    );
                }
            },
            None => {},
        }
        Err(owned("not valid JSON with comments"))
    }

    /// The document's text.
    pub fn to_text(&self) -> (r: String)
        ensures
            r@ == doc_text(self@),
    {
        let mut out = owned(self.lead.as_str());
        out.append(self.root.as_str());
        out.append(self.tail.as_str());
        out
    }

    fn value_at(&self, key: &str) -> (r: Option<String>)
        ensures
            opt_text(r) == value_under(self@.root, key@),
    {
        let s = chars(self.root.as_str());
        match list_in(s.as_slice(), true) {
            Some(l) => match member_index(&l, key) {
                Some(i) => {
                    assert(l@.items[i as int] == l.items@[i as int]@);
                    Some(member_value(l.items[i].text.as_str()))
                },
                None => None,
            },
            None => None,
        }
    }

    fn list_at_key(&self, key: &str) -> (r: Option<JsonList>)
        ensures
            match r {
                Some(l) => elements(self@.root, key@) is Some && l@ == list_under(self@, key@),
                None => elements(self@.root, key@) is None,
            },
    {
        match self.value_at(key) {
            Some(v) => {
                let s = chars(v.as_str());
                list_in(s.as_slice(), false)
            },
            None => None,
        }
    }

    /// Puts a value under a key that is there.
    fn replace(&mut self, key: &str, value: &str)
        ensures
            final(self)@ == rooted(old(self)@, with_value(old(self)@.root, key@, value@)),
    {
        let s = chars(self.root.as_str());
        match list_in(s.as_slice(), true) {
            Some(list) => {
                let mut l = list;
                match member_index(&l, key) {
                    Some(i) => {
                        let ghost was = l@;
                        assert(was.items[i as int] == l.items@[i as int]@);
                        let text = revalued(l.items[i].text.as_str(), value);
                        let x = Piece {
                            before: owned(l.items[i].before.as_str()),
                            text,
                            after: owned(l.items[i].after.as_str()),
                        };
                        l.items.set(i, x);
                        assert(l@ =~= with_text(was, i as int, text@));
                        self.root = printed_list(&l, true);
                    },
                    None => {},
                }
            },
            None => {},
        }
    }

    /// The texts of an array's elements.
    pub fn array_items(&self, path: &str) -> (r: Option<Vec<String>>)
        ensures
            match r {
                Some(v) => elements(self@.root, path@) == Some(texts(v@)),
                None => elements(self@.root, path@) is None,
            },
    {
        match self.list_at_key(path) {
            Some(l) => {
                let ghost want = piece_texts(l@.items);
                let mut out: Vec<String> = Vec::new();
                let mut i: usize = 0;
                assert(texts(out@) == want.take(0));
                while i < l.items.len()
                    invariant
                        i <= l.items@.len(),
                        want == piece_texts(item_views(l.items@)),
                        texts(out@) == want.take(i as int),
                    decreases l.items.len() - i,
                {
                    let ghost was = texts(out@);
                    out.push(owned(l.items[i].text.as_str()));
                    assert(texts(out@) == was.push(l.items@[i as int].text@));
                    assert(want.take(i + 1) == want.take(i as int).push(l.items@[i as int].text@));
                    i = i + 1;
                }
                assert(want.take(want.len() as int) == want);
                Some(out)
            },
            None => None,
        }
    }

    /// Appends an element to an array.
    pub fn add_item(&mut self, path: &str, raw: &str) -> (r: Result<(), String>)
        requires
            old(self).wf(),
        ensures
            final(self).wf(),
            match r {
                Ok(_) => add_item_to(old(self)@, path@, raw@) == Ok::<DocView, Seq<char>>(
                    final(self)@,
                ),
                Err(e) => add_item_to(old(self)@, path@, raw@) == Err::<DocView, Seq<char>>(e@)
                    && final(self)@ == old(self)@,
            },
    {
        let mut l = match self.list_at_key(path) {
            Some(l) => l,
            None => {
                let mut e = owned("no array at `");
                e.append(path);
                e.append("`");
                return Err(e);
            },
        };
        if !whole_value(chars(raw).as_slice()) {
            let mut e = owned("not a JSON value: ");
            e.append(raw);
            return Err(e);
        }
        let ghost before = l@;
        let more = append_piece(l, "", " ", raw);
        let text = printed_list(&more, false);
        proof {
            reveal_strlit("");
            reveal_strlit(" ");
            assert(""@ == Seq::<char>::empty());
            assert(" "@ == seq![' ']);
            lemma_list_under(self@, path@);
            lemma_elem_is(raw@, false);
            lemma_blank_gaps();
            lemma_appended_wf(before, ""@, " "@, raw@, false);
            lemma_array_edit_keeps_wf(self@, path@, more@);
        }
        self.replace(path, text.as_str());
        Ok(())
    }
}

fn append_piece(l: JsonList, lone: &str, before: &str, text: &str) -> (r: JsonList)
    ensures
        r@ == appended(l@, lone@, before@, text@),
{
    let mut items = l.items;
    let n = items.len();
    let ghost was = l@;
    let none = owned("");
    proof {
        reveal_strlit("");
        assert(none@ == Seq::<char>::empty());
    }
    if n == 0 {
        let after = match l.end {
            Some(g) => g,
            None => none,
        };
        let x = Piece { before: owned(lone), text: owned(text), after };
        items.push(x);
        let r = JsonList { items, end: None };
        assert(r@ =~= appended(was, lone@, before@, text@));
        return r;
    }
    match l.end {
        Some(g) => {
            let x = Piece { before: owned(before), text: owned(text), after: none };
            items.push(x);
            let r = JsonList { items, end: Some(g) };
            assert(r@.items =~= was.items.push(x@));
            r
        },
        None => {
            let last = Piece {
                before: owned(items[n - 1].before.as_str()),
                text: owned(items[n - 1].text.as_str()),
                after: none,
            };
            let x = Piece {
                before: owned(before),
                text: owned(text),
                after: owned(items[n - 1].after.as_str()),
            };
            assert(was.items.last() == items@[n - 1]@);
            items.set(n - 1, last);
            items.push(x);
            let r = JsonList { items, end: None };
            assert(r@.items =~= was.items.drop_last().push(last@).push(x@));
            r
        },
    }
}

/// Replacing an array by a well-formed one leaves a document.
proof fn lemma_array_edit_keeps_wf(d: DocView, key: Seq<char>, l: ListView)
    requires
        doc_wf(d),
        elements(d.root, key) is Some,
        list_wf(l, false),
    ensures
        doc_wf(with_list(d, key, l)),
{
    lemma_bracketed(l, false);
    law_replaced_value_reads_back(d.root, key, bracketed(l, false), key);
}

/// The array under a key of a document is well formed.
proof fn lemma_list_under(d: DocView, key: Seq<char>)
    requires
        doc_wf(d),
        elements(d.root, key) is Some,
    ensures
        list_wf(list_under(d, key), false),
{
    lemma_value_under(d.root, key);
    lemma_list_of(value_under(d.root, key)->0, false);
}

/// What stands under a key is a value.
proof fn lemma_value_under(root: Seq<char>, key: Seq<char>)
    requires
        is_value(root),
        value_under(root, key) is Some,
    ensures
        is_value(value_under(root, key)->0),
{
    lemma_list_of(root, true);
    let l = list_of(root, true)->0;
    lemma_member_at(l.items, key);
    let member = l.items[member_at(l.items, key)->0].text;
    lemma_elem_is(member, true);
    lemma_head_len(member);
}

pub proof fn lemma_blank_gaps()
    ensures
        is_gap(""@),
        is_gap(" "@),
        is_gap("\n  "@),
        is_gap(Seq::<char>::empty()),
{
    reveal_strlit("");
    reveal_strlit(" ");
    reveal_strlit("\n  ");
    let q = seq!['"'];
    assert(gap_len(q) == 0);
    assert(Seq::<char>::empty().push('"') == q);
    assert(""@ == Seq::<char>::empty());
    let one = seq![' ', '"'];
    assert(one.skip(1) == q);
    assert(gap_len(one) == 1);
    assert(" "@.push('"') == one);
    let two = seq![' ', ' ', '"'];
    assert(two.skip(1) == one);
    assert(gap_len(two) == 2);
    let three = seq!['\n', ' ', ' ', '"'];
    assert(three.skip(1) == two);
    assert(gap_len(three) == 3);
    assert("\n  "@.push('"') == three);
}

proof fn lemma_appended_wf(
    l: ListView,
    lone: Seq<char>,
    before: Seq<char>,
    text: Seq<char>,
    members: bool,
)
    requires
        list_wf(l, members),
        is_gap(lone),
        is_gap(before),
        elem_len(text, members) == Some(text.len()),
    ensures
        list_wf(appended(l, lone, before, text), members),
        piece_texts(appended(l, lone, before, text).items) == piece_texts(l.items).push(text),
{
    lemma_blank_gaps();
    let m = appended(l, lone, before, text);
    assert forall|j: int| 0 <= j < m.items.len() implies item_wf(#[trigger] m.items[j], members) by {
        if j < l.items.len() {
            assert(item_wf(l.items[j], members));
        }
        if l.items.len() > 0 {
            assert(item_wf(l.items[l.items.len() - 1], members));
        }
    }
    assert(piece_texts(m.items) =~= piece_texts(l.items).push(text));
}

impl JsoncDoc {
    /// Removes the elements of an array that read `raw`.
    pub fn remove_item(&mut self, path: &str, raw: &str)
        requires
            old(self).wf(),
        ensures
            final(self).wf(),
            final(self)@ == remove_item_from(old(self)@, path@, raw@),
    {
        match self.list_at_key(path) {
            Some(l) => {
                let less = remove_pieces(&l, raw);
                let text = printed_list(&less, false);
                proof {
                    lemma_list_under(self@, path@);
                    lemma_removed(l@, raw@, false);
                    lemma_array_edit_keeps_wf(self@, path@, less@);
                }
                self.replace(path, text.as_str());
            },
            None => {},
        }
    }

    /// Puts the elements of an array in another order. The comments between
    /// them stay where they are.
    pub fn reorder(&mut self, path: &str, raws: &Vec<String>) -> (r: Result<(), String>)
        requires
            old(self).wf(),
        ensures
            final(self).wf(),
            match r {
                Ok(_) => reorder_in(old(self)@, path@, texts(raws@)) == Ok::<DocView, Seq<char>>(
                    final(self)@,
                ),
                Err(e) => reorder_in(old(self)@, path@, texts(raws@)) == Err::<
                    DocView,
                    Seq<char>,
                >(e@) && final(self)@ == old(self)@,
            },
    {
        let l = match self.list_at_key(path) {
            Some(l) => l,
            None => {
                let mut e = owned("no array at `");
                e.append(path);
                e.append("`");
                return Err(e);
            },
        };
        let have = match self.array_items(path) {
            Some(v) => v,
            None => Vec::new(),
        };
        if !holds_same(&have, raws) {
            let mut e = owned("not the items of `");
            e.append(path);
            e.append("`");
            return Err(e);
        }
        assert(texts(have@) == piece_texts(l@.items));
        assert(texts(have@).len() == have@.len() && texts(raws@).len() == raws@.len());
        let moved = retext_pieces(&l, raws);
        let text = printed_list(&moved, false);
        proof {
            lemma_list_under(self@, path@);
            lemma_retexted(l@, texts(raws@));
            lemma_array_edit_keeps_wf(self@, path@, moved@);
        }
        self.replace(path, text.as_str());
        Ok(())
    }

    /// Sets a value that is no list.
    pub fn set_scalar(&mut self, path: &str, raw: &str) -> (r: Result<(), String>)
        requires
            old(self).wf(),
        ensures
            final(self).wf(),
            match r {
                Ok(_) => set_scalar_in(old(self)@, path@, raw@) == Ok::<DocView, Seq<char>>(
                    final(self)@,
                ),
                Err(e) => set_scalar_in(old(self)@, path@, raw@) == Err::<DocView, Seq<char>>(e@)
                    && final(self)@ == old(self)@,
            },
    {
        let v = match self.value_at(path) {
            Some(v) => v,
            None => {
                let mut e = owned("no value at `");
                e.append(path);
                e.append("`");
                return Err(e);
            },
        };
        if !scalar(v.as_str()) {
            let mut e = owned("no scalar at `");
            e.append(path);
            e.append("`");
            return Err(e);
        }
        if !scalar(raw) {
            let mut e = owned("not a scalar: ");
            e.append(raw);
            return Err(e);
        }
        proof {
            law_replaced_value_reads_back(self@.root, path@, raw@, path@);
        }
        self.replace(path, raw);
        Ok(())
    }

    /// Puts a member into the root object.
    pub fn insert_member(&mut self, key: &str, value: &str) -> (r: Result<(), String>)
        requires
            old(self).wf(),
        ensures
            final(self).wf(),
            match r {
                Ok(_) => insert_member_into(old(self)@, key@, value@) == Ok::<DocView, Seq<char>>(
                    final(self)@,
                ),
                Err(e) => insert_member_into(old(self)@, key@, value@) == Err::<
                    DocView,
                    Seq<char>,
                >(e@) && final(self)@ == old(self)@,
            },
    {
        let s = chars(self.root.as_str());
        let l = match list_in(s.as_slice(), true) {
            Some(l) => l,
            None => {
                return Err(owned("not an object"));
            },
        };
        if !plain(key) {
            let mut e = owned("not a key: ");
            e.append(key);
            return Err(e);
        }
        if !whole_value(chars(value).as_slice()) {
            let mut e = owned("not a JSON value: ");
            e.append(value);
            return Err(e);
        }
        if self.value_at(key).is_some() {
            proof {
                law_replaced_value_reads_back(self@.root, key@, value@, key@);
            }
            self.replace(key, value);
            return Ok(());
        }
        let mut text = String::new();
        text.push('"');
        text.append(key);
        text.push('"');
        text.append(": ");
        text.append(value);
        assert(text@ =~= member_text(key@, value@));
        let ghost before = l@;
        proof {
            lemma_list_of(self@.root, true);
            lemma_member_text(key@, value@);
            lemma_blank_gaps();
            lemma_appended_wf(before, "\n  "@, "\n  "@, text@, true);
            lemma_bracketed(appended(before, "\n  "@, "\n  "@, text@), true);
        }
        let more = append_piece(l, "\n  ", "\n  ", text.as_str());
        self.root = printed_list(&more, true);
        Ok(())
    }
}

fn scalar(s: &str) -> (r: bool)
    ensures
        r == is_scalar(s@),
{
    let t = chars(s);
    if !whole_value(t.as_slice()) {
        return false;
    }
    proof {
        lemma_value(s@, Seq::empty());
    }
    t[0] != '[' && t[0] != '{'
}

fn plain(s: &str) -> (r: bool)
    ensures
        r == is_plain(s@),
{
    let mut t = chars(s);
    t.push('"');
    match body_length(t.as_slice()) {
        Some(n) => n == t.len(),
        None => false,
    }
}

/// A member made of a plain key and a value.
pub proof fn lemma_member_text(key: Seq<char>, value: Seq<char>)
    requires
        is_plain(key),
        is_value(value),
    ensures
        elem_len(member_text(key, value), true) == Some(member_text(key, value).len()),
        key_text(member_text(key, value)) == quoted(key),
        value_text(member_text(key, value)) == value,
{
    reveal_strlit(": ");
    let s = member_text(key, value);
    let body = key.push('"');
    let behind = ": "@ + value;
    lemma_body_len(body, behind);
    assert(body.take(body.len() as int) == body);
    assert(s.skip(1) == body + behind);
    let a = body.len() as int;
    assert(s.skip(1 + a) == behind);
    assert(behind[0] == ':');
    assert(gap_len(behind) == 0);
    assert(behind.skip(0) == behind);
    assert(s.skip(1 + a + 0) == behind);
    lemma_value(value, Seq::empty());
    let blank = seq![' '];
    assert(behind.skip(1) == blank + value);
    assert((blank + value).skip(1) == value);
    assert(gap_len(blank + value) == 1);
    assert(head_len(s) == Some((1 + a + 0 + 1 + 1) as nat));
    assert(s.skip(a + 3) == value);
    lemma_elem_is(s, true);
    assert(s.take(1 + a) == quoted(key));
}

fn remove_pieces(l: &JsonList, raw: &str) -> (r: JsonList)
    ensures
        r@ == removed(l@, raw@),
{
    let ghost all = l@.items;
    let mut out: Vec<Piece> = Vec::new();
    let mut carry = String::new();
    let mut i: usize = 0;
    proof {
        assert(all.take(0).len() == 0);
        assert(item_views(out@) == Seq::<PieceView>::empty());
        assert(carry@ == Seq::<char>::empty());
    }
    while i < l.items.len()
        invariant
            i <= l.items@.len(),
            all == item_views(l.items@),
            (item_views(out@), carry@) == kept(all.take(i as int), raw@),
        decreases l.items.len() - i,
    {
        let x = &l.items[i];
        proof {
            assert(all.take(i + 1).drop_last() == all.take(i as int));
            assert(all.take(i + 1).last() == x@);
        }
        let ghost was = item_views(out@);
        let ghost held = carry@;
        if same_str(x.text.as_str(), raw) {
            carry.append(x.before.as_str());
            carry.append(x.after.as_str());
            assert(carry@ == held + x.before@ + x.after@);
        } else {
            let mut before = owned(carry.as_str());
            before.append(x.before.as_str());
            let p = Piece { before, text: owned(x.text.as_str()), after: owned(x.after.as_str()) };
            out.push(p);
            carry = String::new();
            assert(carry@ == Seq::<char>::empty());
            assert(item_views(out@) == was.push(p@));
        }
        i = i + 1;
    }
    assert(all.take(all.len() as int) == all);
    let n = out.len();
    if n == 0 {
        match &l.end {
            Some(g) => carry.append(g.as_str()),
            None => {},
        }
        let r = JsonList { items: out, end: Some(carry) };
        assert(r@ =~= removed(l@, raw@));
        return r;
    }
    match &l.end {
        Some(g) => {
            carry.append(g.as_str());
            let r = JsonList { items: out, end: Some(carry) };
            assert(r@ =~= removed(l@, raw@));
            r
        },
        None => {
            let ghost views = item_views(out@);
            assert(views.last() == out@[n - 1]@);
            let mut after = owned(out[n - 1].after.as_str());
            after.append(carry.as_str());
            let last = Piece {
                before: owned(out[n - 1].before.as_str()),
                text: owned(out[n - 1].text.as_str()),
                after,
            };
            out.set(n - 1, last);
            let r = JsonList { items: out, end: None };
            assert(r@.items =~= views.drop_last().push(last@));
            r
        },
    }
}

fn retext_pieces(l: &JsonList, raws: &Vec<String>) -> (r: JsonList)
    requires
        raws@.len() == l.items@.len(),
    ensures
        r@ == retexted(l@, texts(raws@)),
{
    let ghost want = retexted(l@, texts(raws@)).items;
    let mut out: Vec<Piece> = Vec::new();
    let mut i: usize = 0;
    assert(item_views(out@) == want.take(0));
    while i < l.items.len()
        invariant
            i <= l.items@.len(),
            raws@.len() == l.items@.len(),
            want == retexted(l@, texts(raws@)).items,
            item_views(out@) == want.take(i as int),
        decreases l.items.len() - i,
    {
        let x = &l.items[i];
        let p = Piece {
            before: owned(x.before.as_str()),
            text: owned(raws[i].as_str()),
            after: owned(x.after.as_str()),
        };
        let ghost was = item_views(out@);
        out.push(p);
        assert(item_views(out@) == was.push(p@));
        assert(l@.items[i as int] == x@);
        assert(want[i as int] == p@);
        assert(want.take(i + 1) == want.take(i as int).push(p@));
        i = i + 1;
    }
    assert(want.take(want.len() as int) == want);
    let end = match &l.end {
        Some(g) => Some(owned(g.as_str())),
        None => None,
    };
    JsonList { items: out, end }
}

fn times(all: &Vec<String>, x: &str) -> (r: usize)
    ensures
        r == count(texts(all@), x@),
{
    let ghost ts = texts(all@);
    let mut n: usize = 0;
    let mut i: usize = 0;
    assert(ts.take(0).len() == 0);
    while i < all.len()
        invariant
            i <= all@.len(),
            n <= i,
            ts == texts(all@),
            n == count(ts.take(i as int), x@),
        decreases all.len() - i,
    {
        assert(ts.take(i + 1).drop_last() == ts.take(i as int));
        assert(ts.take(i + 1).last() == all@[i as int]@);
        if same_str(all[i].as_str(), x) {
            n = n + 1;
        }
        i = i + 1;
    }
    assert(ts.take(ts.len() as int) == ts);
    n
}

fn holds_same(a: &Vec<String>, b: &Vec<String>) -> (r: bool)
    ensures
        r == same_texts(texts(a@), texts(b@)),
{
    if a.len() != b.len() {
        return false;
    }
    let ghost x = texts(a@);
    let ghost y = texts(b@);
    let mut i: usize = 0;
    while i < a.len()
        invariant
            i <= a@.len(),
            a@.len() == b@.len(),
            x == texts(a@),
            y == texts(b@),
            forall|k: int| 0 <= k < i ==> count(x, #[trigger] x[k]) == count(y, x[k]),
            forall|k: int| 0 <= k < i ==> count(x, #[trigger] y[k]) == count(y, y[k]),
        decreases a.len() - i,
    {
        assert(x[i as int] == a@[i as int]@);
        assert(y[i as int] == b@[i as int]@);
        if times(a, a[i].as_str()) != times(b, a[i].as_str()) {
            return false;
        }
        if times(a, b[i].as_str()) != times(b, b[i].as_str()) {
            return false;
        }
        i = i + 1;
    }
    true
}

// ------------------------------------------------------------------ more laws

proof fn lemma_gaps_join(a: Seq<char>, b: Seq<char>)
    requires
        is_gap(a),
        is_gap(b),
    ensures
        is_gap(a + b),
{
    lemma_gap_ends(a, b.push('"'));
    assert((a + b).push('"') == a + b.push('"'));
}

/// The texts other than `raw`.
pub open spec fn others(all: Seq<Seq<char>>, raw: Seq<char>) -> Seq<Seq<char>> {
    all.filter(|t: Seq<char>| t != raw)
}

proof fn lemma_kept(items: Seq<PieceView>, raw: Seq<char>, members: bool)
    requires
        forall|i: int| 0 <= i < items.len() ==> item_wf(#[trigger] items[i], members),
    ensures
        forall|i: int|
            0 <= i < kept(items, raw).0.len() ==> item_wf(
                #[trigger] kept(items, raw).0[i],
                members,
            ),
        is_gap(kept(items, raw).1),
        piece_texts(kept(items, raw).0) == others(piece_texts(items), raw),
    decreases items.len(),
{
    reveal(Seq::filter);
    lemma_blank_gaps();
    let ts = piece_texts(items);
    if items.len() == 0 {
        assert(piece_texts(kept(items, raw).0) =~= others(ts, raw));
    } else {
        let front = items.drop_last();
        assert forall|i: int| 0 <= i < front.len() implies item_wf(#[trigger] front[i], members) by {
            assert(front[i] == items[i]);
        }
        lemma_kept(front, raw, members);
        let (out, carry) = kept(front, raw);
        let x = items.last();
        assert(item_wf(items[items.len() - 1], members));
        assert(piece_texts(front) == ts.drop_last());
        assert(ts.last() == x.text);
        lemma_gaps_join(carry, x.before);
        lemma_gaps_join(carry + x.before, x.after);
        let all = kept(items, raw).0;
        assert forall|i: int| 0 <= i < all.len() implies item_wf(#[trigger] all[i], members) by {
            if i < out.len() {
                assert(all[i] == out[i]);
            }
        }
        if x.text != raw {
            assert(piece_texts(all) =~= piece_texts(out).push(x.text));
        }
    }
}

proof fn lemma_removed(l: ListView, raw: Seq<char>, members: bool)
    requires
        list_wf(l, members),
    ensures
        list_wf(removed(l, raw), members),
        piece_texts(removed(l, raw).items) == others(piece_texts(l.items), raw),
{
    lemma_kept(l.items, raw, members);
    lemma_blank_gaps();
    let (out, carry) = kept(l.items, raw);
    let m = removed(l, raw);
    lemma_gaps_join(carry, end_gap(l));
    if out.len() == 0 {
        assert(piece_texts(m.items) =~= piece_texts(out));
    } else if l.end is None {
        let last = out.last();
        assert(item_wf(out[out.len() - 1], members));
        lemma_gaps_join(last.after, carry);
        assert forall|i: int| 0 <= i < m.items.len() implies item_wf(#[trigger] m.items[i], members) by {
            if i < out.len() - 1 {
                assert(m.items[i] == out[i]);
            }
        }
        assert(piece_texts(m.items) =~= piece_texts(out));
    }
}

/// A text that another list has as often as this one is in both.
proof fn lemma_count(all: Seq<Seq<char>>, x: Seq<char>)
    ensures
        count(all, x) > 0 <==> all.contains(x),
        count(all, x) <= all.len(),
    decreases all.len(),
{
    if all.len() > 0 {
        let front = all.drop_last();
        lemma_count(front, x);
        if all.contains(x) && all.last() != x {
            let i = choose|i: int| 0 <= i < all.len() && all[i] == x;
            assert(front[i] == x);
        }
        if front.contains(x) {
            let i = choose|i: int| 0 <= i < front.len() && front[i] == x;
            assert(all[i] == x);
        }
        if all.last() == x {
            assert(all[all.len() - 1] == x);
        }
    }
}

proof fn lemma_retexted(l: ListView, raws: Seq<Seq<char>>)
    requires
        list_wf(l, false),
        same_texts(piece_texts(l.items), raws),
    ensures
        list_wf(retexted(l, raws), false),
        piece_texts(retexted(l, raws).items) == raws,
{
    let have = piece_texts(l.items);
    let m = retexted(l, raws);
    assert forall|i: int| 0 <= i < m.items.len() implies item_wf(#[trigger] m.items[i], false) by {
        assert(item_wf(l.items[i], false));
        lemma_count(raws, raws[i]);
        lemma_count(have, raws[i]);
        assert(raws.contains(raws[i]));
        let k = choose|k: int| 0 <= k < have.len() && have[k] == raws[i];
        assert(item_wf(l.items[k], false));
    }
    assert(piece_texts(m.items) =~= raws);
}

/// An element that was added is the last of its array, behind those that were
/// there; every other key has what it had.
pub proof fn law_added_item_is_last(d: DocView, key: Seq<char>, raw: Seq<char>, other: Seq<char>)
    requires
        doc_wf(d),
        elements(d.root, key) is Some,
        is_value(raw),
    ensures
        add_item_to(d, key, raw) is Ok,
        doc_wf(add_item_to(d, key, raw)->Ok_0),
        elements(add_item_to(d, key, raw)->Ok_0.root, key) == Some(
            elements(d.root, key)->0.push(raw),
        ),
        quoted(other) != quoted(key) ==> value_under(add_item_to(d, key, raw)->Ok_0.root, other)
            == value_under(d.root, other),
{
    reveal_strlit("");
    reveal_strlit(" ");
    assert(""@ == Seq::<char>::empty());
    assert(" "@ == seq![' ']);
    let l = list_under(d, key);
    lemma_list_under(d, key);
    lemma_elem_is(raw, false);
    lemma_blank_gaps();
    lemma_appended_wf(l, ""@, " "@, raw, false);
    lemma_list_edit(d, key, appended(l, ""@, " "@, raw), other);
}

/// After a removal no element reads `raw`, and the others are what they were,
/// in their order.
pub proof fn law_removed_item_is_gone(
    d: DocView,
    key: Seq<char>,
    raw: Seq<char>,
    other: Seq<char>,
)
    requires
        doc_wf(d),
    ensures
        doc_wf(remove_item_from(d, key, raw)),
        elements(remove_item_from(d, key, raw).root, key) == (match elements(d.root, key) {
            Some(all) => Some(others(all, raw)),
            None => None,
        }),
        quoted(other) != quoted(key) ==> value_under(remove_item_from(d, key, raw).root, other)
            == value_under(d.root, other),
{
    if elements(d.root, key) is Some {
        let l = list_under(d, key);
        lemma_list_under(d, key);
        lemma_removed(l, raw, false);
        lemma_list_edit(d, key, removed(l, raw), other);
    }
}

/// After a reordering the elements are those asked for, in the order asked for.
pub proof fn law_reordered_items_read_back(
    d: DocView,
    key: Seq<char>,
    raws: Seq<Seq<char>>,
    other: Seq<char>,
)
    requires
        doc_wf(d),
        reorder_in(d, key, raws) is Ok,
    ensures
        doc_wf(reorder_in(d, key, raws)->Ok_0),
        elements(reorder_in(d, key, raws)->Ok_0.root, key) == Some(raws),
        quoted(other) != quoted(key) ==> value_under(reorder_in(d, key, raws)->Ok_0.root, other)
            == value_under(d.root, other),
{
    let l = list_under(d, key);
    lemma_list_under(d, key);
    lemma_retexted(l, raws);
    lemma_list_edit(d, key, retexted(l, raws), other);
}

proof fn lemma_list_edit(d: DocView, key: Seq<char>, l: ListView, other: Seq<char>)
    requires
        doc_wf(d),
        elements(d.root, key) is Some,
        list_wf(l, false),
    ensures
        doc_wf(with_list(d, key, l)),
        elements(with_list(d, key, l).root, key) == Some(piece_texts(l.items)),
        quoted(other) != quoted(key) ==> value_under(with_list(d, key, l).root, other)
            == value_under(d.root, other),
{
    lemma_bracketed(l, false);
    law_replaced_value_reads_back(d.root, key, bracketed(l, false), other);
    law_replaced_value_reads_back(d.root, key, bracketed(l, false), key);
}

/// A member that was put in is found under its key, and the members that were
/// there are where they were.
pub proof fn law_inserted_member_reads_back(
    d: DocView,
    key: Seq<char>,
    value: Seq<char>,
    other: Seq<char>,
)
    requires
        doc_wf(d),
        insert_member_into(d, key, value) is Ok,
    ensures
        doc_wf(insert_member_into(d, key, value)->Ok_0),
        value_under(insert_member_into(d, key, value)->Ok_0.root, key) == Some(value),
        quoted(other) != quoted(key) ==> value_under(
            insert_member_into(d, key, value)->Ok_0.root,
            other,
        ) == value_under(d.root, other),
{
    if value_under(d.root, key) is Some {
        law_replaced_value_reads_back(d.root, key, value, other);
    } else {
        let l = list_of(d.root, true)->0;
        let text = member_text(key, value);
        lemma_list_of(d.root, true);
        lemma_member_text(key, value);
        lemma_blank_gaps();
        let m = appended(l, "\n  "@, "\n  "@, text);
        lemma_appended_wf(l, "\n  "@, "\n  "@, text, true);
        lemma_bracketed(m, true);
        lemma_found_behind(l.items, m.items, key);
        if quoted(other) != quoted(key) {
            lemma_found_before(l.items, m.items, other);
            lemma_member_at(l.items, other);
            if member_at(l.items, other) is Some {
                let j = member_at(l.items, other)->0;
                assert(m.items[j].text == l.items[j].text);
            }
        }
    }
}

/// One more member behind the others is found where none was.
proof fn lemma_found_behind(a: Seq<PieceView>, b: Seq<PieceView>, key: Seq<char>)
    requires
        b.len() == a.len() + 1,
        forall|i: int| 0 <= i < a.len() ==> (#[trigger] b[i]).text == a[i].text,
        member_at(a, key) is None,
        key_text(b.last().text) == quoted(key),
    ensures
        member_at(b, key) == Some(a.len() as int),
{
    lemma_member_at(a, key);
    lemma_member_at(b, key);
    assert(b[a.len() as int] == b.last());
    if member_at(b, key) is Some {
        let k = member_at(b, key)->0;
        if k < a.len() {
            assert(b[k].text == a[k].text);
        }
    } else {
        assert(key_text(b[a.len() as int].text) != quoted(key));
    }
}

proof fn lemma_found_before(a: Seq<PieceView>, b: Seq<PieceView>, key: Seq<char>)
    requires
        b.len() == a.len() + 1,
        forall|i: int| 0 <= i < a.len() ==> (#[trigger] b[i]).text == a[i].text,
        key_text(b.last().text) != quoted(key),
    ensures
        member_at(b, key) == member_at(a, key),
{
    lemma_member_at(a, key);
    lemma_member_at(b, key);
    assert(b[a.len() as int] == b.last());
    if member_at(b, key) is Some {
        let k = member_at(b, key)->0;
        assert(k < a.len());
        assert(b[k].text == a[k].text);
        if member_at(a, key) is Some {
            let j = member_at(a, key)->0;
            assert(b[j].text == a[j].text);
        }
    } else if member_at(a, key) is Some {
        let j = member_at(a, key)->0;
        assert(b[j].text == a[j].text);
    }
}

} // verus!
