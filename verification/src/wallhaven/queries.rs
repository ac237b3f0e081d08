//! What a search says of itself in its address, and what comes of the answers.

use vstd::prelude::*;

use crate::error::Failure;
use crate::number::digits;
use crate::paths::last_dot;
use crate::text::{ends_with, starts_with};
use crate::wallhaven::budget::{BudgetView, backoff_wait};
use crate::wallhaven::cache::{CachedView, is_first};
use crate::wallhaven::laws::{law_pauses_double_up_to_a_minute, law_url_texts_are_safe};
use crate::wallhaven::{
    FetchError, Purity, QueryView, Sorting, after_reply, behind_dot, flag_char, granted, image_name, param_text,
    params_text, reply_failure, url_text,
};

verus! {

/// Whether a name with a value stands at a position of some parameters: in
/// front or behind an ampersand, up to the next one or to the end.
pub open spec fn carries_at(s: Seq<char>, i: int, name: Seq<char>, value: Seq<char>) -> bool {
    let end = i + name.len() + value.len();
    &&& 0 <= i && end <= s.len()
    &&& s.subrange(i, end) == name + value
    &&& i == 0 || name.len() > 0 && name[0] == '&'
    &&& end == s.len() || s[end] == '&'
}

pub open spec fn carries(s: Seq<char>, name: Seq<char>, value: Seq<char>) -> bool {
    exists|i: int| #[trigger] carries_at(s, i, name, value)
}

proof fn lemma_carries(
    s: Seq<char>,
    before: Seq<char>,
    name: Seq<char>,
    value: Seq<char>,
    after: Seq<char>,
)
    requires
        s == before + (name + value) + after,
        before.len() == 0 || name.len() > 0 && name[0] == '&',
        after.len() == 0 || after[0] == '&',
    ensures
        carries(s, name, value),
{
    let i = before.len() as int;
    assert(s.subrange(i, i + name.len() + value.len()) == name + value);
    assert(carries_at(s, i, name, value));
}

proof fn lemma_next(s: Seq<char>, name: Seq<char>, value: Seq<char>)
    requires
        name.len() > 0,
        name[0] == '&',
    ensures
        carries(s + name + value, name, value),
        forall|n: Seq<char>, v: Seq<char>| #[trigger]
            carries(s, n, v) ==> carries(s + name + value, n, v),
{
    let all = s + name + value;
    assert(all =~= s + (name + value) + Seq::<char>::empty());
    lemma_carries(all, s, name, value, Seq::empty());
    assert forall|n: Seq<char>, v: Seq<char>| #[trigger] carries(s, n, v) implies carries(
        all,
        n,
        v,
    ) by {
        let i = choose|i: int| #[trigger] carries_at(s, i, n, v);
        let end = i + n.len() + v.len();
        assert(all.subrange(i, end) == s.subrange(i, end));
        assert(all.subrange(i, end) == n + v);
        if end == s.len() {
            assert(all[end] == name[0]);
        } else {
            assert(all[end] == s[end]);
        }
        assert(carries_at(all, i, n, v));
    }
}

proof fn lemma_next_param(s: Seq<char>, name: Seq<char>, value: Option<Seq<char>>)
    requires
        name.len() > 0,
        name[0] == '&',
    ensures
        value matches Some(v) ==> carries(s + param_text(name, value), name, url_text(v)),
        forall|n: Seq<char>, v: Seq<char>| #[trigger]
            carries(s, n, v) ==> carries(s + param_text(name, value), n, v),
{
    match value {
        Some(v) => {
            lemma_next(s, name, url_text(v));
            assert(s + name + url_text(v) =~= s + param_text(name, value));
        },
        None => {
            assert(s + param_text(name, value) =~= s);
        },
    }
}

/// The three categories, the first for the general one.
pub open spec fn categories(q: QueryView) -> Seq<char> {
    seq![flag_char(q.general), flag_char(q.anime), flag_char(q.people)]
}

/// Each thing that a search asks for stands under its own name in the
/// parameters: what is set is there, with its own value.
pub proof fn law_search_says_what_it_asks(q: QueryView, api_key: Option<Seq<char>>)
    ensures
        ({
            let s = params_text(q, api_key);
            &&& carries(s, "q="@, url_text(q.q))
            &&& exists|c: Seq<char>| #[trigger]
                carries(s, "&categories="@, c) && c.len() == 3 && (forall|i: int|
                    0 <= i < 3 ==> #[trigger] c[i] == '0' || c[i] == '1') && (c[0] == '1'
                    <==> q.general) && (c[1] == '1' <==> q.anime) && (c[2] == '1' <==> q.people)
            &&& carries(
                s,
                "&purity="@,
                (if api_key is Some {
                    q.purity
                } else {
                    Purity::Sfw
                }).bits(),
            )
            &&& carries(s, "&sorting="@, q.sorting.word())
            &&& carries(s, "&page="@, digits(q.page as nat))
            &&& q.atleast matches Some(v) ==> carries(s, "&atleast="@, url_text(v))
            &&& q.ratios matches Some(v) ==> carries(s, "&ratios="@, url_text(v))
            &&& q.color matches Some(v) ==> carries(s, "&colors="@, url_text(v))
            &&& api_key matches Some(v) ==> carries(s, "&apikey="@, url_text(v))
        }),
{
    reveal_strlit("q=");
    reveal_strlit("&categories=");
    reveal_strlit("&purity=");
    reveal_strlit("&sorting=");
    reveal_strlit("&page=");
    reveal_strlit("&atleast=");
    reveal_strlit("&ratios=");
    reveal_strlit("&colors=");
    reveal_strlit("&apikey=");
    let s = params_text(q, api_key);
    let a0 = "q="@ + url_text(q.q);
    let a1 = a0 + "&categories="@ + categories(q);
    let a2 = a1 + "&purity="@ + granted(q.purity, api_key).bits();
    let a3 = a2 + "&sorting="@ + q.sorting.word();
    let a4 = a3 + "&page="@ + digits(q.page as nat);
    let a5 = a4 + param_text("&atleast="@, q.atleast);
    let a6 = a5 + param_text("&ratios="@, q.ratios);
    let a7 = a6 + param_text("&colors="@, q.color);
    let a8 = a7 + param_text("&apikey="@, api_key);
    assert(s == a8);
    lemma_carries(a0, Seq::empty(), "q="@, url_text(q.q), Seq::empty());
    lemma_next(a0, "&categories="@, categories(q));
    lemma_next(a1, "&purity="@, granted(q.purity, api_key).bits());
    lemma_next(a2, "&sorting="@, q.sorting.word());
    lemma_next(a3, "&page="@, digits(q.page as nat));
    lemma_next_param(a4, "&atleast="@, q.atleast);
    lemma_next_param(a5, "&ratios="@, q.ratios);
    lemma_next_param(a6, "&colors="@, q.color);
    lemma_next_param(a7, "&apikey="@, api_key);
    let c = categories(q);
    assert(carries(s, "&categories="@, c));
    assert forall|i: int| 0 <= i < 3 implies #[trigger] c[i] == '0' || c[i] == '1' by {
        assert(i == 0 || i == 1 || i == 2);
    }
}

/// The purity has a place for each of the three kinds: what anyone may see is
/// always asked for, and each further step asks for one more.
pub proof fn law_purities_ask_for_more(p: Purity)
    ensures
        p.bits().len() == 3,
        forall|i: int| 0 <= i < 3 ==> #[trigger] p.bits()[i] == '0' || p.bits()[i] == '1',
        p.bits()[0] == '1',
        p.bits()[1] == '1' <==> p != Purity::Sfw,
        p.bits()[2] == '1' <==> p == Purity::Nsfw,
{
    reveal_strlit("100");
    reveal_strlit("110");
    reveal_strlit("111");
    assert forall|i: int| 0 <= i < 3 implies #[trigger] p.bits()[i] == '0' || p.bits()[i]
        == '1' by {
        assert(i == 0 || i == 1 || i == 2);
    }
}

/// Each sorting has a word of its own.
pub proof fn law_sortings_are_told_apart(a: Sorting, b: Sorting)
    ensures
        a.word() == b.word() <==> a == b,
{
    reveal_strlit("relevance");
    reveal_strlit("toplist");
    reveal_strlit("random");
    reveal_strlit("views");
    reveal_strlit("date_added");
    reveal_strlit("favorites");
    assert("relevance"@[0] == 'r' && "relevance"@[1] == 'e');
    assert("toplist"@[0] == 't');
    assert("random"@[0] == 'r' && "random"@[1] == 'a');
    assert("views"@[0] == 'v');
    assert("date_added"@[0] == 'd');
    assert("favorites"@[0] == 'f');
}

/// No value holds the sign that parts the parameters, nor the one behind a
/// name.
pub proof fn law_values_hold_no_ampersand(v: Seq<char>)
    ensures
        forall|i: int| 0 <= i < url_text(v).len() ==> #[trigger] url_text(v)[i] != '&' && url_text(
            v,
        )[i] != '=',
{
    law_url_texts_are_safe(v);
}

// -------------------------------------------------------------------------- answers

/// A refused request is told with the status and the address, one that could
/// not be made with why; that there were too many is told for itself, whatever
/// the address.
pub proof fn law_refusals_are_told(url: Seq<char>, other: Seq<char>, e: FetchError)
    ensures
        reply_failure(url, e) matches Failure::External { cmd, detail } && cmd == "wallhaven"@ && (
        match e {
            FetchError::Status(code) => if code == 429 {
                reply_failure(url, e) == reply_failure(other, e)
            } else {
                starts_with(detail, "HTTP "@ + digits(code as nat)) && ends_with(detail, url)
            },
            FetchError::Network(why) => ends_with(detail, why@ + ")"@),
        }),
{
    let detail = reply_failure(url, e)->External_detail;
    match e {
        FetchError::Status(code) => {
            if code != 429 {
                let head = "HTTP "@ + digits(code as nat);
                assert(detail.take(head.len() as int) == head);
                assert(detail.skip(detail.len() - url.len()) == url);
            }
        },
        FetchError::Network(why) => {
            let tail = why@ + ")"@;
            assert(detail.skip(detail.len() - tail.len()) == tail);
        },
    }
}

/// An answer lifts every pause, a refusal for too many requests starts one of two
/// seconds at least, and any other failure changes nothing. What has been asked
/// already counts as before.
pub proof fn law_answers_change_the_pace(b: BudgetView, now: u64, e: FetchError)
    requires
        b.wf(),
        now + 60_000_000_000 <= u64::MAX,
    ensures
        backoff_wait(after_reply(b, now, None).backoff_until, now) == 0,
        e == FetchError::Status(429) ==> backoff_wait(
            after_reply(b, now, Some(e)).backoff_until,
            now,
        ) >= 2_000_000_000,
        e != FetchError::Status(429) ==> after_reply(b, now, Some(e)) == b,
        after_reply(b, now, None).window == b.window,
        after_reply(b, now, Some(e)).window == b.window,
{
    law_pauses_double_up_to_a_minute(b, now, now);
}

/// The name that an image is kept under tells which image it is and keeps its
/// kind: two images of one kind have one name only where they are the same.
pub proof fn law_image_names_tell_images_apart(
    id: Seq<char>,
    other: Seq<char>,
    path: Seq<char>,
    kind: Seq<char>,
)
    requires
        forall|i: int| 0 <= i < kind.len() ==> kind[i] != '.',
    ensures
        behind_dot(path + "."@ + kind) == kind,
        ends_with(image_name(id, path + "."@ + kind), "."@ + kind),
        image_name(id, path) == image_name(other, path) <==> id == other,
        starts_with(image_name(id, path), "wallhaven-"@ + id),
{
    reveal_strlit(".");
    let full = path + "."@ + kind;
    lemma_dot(path, kind);
    let name = image_name(id, full);
    let tail = "."@ + kind;
    assert(name.skip(name.len() - tail.len()) == tail);
    let head = "wallhaven-"@ + id;
    assert(image_name(id, path).take(head.len() as int) == head);
    if image_name(id, path) == image_name(other, path) {
        let n = "wallhaven-"@.len() as int;
        let one = image_name(id, path);
        let two = image_name(other, path);
        let more = ("."@ + behind_dot(path)).len();
        assert(one.len() == n + id.len() + more);
        assert(two.len() == n + other.len() + more);
        assert(one.subrange(n, n + id.len()) == id);
        assert(two.subrange(n, n + other.len()) == other);
    }
}

proof fn lemma_dot(path: Seq<char>, kind: Seq<char>)
    requires
        forall|i: int| 0 <= i < kind.len() ==> kind[i] != '.',
    ensures
        behind_dot(path + "."@ + kind) == kind,
{
    reveal_strlit(".");
    let full = path + "."@ + kind;
    lemma_last_dot(path, kind);
    assert(full.skip(path.len() as int + 1) == kind);
}

pub proof fn lemma_last_dot(path: Seq<char>, kind: Seq<char>)
    requires
        forall|i: int| 0 <= i < kind.len() ==> kind[i] != '.',
    ensures
        last_dot(path + "."@ + kind) == path.len(),
    decreases kind.len(),
{
    reveal_strlit(".");
    let full = path + "."@ + kind;
    if kind.len() > 0 {
        assert(full.last() == kind.last());
        assert(full.drop_last() == path + "."@ + kind.drop_last());
        lemma_last_dot(path, kind.drop_last());
    } else {
        assert(full.last() == '.');
    }
}

/// Of the thumbnails the one that was used longest ago goes first, and of
/// those the smallest.
pub proof fn law_oldest_thumbnail_goes_first(files: Seq<CachedView>, i: int, j: int)
    requires
        is_first(files, i),
        0 <= j < files.len(),
    ensures
        files[i].mtime <= files[j].mtime,
        files[i].mtime == files[j].mtime ==> files[i].len <= files[j].len,
{
    let other = files[j];
}

} // verus!
