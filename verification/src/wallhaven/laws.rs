//! What holds of the client as a whole.

use vstd::prelude::*;
use vstd::utf8::encode_utf8;

use crate::text::starts_with;
use crate::wallhaven::budget::{
    BudgetView, backoff_wait, live, pause_secs, recorded, since, succeeded, throttled, waited,
    window_wait,
};
use crate::wallhaven::cache::{
    CachedView, first_with, goes_before, is_first, lemma_size_without, size,
};
use crate::wallhaven::{
    Purity, QueryView, WantedView, behind_dot, granted, hex_digit, is_unreserved, params_text,
    percent, percented, thumb_wanted, url_text,
};

verus! {

// ------------------------------------------------------------------------- budget

/// Whether requests were booked in order and none lies ahead.
pub open spec fn is_past(window: Seq<u64>, now: u64) -> bool {
    &&& forall|i: int| 0 <= i < window.len() ==> #[trigger] window[i] <= now
    &&& forall|i: int, j: int|
        0 <= i < j < window.len() ==> #[trigger] window[i] <= #[trigger] window[j]
}

/// What still counts is the end of the window, and counts.
proof fn lemma_live(window: Seq<u64>, now: u64, span: u64)
    requires
        is_past(window, now),
    ensures
        live(window, now, span).len() <= window.len(),
        live(window, now, span) == window.skip(window.len() - live(window, now, span).len()),
        is_past(live(window, now, span), now),
        forall|i: int|
            0 <= i < live(window, now, span).len() ==> now - (#[trigger] live(
                window,
                now,
                span,
            )[i]) < span,
        forall|i: int|
            0 <= i < window.len() && now - (#[trigger] window[i]) < span ==> i >= window.len()
                - live(window, now, span).len(),
    decreases window.len(),
{
    let l = live(window, now, span);
    if window.len() > 0 && since(now, window[0]) >= span {
        let tail = window.skip(1);
        assert forall|i: int| 0 <= i < tail.len() implies #[trigger] tail[i] <= now by {
            assert(tail[i] == window[i + 1]);
        }
        assert forall|i: int, j: int| 0 <= i < j < tail.len() implies #[trigger] tail[i]
            <= #[trigger] tail[j] by {
            assert(tail[i] == window[i + 1] && tail[j] == window[j + 1]);
        }
        lemma_live(tail, now, span);
        assert(l =~= window.skip(window.len() - l.len()));
        assert forall|i: int| 0 <= i < window.len() && now - (#[trigger] window[i]) < span implies i
            >= window.len() - l.len() by {
            if i > 0 {
                assert(tail[i - 1] == window[i]);
            }
        }
    } else {
        assert(window.skip(0) =~= window);
        if window.len() > 0 {
            assert forall|i: int| 0 <= i < window.len() implies now - (#[trigger] window[i])
                < span by {
                if i > 0 {
                    assert(window[0] <= window[i]);
                }
            }
        }
    }
}

/// A request that is made without a wait keeps to the budget: of the requests
/// that are less than a span old, it among them, there are no more than the
/// limit allows.
pub proof fn law_requests_keep_to_the_budget(b: BudgetView, now: u64)
    requires
        b.wf(),
        b.span > 0,
        is_past(b.window, now),
        waited(b, now).1 == 0,
        b.window.len() < u64::MAX,
    ensures
        ({
            let after = recorded(waited(b, now).0, now).window;
            &&& after.len() <= b.limit
            &&& forall|i: int|
                0 <= i < b.window.len() && now - (#[trigger] b.window[i]) < b.span
                    ==> after.contains(b.window[i])
        }),
{
    lemma_live(b.window, now, b.span);
    let l = live(b.window, now, b.span);
    let after = l.push(now);
    if l.len() >= b.limit {
        assert(l[0] <= now && now - l[0] < b.span);
        assert(window_wait(l, b.limit, b.span, now) > 0);
        assert(l[0] + b.span - now <= b.span);
    }
    assert forall|i: int| 0 <= i < b.window.len() && now - (#[trigger] b.window[i]) < b.span implies after.contains(
        b.window[i],
    ) by {
        let k = i - (b.window.len() - l.len());
        assert(l[k] == b.window[i]);
        assert(after[k] == b.window[i]);
    }
}

/// A wait that is kept is enough, and no shorter one is: once it is over the next
/// request need not wait, and before that it must. No more requests may still
/// count than the limit allows.
pub proof fn law_the_wait_is_the_least(b: BudgetView, now: u64)
    requires
        b.wf(),
        is_past(b.window, now),
        live(b.window, now, b.span).len() <= b.limit,
        now + waited(b, now).1 <= u64::MAX,
    ensures
        waited(waited(b, now).0, (now + waited(b, now).1) as u64).1 == 0,
        forall|t: u64|
            now <= t < now + waited(b, now).1 ==> (#[trigger] waited(waited(b, now).0, t)).1 > 0,
{
    lemma_live(b.window, now, b.span);
    let l = live(b.window, now, b.span);
    let w = waited(b, now).1;
    let later = (now + w) as u64;
    let ww = window_wait(l, b.limit, b.span, now);
    if l.len() >= b.limit {
        assert(l[0] <= now && now - l[0] < b.span);
        assert(ww == l[0] + b.span - now);
        assert(0 <= ww <= b.span);
        assert(w >= ww);
        assert(since(later, l[0]) >= b.span);
        assert(live(l, later, b.span) == live(l.skip(1), later, b.span));
        let tail = l.skip(1);
        assert forall|i: int| 0 <= i < tail.len() implies #[trigger] tail[i] <= later by {
            assert(tail[i] == l[i + 1]);
        }
        assert forall|i: int, j: int| 0 <= i < j < tail.len() implies #[trigger] tail[i]
            <= #[trigger] tail[j] by {
            assert(tail[i] == l[i + 1] && tail[j] == l[j + 1]);
        }
        lemma_live(tail, later, b.span);
    } else {
        assert forall|i: int| 0 <= i < l.len() implies #[trigger] l[i] <= later by {}
        lemma_live(l, later, b.span);
    }
    assert(backoff_wait(b.backoff_until, later) == 0) by {
        assert(w >= backoff_wait(b.backoff_until, now));
    }
    let after = waited(b, now).0;
    assert forall|t: u64| now <= t < now + w implies (#[trigger] waited(after, t)).1 > 0 by {
        let bw = backoff_wait(b.backoff_until, now);
        if ww >= bw {
            assert(l.len() >= b.limit);
            assert(since(t, l[0]) < b.span);
            assert(live(l, t, b.span) == l);
            assert(window_wait(l, b.limit, b.span, t) == l[0] + b.span - t);
            assert(0 < l[0] + b.span - t <= b.span);
        } else {
            assert(backoff_wait(b.backoff_until, t) == bw - (t - now));
        }
        assert(window_wait(live(l, t, b.span), b.limit, b.span, t) <= u64::MAX);
        assert(backoff_wait(b.backoff_until, t) <= u64::MAX);
    }
}

/// Each further refusal doubles the pause, up to a minute; an answer ends it.
pub proof fn law_pauses_double_up_to_a_minute(b: BudgetView, now: u64, again: u64)
    requires
        b.wf(),
        now + 60_000_000_000 <= u64::MAX,
        again + 60_000_000_000 <= u64::MAX,
    ensures
        ({
            let once = throttled(b, now);
            let twice = throttled(once, again);
            let first = pause_secs(once.strikes);
            &&& once.wf()
            &&& twice.wf()
            &&& pause_secs(twice.strikes) == if 2 * first < 60 {
                2 * first
            } else {
                60
            }
            &&& b.strikes == 0 ==> first == 2
            &&& 2 <= first <= 60
            &&& backoff_wait(once.backoff_until, now) == first * 1_000_000_000
            &&& waited(once, now).1 >= first * 1_000_000_000
            &&& backoff_wait(succeeded(once).backoff_until, now) == 0
            &&& pause_secs(throttled(succeeded(once), again).strikes) == 2
        }),
{
    let once = throttled(b, now);
    let l = live(once.window, now, once.span);
    assert(0 <= window_wait(l, once.limit, once.span, now) <= u64::MAX);
}

// ------------------------------------------------------------------------- queries

/// Without a key a search is one for what anyone may see, whatever it asks for,
/// and the request names no key.
pub proof fn law_purity_needs_a_key(q: QueryView)
    ensures
        params_text(q, None) == params_text(QueryView { purity: Purity::Sfw, ..q }, None),
        granted(q.purity, None) == Purity::Sfw,
{
}

/// A character that a URL's parameter can hold.
pub open spec fn is_url_char(c: char) -> bool {
    ||| 'A' <= c <= 'Z'
    ||| 'a' <= c <= 'z'
    ||| '0' <= c <= '9'
    ||| c == '-'
    ||| c == '.'
    ||| c == '_'
    ||| c == '~'
    ||| c == '%'
}

proof fn lemma_percent(b: u8)
    ensures
        forall|i: int| 0 <= i < percent(b).len() ==> is_url_char(#[trigger] percent(b)[i]),
{
    let n = b as int / 16;
    let m = b as int % 16;
    assert(0 <= n < 16 && 0 <= m < 16);
    assert(is_url_char(hex_digit(n)));
    assert(is_url_char(hex_digit(m)));
}

proof fn lemma_percented(bytes: Seq<u8>)
    ensures
        forall|i: int|
            0 <= i < percented(bytes).len() ==> is_url_char(#[trigger] percented(bytes)[i]),
    decreases bytes.len(),
{
    if bytes.len() > 0 {
        lemma_percented(bytes.drop_last());
        lemma_percent(bytes.last());
        let a = percented(bytes.drop_last());
        let all = percented(bytes);
        assert forall|i: int| 0 <= i < all.len() implies is_url_char(#[trigger] all[i]) by {
            if i < a.len() {
                assert(all[i] == a[i]);
            } else {
                assert(all[i] == percent(bytes.last())[i - a.len()]);
            }
        }
    }
}

/// What is put into a URL holds nothing that a URL gives a meaning to.
pub proof fn law_url_texts_are_safe(s: Seq<char>)
    ensures
        forall|i: int| 0 <= i < url_text(s).len() ==> is_url_char(#[trigger] url_text(s)[i]),
{
    lemma_percented(encode_utf8(s));
}

/// The value of a hexadecimal digit.
pub open spec fn hex_value(c: char) -> int {
    if '0' <= c <= '9' {
        c as int - 48
    } else {
        c as int - 55
    }
}

/// The bytes that a URL text stands for.
pub open spec fn unpercented(s: Seq<char>) -> Seq<u8>
    decreases s.len(),
{
    if s.len() == 0 {
        Seq::empty()
    } else if s[0] == '%' && s.len() >= 3 {
        seq![(16 * hex_value(s[1]) + hex_value(s[2])) as u8] + unpercented(s.skip(3))
    } else {
        seq![s[0] as u8] + unpercented(s.skip(1))
    }
}

proof fn lemma_unpercent(b: u8, tail: Seq<char>)
    ensures
        unpercented(percent(b) + tail) == seq![b] + unpercented(tail),
{
    let s = percent(b) + tail;
    if is_unreserved(b) {
        assert(s[0] == b as char);
        assert(s.skip(1) =~= tail);
        assert((b as char) as u8 == b);
    } else {
        let n = b as int / 16;
        let m = b as int % 16;
        assert(0 <= n < 16 && 0 <= m < 16);
        assert(s[0] == '%' && s[1] == hex_digit(n) && s[2] == hex_digit(m));
        assert(s.skip(3) =~= tail);
        assert(hex_value(hex_digit(n)) == n);
        assert(hex_value(hex_digit(m)) == m);
    }
}

proof fn lemma_unpercented(bytes: Seq<u8>, tail: Seq<char>)
    ensures
        unpercented(percented(bytes) + tail) == bytes + unpercented(tail),
    decreases bytes.len(),
{
    if bytes.len() == 0 {
        assert(percented(bytes) + tail =~= tail);
        assert(bytes + unpercented(tail) =~= unpercented(tail));
    } else {
        let front = bytes.drop_last();
        let b = bytes.last();
        lemma_unpercent(b, tail);
        lemma_unpercented(front, percent(b) + tail);
        assert(percented(bytes) + tail =~= percented(front) + (percent(b) + tail));
        assert(front + (seq![b] + unpercented(tail)) =~= bytes + unpercented(tail));
    }
}

/// A text in a URL stands for the text's own bytes.
pub proof fn law_url_texts_read_back(s: Seq<char>)
    ensures
        unpercented(url_text(s)) == encode_utf8(s),
{
    let none = Seq::<char>::empty();
    lemma_unpercented(encode_utf8(s), none);
    assert(url_text(s) + none =~= url_text(s));
    assert(unpercented(none) =~= Seq::<u8>::empty());
    assert(encode_utf8(s) + Seq::<u8>::empty() =~= encode_utf8(s));
}

// ---------------------------------------------------------------------- thumbnails

proof fn lemma_first_with(names: Seq<Seq<char>>, prefix: Seq<char>)
    ensures
        0 <= first_with(names, prefix) <= names.len(),
        first_with(names, prefix) < names.len() ==> starts_with(
            names[first_with(names, prefix)],
            prefix,
        ),
        forall|i: int|
            0 <= i < first_with(names, prefix) ==> !starts_with(#[trigger] names[i], prefix),
    decreases names.len(),
{
    if names.len() > 0 && !starts_with(names[0], prefix) {
        let more = names.skip(1);
        lemma_first_with(more, prefix);
        assert forall|i: int| 0 <= i < first_with(names, prefix) implies !starts_with(
            #[trigger] names[i],
            prefix,
        ) by {
            if i > 0 {
                assert(more[i - 1] == names[i]);
            }
        }
    }
}

/// A thumbnail that was fetched and kept where it was wanted is found there the
/// next time, whatever else has gone from the directory since.
pub proof fn law_kept_thumbnail_is_found(
    dir: Seq<char>,
    id: Seq<char>,
    large: Seq<char>,
    names: Seq<Seq<char>>,
    later: Seq<Seq<char>>,
)
    requires
        thumb_wanted(dir, id, large, names) is Fetch,
        later.contains(id + "."@ + behind_dot(large)),
        forall|i: int|
            0 <= i < later.len() ==> #[trigger] later[i] == id + "."@ + behind_dot(large)
                || names.contains(later[i]),
    ensures
        thumb_wanted(dir, id, large, later) == WantedView::Here(
            thumb_wanted(dir, id, large, names)->dest,
        ),
{
    let prefix = id + "."@;
    let kept = prefix + behind_dot(large);
    assert(kept.take(prefix.len() as int) == prefix);
    assert(starts_with(kept, prefix));
    lemma_first_with(names, prefix);
    lemma_first_with(later, prefix);
    let at = choose|at: int| 0 <= at < later.len() && later[at] == kept;
    let k = first_with(later, prefix);
    assert(k <= at);
    if later[k] != kept {
        let i = choose|i: int| 0 <= i < names.len() && names[i] == later[k];
        assert(starts_with(names[i], prefix));
    }
}

/// Whether files are dropped one by one as [`crate::wallhaven::cache::Eviction`]
/// says, and each of them goes: `order` holds their positions, each in what is
/// left by then.
pub open spec fn is_run(files: Seq<CachedView>, total: int, cap: u64, order: Seq<int>) -> bool
    decreases order.len(),
{
    order.len() > 0 ==> {
        &&& total > cap
        &&& is_first(files, order[0])
        &&& is_run(
            files.remove(order[0]),
            total - files[order[0]].len,
            cap,
            order.skip(1),
        )
    }
}

/// What is left of a list when positions are taken out of it, one by one.
pub open spec fn left_by<A>(all: Seq<A>, order: Seq<int>) -> Seq<A>
    decreases order.len(),
{
    if order.len() == 0 {
        all
    } else {
        left_by(all.remove(order[0]), order.skip(1))
    }
}

/// Whether every other file goes before the one at a position.
pub open spec fn is_newest(files: Seq<CachedView>, at: int) -> bool {
    0 <= at < files.len() && forall|j: int|
        0 <= j < files.len() && j != at ==> goes_before(#[trigger] files[j], files[at])
}

/// The file that was used last is not named to be dropped, as long as it fits the
/// cap together with what could not be dropped. Where another one goes instead,
/// the same holds of what is left.
pub proof fn law_newest_file_is_not_named(
    files: Seq<CachedView>,
    total: int,
    cap: u64,
    at: int,
    i: int,
)
    requires
        is_newest(files, at),
        total - size(files) + files[at].len <= cap,
        total > cap,
        is_first(files, i),
    ensures
        i != at,
        is_newest(files.remove(i), if i < at { at - 1 } else { at }),
        files.remove(i)[if i < at { at - 1 } else { at }] == files[at],
        (total - files[i].len) - size(files.remove(i)) == total - size(files),
{
    if files.len() == 1 {
        assert(files.drop_last() == Seq::<CachedView>::empty());
        assert(files.last() == files[at]);
        assert(size(files) == size(files.drop_last()) + files[at].len);
        assert(size(Seq::<CachedView>::empty()) == 0);
    } else {
        let other: int = if at == 0 {
            1
        } else {
            0
        };
        assert(goes_before(files[other], files[at]));
        assert(i != at);
    }
    lemma_size_without(files, i);
    let now = files.remove(i);
    let k = if i < at {
        at - 1
    } else {
        at
    };
    assert forall|j: int| 0 <= j < now.len() && j != k implies goes_before(
        #[trigger] now[j],
        now[k],
    ) by {
        let was = if j < i {
            j
        } else {
            j + 1
        };
        assert(now[j] == files[was]);
        assert(goes_before(files[was], files[at]));
    }
}

proof fn lemma_newest_stays<A>(
    files: Seq<CachedView>,
    all: Seq<A>,
    total: int,
    cap: u64,
    at: int,
    order: Seq<int>,
)
    requires
        files.len() == all.len(),
        is_newest(files, at),
        total == size(files),
        files[at].len <= cap,
        is_run(files, total, cap, order),
    ensures
        left_by(all, order).contains(all[at]),
    decreases order.len(),
{
    if order.len() > 0 {
        let i = order[0];
        law_newest_file_is_not_named(files, total, cap, at, i);
        let k = if i < at {
            at - 1
        } else {
            at
        };
        assert(all.remove(i)[k] == all[at]);
        lemma_newest_stays(
            files.remove(i),
            all.remove(i),
            total - files[i].len,
            cap,
            k,
            order.skip(1),
        );
    }
}

/// Whatever order the files have, and however many of them go to make room, the
/// one that was used last stays, where it fits the cap.
pub proof fn law_newest_file_stays(files: Seq<CachedView>, cap: u64, at: int, order: Seq<int>)
    requires
        is_newest(files, at),
        files[at].len <= cap,
        is_run(files, size(files) as int, cap, order),
    ensures
        left_by(files, order).contains(files[at]),
{
    lemma_newest_stays(files, files, size(files) as int, cap, at, order);
}

proof fn lemma_left_is_part<A>(
    all: Seq<A>,
    files: Seq<CachedView>,
    total: int,
    cap: u64,
    order: Seq<int>,
)
    requires
        files.len() == all.len(),
        is_run(files, total, cap, order),
    ensures
        forall|i: int|
            0 <= i < left_by(all, order).len() ==> all.contains(#[trigger] left_by(all, order)[i]),
    decreases order.len(),
{
    let left = left_by(all, order);
    if order.len() > 0 {
        let now = all.remove(order[0]);
        lemma_left_is_part(
            now,
            files.remove(order[0]),
            total - files[order[0]].len,
            cap,
            order.skip(1),
        );
        assert forall|i: int| 0 <= i < left.len() implies all.contains(#[trigger] left[i]) by {
            assert(now.contains(left_by(now, order.skip(1))[i]));
            let j = choose|j: int| 0 <= j < now.len() && now[j] == left[i];
            let was = if j < order[0] {
                j
            } else {
                j + 1
            };
            assert(all[was] == now[j]);
        }
    }
}

/// A thumbnail no larger than the cap that was fetched and kept is found the next
/// time, after the room for it has been made: `all` are the names in the directory
/// once it is kept, each with its file, and `order` the files that went.
pub proof fn law_fetched_thumbnail_is_found_again(
    dir: Seq<char>,
    id: Seq<char>,
    large: Seq<char>,
    names: Seq<Seq<char>>,
    all: Seq<Seq<char>>,
    files: Seq<CachedView>,
    cap: u64,
    at: int,
    order: Seq<int>,
)
    requires
        thumb_wanted(dir, id, large, names) is Fetch,
        files.len() == all.len(),
        is_newest(files, at),
        files[at].len <= cap,
        all[at] == id + "."@ + behind_dot(large),
        forall|i: int|
            0 <= i < all.len() ==> #[trigger] all[i] == id + "."@ + behind_dot(large)
                || names.contains(all[i]),
        is_run(files, size(files) as int, cap, order),
    ensures
        thumb_wanted(dir, id, large, left_by(all, order)) == WantedView::Here(
            thumb_wanted(dir, id, large, names)->dest,
        ),
{
    let later = left_by(all, order);
    lemma_newest_stays(files, all, size(files) as int, cap, at, order);
    lemma_left_is_part(all, files, size(files) as int, cap, order);
    assert forall|i: int| 0 <= i < later.len() implies #[trigger] later[i] == id + "."@ + behind_dot(
        large,
    ) || names.contains(later[i]) by {
        let j = choose|j: int| 0 <= j < all.len() && all[j] == later[i];
        assert(all[j] == later[i]);
    }
    law_kept_thumbnail_is_found(dir, id, large, names, later);
}

} // verus!
