//! What holds of a bar's lanes and of its geometry.

use vstd::prelude::*;

use crate::configfs::jsonc::grammar::{body_len, lemma_value_is};
use crate::configfs::jsonc::{
    DocView, add_item_to, doc_wf, elements, is_value, law_added_item_is_last,
    law_removed_item_is_gone, law_reordered_items_read_back, law_replaced_value_reads_back, others,
    quoted, remove_item_from, reorder_in, set_scalar_in, value_under,
};
use crate::configfs::managed::{
    CommentStyle, law_write_then_read, law_write_then_remove, line_ended, located, removed,
};
use crate::number::{all_digits, digits, int_text, lemma_digits, parse_u32};
use crate::text::{
    contains, find, holds, is_digit, is_space, lemma_find_from, lemma_find_is, occurs,
    strip_leading, strip_trailing, trim_start,
};
use crate::waybar::{
    WaybarStyle, in_quotes, lane_names, lane_of, leading_digits, px_line, px_of, style_close,
    style_open, unquoted, without_module,
};

verus! {

/// A module id that stands for itself between quotes.
pub open spec fn plain_id(id: Seq<char>) -> bool {
    forall|i: int| 0 <= i < id.len() ==> #[trigger] id[i] != '"' && id[i] != '\\'
}

pub proof fn lemma_body_of_plain(id: Seq<char>)
    requires
        plain_id(id),
    ensures
        body_len(id + seq!['"']) == Some(id.len() + 1),
    decreases id.len(),
{
    let s = id + seq!['"'];
    if id.len() > 0 {
        assert(s[0] == id[0]);
        assert(s.skip(1) == id.skip(1) + seq!['"']);
        assert forall|i: int| 0 <= i < id.skip(1).len() implies #[trigger] id.skip(1)[i] != '"'
            && id.skip(1)[i] != '\\' by {
            assert(id.skip(1)[i] == id[i + 1]);
        }
        lemma_body_of_plain(id.skip(1));
    }
}

/// A plain id between quotes is a value, and unquoting gives it back.
pub proof fn lemma_plain_id(id: Seq<char>)
    requires
        plain_id(id),
    ensures
        is_value(in_quotes(id)),
        unquoted(in_quotes(id)) == id,
        in_quotes(id) == quoted(id),
{
    reveal_strlit("\"");
    let q = in_quotes(id);
    assert(q == seq!['"'] + id + seq!['"']);
    lemma_body_of_plain(id);
    assert(q.skip(1) == id + seq!['"']);
    lemma_value_is(q);
    let inner = id + seq!['"'];
    assert(strip_leading(q, '"') == strip_leading(inner, '"'));
    if id.len() > 0 {
        assert(inner[0] == id[0]);
        assert(strip_leading(inner, '"') == inner);
        assert(inner.drop_last() == id);
        assert(strip_trailing(id, '"') == id);
        assert(strip_trailing(inner, '"') == strip_trailing(id, '"'));
    } else {
        assert(inner == seq!['"']);
        assert(inner.skip(1) == Seq::<char>::empty());
        assert(strip_leading(inner, '"') == strip_leading(inner.skip(1), '"'));
        assert(strip_trailing(Seq::<char>::empty(), '"') == Seq::<char>::empty());
    }
}

/// A module that was added is the last in its lane, and the others stay where
/// they are.
pub proof fn law_added_module_is_last(d: DocView, lane: Seq<char>, id: Seq<char>, other: Seq<char>)
    requires
        doc_wf(d),
        elements(d.root, lane) is Some,
        plain_id(id),
    ensures
        add_item_to(d, lane, in_quotes(id)) is Ok,
        ({
            let after = add_item_to(d, lane, in_quotes(id))->Ok_0;
            &&& doc_wf(after)
            &&& lane_of(after, lane) == lane_of(d, lane).push(id)
            &&& quoted(other) != quoted(lane) ==> lane_of(after, other) == lane_of(d, other)
        }),
{
    lemma_plain_id(id);
    law_added_item_is_last(d, lane, in_quotes(id), other);
    let after = add_item_to(d, lane, in_quotes(id))->Ok_0;
    let items = elements(d.root, lane)->0;
    let f = |t: Seq<char>| unquoted(t);
    assert(items.push(in_quotes(id)).map_values(f) =~= items.map_values(f).push(id));
}

/// After a reordering a lane reads as it was asked for.
pub proof fn law_reordered_lane_reads_back(d: DocView, lane: Seq<char>, ids: Seq<Seq<char>>)
    requires
        doc_wf(d),
        forall|i: int| 0 <= i < ids.len() ==> plain_id(#[trigger] ids[i]),
        reorder_in(d, lane, ids.map_values(|id: Seq<char>| in_quotes(id))) is Ok,
    ensures
        lane_of(
            reorder_in(d, lane, ids.map_values(|id: Seq<char>| in_quotes(id)))->Ok_0,
            lane,
        ) == ids,
{
    let raws = ids.map_values(|id: Seq<char>| in_quotes(id));
    law_reordered_items_read_back(d, lane, raws, lane);
    let f = |t: Seq<char>| unquoted(t);
    assert forall|i: int| 0 <= i < ids.len() implies #[trigger] raws.map_values(f)[i] == ids[i] by {
        lemma_plain_id(ids[i]);
    }
    assert(raws.map_values(f) =~= ids);
}

/// The lanes are keys of their own.
proof fn lemma_lanes_differ()
    ensures
        quoted("modules-left"@) != quoted("modules-center"@),
        quoted("modules-left"@) != quoted("modules-right"@),
        quoted("modules-center"@) != quoted("modules-right"@),
{
    reveal_strlit("modules-left");
    reveal_strlit("modules-center");
    reveal_strlit("modules-right");
    assert(quoted("modules-left"@).len() == 14);
    assert(quoted("modules-center"@).len() == 16);
    assert(quoted("modules-right"@).len() == 15);
}

/// After a module has been taken out of every lane, none of them has it.
proof fn lemma_without_module(d: DocView, id: Seq<char>)
    requires
        doc_wf(d),
    ensures
        doc_wf(without_module(d, lane_names(), id)),
        forall|i: int|
            0 <= i < 3 ==> elements(
                without_module(d, lane_names(), id).root,
                #[trigger] lane_names()[i],
            ) == (match elements(d.root, lane_names()[i]) {
                Some(all) => Some(others(all, in_quotes(id))),
                None => None,
            }),
{
    lemma_lanes_differ();
    let l = lane_names();
    let raw = in_quotes(id);
    let left = "modules-left"@;
    let center = "modules-center"@;
    let right = "modules-right"@;
    let d1 = remove_item_from(d, left, raw);
    let d2 = remove_item_from(d1, center, raw);
    let d3 = remove_item_from(d2, right, raw);
    reveal_with_fuel(without_module, 4);
    assert(l.drop_last().drop_last().drop_last().len() == 0);
    assert(l.drop_last().drop_last().last() == left);
    assert(l.drop_last().last() == center);
    assert(l.last() == right);
    assert(d3 == without_module(d, l, id));
    law_removed_item_is_gone(d, left, raw, center);
    law_removed_item_is_gone(d, left, raw, right);
    law_removed_item_is_gone(d1, center, raw, left);
    law_removed_item_is_gone(d1, center, raw, right);
    law_removed_item_is_gone(d2, right, raw, left);
    law_removed_item_is_gone(d2, right, raw, center);
    assert forall|i: int| 0 <= i < 3 implies elements(d3.root, #[trigger] l[i]) == (match elements(
        d.root,
        l[i],
    ) {
        Some(all) => Some(others(all, raw)),
        None => None,
    }) by {
        if i == 0 {
            assert(l[i] == left);
        } else if i == 1 {
            assert(l[i] == center);
        } else {
            assert(l[i] == right);
        }
    }
}

/// A module that was moved is in the lane it was moved to, as the last, and in
/// no other.
pub proof fn law_moved_module_is_in_one_lane(d: DocView, to: int, id: Seq<char>)
    requires
        doc_wf(d),
        0 <= to < 3,
        elements(d.root, lane_names()[to]) is Some,
        plain_id(id),
    ensures
        ({
            let bare = without_module(d, lane_names(), id);
            let moved = add_item_to(bare, lane_names()[to], in_quotes(id));
            &&& moved is Ok
            &&& doc_wf(moved->Ok_0)
            &&& lane_of(moved->Ok_0, lane_names()[to]).last() == id
            &&& forall|i: int, k: int|
                0 <= i < 3 && i != to && 0 <= k < lane_of(moved->Ok_0, lane_names()[i]).len()
                    ==> elements(moved->Ok_0.root, lane_names()[i])->0[k] != in_quotes(id)
        }),
{
    lemma_lanes_differ();
    lemma_without_module(d, id);
    let l = lane_names();
    let bare = without_module(d, l, id);
    let raw = in_quotes(id);
    assert(elements(bare.root, l[to]) is Some);
    law_added_module_is_last(bare, l[to], id, l[to]);
    let after = add_item_to(bare, l[to], raw)->Ok_0;
    lemma_plain_id(id);
    assert forall|i: int, k: int|
        0 <= i < 3 && i != to && 0 <= k < lane_of(after, l[i]).len() implies elements(
        after.root,
        l[i],
    )->0[k] != raw by {
        assert(quoted(l[i]) != quoted(l[to])) by {
            assert(l[0] == "modules-left"@ && l[1] == "modules-center"@ && l[2]
                == "modules-right"@);
        }
        law_added_item_is_last(bare, l[to], raw, l[i]);
        assert(elements(after.root, l[i]) == elements(bare.root, l[i]));
        let all = elements(d.root, l[i])->0;
        assert(elements(bare.root, l[i])->0 == others(all, raw));
        lemma_others(all, raw);
    }
}

proof fn lemma_others(all: Seq<Seq<char>>, raw: Seq<char>)
    ensures
        forall|k: int| 0 <= k < others(all, raw).len() ==> #[trigger] others(all, raw)[k] != raw,
    decreases all.len(),
{
    reveal(Seq::filter);
    if all.len() > 0 {
        lemma_others(all.drop_last(), raw);
        assert forall|k: int| 0 <= k < others(all, raw).len() implies #[trigger] others(
            all,
            raw,
        )[k] != raw by {
            let before = others(all.drop_last(), raw);
            if k < before.len() {
                assert(others(all, raw)[k] == before[k]);
            }
        }
    }
}

// ----------------------------------------------------------------------- style

proof fn lemma_colon(s: Seq<char>, pat: Seq<char>, k: int)
    requires
        occurs(s, pat, k),
        pat.len() > 0,
    ensures
        s[k + pat.len() - 1] == pat.last(),
        pat.len() >= 2 ==> s[k + pat.len() - 2] == pat[pat.len() - 2],
{
    let sub = s.subrange(k, k + pat.len());
    assert(sub[pat.len() - 1] == pat.last());
    if pat.len() >= 2 {
        assert(sub[pat.len() - 2] == pat[pat.len() - 2]);
    }
}

/// A property whose colon is the first in the text is found there.
proof fn lemma_first_prop(a: Seq<char>, prop: Seq<char>, b: Seq<char>)
    requires
        !holds(a, ':'),
        !holds(prop, ':'),
    ensures
        find(a + prop + ":"@ + b, prop + ":"@) == Some(a.len() as int),
{
    reveal_strlit(":");
    let s = a + prop + ":"@ + b;
    let pat = prop + ":"@;
    assert(s.subrange(a.len() as int, (a.len() + pat.len()) as int) == pat);
    assert forall|j: int| 0 <= j < a.len() implies !occurs(s, pat, j) by {
        if occurs(s, pat, j) {
            lemma_colon(s, pat, j);
            let e = j + pat.len() - 1;
            assert(s[e] == ':');
            if e < a.len() {
                assert(a[e] == ':');
            } else {
                assert(prop[e - a.len()] == ':');
            }
        }
    }
    lemma_find_is(s, pat, 0, a.len() as int);
}

/// A property behind another one, told apart by its last letter, is found at
/// the second colon.
proof fn lemma_second_prop(a: Seq<char>, c: Seq<char>, prop: Seq<char>, b: Seq<char>)
    requires
        !holds(a, ':'),
        !holds(c, ':'),
        !holds(prop, ':'),
        a.len() > 0,
        prop.len() > 0,
        a.last() != prop.last(),
    ensures
        find(a + ":"@ + c + prop + ":"@ + b, prop + ":"@) == Some((a.len() + 1 + c.len()) as int),
{
    reveal_strlit(":");
    let s = a + ":"@ + c + prop + ":"@ + b;
    let pat = prop + ":"@;
    let n = (a.len() + 1 + c.len()) as int;
    assert(s.subrange(n, n + pat.len()) == pat);
    assert forall|j: int| 0 <= j < n implies !occurs(s, pat, j) by {
        if occurs(s, pat, j) {
            lemma_colon(s, pat, j);
            let e = j + pat.len() - 1;
            assert(s[e] == ':');
            if e < a.len() {
                assert(a[e] == ':');
            } else if e == a.len() {
                assert(s[e - 1] == a.last());
                assert(pat[pat.len() - 2] == prop.last());
            } else if e < n {
                assert(c[e - a.len() - 1] == ':');
            } else {
                assert(prop[e - n] == ':');
            }
        }
    }
    lemma_find_is(s, pat, 0, n);
}

/// A property is not found where the only colon belongs to another one.
proof fn lemma_no_prop(a: Seq<char>, c: Seq<char>, prop: Seq<char>)
    requires
        !holds(a, ':'),
        !holds(c, ':'),
        a.len() > 0,
        prop.len() > 0,
        a.last() != prop.last(),
    ensures
        find(a + ":"@ + c, prop + ":"@) is None,
{
    reveal_strlit(":");
    let s = a + ":"@ + c;
    let pat = prop + ":"@;
    lemma_find_from(s, pat, 0);
    if find(s, pat) is Some {
        let j = find(s, pat)->0;
        lemma_colon(s, pat, j);
        let e = j + pat.len() - 1;
        if e < a.len() {
            assert(a[e] == ':');
        } else if e == a.len() {
            assert(s[e - 1] == a.last());
            assert(pat[pat.len() - 2] == prop.last());
        } else {
            assert(c[e - a.len() - 1] == ':');
        }
    }
}

/// A blank, a number and a letter read as the number.
proof fn lemma_number_read(n: u32, tail: Seq<char>)
    requires
        tail.len() > 0,
        !is_digit(tail[0]),
    ensures
        parse_u32(leading_digits(trim_start(" "@ + int_text(n as int) + tail))) == Some(n),
{
    reveal_strlit(" ");
    let d = digits(n as nat);
    lemma_digits(n as nat);
    let s = " "@ + d + tail;
    assert(s.skip(1) == d + tail);
    assert(is_digit(d[0]));
    assert((d + tail)[0] == d[0]);
    assert(trim_start(d + tail) == d + tail);
    assert(is_space(s[0]));
    assert(trim_start(s) == d + tail);
    lemma_leading(d, tail);
    assert(d[0] != '+');
}

proof fn lemma_leading(d: Seq<char>, tail: Seq<char>)
    requires
        all_digits(d),
        tail.len() == 0 || !is_digit(tail[0]),
    ensures
        leading_digits(d + tail) == d,
    decreases d.len(),
{
    if d.len() > 0 {
        assert((d + tail).skip(1) == d.skip(1) + tail);
        assert forall|i: int| 0 <= i < d.skip(1).len() implies is_digit(#[trigger] d.skip(1)[i]) by {
            assert(d.skip(1)[i] == d[i + 1]);
        }
        lemma_leading(d.skip(1), tail);
        assert(seq![d[0]] + d.skip(1) == d);
    } else {
        assert(d + tail == tail);
    }
}

proof fn lemma_digits_hold(n: u32, c: char)
    requires
        !is_digit(c),
    ensures
        !holds(int_text(n as int), c),
{
    lemma_digits(n as nat);
}

/// The start of a rule, in front of its first property.
spec fn rule_head() -> Seq<char> {
    "* {\n"@ + "  "@
}

/// What follows a property's number.
spec fn rule_tail() -> Seq<char> {
    "px;\n"@ + "}"@
}

proof fn lemma_rule_parts()
    ensures
        !holds(rule_head(), ':'),
        !holds(rule_tail(), ':'),
        !holds("font-size"@, ':'),
        !holds("border-radius"@, ':'),
        !holds("px;\n"@ + "  "@, ':'),
        (rule_head() + "font-size"@).last() == 'e',
        (rule_head() + "border-radius"@).last() == 's',
        "font-size"@.last() == 'e',
        "border-radius"@.last() == 's',
        "font-size"@.len() > 0,
        "border-radius"@.len() > 0,
        rule_tail().len() > 0 && !is_digit(rule_tail()[0]),
        "px;\n"@.len() > 0 && !is_digit("px;\n"@[0]),
        ": "@ == ":"@ + " "@,
        !holds(" "@, ':'),
        ":"@.len() == 1,
{
    reveal_strlit("* {\n");
    reveal_strlit("  ");
    reveal_strlit(": ");
    reveal_strlit(" ");
    reveal_strlit(":");
    reveal_strlit("px;\n");
    reveal_strlit("}");
    reveal_strlit("font-size");
    reveal_strlit("border-radius");
    assert(": "@ =~= ":"@ + " "@);
}

proof fn lemma_holds_sum(a: Seq<char>, b: Seq<char>, c: char)
    requires
        !holds(a, c),
        !holds(b, c),
    ensures
        !holds(a + b, c),
{
    assert forall|i: int| 0 <= i < (a + b).len() implies (a + b)[i] != c by {
        if i < a.len() {
            assert(a[i] != c);
        } else {
            assert(b[i - a.len()] != c);
        }
    }
}

/// A rule with one property: it is found, and the other is not.
proof fn lemma_one_prop(prop: Seq<char>, other: Seq<char>, n: u32)
    requires
        (prop == "font-size"@ && other == "border-radius"@) || (prop == "border-radius"@ && other
            == "font-size"@),
    ensures
        ({
            let r = "* {\n"@ + px_line(prop, Some(n)) + "}"@;
            px_of(r, prop) == Some(n) && px_of(r, other) is None
        }),
{
    lemma_rule_parts();
    lemma_digits_hold(n, ':');
    let d = int_text(n as int);
    let head = rule_head();
    let after = " "@ + d + rule_tail();
    let r = "* {\n"@ + px_line(prop, Some(n)) + "}"@;
    assert(r =~= head + prop + ":"@ + after);
    lemma_first_prop(head, prop, after);
    assert(r.skip(head.len() as int + (prop + ":"@).len()) =~= after);
    lemma_number_read(n, rule_tail());
    lemma_holds_sum(head, prop, ':');
    lemma_holds_sum(" "@, d, ':');
    lemma_holds_sum(" "@ + d, rule_tail(), ':');
    lemma_no_prop(head + prop, after, other);
}

spec fn both(a: u32, b: u32) -> Seq<char> {
    "* {\n"@ + px_line("font-size"@, Some(a)) + px_line("border-radius"@, Some(b)) + "}"@
}

/// A rule with both properties: the first is found.
proof fn lemma_both_first(a: u32, b: u32)
    ensures
        px_of(both(a, b), "font-size"@) == Some(a),
{
    lemma_rule_parts();
    let fs = "font-size"@;
    let br = "border-radius"@;
    let head = rule_head();
    let da = int_text(a as int);
    let db = int_text(b as int);
    let tail_a = "px;\n"@ + "  "@ + br + ": "@ + db + "px;\n"@ + "}"@;
    let after = " "@ + da + tail_a;
    let r = both(a, b);
    assert(r =~= head + fs + ":"@ + after);
    lemma_first_prop(head, fs, after);
    assert(r.skip(head.len() as int + (fs + ":"@).len()) =~= after);
    assert(tail_a[0] == "px;\n"@[0]);
    lemma_number_read(a, tail_a);
}

/// A rule with both properties: the second is found.
proof fn lemma_both_second(a: u32, b: u32)
    ensures
        px_of(both(a, b), "border-radius"@) == Some(b),
{
    lemma_rule_parts();
    lemma_digits_hold(a, ':');
    let fs = "font-size"@;
    let br = "border-radius"@;
    let front = rule_head() + fs;
    let da = int_text(a as int);
    let db = int_text(b as int);
    let link = "px;\n"@ + "  "@;
    let end = " "@ + db + rule_tail();
    let mid = " "@ + da + link;
    lemma_holds_sum(rule_head(), fs, ':');
    lemma_holds_sum(" "@, da, ':');
    lemma_holds_sum(" "@ + da, link, ':');
    let r = both(a, b);
    assert(r =~= front + ":"@ + mid + br + ":"@ + end);
    lemma_second_prop(front, mid, br, end);
    lemma_behind(front + ":"@ + mid, br + ":"@, end);
    assert(r =~= (front + ":"@ + mid) + (br + ":"@) + end);
    lemma_number_read(b, rule_tail());
}

proof fn lemma_behind(a: Seq<char>, b: Seq<char>, c: Seq<char>)
    ensures
        (a + b + c).skip((a.len() + b.len()) as int) == c,
{
    assert((a + b + c).skip((a.len() + b.len()) as int) =~= c);
}

/// The rule that a geometry writes reads back as the geometry.
proof fn lemma_rule_reads_back(st: WaybarStyle)
    requires
        !st.says_nothing(),
    ensures
        px_of(st.rule(), "font-size"@) == st.font_size,
        px_of(st.rule(), "border-radius"@) == st.radius,
{
    match (st.font_size, st.radius) {
        (Some(a), Some(b)) => {
            lemma_both_first(a, b);
            lemma_both_second(a, b);
            assert(st.rule() == both(a, b));
        },
        (Some(a), None) => {
            lemma_one_prop("font-size"@, "border-radius"@, a);
            assert(st.rule() =~= "* {\n"@ + px_line("font-size"@, Some(a)) + "}"@);
        },
        (None, Some(b)) => {
            lemma_one_prop("border-radius"@, "font-size"@, b);
            assert(st.rule() =~= "* {\n"@ + px_line("border-radius"@, Some(b)) + "}"@);
        },
        (None, None) => {},
    }
}

proof fn lemma_line_has_no_slash(prop: Seq<char>, n: Option<u32>)
    requires
        !holds(prop, '/'),
    ensures
        !holds(px_line(prop, n), '/'),
{
    reveal_strlit("  ");
    reveal_strlit(": ");
    reveal_strlit("px;\n");
    if let Some(n) = n {
        lemma_digits_hold(n, '/');
        let d = int_text(n as int);
        lemma_holds_sum("  "@, prop, '/');
        lemma_holds_sum("  "@ + prop, ": "@, '/');
        lemma_holds_sum("  "@ + prop + ": "@, d, '/');
        lemma_holds_sum("  "@ + prop + ": "@ + d, "px;\n"@, '/');
    }
}

proof fn lemma_rule_has_no_slash(st: WaybarStyle)
    ensures
        !holds(st.rule(), '/'),
{
    reveal_strlit("* {\n");
    reveal_strlit("}");
    reveal_strlit("font-size");
    reveal_strlit("border-radius");
    lemma_line_has_no_slash("font-size"@, st.font_size);
    lemma_line_has_no_slash("border-radius"@, st.radius);
    let a = px_line("font-size"@, st.font_size);
    let b = px_line("border-radius"@, st.radius);
    lemma_holds_sum("* {\n"@, a, '/');
    lemma_holds_sum("* {\n"@ + a, b, '/');
    lemma_holds_sum("* {\n"@ + a + b, "}"@, '/');
}

/// A text without a marker's first character does not hold the marker.
proof fn lemma_rule_has_no_marker(st: WaybarStyle)
    ensures
        !contains(st.rule(), style_close()),
{
    lemma_rule_has_no_slash(st);
    reveal_strlit("/* ");
    let close = style_close();
    assert(close[0] == '/');
    if contains(st.rule(), close) {
        let i = choose|i: int| occurs(st.rule(), close, i);
        assert(st.rule().subrange(i, i + close.len())[0] == close[0]);
        assert(st.rule()[i] == '/');
    }
}

/// Saved geometry reads back, whatever else the style file holds; and taking it
/// out again leaves the file as it was, with its last line ended.
pub proof fn law_geometry_reads_back(st: WaybarStyle, css: Seq<char>)
    requires
        !st.says_nothing(),
        located(css, style_open(), style_close()) is Some || !contains(css, style_open()),
    ensures
        WaybarStyle::held(Some(st.styled(css))) == st,
        located(css, style_open(), style_close()) is None ==> removed(
            st.styled(css),
            style_open(),
            style_close(),
        ) == line_ended(css),
{
    reveal_strlit("waybar-style");
    assert(!holds("waybar-style"@, '\n'));
    lemma_rule_has_no_marker(st);
    lemma_rule_reads_back(st);
    law_write_then_read(css, "waybar-style"@, CommentStyle::CBlock, st.rule());
    law_write_then_remove(css, "waybar-style"@, CommentStyle::CBlock, st.rule());
}

// -------------------------------------------------------------------------- edits

/// A value that is set is what stands under its key; every other key has what it
/// had. It can be set just where the key has a plain value and gets one.
pub proof fn law_set_value_reads_back(d: DocView, key: Seq<char>, raw: Seq<char>, other: Seq<char>)
    requires
        doc_wf(d),
    ensures
        set_scalar_in(d, key, raw) is Ok <==> (value_under(d.root, key) matches Some(v) && is_value(
            v,
        ) && v[0] != '[' && v[0] != '{') && is_value(raw) && raw[0] != '[' && raw[0] != '{',
        set_scalar_in(d, key, raw) matches Ok(after) ==> {
            &&& doc_wf(after)
            &&& value_under(after.root, key) == Some(raw)
            &&& quoted(other) != quoted(key) ==> value_under(after.root, other) == value_under(
                d.root,
                other,
            )
            &&& after.lead == d.lead && after.tail == d.tail
        },
{
    if set_scalar_in(d, key, raw) is Ok {
        law_replaced_value_reads_back(d.root, key, raw, other);
    }
}

proof fn lemma_others_are(all: Seq<Seq<char>>, raw: Seq<char>)
    ensures
        others(all, raw) == all.filter(|t: Seq<char>| t != raw),
    decreases all.len(),
{
    reveal(Seq::filter);
    if all.len() > 0 {
        lemma_others_are(all.drop_last(), raw);
    }
}

/// A module that was removed is nowhere in its lane, and the others are there in
/// their order; every other lane is as it was.
pub proof fn law_removed_module_leaves_the_others(
    d: DocView,
    lane: Seq<char>,
    id: Seq<char>,
    other: Seq<char>,
)
    requires
        doc_wf(d),
        elements(d.root, lane) is Some,
    ensures
        ({
            let after = remove_item_from(d, lane, in_quotes(id));
            &&& doc_wf(after)
            &&& elements(after.root, lane) == Some(
                elements(d.root, lane)->0.filter(|t: Seq<char>| t != in_quotes(id)),
            )
            &&& quoted(other) != quoted(lane) ==> lane_of(after, other) == lane_of(d, other)
        }),
{
    law_removed_item_is_gone(d, lane, in_quotes(id), other);
    lemma_others_are(elements(d.root, lane)->0, in_quotes(id));
}

/// When a module is moved the others stay in their lanes and in their order.
pub proof fn law_move_leaves_the_others(d: DocView, to: int, id: Seq<char>, i: int)
    requires
        doc_wf(d),
        0 <= to < 3,
        0 <= i < 3,
        elements(d.root, lane_names()[to]) is Some,
        elements(d.root, lane_names()[i]) is Some,
        plain_id(id),
    ensures
        ({
            let bare = without_module(d, lane_names(), id);
            let moved = add_item_to(bare, lane_names()[to], in_quotes(id));
            let rest = elements(d.root, lane_names()[i])->0.filter(
                |t: Seq<char>| t != in_quotes(id),
            );
            &&& moved is Ok
            &&& elements(moved->Ok_0.root, lane_names()[i]) == Some(
                if i == to {
                    rest.push(in_quotes(id))
                } else {
                    rest
                },
            )
        }),
{
    lemma_lanes_differ();
    lemma_without_module(d, id);
    let l = lane_names();
    let bare = without_module(d, l, id);
    let raw = in_quotes(id);
    lemma_others_are(elements(d.root, l[i])->0, raw);
    lemma_plain_id(id);
    assert(l[0] == "modules-left"@ && l[1] == "modules-center"@ && l[2] == "modules-right"@);
    assert(elements(bare.root, l[to]) is Some);
    law_added_item_is_last(bare, l[to], raw, l[i]);
    if i != to {
        assert(quoted(l[i]) != quoted(l[to]));
    }
}

} // verus!
