//! What holds of a custom module's config: it says what was asked for.

use vstd::prelude::*;

use crate::configfs::jsonc::grammar::{
    bare_len, digits_len, gap_len, is_gap, is_number, item_wf, items_text, lemma_value_is,
    list_text, list_wf, ListView, PieceView,
};
use crate::configfs::jsonc::{
    add_item_to, bracketed, doc_wf, elements, insert_member_into, is_plain, is_value, key_text,
    law_added_item_is_last, law_inserted_member_reads_back, lemma_bracketed, lemma_member_text,
    list_of, member_at, member_text, quoted, value_text, value_under, DocView,
};
use crate::number::{all_digits, digits, int_text, lemma_digits, lemma_parse_of_text, parse_nat};
use crate::split::join;
use crate::text::{is_digit, opt_text, trim};
use crate::waybar::laws::{lemma_body_of_plain, lemma_plain_id, plain_id};
use crate::waybar::spelling::{law_escaped_text_is_said, law_slug_is_a_slug, said};
use crate::waybar::{
    custom_id, custom_members, custom_object, escaped, in_quotes, lane_of, slug_of, text_member,
    CustomSpec,
};

verus! {

/// Whether a value is a JSON string that says a text.
pub open spec fn is_string_of(value: Option<Seq<char>>, text: Seq<char>) -> bool {
    value matches Some(v) && v.len() >= 2 && v == quoted(v.subrange(1, v.len() - 1)) && said(
        v.subrange(1, v.len() - 1),
    ) == Some(text)
}

/// Whether a value is a JSON number that says a number.
pub open spec fn is_number_of(value: Option<Seq<char>>, n: nat) -> bool {
    value matches Some(v) && is_number(v) && parse_nat(v) == Some(n)
}

proof fn lemma_bare(s: Seq<char>)
    requires
        all_digits(s),
    ensures
        bare_len(s) == s.len(),
        digits_len(s) == s.len(),
    decreases s.len(),
{
    if s.len() > 0 {
        assert(is_digit(s[0]));
        let tail = s.skip(1);
        assert forall|i: int| 0 <= i < tail.len() implies is_digit(#[trigger] tail[i]) by {
            assert(tail[i] == s[i + 1]);
        }
        lemma_bare(tail);
    }
}

proof fn lemma_digits_are_a_value(n: nat)
    ensures
        is_value(digits(n)),
        is_number(digits(n)),
{
    let s = digits(n);
    lemma_digits(n);
    lemma_bare(s);
    assert(is_digit(s[0]));
    assert(s.skip(s.len() as int).len() == 0);
    assert(s.take(s.len() as int) =~= s);
    lemma_value_is(s);
}

/// A member whose value is a text.
proof fn lemma_text_member(key: Seq<char>, text: Seq<char>)
    requires
        is_plain(key),
    ensures
        text_member(key, text) == member_text(key, in_quotes(escaped(text))),
        item_fits(text_member(key, text), key, in_quotes(escaped(text))),
        is_string_of(Some(in_quotes(escaped(text))), text),
{
    reveal_strlit("\"");
    reveal_strlit("\": \"");
    reveal_strlit(": ");
    let v = in_quotes(escaped(text));
    law_escaped_text_is_said(text);
    assert(text_member(key, text) =~= member_text(key, v));
    lemma_member_text(key, v);
    assert(v.subrange(1, v.len() - 1) =~= escaped(text));
    assert(v =~= quoted(escaped(text)));
}

/// Whether a text is a member with a key and a value.
spec fn item_fits(text: Seq<char>, key: Seq<char>, value: Seq<char>) -> bool {
    &&& crate::configfs::jsonc::grammar::elem_len(text, true) == Some(text.len())
    &&& key_text(text) == quoted(key)
    &&& value_text(text) == value
}

proof fn lemma_number_member(key: Seq<char>, n: u32)
    requires
        is_plain(key),
    ensures
        item_fits(member_text(key, int_text(n as int)), key, int_text(n as int)),
        is_number_of(Some(int_text(n as int)), n as nat),
{
    lemma_digits_are_a_value(n as nat);
    lemma_parse_of_text(n as int);
    lemma_digits(n as nat);
    assert(is_digit(digits(n as nat)[0]));
    lemma_member_text(key, int_text(n as int));
}

/// Members on lines of their own.
spec fn pieces(members: Seq<Seq<char>>) -> Seq<PieceView> {
    Seq::new(
        members.len(),
        |i: int|
            PieceView {
                before: "\n  "@,
                text: members[i],
                after: if i == members.len() - 1 {
                    "\n"@
                } else {
                    Seq::empty()
                },
            },
    )
}

proof fn lemma_pieces_text(members: Seq<Seq<char>>)
    requires
        members.len() > 0,
    ensures
        items_text(pieces(members)) == "\n  "@ + join(members, ",\n  "@) + "\n"@,
    decreases members.len(),
{
    let (gap, end) = ("\n  "@, "\n"@);
    let all = pieces(members);
    assert(",\n  "@ =~= seq![','] + gap) by {
        reveal_strlit(",\n  ");
        reveal_strlit("\n  ");
    }
    if members.len() == 1 {
        assert(items_text(all) == gap + members[0] + end);
    } else {
        let more = members.skip(1);
        lemma_pieces_text(more);
        assert(all.skip(1) =~= pieces(more)) by {
            assert forall|i: int| 0 <= i < more.len() implies all.skip(1)[i] == pieces(more)[i] by {
                assert(more[i] == members[i + 1]);
            }
        }
        let none = Seq::<char>::empty();
        let rest = join(more, ",\n  "@);
        assert(items_text(all) == gap + members[0] + none + seq![','] + (gap + rest + end));
        assert(gap + members[0] + none + seq![','] + (gap + rest + end) =~= gap + (members[0] + (
        seq![','] + gap) + rest) + end);
    }
}

proof fn lemma_gaps()
    ensures
        is_gap("\n  "@),
        is_gap("\n"@),
        is_gap(Seq::<char>::empty()),
{
    crate::configfs::jsonc::lemma_blank_gaps();
    reveal_strlit("\n");
    let g = "\n"@.push('"');
    assert(g.skip(1) =~= seq!['"']);
    assert(gap_len(seq!['"']) == 0);
    assert(gap_len(g) == 1);
}

/// Where the first member with a key stands, it is the one that is found.
proof fn lemma_found_at(items: Seq<PieceView>, key: Seq<char>, n: int)
    requires
        0 <= n < items.len(),
        key_text(items[n].text) == quoted(key),
        forall|j: int| 0 <= j < n ==> key_text((#[trigger] items[j]).text) != quoted(key),
    ensures
        member_at(items, key) == Some(n),
    decreases items.len(),
{
    if n > 0 {
        assert(key_text(items[0].text) != quoted(key));
        let tail = items.skip(1);
        assert forall|j: int| 0 <= j < n - 1 implies key_text((#[trigger] tail[j]).text) != quoted(
            key,
        ) by {
            assert(tail[j] == items[j + 1]);
        }
        lemma_found_at(tail, key, n - 1);
    }
}

proof fn lemma_not_found(items: Seq<PieceView>, key: Seq<char>)
    requires
        forall|j: int| 0 <= j < items.len() ==> key_text((#[trigger] items[j]).text) != quoted(key),
    ensures
        member_at(items, key) is None,
    decreases items.len(),
{
    if items.len() > 0 {
        assert(key_text(items[0].text) != quoted(key));
        let tail = items.skip(1);
        assert forall|j: int| 0 <= j < tail.len() implies key_text((#[trigger] tail[j]).text)
            != quoted(key) by {
            assert(tail[j] == items[j + 1]);
        }
        lemma_not_found(tail, key);
    }
}

proof fn lemma_keys()
    ensures
        is_plain("exec"@),
        is_plain("interval"@),
        is_plain("format"@),
        is_plain("on-click"@),
        quoted("exec"@) != quoted("interval"@),
        quoted("exec"@) != quoted("format"@),
        quoted("exec"@) != quoted("on-click"@),
        quoted("interval"@) != quoted("format"@),
        quoted("interval"@) != quoted("on-click"@),
        quoted("format"@) != quoted("on-click"@),
{
    reveal_strlit("exec");
    reveal_strlit("interval");
    reveal_strlit("format");
    reveal_strlit("on-click");
    lemma_body_of_plain("exec"@);
    lemma_body_of_plain("interval"@);
    lemma_body_of_plain("format"@);
    lemma_body_of_plain("on-click"@);
    assert("exec"@.push('"') =~= "exec"@ + seq!['"']);
    assert("interval"@.push('"') =~= "interval"@ + seq!['"']);
    assert("format"@.push('"') =~= "format"@ + seq!['"']);
    assert("on-click"@.push('"') =~= "on-click"@ + seq!['"']);
    assert(quoted("exec"@)[1] == 'e');
    assert(quoted("interval"@)[1] == 'i');
    assert(quoted("format"@)[1] == 'f');
    assert(quoted("on-click"@)[1] == 'o');
}

/// The config of a custom module, read as JSON, runs the command that was asked
/// for, as often as was asked for, shows it in the format that was asked for and
/// runs on a click what was asked for; a click command that is blank is none. It
/// says nothing else.
pub proof fn law_custom_config_says_what_was_asked(wanted: CustomSpec)
    ensures
        ({
            let object = custom_object(wanted);
            let clicks = wanted.on_click is Some && trim(wanted.on_click->0@).len() > 0;
            &&& is_value(object)
            &&& is_string_of(value_under(object, "exec"@), wanted.command@)
            &&& is_string_of(value_under(object, "format"@), wanted.format@)
            &&& match wanted.interval {
                Some(n) => is_number_of(value_under(object, "interval"@), n as nat),
                None => value_under(object, "interval"@) is None,
            }
            &&& if clicks {
                is_string_of(value_under(object, "on-click"@), wanted.on_click->0@)
            } else {
                value_under(object, "on-click"@) is None
            }
            &&& list_of(object, true) is Some
            &&& list_of(object, true)->0.items.len() == 2 + (if wanted.interval is Some {
                1int
            } else {
                0
            }) + (if clicks {
                1int
            } else {
                0
            })
        }),
{
    let object = custom_object(wanted);
    let clicks = wanted.on_click is Some && trim(wanted.on_click->0@).len() > 0;
    let timed = wanted.interval is Some;
    let members = custom_members(
        wanted.command@,
        wanted.interval,
        wanted.format@,
        opt_text(wanted.on_click),
    );
    lemma_keys();
    lemma_gaps();
    let (exec, interval, format, click) = ("exec"@, "interval"@, "format"@, "on-click"@);
    let v0 = in_quotes(escaped(wanted.command@));
    let v2 = in_quotes(escaped(wanted.format@));
    lemma_text_member(exec, wanted.command@);
    lemma_text_member(format, wanted.format@);
    let f: int = if timed {
        2
    } else {
        1
    };
    if timed {
        let n = wanted.interval->0;
        lemma_number_member(interval, n);
        assert("\"interval\": "@ + int_text(n as int) =~= member_text(
            interval,
            int_text(n as int),
        )) by {
            reveal_strlit("\"interval\": ");
            reveal_strlit("interval");
            reveal_strlit(": ");
        }
        assert(item_fits(members[1], interval, int_text(n as int)));
    }
    assert(item_fits(members[0], exec, v0));
    assert(item_fits(members[f], format, v2));
    if clicks {
        let c = wanted.on_click->0@;
        lemma_text_member(click, c);
        assert(item_fits(members[f + 1], click, in_quotes(escaped(c))));
    }
    let items = pieces(members);
    let l = ListView { items, end: None };
    assert forall|i: int| 0 <= i < items.len() implies item_wf(#[trigger] items[i], true) by {
        assert(items[i].text == members[i]);
        assert(i == 0 || i == f || i == f + 1 || timed && i == 1);
    }
    assert(list_wf(l, true));
    lemma_bracketed(l, true);
    lemma_pieces_text(members);
    assert(object =~= bracketed(l, true)) by {
        reveal_strlit("{\n  ");
        reveal_strlit("\n  ");
        reveal_strlit("\n}");
        reveal_strlit("\n");
        let inner = join(members, ",\n  "@);
        assert("{\n  "@ =~= seq!['{'] + "\n  "@);
        assert("\n}"@ =~= "\n"@ + seq!['}']);
        assert(list_text(l) =~= "\n  "@ + inner + "\n"@);
    }
    assert(list_of(object, true) == Some(l));
    assert(items[0].text == members[0]);
    assert(items[f].text == members[f]);
    lemma_found_at(items, exec, 0);
    if timed {
        assert(items[1].text == members[1]);
        lemma_found_at(items, interval, 1);
    }
    lemma_found_at(items, format, f);
    if clicks {
        assert(items[f + 1].text == members[f + 1]);
        lemma_found_at(items, click, f + 1);
    } else {
        lemma_not_found(items, click);
    }
    if !timed {
        lemma_not_found(items, interval);
    }
}

/// The id of a custom module stands for itself between quotes.
proof fn lemma_custom_id(name: Seq<char>)
    ensures
        plain_id(custom_id(name)),
        is_plain(custom_id(name)),
{
    reveal_strlit("custom/");
    let id = custom_id(name);
    let s = slug_of(name);
    law_slug_is_a_slug(name);
    assert forall|i: int| 0 <= i < id.len() implies #[trigger] id[i] != '"' && id[i] != '\\' by {
        if i >= 7 {
            assert(id[i] == s[i - 7]);
        }
    }
    lemma_body_of_plain(id);
    assert(id.push('"') =~= id + seq!['"']);
}

/// A custom module that was added to a bar has its config under its id, as it was
/// asked for, and is the last in its lane. Every other member of the config, and
/// every other lane, is as it was.
pub proof fn law_custom_module_is_added(
    d: DocView,
    wanted: CustomSpec,
    lane: Seq<char>,
    other: Seq<char>,
)
    requires
        doc_wf(d),
        list_of(d.root, true) is Some,
        elements(d.root, lane) is Some,
        quoted(lane) != quoted(custom_id(wanted.name@)),
    ensures
        ({
            let id = custom_id(wanted.name@);
            let object = custom_object(wanted);
            &&& insert_member_into(d, id, object) is Ok
            &&& add_item_to(insert_member_into(d, id, object)->Ok_0, lane, in_quotes(id)) is Ok
            &&& ({
                let after = add_item_to(
                    insert_member_into(d, id, object)->Ok_0,
                    lane,
                    in_quotes(id),
                )->Ok_0;
                let found = value_under(after.root, id);
                &&& doc_wf(after)
                &&& found is Some
                &&& is_string_of(value_under(found->0, "exec"@), wanted.command@)
                &&& is_string_of(value_under(found->0, "format"@), wanted.format@)
                &&& wanted.on_click matches Some(c) ==> trim(c@).len() > 0 ==> is_string_of(
                    value_under(found->0, "on-click"@),
                    c@,
                )
                &&& wanted.interval matches Some(n) ==> is_number_of(
                    value_under(found->0, "interval"@),
                    n as nat,
                )
                &&& lane_of(after, lane) == lane_of(d, lane).push(id)
                &&& quoted(other) != quoted(id) && quoted(other) != quoted(lane) ==> value_under(
                    after.root,
                    other,
                ) == value_under(d.root, other)
            })
        }),
{
    let id = custom_id(wanted.name@);
    let object = custom_object(wanted);
    lemma_custom_id(wanted.name@);
    lemma_plain_id(id);
    law_custom_config_says_what_was_asked(wanted);
    law_inserted_member_reads_back(d, id, object, lane);
    law_inserted_member_reads_back(d, id, object, other);
    let now = insert_member_into(d, id, object)->Ok_0;
    assert(elements(now.root, lane) == elements(d.root, lane));
    law_added_item_is_last(now, lane, in_quotes(id), id);
    law_added_item_is_last(now, lane, in_quotes(id), other);
    crate::waybar::laws::law_added_module_is_last(now, lane, id, other);
}

} // verus!
