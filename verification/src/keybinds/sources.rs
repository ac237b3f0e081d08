//! What holds of the keymap that is in effect: how it is read, and which line each
//! of its binds is put down to.

use vstd::prelude::*;

use crate::configfs::hyprlang::{entries_of, is_bind, EntryView, Layer};
use crate::engine::CmdOutput;
use crate::error::Failure;
use crate::keybinds::effective::{confs, layered, paths_of, reported, takes_part};
use crate::keybinds::{
    bind_of, binds_in_text, blank_bind, chord_text, defines, flushed, last_defining, mod_bit,
    mod_names, mods, name_if, source_of, with_field, with_line, BindView, ListingView, RuntimeView,
};
use crate::number::{
    digits, int_text, lemma_digits, lemma_parse_of_text, parse_i64, parse_u16,
};
use crate::order::{is_text_order, lemma_text_order_is, text_before};
use crate::paths::{extension, file_name};
use crate::rice::laws::lemma_text_order_exists;
use crate::split::{is_trimmed, lemma_split_of_join, lemma_trim_id, lemma_trim_padded, split};
use crate::text::{holds, is_digit, is_space, lemma_pos_is, lowered, starts_with, trim, trim_end};

verus! {

// ----------------------------------------------------------------------- modifiers

/// The other names of a modifier stand for the same bit as its own, and each of the
/// eight modifiers for another bit.
pub proof fn law_modifiers_have_their_bits()
    ensures
        mod_bit("SHIFT"@) == 1,
        mod_bit("CAPS"@) == 2 && mod_bit("CAPSLOCK"@) == 2,
        mod_bit("CTRL"@) == 4 && mod_bit("CONTROL"@) == 4,
        mod_bit("ALT"@) == 8 && mod_bit("MOD1"@) == 8,
        mod_bit("MOD2"@) == 16,
        mod_bit("MOD3"@) == 32,
        mod_bit("SUPER"@) == 64 && mod_bit("MOD4"@) == 64 && mod_bit("WIN"@) == 64 && mod_bit(
            "META"@,
        ) == 64,
        mod_bit("MOD5"@) == 128,
{
    reveal_strlit("SHIFT");
    reveal_strlit("CAPS");
    reveal_strlit("CAPSLOCK");
    reveal_strlit("CTRL");
    reveal_strlit("CONTROL");
    reveal_strlit("ALT");
    reveal_strlit("MOD1");
    reveal_strlit("MOD2");
    reveal_strlit("MOD3");
    reveal_strlit("SUPER");
    reveal_strlit("MOD4");
    reveal_strlit("WIN");
    reveal_strlit("META");
    reveal_strlit("MOD5");
    lemma_is_upper("SHIFT"@);
    lemma_is_upper("CAPS"@);
    lemma_is_upper("CAPSLOCK"@);
    lemma_is_upper("CTRL"@);
    lemma_is_upper("CONTROL"@);
    lemma_is_upper("ALT"@);
    lemma_is_upper("MOD1"@);
    lemma_is_upper("MOD2"@);
    lemma_is_upper("MOD3"@);
    lemma_is_upper("SUPER"@);
    lemma_is_upper("MOD4"@);
    lemma_is_upper("WIN"@);
    lemma_is_upper("META"@);
    lemma_is_upper("MOD5"@);
    assert("SUPER"@[1] == 'U' && "SHIFT"@[1] == 'H');
    assert("CTRL"@[1] == 'T' && "CAPS"@[1] == 'A' && "META"@[0] == 'M' && "META"@[1] == 'E');
    assert("CTRL"@[0] == 'C' && "CAPS"@[0] == 'C');
    assert("ALT"@[0] == 'A' && "WIN"@[0] == 'W');
    assert("MOD1"@[3] == '1' && "MOD2"@[3] == '2' && "MOD3"@[3] == '3' && "MOD4"@[3] == '4'
        && "MOD5"@[3] == '5' && "META"@[3] == 'A');
    assert("MOD1"@[0] == 'M' && "MOD2"@[0] == 'M' && "MOD3"@[0] == 'M' && "MOD4"@[0] == 'M'
        && "MOD5"@[0] == 'M');
    assert("CONTROL"@.len() == 7 && "CAPSLOCK"@.len() == 8);
}

proof fn lemma_is_upper(s: Seq<char>)
    requires
        forall|i: int| 0 <= i < s.len() ==> !('a' <= #[trigger] s[i] <= 'z'),
    ensures
        crate::text::uppered(s) == s,
{
    assert(crate::text::uppered(s) =~= s);
}

/// A modifier is named just where its bit is set; the names come in one order.
pub proof fn law_set_bits_are_named(mask: u16)
    ensures
        mod_names(mask).contains("SUPER"@) <==> mask & 64 != 0,
        mod_names(mask).contains("CTRL"@) <==> mask & 4 != 0,
        mod_names(mask).contains("ALT"@) <==> mask & 8 != 0,
        mod_names(mask).contains("SHIFT"@) <==> mask & 1 != 0,
        mod_names(mask).contains("CAPS"@) <==> mask & 2 != 0,
        mod_names(mask).contains("MOD5"@) <==> mask & 128 != 0,
{
    reveal_strlit("SUPER");
    reveal_strlit("CTRL");
    reveal_strlit("ALT");
    reveal_strlit("SHIFT");
    reveal_strlit("CAPS");
    reveal_strlit("MOD5");
    assert("SUPER"@[1] == 'U' && "SHIFT"@[1] == 'H');
    assert("CTRL"@[1] == 'T' && "CAPS"@[1] == 'A' && "MOD5"@[1] == 'O');
    assert("CTRL"@.len() == 4 && "CAPS"@.len() == 4 && "MOD5"@.len() == 4 && "ALT"@.len() == 3
        && "SUPER"@.len() == 5 && "SHIFT"@.len() == 5);
    let a = name_if(mask & mods::SUPER != 0, "SUPER"@);
    let b = name_if(mask & mods::CTRL != 0, "CTRL"@);
    let c = name_if(mask & mods::ALT != 0, "ALT"@);
    let d = name_if(mask & mods::SHIFT != 0, "SHIFT"@);
    let e = name_if(mask & mods::CAPS != 0, "CAPS"@);
    let f = name_if(mask & mods::MOD5 != 0, "MOD5"@);
    let all = mod_names(mask);
    assert(all == a + b + c + d + e + f);
    lemma_sum_holds(a, b, "SUPER"@);
    lemma_all_hold(a, b, c, d, e, f, "SUPER"@);
    lemma_all_hold(a, b, c, d, e, f, "CTRL"@);
    lemma_all_hold(a, b, c, d, e, f, "ALT"@);
    lemma_all_hold(a, b, c, d, e, f, "SHIFT"@);
    lemma_all_hold(a, b, c, d, e, f, "CAPS"@);
    lemma_all_hold(a, b, c, d, e, f, "MOD5"@);
    lemma_one("SUPER"@, mask & mods::SUPER != 0);
    lemma_one("CTRL"@, mask & mods::CTRL != 0);
    lemma_one("ALT"@, mask & mods::ALT != 0);
    lemma_one("SHIFT"@, mask & mods::SHIFT != 0);
    lemma_one("CAPS"@, mask & mods::CAPS != 0);
    lemma_one("MOD5"@, mask & mods::MOD5 != 0);
}

proof fn lemma_one(name: Seq<char>, on: bool)
    ensures
        forall|x: Seq<char>| #[trigger] name_if(on, name).contains(x) <==> on && x == name,
{
    let s = name_if(on, name);
    if on {
        assert(s[0] == name);
    }
}

proof fn lemma_sum_holds(a: Seq<Seq<char>>, b: Seq<Seq<char>>, x: Seq<char>)
    ensures
        (a + b).contains(x) <==> a.contains(x) || b.contains(x),
{
    let s = a + b;
    if a.contains(x) {
        let i = choose|i: int| 0 <= i < a.len() && a[i] == x;
        assert(s[i] == x);
    }
    if b.contains(x) {
        let i = choose|i: int| 0 <= i < b.len() && b[i] == x;
        assert(s[a.len() + i] == x);
    }
}

proof fn lemma_all_hold(
    a: Seq<Seq<char>>,
    b: Seq<Seq<char>>,
    c: Seq<Seq<char>>,
    d: Seq<Seq<char>>,
    e: Seq<Seq<char>>,
    f: Seq<Seq<char>>,
    x: Seq<char>,
)
    ensures
        (a + b + c + d + e + f).contains(x) <==> a.contains(x) || b.contains(x) || c.contains(x)
            || d.contains(x) || e.contains(x) || f.contains(x),
{
    lemma_sum_holds(a, b, x);
    lemma_sum_holds(a + b, c, x);
    lemma_sum_holds(a + b + c, d, x);
    lemma_sum_holds(a + b + c + d, e, x);
    lemma_sum_holds(a + b + c + d + e, f, x);
}

/// A chord as it is shown, taken apart at its plus signs, is the names of its
/// modifiers and then its key.
pub proof fn law_chord_shows_modifiers_and_key(mask: u16, key: Seq<char>)
    requires
        key.len() > 0,
        !holds(key, '+'),
    ensures
        split(chord_text(mask, key), '+') == mod_names(mask).push(key),
{
    reveal_strlit("+");
    reveal_strlit("SUPER");
    reveal_strlit("CTRL");
    reveal_strlit("ALT");
    reveal_strlit("SHIFT");
    reveal_strlit("CAPS");
    reveal_strlit("MOD5");
    assert("+"@ =~= seq!['+']);
    let names = mod_names(mask);
    let parts = names.push(key);
    assert forall|i: int| 0 <= i < parts.len() implies !holds(#[trigger] parts[i], '+') by {
        if i < names.len() {
            assert(parts[i] == names[i]);
            assert(names[i] == "SUPER"@ || names[i] == "CTRL"@ || names[i] == "ALT"@ || names[i]
                == "SHIFT"@ || names[i] == "CAPS"@ || names[i] == "MOD5"@);
        }
    }
    lemma_split_of_join(parts, '+');
}

// ----------------------------------------------------------------- attribution

/// The line that a bind is put down to defines it: it has the bind's modifiers and
/// argument, its dispatcher but for case, and its key but for case or by its code.
/// It stands in one of the files, and its layer is that file's.
pub proof fn law_source_defines_the_bind(
    docs: Seq<(Layer, Seq<Seq<char>>)>,
    rt: RuntimeView,
)
    ensures
        source_of(docs, rt) matches Some((layer, b)) ==> {
            &&& b.modmask == rt.modmask
            &&& b.arg == rt.arg
            &&& lowered(b.dispatcher) == lowered(rt.dispatcher)
            &&& lowered(b.key) == lowered(rt.key) || starts_with(b.key, "code:"@) && parse_i64(
                trim(b.key.skip(5)),
            ) == Some(rt.keycode)
            &&& exists|i: int, k: int|
                #![trigger docs[i], entries_of(docs[i].1)[k]]
                0 <= i < docs.len() && docs[i].0 == layer && 0 <= k < entries_of(docs[i].1).len()
                    && bind_of(entries_of(docs[i].1)[k].key, entries_of(docs[i].1)[k].value)
                    == Some(b)
        },
    decreases docs.len(),
{
    reveal_strlit("code:");
    if docs.len() > 0 {
        let n = docs.len() - 1;
        let (layer, lines) = docs.last();
        let all = entries_of(lines);
        let es = all.filter(|e: EntryView| is_bind(e));
        match last_defining(es, rt) {
            Some(b) => {
                let k = lemma_last_defining(es, rt);
                lemma_filter_part(all, es[k]);
                let j = choose|j: int| 0 <= j < all.len() && all[j] == es[k];
                assert(docs[n].1 == lines);
                assert(bind_of(entries_of(docs[n].1)[j].key, entries_of(docs[n].1)[j].value)
                    == Some(b));
            },
            None => {
                let front = docs.drop_last();
                law_source_defines_the_bind(front, rt);
                if let Some((l, b)) = source_of(front, rt) {
                    let (i, k) = choose|i: int, k: int|
                        #![trigger front[i], entries_of(front[i].1)[k]]
                        0 <= i < front.len() && front[i].0 == l && 0 <= k < entries_of(
                            front[i].1,
                        ).len() && bind_of(
                            entries_of(front[i].1)[k].key,
                            entries_of(front[i].1)[k].value,
                        ) == Some(b);
                    assert(docs[i] == front[i]);
                    assert(bind_of(entries_of(docs[i].1)[k].key, entries_of(docs[i].1)[k].value)
                        == Some(b));
                }
            },
        }
    }
}

proof fn lemma_filter_part(all: Seq<EntryView>, e: EntryView)
    requires
        all.filter(|e: EntryView| is_bind(e)).contains(e),
    ensures
        all.contains(e),
    decreases all.len(),
{
    reveal(Seq::filter);
    let f = |e: EntryView| is_bind(e);
    if all.len() > 0 {
        let front = all.drop_last();
        let kept = all.filter(f);
        let k = choose|k: int| 0 <= k < kept.len() && kept[k] == e;
        if k < front.filter(f).len() {
            assert(front.filter(f)[k] == e);
            lemma_filter_part(front, e);
            let j = choose|j: int| 0 <= j < front.len() && front[j] == e;
            assert(all[j] == e);
        } else {
            assert(all[all.len() - 1] == e);
        }
    }
}

proof fn lemma_filter_holds(all: Seq<EntryView>, k: int) -> (j: int)
    requires
        0 <= k < all.len(),
        is_bind(all[k]),
    ensures
        0 <= j < all.filter(|e: EntryView| is_bind(e)).len(),
        all.filter(|e: EntryView| is_bind(e))[j] == all[k],
    decreases all.len(),
{
    reveal(Seq::filter);
    let f = |e: EntryView| is_bind(e);
    let front = all.drop_last();
    if k < front.len() {
        let j = lemma_filter_holds(front, k);
        assert(all.filter(f)[j] == front.filter(f)[j]);
        j
    } else {
        all.filter(f).len() - 1
    }
}

proof fn lemma_last_defining(es: Seq<EntryView>, rt: RuntimeView) -> (k: int)
    requires
        last_defining(es, rt) is Some,
    ensures
        0 <= k < es.len(),
        bind_of(es[k].key, es[k].value) == last_defining(es, rt),
        defines(last_defining(es, rt)->0, rt),
        forall|j: int|
            k < j < es.len() ==> !(bind_of((#[trigger] es[j]).key, es[j].value) matches Some(b)
                && defines(b, rt)),
    decreases es.len(),
{
    let front = es.drop_last();
    let last = es.last();
    if bind_of(last.key, last.value) is Some && defines(bind_of(last.key, last.value)->0, rt) {
        es.len() - 1
    } else {
        let k = lemma_last_defining(front, rt);
        assert forall|j: int| k < j < es.len() implies !(bind_of((#[trigger] es[j]).key, es[j].value)
            matches Some(b) && defines(b, rt)) by {
            if j < front.len() {
                assert(front[j] == es[j]);
            } else {
                assert(es[j] == last);
            }
        }
        k
    }
}

proof fn lemma_some_defines(es: Seq<EntryView>, rt: RuntimeView, k: int)
    requires
        0 <= k < es.len(),
        bind_of(es[k].key, es[k].value) matches Some(b) && defines(b, rt),
    ensures
        last_defining(es, rt) is Some,
    decreases es.len(),
{
    let front = es.drop_last();
    if k < front.len() {
        assert(front[k] == es[k]);
        lemma_some_defines(front, rt, k);
    }
}

/// A bind that some line of some file defines is put down to a line: to one of the
/// same file or of a later one. A line defines a bind where the modifiers and the
/// argument are the same, and the dispatcher and the key but for their case.
pub proof fn law_defined_binds_have_a_source(
    docs: Seq<(Layer, Seq<Seq<char>>)>,
    rt: RuntimeView,
    i: int,
    k: int,
    b: BindView,
)
    requires
        0 <= i < docs.len(),
        0 <= k < entries_of(docs[i].1).len(),
        bind_of(entries_of(docs[i].1)[k].key, entries_of(docs[i].1)[k].value) == Some(b),
        b.modmask == rt.modmask,
        b.arg == rt.arg,
        lowered(b.dispatcher) == lowered(rt.dispatcher),
        if starts_with(b.key, "code:"@) {
            parse_i64(trim(b.key.skip(5))) == Some(rt.keycode)
        } else {
            lowered(b.key) == lowered(rt.key)
        },
    ensures
        source_of(docs, rt) is Some,
        source_of(docs.skip(i), rt) == source_of(docs, rt),
    decreases docs.len(),
{
    reveal_strlit("code:");
    let (layer, lines) = docs.last();
    let all = entries_of(lines);
    let es = all.filter(|e: EntryView| is_bind(e));
    let front = docs.drop_last();
    assert(defines(b, rt));
    let tail = docs.skip(i);
    assert(tail.last() == docs.last());
    if i == docs.len() - 1 {
        assert(is_bind(all[k]));
        let j = lemma_filter_holds(all, k);
        lemma_some_defines(es, rt, j);
    } else if last_defining(es, rt) is None {
        assert(front[i] == docs[i]);
        law_defined_binds_have_a_source(front, rt, i, k, b);
        assert(tail.drop_last() =~= front.skip(i));
    }
}

/// Of two lines of one file that define a bind the later one counts.
pub proof fn law_later_line_counts(es: Seq<EntryView>, e: EntryView, rt: RuntimeView)
    ensures
        last_defining(es.push(e), rt) == match bind_of(e.key, e.value) {
            Some(b) => if b.modmask == rt.modmask && b.arg == rt.arg && lowered(b.dispatcher)
                == lowered(rt.dispatcher) && (if starts_with(b.key, "code:"@) {
                parse_i64(trim(b.key.skip(5))) == Some(rt.keycode)
            } else {
                lowered(b.key) == lowered(rt.key)
            }) {
                Some(b)
            } else {
                last_defining(es, rt)
            },
            None => last_defining(es, rt),
        },
{
    reveal_strlit("code:");
    assert(es.push(e).drop_last() =~= es);
}

// --------------------------------------------------------------------- the layers

/// The user's file is read last, whatever else there is, and is the only one of its
/// layer; the files in front of it are Omarchy's, and without the user's file there
/// are only those.
pub proof fn law_users_bindings_are_last(
    files: Seq<(Seq<char>, Option<Seq<char>>)>,
    user: Option<Seq<char>>,
)
    ensures
        ({
            let docs = layered(files, user);
            let n = confs(files).len() as int;
            &&& forall|i: int| 0 <= i < n ==> (#[trigger] docs[i]).0 == Layer::Default
            &&& match user {
                Some(t) => docs.len() == n + 1 && docs.last() == (Layer::User, split(t, '\n')),
                None => docs.len() == n,
            }
        }),
{
    let keys = paths_of(confs(files));
    let order = lemma_text_order_exists(keys);
    lemma_text_order_is(keys, order);
}

/// Omarchy's files are read in the order of their paths: each `.conf` that can be
/// read, and nothing else.
pub proof fn law_default_bindings_are_read_by_path(
    files: Seq<(Seq<char>, Option<Seq<char>>)>,
    user: Option<Seq<char>>,
    k: int,
)
    requires
        0 <= k < files.len(),
        extension(file_name(files[k].0)) == Some("conf"@),
        files[k].1 is Some,
    ensures
        exists|i: int|
            0 <= i < confs(files).len() && #[trigger] layered(files, user)[i] == (
                Layer::Default,
                split(files[k].1->0, '\n'),
            ),
{
    let part = confs(files);
    let keys = paths_of(part);
    let order = lemma_text_order_exists(keys);
    lemma_text_order_is(keys, order);
    lemma_conf_holds(files, k);
    let j = choose|j: int| 0 <= j < part.len() && part[j] == files[k];
    lemma_order_holds(keys, order, j);
    let i = choose|i: int| 0 <= i < order.len() && order[i] == j;
    assert(layered(files, user)[i] == (Layer::Default, split(part[order[i]].1->0, '\n')));
}

proof fn lemma_order_holds(keys: Seq<Seq<char>>, order: Seq<int>, j: int)
    requires
        is_text_order(keys, order),
        0 <= j < keys.len(),
    ensures
        order.contains(j),
{
    assert forall|a: int, b: int| 0 <= a < b < order.len() implies order[a] != order[b] by {
        crate::order::lemma_text_irreflexive(keys[order[a]]);
    }
    crate::order::lemma_onto(order, j);
}

proof fn lemma_conf_holds(files: Seq<(Seq<char>, Option<Seq<char>>)>, k: int)
    requires
        0 <= k < files.len(),
        takes_part(files[k]),
    ensures
        confs(files).contains(files[k]),
    decreases files.len(),
{
    reveal(Seq::filter);
    let front = files.drop_last();
    let all = confs(files);
    if k < front.len() {
        lemma_conf_holds(front, k);
        let j = choose|j: int| 0 <= j < confs(front).len() && confs(front)[j] == front[k];
        assert(all[j] == files[k]);
    } else {
        assert(all[all.len() - 1] == files[k]);
    }
}

/// Of two of Omarchy's files the one whose path comes first is read first: what is
/// read is each file that takes part, once, by path.
pub proof fn law_default_bindings_are_in_order(
    files: Seq<(Seq<char>, Option<Seq<char>>)>,
    user: Option<Seq<char>>,
)
    ensures
        exists|order: Seq<int>| #[trigger] is_reading_order(files, layered(files, user), order),
{
    let part = confs(files);
    let keys = paths_of(part);
    let order = lemma_text_order_exists(keys);
    lemma_text_order_is(keys, order);
    assert forall|a: int, b: int| 0 <= a < b < order.len() implies order[a] != order[b] && !text_before(
        part[#[trigger] order[b]].0,
        part[#[trigger] order[a]].0,
    ) by {
        let (x, y) = (keys[order[a]], keys[order[b]]);
        assert(text_before(x, y) || x == y);
        crate::order::lemma_text_irreflexive(x);
        if text_before(x, y) && text_before(y, x) {
            crate::order::lemma_text_transitive(x, y, x);
        }
    }
    assert(is_reading_order(files, layered(files, user), order));
}

/// Whether documents are those of the files that take part, each once, and none in
/// front of one whose path comes before its own.
pub open spec fn is_reading_order(
    files: Seq<(Seq<char>, Option<Seq<char>>)>,
    docs: Seq<(Layer, Seq<Seq<char>>)>,
    order: Seq<int>,
) -> bool {
    let part = confs(files);
    &&& order.len() == part.len() <= docs.len()
    &&& forall|i: int|
        0 <= i < order.len() ==> 0 <= #[trigger] order[i] < part.len() && docs[i] == (
            Layer::Default,
            split(part[order[i]].1->0, '\n'),
        )
    &&& forall|a: int, b: int|
        0 <= a < b < order.len() ==> order[a] != order[b] && !text_before(
            part[#[trigger] order[b]].0,
            part[#[trigger] order[a]].0,
        )
}

// ----------------------------------------------------------------------- listings

/// A line of a listing that gives a field gives that field of the bind above it.
proof fn lemma_field_line(st: ListingView, name: Seq<char>, v: Seq<char>)
    requires
        st.current is Some,
        name.len() > 0,
        is_trimmed(name),
        !holds(name, ':'),
        is_trimmed(v),
    ensures
        with_line(st, seq!['\t'] + name + seq![':', ' '] + v) == (ListingView {
            current: Some(with_field(st.current->0, name, v)),
            ..st
        }),
{
    let line = seq!['\t'] + name + seq![':', ' '] + v;
    let p = name.len() + 1int;
    assert forall|i: int| 0 <= i < p implies line[i] != ':' by {
        if i > 0 {
            assert(line[i] == name[i - 1]);
        }
    }
    assert(line[p] == ':');
    lemma_pos_is(line, ':', p);
    assert(line.take(p) =~= seq!['\t'] + name + Seq::<char>::empty());
    assert(line.skip(p + 1) =~= seq![' '] + v + Seq::<char>::empty());
    lemma_trim_padded(seq!['\t'], name, Seq::empty());
    lemma_trim_padded(seq![' '], v, Seq::empty());
    assert(trim(line).len() > 0) by {
        crate::split::lemma_trim_start_result(line);
        crate::split::lemma_trim_end_result(crate::text::trim_start(line));
        if trim(line).len() == 0 {
            let t = crate::text::trim_start(line);
            let k = line.len() - t.len();
            assert(line[1] == name[0]);
            if k > 1 {
                assert(line.take(k)[1] == line[1]);
                assert(is_space(line.take(k)[1]));
            } else {
                assert(t.len() > 0);
                assert(is_space(t.skip(0)[0]));
                assert(t.skip(0)[0] == t[0]);
            }
        }
    }
}

proof fn lemma_names()
    ensures
        is_trimmed("modmask"@) && !holds("modmask"@, ':') && "modmask"@.len() == 7,
        is_trimmed("submap"@) && !holds("submap"@, ':') && "submap"@.len() == 6,
        is_trimmed("key"@) && !holds("key"@, ':') && "key"@.len() == 3,
        is_trimmed("keycode"@) && !holds("keycode"@, ':') && "keycode"@.len() == 7,
        is_trimmed("description"@) && !holds("description"@, ':') && "description"@.len() == 11,
        is_trimmed("dispatcher"@) && !holds("dispatcher"@, ':') && "dispatcher"@.len() == 10,
        is_trimmed("arg"@) && !holds("arg"@, ':') && "arg"@.len() == 3,
        "modmask"@ != "keycode"@,
        "key"@ != "arg"@,
{
    reveal_strlit("modmask");
    reveal_strlit("submap");
    reveal_strlit("key");
    reveal_strlit("keycode");
    reveal_strlit("description");
    reveal_strlit("dispatcher");
    reveal_strlit("arg");
    assert("modmask"@[0] == 'm' && "keycode"@[0] == 'k' && "key"@[0] == 'k' && "arg"@[0] == 'a');
}

/// A line of a listing.
pub open spec fn field_line(name: Seq<char>, v: Seq<char>) -> Seq<char> {
    seq!['\t'] + name + seq![':', ' '] + v
}

/// A listing behind the lines of a bind.
pub open spec fn with_listed(st: ListingView, directive: Seq<char>, b: RuntimeView) -> ListingView {
    let s0 = with_line(st, directive);
    let s1 = with_line(s0, field_line("modmask"@, int_text(b.modmask as int)));
    let s2 = with_line(s1, field_line("submap"@, b.submap));
    let s3 = with_line(s2, field_line("key"@, b.key));
    let s4 = with_line(s3, field_line("keycode"@, int_text(b.keycode as int)));
    let s5 = with_line(s4, field_line("description"@, b.description));
    let s6 = with_line(s5, field_line("dispatcher"@, b.dispatcher));
    with_line(s6, field_line("arg"@, b.arg))
}

/// A bind that a listing spells out field by field is read as that bind, behind
/// those in front of it. A bind must have a key or a key code, and a directive that
/// is one. The three flags that a listing does not give are off.
pub proof fn law_listed_bind_is_read(st: ListingView, directive: Seq<char>, b: RuntimeView)
    requires
        directive.len() >= 4,
        directive.take(4) == "bind"@,
        !is_space(directive.last()),
        is_trimmed(b.submap),
        is_trimmed(b.key),
        is_trimmed(b.description),
        is_trimmed(b.dispatcher),
        is_trimmed(b.arg),
        !b.locked && !b.release && !b.repeat,
        b.key.len() > 0 || b.keycode != 0,
    ensures
        flushed(with_listed(st, directive, b)) == flushed(st).push(b),
{
    lemma_names();
    reveal_strlit("bind");
    assert(directive.take(4)[0] == directive[0]);
    lemma_trim_id(directive);
    assert(starts_with(trim_end(directive), "bind"@));
    let (m, k) = (int_text(b.modmask as int), int_text(b.keycode as int));
    lemma_parse_of_text(b.modmask as int);
    lemma_parse_of_text(b.keycode as int);
    assert(!is_space(m[0]) && !is_space(m[m.len() - 1]));
    assert(!is_space(k[0]) && !is_space(k[k.len() - 1]));
    let s0 = with_line(st, directive);
    assert(s0 == (ListingView { done: flushed(st), current: Some(blank_bind()) }));
    let s1 = with_line(s0, field_line("modmask"@, m));
    lemma_field_line(s0, "modmask"@, m);
    lemma_u16(b.modmask);
    let s2 = with_line(s1, field_line("submap"@, b.submap));
    lemma_field_line(s1, "submap"@, b.submap);
    let s3 = with_line(s2, field_line("key"@, b.key));
    lemma_field_line(s2, "key"@, b.key);
    let s4 = with_line(s3, field_line("keycode"@, k));
    lemma_field_line(s3, "keycode"@, k);
    let s5 = with_line(s4, field_line("description"@, b.description));
    lemma_field_line(s4, "description"@, b.description);
    let s6 = with_line(s5, field_line("dispatcher"@, b.dispatcher));
    lemma_field_line(s5, "dispatcher"@, b.dispatcher);
    lemma_field_line(s6, "arg"@, b.arg);
}

proof fn lemma_u16(n: u16)
    ensures
        parse_u16(int_text(n as int)) == Some(n),
{
    lemma_parse_of_text(n as int);
    lemma_digits(n as nat);
    assert(is_digit(digits(n as nat)[0]));
}

/// The compositor's own error stands where it failed. Else its JSON counts, and
/// only where that cannot be read the plain listing, if it came and holds a bind.
pub proof fn law_json_counts_before_the_listing(
    out: CmdOutput,
    parsed: Result<Seq<RuntimeView>, Failure>,
    plain: Option<CmdOutput>,
)
    ensures
        !out.succeeded() ==> (reported(out, parsed, plain) matches Err(Failure::External {
            cmd,
            detail,
        }) && cmd == "hyprctl binds -j"@ && (trim(out.stderr@).len() > 0 ==> detail == trim(
            out.stderr@,
        ))),
        out.succeeded() && parsed is Ok ==> reported(out, parsed, plain) == parsed,
        out.succeeded() && parsed is Err && plain is None ==> reported(out, parsed, plain) == parsed,
        out.succeeded() && parsed is Err && plain is Some && plain->0.succeeded() && binds_in_text(
            plain->0.stdout@,
        ).len() > 0 ==> reported(out, parsed, plain) == Ok::<Seq<RuntimeView>, Failure>(
            binds_in_text(plain->0.stdout@),
        ),
        out.succeeded() && parsed is Err && plain is Some && (!plain->0.succeeded()
            || binds_in_text(plain->0.stdout@).len() == 0) ==> reported(out, parsed, plain)
            == parsed,
{
}

} // verus!
