//! What holds of the keymap as a whole: a bind that is written is read back.

use vstd::prelude::*;

use crate::configfs::hyprlang::{
    entries_from, entries_of, is_bind, lemma_trim_head, line_view, EntryView, Layer, LineView,
};
use crate::configfs::managed::{located, CommentStyle};
use crate::keybinds::mods;
use crate::keybinds::overrides::{
    block_body, block_close, block_open, first_marked, is_marked, override_line, override_lines,
    override_of, overrides_in, overrides_of, unbind_line, unmarked, with_marked, with_overrides,
    OverrideView,
};
use crate::keybinds::{
    bind_line, bind_of, field, has_description, last_defining, mask_in, mask_of, mod_bit, mod_names,
    name_if, source_of, BindView, RuntimeView,
};
use crate::split::{
    is_trimmed, is_word, join, lemma_split_cons, lemma_split_of_join, lemma_splitn_cons,
    lemma_splitn_none, lemma_splitn_of_trim, lemma_trim_id, lemma_trim_padded, lemma_word_len,
    lemma_words_of_join, split, splitn, trims, word_len, words,
};
use crate::text::{
    contains, holds, is_space, lemma_pos_is, lower, lowered, starts_with, trim, upper, uppered,
};

verus! {

// ------------------------------------------------------------------ modifiers

/// The modifiers that have a name in the display order.
pub open spec fn shown(mask: u16) -> u16 {
    mask & 207
}

proof fn lemma_mask_of_sum(a: Seq<Seq<char>>, b: Seq<Seq<char>>)
    ensures
        mask_of(a + b) == mask_of(a) | mask_of(b),
    decreases b.len(),
{
    if b.len() == 0 {
        assert(a + b == a);
        let m = mask_of(a);
        assert(m | 0 == m) by (bit_vector);
    } else {
        lemma_mask_of_sum(a, b.drop_last());
        assert((a + b).drop_last() == a + b.drop_last());
        let (x, y, z) = (mask_of(a), mask_of(b.drop_last()), mod_bit(b.last()));
        assert((x | y) | z == x | (y | z)) by (bit_vector);
    }
}

proof fn lemma_mask_of_name(on: bool, name: Seq<char>)
    ensures
        mask_of(name_if(on, name)) == if on {
            mod_bit(name)
        } else {
            0
        },
{
    if on {
        let one = seq![name];
        assert(one.drop_last() == Seq::<Seq<char>>::empty());
        assert(mask_of(one) == mask_of(one.drop_last()) | mod_bit(name));
        let m = mod_bit(name);
        assert(0 | m == m) by (bit_vector);
    }
}

/// The names of the display order stand for their own bits.
proof fn lemma_names()
    ensures
        mod_bit("SUPER"@) == mods::SUPER,
        mod_bit("CTRL"@) == mods::CTRL,
        mod_bit("ALT"@) == mods::ALT,
        mod_bit("SHIFT"@) == mods::SHIFT,
        mod_bit("CAPS"@) == mods::CAPS,
        mod_bit("MOD5"@) == mods::MOD5,
        is_word("SUPER"@),
        is_word("CTRL"@),
        is_word("ALT"@),
        is_word("SHIFT"@),
        is_word("CAPS"@),
        is_word("MOD5"@),
        !holds("SUPER"@, ','),
        !holds("CTRL"@, ','),
        !holds("ALT"@, ','),
        !holds("SHIFT"@, ','),
        !holds("CAPS"@, ','),
        !holds("MOD5"@, ','),
{
    reveal_strlit("SHIFT");
    reveal_strlit("CAPS");
    reveal_strlit("CAPSLOCK");
    reveal_strlit("CTRL");
    reveal_strlit("CONTROL");
    reveal_strlit("ALT");
    reveal_strlit("MOD1");
    reveal_strlit("MOD2");
    reveal_strlit("MOD3");
    reveal_strlit("SUPER");
    reveal_strlit("MOD4");
    reveal_strlit("WIN");
    reveal_strlit("META");
    reveal_strlit("MOD5");
    assert(uppered("SUPER"@) == "SUPER"@);
    assert(uppered("CTRL"@) == "CTRL"@);
    assert(uppered("ALT"@) == "ALT"@);
    assert(uppered("SHIFT"@) == "SHIFT"@);
    assert(uppered("CAPS"@) == "CAPS"@);
    assert(uppered("MOD5"@) == "MOD5"@);
    assert("SUPER"@[1] == 'U' && "SHIFT"@[1] == 'H');
    assert("CTRL"@[1] == 'T' && "CAPS"@[1] == 'A');
    assert("MOD5"@[3] == '5' && "MOD1"@[3] == '1' && "MOD2"@[3] == '2' && "MOD3"@[3] == '3'
        && "MOD4"@[3] == '4');
    assert("MOD5"@[0] == 'M' && "CAPS"@[0] == 'C' && "CTRL"@[0] == 'C');
    assert("MOD5"@[1] == 'O' && "META"@[1] == 'E');
}

proof fn lemma_mod_names(mask: u16)
    ensures
        forall|i: int|
            0 <= i < mod_names(mask).len() ==> is_word(#[trigger] mod_names(mask)[i]) && !holds(
                mod_names(mask)[i],
                ',',
            ),
        mask_of(mod_names(mask)) == shown(mask),
{
    lemma_names();
    let a = name_if(mask & mods::SUPER != 0, "SUPER"@);
    let b = name_if(mask & mods::CTRL != 0, "CTRL"@);
    let c = name_if(mask & mods::ALT != 0, "ALT"@);
    let d = name_if(mask & mods::SHIFT != 0, "SHIFT"@);
    let e = name_if(mask & mods::CAPS != 0, "CAPS"@);
    let f = name_if(mask & mods::MOD5 != 0, "MOD5"@);
    lemma_mask_of_name(mask & mods::SUPER != 0, "SUPER"@);
    lemma_mask_of_name(mask & mods::CTRL != 0, "CTRL"@);
    lemma_mask_of_name(mask & mods::ALT != 0, "ALT"@);
    lemma_mask_of_name(mask & mods::SHIFT != 0, "SHIFT"@);
    lemma_mask_of_name(mask & mods::CAPS != 0, "CAPS"@);
    lemma_mask_of_name(mask & mods::MOD5 != 0, "MOD5"@);
    lemma_mask_of_sum(a, b);
    lemma_mask_of_sum(a + b, c);
    lemma_mask_of_sum(a + b + c, d);
    lemma_mask_of_sum(a + b + c + d, e);
    lemma_mask_of_sum(a + b + c + d + e, f);
    assert(({
        let p = if mask & 64 != 0 { 64u16 } else { 0u16 };
        let q = if mask & 4 != 0 { 4u16 } else { 0u16 };
        let r = if mask & 8 != 0 { 8u16 } else { 0u16 };
        let s = if mask & 1 != 0 { 1u16 } else { 0u16 };
        let t = if mask & 2 != 0 { 2u16 } else { 0u16 };
        let u = if mask & 128 != 0 { 128u16 } else { 0u16 };
        ((((p | q) | r) | s) | t) | u == mask & 207
    })) by (bit_vector);
}

/// Text made of words that hold no comma.
proof fn lemma_joined_words(ws: Seq<Seq<char>>)
    requires
        forall|i: int|
            0 <= i < ws.len() ==> is_word(#[trigger] ws[i]) && !holds(ws[i], ','),
    ensures
        is_trimmed(join(ws, seq![' '])),
        !holds(join(ws, seq![' ']), ','),
        !holds(join(ws, seq![' ']), '\n'),
        ws.len() > 0 ==> join(ws, seq![' ']).len() > 0,
    decreases ws.len(),
{
    let blank: Seq<char> = seq![' '];
    let s = join(ws, blank);
    assert(is_space('\n'));
    if ws.len() == 1 {
    } else if ws.len() > 1 {
        let more = ws.skip(1);
        assert forall|i: int| 0 <= i < more.len() implies is_word(#[trigger] more[i]) && !holds(
            more[i],
            ',',
        ) by {
            assert(more[i] == ws[i + 1]);
        }
        lemma_joined_words(more);
        let t = join(more, blank);
        assert(s == ws[0] + blank + t);
        assert forall|i: int| 0 <= i < s.len() implies s[i] != ',' && s[i] != '\n' by {
            if i < ws[0].len() {
                assert(s[i] == ws[0][i]);
            } else if i > ws[0].len() {
                assert(s[i] == t[i - ws[0].len() - 1]);
            }
        }
        assert(s[0] == ws[0][0]);
        assert(s.last() == t.last());
    }
}

proof fn lemma_blank()
    ensures
        " "@ == seq![' '],
        " = "@ == seq![' ', '=', ' '],
        ", "@ == seq![',', ' '],
        "\n"@ == seq!['\n'],
{
    reveal_strlit(" ");
    reveal_strlit(" = ");
    reveal_strlit(", ");
    reveal_strlit("\n");
    assert(" "@ == seq![' ']);
    assert(" = "@ == seq![' ', '=', ' ']);
    assert(", "@ == seq![',', ' ']);
    assert("\n"@ == seq!['\n']);
}

/// The modifiers as they are spelled stand for the modifiers that have a name.
/// The two that have none, `MOD2` and `MOD3`, are lost.
pub proof fn law_modifiers_read_back(mask: u16)
    ensures
        mask_in(join(mod_names(mask), " "@)) == shown(mask),
{
    lemma_blank();
    lemma_mod_names(mask);
    lemma_words_of_join(mod_names(mask));
}

proof fn lemma_word_before_blank(a: Seq<char>, b: Seq<char>)
    ensures
        word_len(a + seq![' '] + b) == word_len(a),
    decreases a.len(),
{
    let s = a + seq![' '] + b;
    if a.len() > 0 {
        assert(s[0] == a[0]);
        assert(s.skip(1) == a.skip(1) + seq![' '] + b);
        lemma_word_before_blank(a.skip(1), b);
    } else {
        assert(s[0] == ' ');
    }
}

/// The words of two texts with a blank between them are those of the first and
/// then those of the second.
proof fn lemma_words_of_two(a: Seq<char>, b: Seq<char>)
    ensures
        words(a + seq![' '] + b) == words(a) + words(b),
    decreases a.len(),
{
    let s = a + seq![' '] + b;
    if a.len() == 0 {
        assert(s.skip(1) == b);
        assert(words(a) + words(b) == words(b));
    } else if is_space(a[0]) {
        assert(s[0] == a[0]);
        assert(s.skip(1) == a.skip(1) + seq![' '] + b);
        lemma_words_of_two(a.skip(1), b);
    } else {
        let n = word_len(a) as int;
        lemma_word_before_blank(a, b);
        lemma_word_len(a);
        assert(s[0] == a[0]);
        assert(s.take(n) == a.take(n));
        assert(s.skip(n) == a.skip(n) + seq![' '] + b);
        lemma_words_of_two(a.skip(n), b);
        assert(seq![a.take(n)] + (words(a.skip(n)) + words(b)) == (seq![a.take(n)] + words(
            a.skip(n),
        )) + words(b));
    }
}

/// A list of modifiers that is made of two lists stands for the modifiers of
/// either.
pub proof fn law_joined_lists_join_their_masks(a: Seq<char>, b: Seq<char>)
    ensures
        mask_in(a + " "@ + b) == mask_in(a) | mask_in(b),
{
    lemma_blank();
    lemma_words_of_two(a, b);
    lemma_mask_of_sum(words(a), words(b));
}

proof fn lemma_word_lowered(s: Seq<char>)
    ensures
        word_len(lowered(s)) == word_len(s),
    decreases s.len(),
{
    if s.len() > 0 {
        assert(is_space(lower(s[0])) == is_space(s[0]));
        assert(lowered(s)[0] == lower(s[0]));
        assert(lowered(s).skip(1) == lowered(s.skip(1)));
        lemma_word_lowered(s.skip(1));
    }
}

proof fn lemma_bit_lowered(name: Seq<char>)
    ensures
        mod_bit(lowered(name)) == mod_bit(name),
{
    assert forall|i: int| 0 <= i < name.len() implies upper(lower(#[trigger] name[i])) == upper(
        name[i],
    ) by {}
    assert(uppered(lowered(name)) == uppered(name));
}

proof fn lemma_mask_first(w: Seq<char>, ws: Seq<Seq<char>>)
    ensures
        mask_of(seq![w] + ws) == mod_bit(w) | mask_of(ws),
{
    lemma_mask_of_sum(seq![w], ws);
    lemma_mask_of_name(true, w);
}

/// Upper or lower case, a list of modifiers stands for the same ones.
pub proof fn law_case_of_modifiers_does_not_matter(a: Seq<char>)
    ensures
        mask_in(lowered(a)) == mask_in(a),
    decreases a.len(),
{
    let low = lowered(a);
    if a.len() == 0 {
        assert(low == a);
    } else {
        assert(low[0] == lower(a[0]));
        assert(is_space(low[0]) == is_space(a[0]));
        if is_space(a[0]) {
            assert(low.skip(1) == lowered(a.skip(1)));
            law_case_of_modifiers_does_not_matter(a.skip(1));
        } else {
            let n = word_len(a) as int;
            lemma_word_lowered(a);
            lemma_word_len(a);
            assert(low.take(n) == lowered(a.take(n)));
            assert(low.skip(n) == lowered(a.skip(n)));
            law_case_of_modifiers_does_not_matter(a.skip(n));
            lemma_bit_lowered(a.take(n));
            lemma_mask_first(a.take(n), words(a.skip(n)));
            lemma_mask_first(low.take(n), words(low.skip(n)));
        }
    }
}

// ----------------------------------------------------------------- one bind

/// A field that no comma or outer white space takes apart.
pub open spec fn plain_field(s: Seq<char>) -> bool {
    is_trimmed(s) && !holds(s, ',')
}

/// A bind that its line can spell: the modifiers have names, the fields hold
/// no commas but for the last, and an argument has a dispatcher in front.
pub open spec fn spellable(b: BindView) -> bool {
    &&& starts_with(b.flags, "bind"@)
    &&& is_trimmed(b.flags)
    &&& !holds(b.flags, '=')
    &&& has_description(b.flags) == (b.description is Some)
    &&& shown(b.modmask) == b.modmask
    &&& plain_field(b.key)
    &&& b.description matches Some(d) ==> plain_field(d)
    &&& plain_field(b.dispatcher)
    &&& is_trimmed(b.arg)
    &&& b.dispatcher.len() == 0 ==> b.arg.len() == 0
}

proof fn lemma_first_field(head: Seq<char>, n: nat, tail: Seq<char>)
    requires
        plain_field(head),
        n >= 2,
    ensures
        trims(splitn(seq![' '] + head + seq![','] + tail, n, ',')) == seq![head] + trims(
            splitn(tail, (n - 1) as nat, ','),
        ),
{
    let padded = seq![' '] + head;
    assert forall|i: int| 0 <= i < padded.len() implies padded[i] != ',' by {
        if i > 0 {
            assert(padded[i] == head[i - 1]);
        }
    }
    lemma_splitn_cons(padded, n, ',', tail);
    assert(padded == seq![' '] + head + Seq::<char>::empty());
    lemma_trim_padded(seq![' '], head, Seq::empty());
    let rest = splitn(tail, (n - 1) as nat, ',');
    assert(trims(seq![padded] + rest) == seq![trim(padded)] + trims(rest));
}

proof fn lemma_last_field(f: Seq<char>, n: nat)
    requires
        is_trimmed(f),
        !holds(f, ',') || n < 2,
    ensures
        trims(splitn(seq![' '] + f, n, ',')) == seq![f],
{
    let padded = seq![' '] + f;
    if n >= 2 {
        assert forall|i: int| 0 <= i < padded.len() implies padded[i] != ',' by {
            if i > 0 {
                assert(padded[i] == f[i - 1]);
            }
        }
    }
    lemma_splitn_none(padded, n, ',');
    assert(padded == seq![' '] + f + Seq::<char>::empty());
    lemma_trim_padded(seq![' '], f, Seq::empty());
    assert(trims(seq![padded]) == seq![trim(padded)]);
}

/// The trimmed pieces that a bind's fields are split into.
spec fn pieces_of(b: BindView) -> Seq<Seq<char>> {
    let head = seq![join(mod_names(b.modmask), " "@), b.key];
    let described = match b.description {
        Some(d) => head.push(d),
        None => head,
    };
    if b.dispatcher.len() == 0 {
        described
    } else if b.arg.len() == 0 {
        described.push(b.dispatcher)
    } else {
        described.push(b.dispatcher).push(b.arg)
    }
}

/// The text behind the equals sign of a bind's line.
spec fn fields_text(b: BindView) -> Seq<char> {
    bind_line(b).skip(b.flags.len() as int + 2)
}

/// The fields behind the key.
spec fn action_text(b: BindView) -> Seq<char> {
    if b.dispatcher.len() == 0 {
        seq![]
    } else if b.arg.len() == 0 {
        seq![',', ' '] + b.dispatcher
    } else {
        seq![',', ' '] + b.dispatcher + seq![',', ' '] + b.arg
    }
}

/// The dispatcher and its argument are split off as they are.
proof fn lemma_action(f: Seq<char>, b: BindView, n: nat)
    requires
        spellable(b),
        plain_field(f),
        n >= 3,
        b.arg.len() > 0 ==> n == 3,
    ensures
        trims(splitn(seq![' '] + f + action_text(b), n, ',')) == if b.dispatcher.len() == 0 {
            seq![f]
        } else if b.arg.len() == 0 {
            seq![f, b.dispatcher]
        } else {
            seq![f, b.dispatcher, b.arg]
        },
{
    let sp = seq![' '];
    let all = sp + f + action_text(b);
    if b.dispatcher.len() == 0 {
        assert(all == sp + f);
        lemma_last_field(f, n);
    } else if b.arg.len() == 0 {
        assert(all == sp + f + seq![','] + (sp + b.dispatcher));
        lemma_first_field(f, n, sp + b.dispatcher);
        lemma_last_field(b.dispatcher, (n - 1) as nat);
        assert(seq![f] + seq![b.dispatcher] == seq![f, b.dispatcher]);
    } else {
        let tail = sp + b.dispatcher + seq![','] + (sp + b.arg);
        assert(all == sp + f + seq![','] + tail);
        lemma_first_field(f, n, tail);
        lemma_first_field(b.dispatcher, (n - 1) as nat, sp + b.arg);
        lemma_last_field(b.arg, 1);
        assert(seq![f] + (seq![b.dispatcher] + seq![b.arg]) == seq![f, b.dispatcher, b.arg]);
    }
}

/// The fields of a bind with what stands between them.
#[verifier::rlimit(60)]
#[verifier::spinoff_prover]
proof fn lemma_fields_text(b: BindView, names: Seq<char>)
    requires
        names == join(mod_names(b.modmask), " "@),
    ensures
        fields_text(b) == seq![' '] + names + seq![','] + (match b.description {
            Some(d) => seq![' '] + b.key + seq![','] + (seq![' '] + d + action_text(b)),
            None => seq![' '] + b.key + action_text(b),
        }),
        bind_line(b) == b.flags + seq![' ', '='] + fields_text(b),
{
    lemma_blank();
    let head = b.flags + seq![' ', '=', ' '] + names + seq![',', ' '] + b.key;
    let described = match b.description {
        Some(d) => head + seq![',', ' '] + d,
        None => head,
    };
    assert(bind_line(b) == described + action_text(b)) by {
        if b.dispatcher.len() == 0 {
            assert(described + Seq::<char>::empty() == described);
        } else if b.arg.len() == 0 {
            assert(described + (seq![',', ' '] + b.dispatcher) == described + seq![',', ' ']
                + b.dispatcher);
        } else {
            assert(described + (seq![',', ' '] + b.dispatcher + seq![',', ' '] + b.arg)
                == described + seq![',', ' '] + b.dispatcher + seq![',', ' '] + b.arg);
        }
    }
    let act = action_text(b);
    let want = seq![' '] + names + seq![','] + (match b.description {
        Some(d) => seq![' '] + b.key + seq![','] + (seq![' '] + d + act),
        None => seq![' '] + b.key + act,
    });
    assert(described + act == b.flags + seq![' ', '='] + want) by {
        match b.description {
            Some(d) => {
                assert(head + seq![',', ' '] + d + act == b.flags + seq![' ', '='] + want);
            },
            None => {
                assert(head + act == b.flags + seq![' ', '='] + want);
            },
        }
    }
    assert((b.flags + seq![' ', '='] + want).skip(b.flags.len() as int + 2) == want);
}

proof fn lemma_fields(b: BindView)
    requires
        spellable(b),
    ensures
        trims(
            splitn(
                fields_text(b),
                if b.description is Some {
                    5
                } else {
                    4
                },
                ',',
            ),
        ) == pieces_of(b),
{
    lemma_blank();
    lemma_mod_names(b.modmask);
    lemma_joined_words(mod_names(b.modmask));
    let sp = seq![' '];
    let names = join(mod_names(b.modmask), " "@);
    lemma_fields_text(b, names);
    match b.description {
        Some(d) => {
            let tail = sp + d + action_text(b);
            lemma_first_field(names, 5, sp + b.key + seq![','] + tail);
            lemma_first_field(b.key, 4, tail);
            lemma_action(d, b, 3);
        },
        None => {
            lemma_first_field(names, 4, sp + b.key + action_text(b));
            lemma_action(b.key, b, 3);
        },
    }
    let n: nat = if b.description is Some {
        5
    } else {
        4
    };
    assert(trims(splitn(fields_text(b), n, ',')) == pieces_of(b));
}

/// A line of `key = …` is an entry of that key.
proof fn lemma_entry_line(key: Seq<char>, tail: Seq<char>)
    requires
        key.len() > 0,
        is_trimmed(key),
        !holds(key, '='),
        key[0] != '#',
        key[0] != '}',
    ensures
        line_view(key + seq![' ', '='] + tail) == LineView::Entry(key, trim(tail)),
{
    let line = key + seq![' ', '='] + tail;
    let p = key.len() as int + 1;
    assert forall|i: int| 0 <= i < p implies line[i] != '=' by {
        if i < key.len() {
            assert(line[i] == key[i]);
        }
    }
    assert(line[p] == '=');
    lemma_pos_is(line, '=', p);
    assert(holds(line, '='));
    assert(line.take(p) == Seq::<char>::empty() + key + seq![' ']);
    lemma_trim_padded(Seq::empty(), key, seq![' ']);
    assert(line.skip(p + 1) == tail);
    assert(line == key + (seq![' ', '='] + tail));
    lemma_trim_head(key, seq![' ', '='] + tail, 0);
    lemma_trim_id(key);
}

/// A bind that is spelled as a line and read back from it is the same bind.
pub proof fn law_bind_reads_back(b: BindView)
    requires
        spellable(b),
    ensures
        ({
            let line = line_view(bind_line(b));
            line is Entry && bind_of(line->Entry_0, line->Entry_1) == Some(b)
        }),
{
    lemma_blank();
    reveal_strlit("bind");
    assert(b.flags.take(4)[0] == b.flags[0]);
    let text = fields_text(b);
    lemma_fields_text(b, join(mod_names(b.modmask), " "@));
    lemma_entry_line(b.flags, text);
    let n: nat = if b.description is Some {
        5
    } else {
        4
    };
    let value = trim(text);
    lemma_splitn_of_trim(text, n, ',');
    lemma_fields(b);
    let parts = splitn(value, n, ',');
    let want = pieces_of(b);
    assert(trims(parts) == want);
    assert(parts.len() == want.len());
    assert forall|i: int| 0 <= i implies #[trigger] field(parts, i) == (if i < want.len() {
        want[i]
    } else {
        Seq::empty()
    }) by {
        if i < want.len() {
            assert(trims(parts)[i] == trim(parts[i]));
        }
    }
    assert(trims(parts)[0] == trim(parts[0]));
    law_modifiers_read_back(b.modmask);
    let got = bind_of(b.flags, value)->0;
    let at: int = if b.description is Some {
        3
    } else {
        2
    };
    assert(field(parts, 1) == b.key);
    assert(field(parts, at) == b.dispatcher);
    assert(field(parts, at + 1) == b.arg);
    if b.description is Some {
        assert(field(parts, 2) == b.description->0);
    }
    assert(got == b);
}

// ------------------------------------------------------------------- a block

/// A change that its line can spell.
pub open spec fn spellable_change(o: OverrideView) -> bool {
    match o {
        OverrideView::Bind(b) => spellable(b) && !holds(bind_line(b), '\n'),
        OverrideView::Disable { modmask, key } => shown(modmask) == modmask && is_trimmed(key)
            && !holds(unbind_line(modmask, key), '\n'),
    }
}

/// The entry that a change's line is read as.
spec fn entry_at(o: OverrideView, line: int) -> EntryView {
    let v = line_view(override_line(o));
    EntryView { section: Seq::empty(), key: v->Entry_0, value: v->Entry_1, line }
}

proof fn lemma_unbind(mask: u16, key: Seq<char>)
    requires
        shown(mask) == mask,
        is_trimmed(key),
    ensures
        ({
            let v = line_view(unbind_line(mask, key));
            &&& v is Entry
            &&& v->Entry_0 == "unbind"@
            &&& splitn(v->Entry_1, 2, ',').len() == 2
            &&& mask_in(trim(splitn(v->Entry_1, 2, ',')[0])) == mask
            &&& trim(splitn(v->Entry_1, 2, ',')[1]) == key
        }),
{
    lemma_blank();
    reveal_strlit("unbind");
    reveal_strlit("unbind = ");
    lemma_mod_names(mask);
    lemma_joined_words(mod_names(mask));
    let sp = seq![' '];
    let names = join(mod_names(mask), sp);
    let text = sp + names + seq![','] + (sp + key);
    assert("unbind = "@ == "unbind"@ + seq![' ', '=', ' ']);
    assert(unbind_line(mask, key) == "unbind"@ + seq![' ', '='] + text);
    assert(!holds("unbind"@, '='));
    lemma_entry_line("unbind"@, text);
    lemma_first_field(names, 2, sp + key);
    lemma_last_field(key, 1);
    lemma_splitn_of_trim(text, 2, ',');
    let parts = splitn(trim(text), 2, ',');
    assert(trims(parts) == seq![names] + seq![key]);
    assert(parts.len() == 2);
    assert(trims(parts)[0] == trim(parts[0]));
    assert(trims(parts)[1] == trim(parts[1]));
    law_modifiers_read_back(mask);
}

/// A change's line is an entry that spells the change.
proof fn lemma_change(o: OverrideView, at: int)
    requires
        spellable_change(o),
    ensures
        line_view(override_line(o)) is Entry,
        is_bind(entry_at(o, at)),
        override_of(entry_at(o, at)) == Some(o),
        !holds(override_line(o), '\n'),
{
    match o {
        OverrideView::Bind(b) => {
            law_bind_reads_back(b);
            lemma_blank();
            reveal_strlit("bind");
            reveal_strlit("unbind");
            assert(b.flags.take(4)[0] == b.flags[0]);
            lemma_fields_text(b, join(mod_names(b.modmask), " "@));
            lemma_entry_line(b.flags, fields_text(b));
            assert(b.flags != "unbind"@) by {
                assert("unbind"@[0] == 'u');
            }
        },
        OverrideView::Disable { modmask, key } => {
            lemma_unbind(modmask, key);
        },
    }
}

/// The entries of lines that each spell a change.
spec fn change_entries(os: Seq<OverrideView>, from: int) -> Seq<EntryView> {
    os.map(|i: int, o: OverrideView| entry_at(o, i + from))
}

proof fn lemma_entries(lines: Seq<Seq<char>>, i: int, os: Seq<OverrideView>)
    requires
        0 <= i,
        lines.len() == i + os.len(),
        forall|k: int| 0 <= k < os.len() ==> lines[i + k] == override_line(#[trigger] os[k]),
        forall|k: int| 0 <= k < os.len() ==> spellable_change(#[trigger] os[k]),
    ensures
        entries_from(lines, i, Seq::empty()) == change_entries(os, i),
    decreases os.len(),
{
    if os.len() > 0 {
        let more = os.skip(1);
        assert forall|k: int| 0 <= k < more.len() implies lines[i + 1 + k] == override_line(
            #[trigger] more[k],
        ) && spellable_change(more[k]) by {
            assert(more[k] == os[k + 1]);
            assert(lines[i + (k + 1)] == override_line(os[k + 1]));
        }
        lemma_entries(lines, i + 1, more);
        lemma_change(os[0], i);
        assert(lines[i + 0] == override_line(os[0]));
        let tail = entries_from(lines, i + 1, Seq::empty());
        assert(entries_from(lines, i, Seq::empty()) == seq![entry_at(os[0], i)] + tail);
        assert(seq![entry_at(os[0], i)] + change_entries(more, i + 1) == change_entries(os, i));
    } else {
        assert(change_entries(os, i) == Seq::<EntryView>::empty());
    }
}

proof fn lemma_filter_all(es: Seq<EntryView>)
    requires
        forall|i: int| 0 <= i < es.len() ==> is_bind(#[trigger] es[i]),
    ensures
        es.filter(|e: EntryView| is_bind(e)) == es,
    decreases es.len(),
{
    reveal(Seq::filter);
    if es.len() > 0 {
        let front = es.drop_last();
        assert forall|i: int| 0 <= i < front.len() implies is_bind(#[trigger] front[i]) by {
            assert(front[i] == es[i]);
        }
        lemma_filter_all(front);
        assert(is_bind(es[es.len() - 1]));
        assert(front.push(es.last()) == es);
    }
}

proof fn lemma_overrides_of(os: Seq<OverrideView>, from: int)
    requires
        forall|k: int| 0 <= k < os.len() ==> spellable_change(#[trigger] os[k]),
    ensures
        overrides_of(change_entries(os, from)) == os,
    decreases os.len(),
{
    let es = change_entries(os, from);
    if os.len() > 0 {
        let front = os.drop_last();
        assert forall|k: int| 0 <= k < front.len() implies spellable_change(#[trigger] front[k]) by {
            assert(front[k] == os[k]);
        }
        lemma_overrides_of(front, from);
        assert(es.drop_last() == change_entries(front, from));
        assert(spellable_change(os[os.len() - 1]));
        lemma_change(os.last(), os.len() - 1 + from);
        assert(es.last() == entry_at(os.last(), os.len() - 1 + from));
        assert(front.push(os.last()) == os);
    }
}

/// The changes that are written to a bindings file are what is read back from
/// it. Each must be one that its line can spell, and the lines must not spell
/// the block's closing marker; a file with an opening marker must have the
/// closing one too.
pub proof fn law_changes_read_back(text: Seq<char>, os: Seq<OverrideView>)
    requires
        os.len() > 0,
        forall|k: int| 0 <= k < os.len() ==> spellable_change(#[trigger] os[k]),
        !contains(block_body(os), block_close()),
        located(text, block_open(), block_close()) is Some || !contains(text, block_open()),
    ensures
        overrides_in(with_overrides(text, os)) == os,
{
    lemma_blank();
    reveal_strlit("keybinds");
    crate::configfs::managed::law_write_then_read(
        text,
        "keybinds"@,
        CommentStyle::Hash,
        block_body(os),
    );
    let body = block_body(os);
    let header = "# Managed by Omarchy Studio — your keybind changes live here."@;
    reveal_strlit("# Managed by Omarchy Studio — your keybind changes live here.");
    reveal_strlit("# Managed by Omarchy Studio — your keybind changes live here.\n");
    assert("# Managed by Omarchy Studio — your keybind changes live here.\n"@ == header
        + seq!['\n']);
    let lines = override_lines(os);
    assert(!holds(header, '\n'));
    assert(body == header + seq!['\n'] + join(lines, seq!['\n']));
    lemma_split_cons(header, '\n', join(lines, seq!['\n']));
    assert forall|k: int| 0 <= k < lines.len() implies !holds(#[trigger] lines[k], '\n') by {
        assert(spellable_change(os[k]));
        lemma_change(os[k], 0);
    }
    lemma_split_of_join(lines, '\n');
    let all = seq![header] + lines;
    assert(split(body, '\n') == all);
    lemma_trim_id(header);
    assert(line_view(header) is Plain);
    assert forall|k: int| 0 <= k < os.len() implies all[1 + k] == override_line(
        #[trigger] os[k],
    ) by {
        assert(all[1 + k] == lines[k]);
    }
    lemma_entries(all, 1, os);
    let es = change_entries(os, 1);
    assert(entries_of(all) == es);
    assert forall|i: int| 0 <= i < es.len() implies is_bind(#[trigger] es[i]) by {
        assert(spellable_change(os[i]));
        lemma_change(os[i], i + 1);
    }
    lemma_filter_all(es);
    lemma_overrides_of(os, 1);
}

// ---------------------------------------------------------------- attribution

/// The layer that is read last decides: where it defines a bind, the bind is
/// its own, and else the layers below it are asked.
pub proof fn law_last_layer_wins(
    docs: Seq<(Layer, Seq<Seq<char>>)>,
    layer: Layer,
    lines: Seq<Seq<char>>,
    rt: RuntimeView,
)
    ensures
        source_of(docs.push((layer, lines)), rt) == match last_defining(
            entries_of(lines).filter(|e: EntryView| is_bind(e)),
            rt,
        ) {
            Some(b) => Some((layer, b)),
            None => source_of(docs, rt),
        },
{
    assert(docs.push((layer, lines)).drop_last() == docs);
}

// ------------------------------------------------------------- marked binds

proof fn lemma_first_marked_push(os: Seq<OverrideView>, desc: Seq<char>, b: BindView)
    requires
        forall|i: int| 0 <= i < os.len() ==> !is_marked(#[trigger] os[i], desc),
        b.description == Some(desc),
    ensures
        first_marked(os.push(OverrideView::Bind(b)), desc) == Some(b),
        first_marked(os, desc) is None,
    decreases os.len(),
{
    let all = os.push(OverrideView::Bind(b));
    if os.len() > 0 {
        assert(all[0] == os[0]);
        assert(all.skip(1) == os.skip(1).push(OverrideView::Bind(b)));
        assert forall|i: int| 0 <= i < os.skip(1).len() implies !is_marked(
            #[trigger] os.skip(1)[i],
            desc,
        ) by {
            assert(os.skip(1)[i] == os[i + 1]);
        }
        lemma_first_marked_push(os.skip(1), desc, b);
    }
}

pub proof fn lemma_unmarked(os: Seq<OverrideView>, desc: Seq<char>)
    ensures
        forall|i: int|
            0 <= i < unmarked(os, desc).len() ==> !is_marked(
                #[trigger] unmarked(os, desc)[i],
                desc,
            ),
    decreases os.len(),
{
    reveal(Seq::filter);
    if os.len() > 0 {
        lemma_unmarked(os.drop_last(), desc);
    }
}

/// A marked bind that is installed is the one found under its marker, and once
/// it is taken out none is.
pub proof fn law_marked_bind_is_found(os: Seq<OverrideView>, desc: Seq<char>, b: BindView)
    requires
        b.description == Some(desc),
    ensures
        first_marked(with_marked(os, desc, b), desc) == Some(b),
        first_marked(unmarked(os, desc), desc) is None,
        unmarked(with_marked(os, desc, b), desc) == unmarked(os, desc),
{
    lemma_unmarked(os, desc);
    let kept = unmarked(os, desc);
    lemma_first_marked_push(kept, desc, b);
    lemma_filter_unmarked(kept, desc);
    let all = kept.push(OverrideView::Bind(b));
    reveal(Seq::filter);
    assert(all.drop_last() == kept);
}

pub proof fn lemma_filter_unmarked(os: Seq<OverrideView>, desc: Seq<char>)
    requires
        forall|i: int| 0 <= i < os.len() ==> !is_marked(#[trigger] os[i], desc),
    ensures
        unmarked(os, desc) == os,
    decreases os.len(),
{
    reveal(Seq::filter);
    if os.len() > 0 {
        let front = os.drop_last();
        assert forall|i: int| 0 <= i < front.len() implies !is_marked(
            #[trigger] front[i],
            desc,
        ) by {
            assert(front[i] == os[i]);
        }
        lemma_filter_unmarked(front, desc);
        assert(!is_marked(os[os.len() - 1], desc));
        assert(front.push(os.last()) == os);
    }
}

} // verus!
