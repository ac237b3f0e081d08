//! What a user reads off the idle timeline.

use vstd::prelude::*;

use crate::lockidle::laws::{
    lemma_closing_skip, lemma_closes_skip, lemma_digits_len_is, lemma_int_text, lemma_lines_of,
    lemma_one_block, lines_of,
};
use crate::lockidle::{
    ListenerView, Stage, Timed, before_comment, brace_at, closes, closing, gap_len, gives, inside,
    int_field, int_in_line, listener_in, listeners_in, stage_of, str_field, timeline_of,
    value_start,
};
use crate::number::int_text;
use crate::order::{lemma_order_exists, lemma_order_is, lemma_order_onto};
use crate::split::{
    is_trimmed, join, lemma_split_of_join, lemma_trim_id, lemma_trim_padded, lines, without_return,
};
use crate::text::{contains, find, holds, is_space, lemma_pos_is, lowered, starts_with, trim_start};

verus! {

/// The timeline holds every listener, and no other, in the order of the
/// timeouts.
pub proof fn law_timeline_goes_by_time(ls: Seq<Timed>)
    ensures
        timeline_of(ls).len() == ls.len(),
        forall|i: int, j: int|
            0 <= i < j < ls.len() ==> (#[trigger] timeline_of(ls)[i]).timeout <= (
            #[trigger] timeline_of(ls)[j]).timeout,
        forall|i: int|
            0 <= i < ls.len() ==> timeline_of(ls).contains((#[trigger] ls[i]).listener),
        forall|i: int|
            0 <= i < ls.len() ==> exists|k: int|
                0 <= k < ls.len() && (#[trigger] ls[k]).listener == #[trigger] timeline_of(ls)[i],
{
    let keys = ls.map_values(|t: Timed| t.listener.timeout);
    let items = ls.map_values(|t: Timed| t.listener);
    let order = lemma_order_exists(keys);
    lemma_order_is(keys, order);
    let all = timeline_of(ls);
    assert forall|i: int, j: int| 0 <= i < j < ls.len() implies (#[trigger] all[i]).timeout <= (
    #[trigger] all[j]).timeout by {
        assert(all[i] == ls[order[i]].listener);
        assert(all[j] == ls[order[j]].listener);
        assert(keys[order[i]] == ls[order[i]].listener.timeout);
        assert(keys[order[j]] == ls[order[j]].listener.timeout);
    }
    assert forall|i: int| 0 <= i < ls.len() implies all.contains((#[trigger] ls[i]).listener) by {
        lemma_order_onto(keys, order, i);
        let k = choose|k: int| 0 <= k < order.len() && order[k] == i;
        assert(all[k] == ls[i].listener);
    }
    assert forall|i: int| 0 <= i < ls.len() implies exists|k: int|
        0 <= k < ls.len() && (#[trigger] ls[k]).listener == #[trigger] all[i] by {
        assert(ls[order[i]].listener == all[i]);
    }
}

/// What an action does is told by the words in it, in letters of either size:
/// a screensaver before all else, then the screen, then sleep, then the lock.
/// An action with none of the words is the user's own.
pub proof fn law_actions_are_told_by_their_words(action: Seq<char>)
    ensures
        ({
            let a = lowered(action);
            let saver = contains(a, "screensaver"@);
            let screen = contains(a, "dpms"@) || contains(a, "screen off"@);
            let sleep = contains(a, "suspend"@);
            let lock = contains(a, "lock"@);
            &&& saver <==> stage_of(action) == Stage::Screensaver
            &&& screen && !saver <==> stage_of(action) == Stage::ScreenOff
            &&& stage_of(action) == Stage::Suspend ==> !saver && !screen
            &&& sleep && !saver && !screen ==> stage_of(action) == Stage::Suspend
            &&& stage_of(action) == Stage::Lock ==> lock && !sleep && !screen && !saver
            &&& stage_of(action) == Stage::Other ==> !lock && !sleep && !screen && !saver
        }),
{
}

/// A listener as it is written.
pub open spec fn written(timeout: i64, action: Seq<char>) -> Seq<char> {
    "listener {\ntimeout = "@ + int_text(timeout as int) + "\non-timeout = "@ + action + "\n}"@
}

/// A listener that is written is read with its timeout and its action, and the
/// stage is that of the action.
#[verifier::rlimit(60)]
#[verifier::spinoff_prover]
pub proof fn law_written_listener_is_read(
    timeout: i64,
    action: Seq<char>,
    more: Seq<char>,
    off: int,
)
    requires
        is_trimmed(action),
        !holds(action, '\n') && !holds(action, '#') && !holds(action, '{') && !holds(action, '}'),
    ensures
        ({
            let text = written(timeout, action);
            let all = listeners_in(text + more, off);
            &&& all.len() > 0
            &&& all[0].listener == (ListenerView {
                timeout,
                on_timeout: action,
                stage: stage_of(action),
            })
            &&& all.skip(1) == listeners_in(more, off + text.len())
        }),
{
    reveal_strlit("listener {\ntimeout = ");
    reveal_strlit("\non-timeout = ");
    reveal_strlit("\n}");
    reveal_strlit("listener");
    let text = written(timeout, action);
    let s = text + more;
    let digits = int_text(timeout as int);
    lemma_int_text(timeout);
    assert(s.take(8) =~= "listener"@);
    lemma_found_first(s, "listener"@);
    assert(s.skip(8)[0] == ' ');
    assert(s.skip(8).skip(1)[0] == '{');
    reveal_with_fuel(gap_len, 3);
    assert(brace_at(s, 0) == 9);
    lemma_one_block(s, off, 0);
    let body = s.skip(10);
    let block = "\ntimeout = "@ + digits + "\non-timeout = "@ + action + "\n"@;
    reveal_strlit("\ntimeout = ");
    reveal_strlit("\n");
    assert(body =~= block + (seq!['}'] + more));
    lemma_block(timeout, action, off + 10);
    assert(!holds(block, '{') && !holds(block, '}')) by {
        assert forall|i: int| 0 <= i < block.len() implies block[i] != '{' && block[i] != '}' by {
            let a = 11 + digits.len();
            let b = a + 14;
            if 11 <= i < a {
                assert(block[i] == digits[i - 11]);
            } else if b <= i < b + action.len() {
                assert(block[i] == action[i - b]);
            }
        }
    }
    let tail = seq!['}'] + more;
    lemma_closing_skip(block, tail, 1);
    lemma_closes_skip(block, tail, 1);
    reveal_with_fuel(closing, 2);
    reveal_with_fuel(closes, 2);
    let k = closing(body, 1);
    assert(k == block.len() + 1);
    assert(inside(body, k) =~= block);
    assert(body.skip(k as int) =~= more);
    assert(off + 10 + k == off + text.len());
    let all = listeners_in(s, off);
    let first = listener_in(block, off + 10)->0;
    assert(all == seq![first] + listeners_in(more, off + text.len()));
    assert(all.skip(1) =~= listeners_in(more, off + text.len()));
}

proof fn lemma_found_first(s: Seq<char>, word: Seq<char>)
    requires
        starts_with(s, word),
        word.len() > 0,
    ensures
        find(s, word) == Some(0int),
{
}

proof fn lemma_block(timeout: i64, action: Seq<char>, off: int)
    requires
        is_trimmed(action),
        !holds(action, '\n') && !holds(action, '#'),
    ensures
        listener_in(
            "\ntimeout = "@ + int_text(timeout as int) + "\non-timeout = "@ + action + "\n"@,
            off,
        ) matches Some(t) && t.listener == (ListenerView {
            timeout,
            on_timeout: action,
            stage: stage_of(action),
        }),
{
    reveal_strlit("\ntimeout = ");
    reveal_strlit("\non-timeout = ");
    reveal_strlit("\n");
    reveal_strlit("timeout");
    reveal_strlit("on-timeout");
    let digits = int_text(timeout as int);
    lemma_int_text(timeout);
    let none = Seq::<char>::empty();
    let block = "\ntimeout = "@ + digits + "\non-timeout = "@ + action + "\n"@;
    let one = "timeout = "@ + digits;
    let two = "on-timeout = "@ + action;
    reveal_strlit("timeout = ");
    reveal_strlit("on-timeout = ");
    let ls = seq![none, one, two, none];
    let nl: Seq<char> = seq!['\n'];
    reveal_with_fuel(join, 5);
    assert(ls.skip(1) =~= seq![one, two, none]);
    assert(ls.skip(1).skip(1) =~= seq![two, none]);
    assert(ls.skip(1).skip(1).skip(1) =~= seq![none]);
    assert(block =~= join(ls, nl));
    assert(!holds(none, '\n'));
    assert(!holds(one, '\n')) by {
        assert forall|i: int| 0 <= i < one.len() implies one[i] != '\n' by {
            if i >= 10 {
                assert(one[i] == digits[i - 10]);
            }
        }
    }
    assert(!holds(two, '\n')) by {
        assert forall|i: int| 0 <= i < two.len() implies two[i] != '\n' by {
            if i >= 13 {
                assert(two[i] == action[i - 13]);
            }
        }
    }
    lemma_split_of_join(ls, '\n');
    lemma_lines_of(ls);
    // The timeout.
    lemma_key_line("timeout"@, digits);
    assert("timeout"@ + seq![' ', '=', ' '] + digits =~= one);
    lemma_other(none, "timeout"@);
    lemma_digits_len_is(digits, none);
    assert(digits + none =~= digits);
    assert(one.subrange(10, 10 + digits.len() as int) =~= digits);
    assert(one.skip(10) =~= digits);
    assert(int_in_line(one, "timeout"@) == Some((timeout, 10int, 10 + digits.len() as int)));
    reveal_with_fuel(int_field, 3);
    // The action.
    lemma_key_line("on-timeout"@, action);
    assert("on-timeout"@ + seq![' ', '=', ' '] + action =~= two);
    assert(is_space('\r'));
    reveal_with_fuel(lines_of, 5);
    assert(without_return(none) == none);
    assert(without_return(one) == one) by {
        assert(one.last() == digits.last());
    }
    assert(without_return(two) == two) by {
        if action.len() > 0 {
            assert(two.last() == action.last());
        } else {
            assert(two.last() == ' ');
        }
    }
    let all = lines(block);
    assert(all =~= seq![none, one, two]);
    lemma_other(none, "on-timeout"@);
    assert(one[0] == 't');
    assert(trim_start(one) == one);
    assert(!gives(one, "on-timeout"@)) by {
        if starts_with(one, "on-timeout"@) {
            assert(one.take(10)[0] == one[0]);
        }
    }
    assert(all.skip(1) =~= seq![one, two]);
    assert(all.skip(1).skip(1) =~= seq![two]);
    reveal_with_fuel(str_field, 4);
    assert(two[0] == 'o');
    assert(trim_start(two) == two);
    let after = two.skip(10);
    assert(after =~= seq![' ', '=', ' '] + action);
    assert(is_space(' ') && !is_space('='));
    assert(after.skip(1)[0] == '=');
    assert(trim_start(after) == after.skip(1)) by {
        reveal_with_fuel(trim_start, 2);
    }
    let value = after.skip(1).skip(1);
    assert(value =~= seq![' '] + action);
    assert forall|i: int| 0 <= i < value.len() implies value[i] != '#' by {
        if i > 0 {
            assert(value[i] == action[i - 1]);
        }
    }
    lemma_pos_is(value, '#', value.len() as int);
    assert(before_comment(value) =~= seq![' '] + action + none);
    lemma_trim_padded(seq![' '], action, none);
    lemma_trim_id(action);
}

proof fn lemma_other(line: Seq<char>, key: Seq<char>)
    requires
        line.len() == 0,
        key.len() > 0,
    ensures
        !gives(line, key),
        int_in_line(line, key) is None,
{
}

/// A key, an equals sign and a value, each apart from the next by a blank.
proof fn lemma_key_line(key: Seq<char>, value: Seq<char>)
    requires
        key.len() > 0,
        is_trimmed(key),
        !holds(key, '='),
        is_trimmed(value),
    ensures
        ({
            let line = key + seq![' ', '=', ' '] + value;
            &&& gives(line, key)
            &&& value.len() > 0 ==> value_start(line) == key.len() + 3
        }),
{
    let line = key + seq![' ', '=', ' '] + value;
    assert(line[0] == key[0]);
    assert(trim_start(line) == line);
    assert(line.take(key.len() as int) =~= key);
    let after = line.skip(key.len() as int);
    assert(after =~= seq![' ', '=', ' '] + value);
    assert(is_space(' '));
    assert(!is_space('='));
    assert(after.skip(1)[0] == '=');
    assert(trim_start(after) == after.skip(1)) by {
        reveal_with_fuel(trim_start, 2);
    }
    let k = key.len() as int + 1;
    assert forall|i: int| 0 <= i < k implies line[i] != '=' by {
        if i < key.len() {
            assert(line[i] == key[i]);
        }
    }
    lemma_pos_is(line, '=', k);
    let tail = line.skip(k + 1);
    assert(tail =~= seq![' '] + value);
    assert(tail.skip(1) =~= value);
    if value.len() > 0 {
        assert(trim_start(tail) == value) by {
            reveal_with_fuel(trim_start, 2);
        }
    }
}

} // verus!
