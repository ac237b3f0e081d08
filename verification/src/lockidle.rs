//! Lock and idle: the hypridle timeline and the lock screen's look.
//!
//! A hypridle file holds `listener { … }` blocks, each an idle timeout with
//! what it triggers. Retiming one replaces the digits of its timeout and leaves
//! every other character of the file as it is.

use vstd::prelude::*;

use crate::engine::CmdOutput;
use crate::error::{external, Failure, StudioError};
use crate::number::{append_i64, int_text, parse_i64, read_i64};
use crate::order::{positions, sorted_by, stable_order};
use crate::paths::{join as path_join, OmarchyPaths};
use crate::split::{join, lines, pieces, split, text_lines};
use crate::text::{
    chars, contains, contains_text, digit, find, found, front, holds, is_digit, lemma_find_from,
    lemma_pos_from, lower_text, lowered, owned, pos, position, rest, same_str, slices, starts,
    starts_with, string, trim, trim_start, trimmed, trimmed_start, trimmed_str,
};

pub mod hyprlock;
pub mod laws;
pub mod settings;
pub mod timeline;

verus! {

// ------------------------------------------------------------------- stages

/// What an idle listener does, told from its action.
#[derive(Debug, Clone, Copy, PartialEq, Eq, Structural)]
pub enum Stage {
    Screensaver,
    Lock,
    ScreenOff,
    Suspend,
    Other,
}

pub open spec fn stage_of(action: Seq<char>) -> Stage {
    let a = lowered(action);
    if contains(a, "screensaver"@) {
        Stage::Screensaver
    } else if contains(a, "dpms"@) || contains(a, "screen off"@) {
        Stage::ScreenOff
    } else if contains(a, "suspend"@) || contains(a, "systemctl suspend"@) {
        Stage::Suspend
    } else if contains(a, "lock"@) {
        Stage::Lock
    } else {
        Stage::Other
    }
}

impl Stage {
    pub fn label(self) -> (r: &'static str)
        ensures
            r@ == match self {
                Stage::Screensaver => "Start screensaver"@,
                Stage::Lock => "Lock the screen"@,
                Stage::ScreenOff => "Turn the screen off"@,
                Stage::Suspend => "Suspend"@,
                Stage::Other => "Custom action"@,
            },
    {
        match self {
            Stage::Screensaver => "Start screensaver",
            Stage::Lock => "Lock the screen",
            Stage::ScreenOff => "Turn the screen off",
            Stage::Suspend => "Suspend",
            Stage::Other => "Custom action",
        }
    }

    pub fn classify(on_timeout: &str) -> (r: Stage)
        ensures
            r == stage_of(on_timeout@),
    {
        let s = chars(on_timeout);
        let low = lower_text(s.as_slice());
        let a = low.as_slice();
        if contains_text(a, "screensaver") {
            Stage::Screensaver
        } else if contains_text(a, "dpms") || contains_text(a, "screen off") {
            Stage::ScreenOff
        } else if contains_text(a, "suspend") || contains_text(a, "systemctl suspend") {
            Stage::Suspend
        } else if contains_text(a, "lock") {
            Stage::Lock
        } else {
            Stage::Other
        }
    }
}

/// An idle listener: seconds, and what happens then.
#[derive(Debug, Clone, PartialEq, Eq)]
pub struct Listener {
    pub timeout: i64,
    pub on_timeout: String,
    pub stage: Stage,
}

/// What a listener says.
pub struct ListenerView {
    pub timeout: i64,
    pub on_timeout: Seq<char>,
    pub stage: Stage,
}

impl View for Listener {
    type V = ListenerView;

    open spec fn view(&self) -> ListenerView {
        ListenerView { timeout: self.timeout, on_timeout: self.on_timeout@, stage: self.stage }
    }
}

impl Listener {
    pub fn copied(&self) -> (r: Self)
        ensures
            r@ == self@,
    {
        Listener {
            timeout: self.timeout,
            on_timeout: owned(self.on_timeout.as_str()),
            stage: self.stage,
        }
    }
}

pub open spec fn listener_views(v: Seq<Listener>) -> Seq<ListenerView> {
    v.map_values(|l: Listener| l@)
}

// ------------------------------------------------------------------- parsing

/// How many digits and minus signs a text begins with.
pub open spec fn digits_len(s: Seq<char>) -> nat
    decreases s.len(),
{
    if s.len() > 0 && (is_digit(s[0]) || s[0] == '-') {
        1 + digits_len(s.skip(1))
    } else {
        0
    }
}

/// Whether a line gives a key a value: the key, then an equals sign.
pub open spec fn gives(line: Seq<char>, key: Seq<char>) -> bool {
    let t = trim_start(line);
    let after = trim_start(t.skip(key.len() as int));
    starts_with(t, key) && after.len() > 0 && after[0] == '='
}

/// Where the value of a line begins.
pub open spec fn value_start(line: Seq<char>) -> int {
    line.len() - trim_start(line.skip(pos(line, '=') + 1)).len()
}

/// The whole number that a line gives a key, with where its digits stand.
pub open spec fn int_in_line(line: Seq<char>, key: Seq<char>) -> Option<(i64, int, int)> {
    let a = value_start(line);
    let n = digits_len(line.skip(a));
    if gives(line, key) {
        match parse_i64(line.subrange(a, a + n)) {
            Some(v) => Some((v, a, a + n)),
            None => None,
        }
    } else {
        None
    }
}

/// The first line that gives a key a whole number. Positions are counted from
/// `off` at the first line.
pub open spec fn int_field(ls: Seq<Seq<char>>, key: Seq<char>, off: int) -> Option<(i64, int, int)>
    decreases ls.len(),
{
    if ls.len() == 0 {
        None
    } else {
        match int_in_line(ls[0], key) {
            Some((v, a, b)) => Some((v, off + a, off + b)),
            None => int_field(ls.skip(1), key, off + ls[0].len() + 1),
        }
    }
}

/// The text of a value in front of its comment.
pub open spec fn before_comment(s: Seq<char>) -> Seq<char> {
    s.take(pos(s, '#'))
}

/// What the first line that gives a key says.
pub open spec fn str_field(ls: Seq<Seq<char>>, key: Seq<char>) -> Seq<char>
    decreases ls.len(),
{
    if ls.len() == 0 {
        Seq::empty()
    } else if gives(ls[0], key) {
        let after = trim_start(trim_start(ls[0]).skip(key.len() as int));
        trim(before_comment(after.skip(1)))
    } else {
        str_field(ls.skip(1), key)
    }
}

/// Blanks and line breaks.
pub open spec fn is_gap(c: char) -> bool {
    c == ' ' || c == '\t' || c == '\n' || c == '\r'
}

/// How many blanks and line breaks a text begins with.
pub open spec fn gap_len(s: Seq<char>) -> nat
    decreases s.len(),
{
    if s.len() > 0 && is_gap(s[0]) {
        1 + gap_len(s.skip(1))
    } else {
        0
    }
}

/// One past the brace that closes `depth` open ones, or the text's length.
pub open spec fn closing(s: Seq<char>, depth: nat) -> nat
    decreases s.len(),
{
    if depth == 0 || s.len() == 0 {
        0
    } else if s[0] == '{' {
        1 + closing(s.skip(1), depth + 1)
    } else if s[0] == '}' {
        1 + closing(s.skip(1), (depth - 1) as nat)
    } else {
        1 + closing(s.skip(1), depth)
    }
}

/// Whether a text closes `depth` open braces.
pub open spec fn closes(s: Seq<char>, depth: nat) -> bool
    decreases s.len(),
{
    if depth == 0 {
        true
    } else if s.len() == 0 {
        false
    } else if s[0] == '{' {
        closes(s.skip(1), depth + 1)
    } else if s[0] == '}' {
        closes(s.skip(1), (depth - 1) as nat)
    } else {
        closes(s.skip(1), depth)
    }
}

/// The inside of a block whose text, brace included, is `k` long. A block that
/// is never closed has all of it inside.
pub open spec fn inside(s: Seq<char>, k: nat) -> Seq<char> {
    if k > 0 && closes(s, 1) {
        s.take(k - 1)
    } else {
        s.take(k as int)
    }
}

/// A listener with where the digits of its timeout stand.
pub struct Timed {
    pub listener: ListenerView,
    pub from: int,
    pub to: int,
}

/// The listener that a block describes; a block without a timeout is none.
pub open spec fn listener_in(block: Seq<char>, off: int) -> Option<Timed> {
    match int_field(split(block, '\n'), "timeout"@, off) {
        Some((timeout, from, to)) => {
            let action = str_field(lines(block), "on-timeout"@);
            Some(
                Timed {
                    listener: ListenerView {
                        timeout,
                        on_timeout: action,
                        stage: stage_of(action),
                    },
                    from,
                    to,
                },
            )
        },
        None => None,
    }
}

/// Where the brace behind a keyword at `kw` would stand.
pub open spec fn brace_at(s: Seq<char>, kw: int) -> int {
    let n = kw + "listener"@.len();
    n + gap_len(s.skip(n))
}

/// The listeners of a text, with positions counted from `off`.
pub open spec fn listeners_in(s: Seq<char>, off: int) -> Seq<Timed>
    decreases s.len(),
{
    match find(s, "listener"@) {
        None => Seq::empty(),
        Some(kw) => {
            let n = kw + "listener"@.len();
            let open = brace_at(s, kw);
            proof {
                lemma_keyword(s);
                lemma_gap_len(s.skip(n));
            }
            if open >= s.len() || s[open] != '{' {
                listeners_in(s.skip(n), off + n)
            } else {
                let body = s.skip(open + 1);
                let k = closing(body, 1);
                proof {
                    lemma_closing(body, 1);
                }
                let more = listeners_in(body.skip(k as int), off + open + 1 + k);
                match listener_in(inside(body, k), off + open + 1) {
                    Some(t) => seq![t] + more,
                    None => more,
                }
            }
        },
    }
}

pub proof fn lemma_keyword(s: Seq<char>)
    ensures
        "listener"@.len() == 8,
        find(s, "listener"@) matches Some(kw) ==> 0 <= kw && kw + 8 <= s.len(),
{
    reveal_strlit("listener");
    lemma_find_from(s, "listener"@, 0);
}

pub proof fn lemma_gap_len(s: Seq<char>)
    ensures
        gap_len(s) <= s.len(),
        forall|i: int| 0 <= i < gap_len(s) ==> is_gap(#[trigger] s[i]),
        gap_len(s) < s.len() ==> !is_gap(s[gap_len(s) as int]),
    decreases s.len(),
{
    if s.len() > 0 && is_gap(s[0]) {
        lemma_gap_len(s.skip(1));
        assert forall|i: int| 0 <= i < gap_len(s) implies is_gap(#[trigger] s[i]) by {
            if i > 0 {
                assert(s.skip(1)[i - 1] == s[i]);
            }
        }
    }
}

pub proof fn lemma_closing(s: Seq<char>, depth: nat)
    ensures
        closing(s, depth) <= s.len(),
        s.len() > 0 && depth > 0 ==> closing(s, depth) > 0,
    decreases s.len(),
{
    if depth > 0 && s.len() > 0 {
        if s[0] == '{' {
            lemma_closing(s.skip(1), depth + 1);
        } else if s[0] == '}' {
            lemma_closing(s.skip(1), (depth - 1) as nat);
        } else {
            lemma_closing(s.skip(1), depth);
        }
    }
}

pub proof fn lemma_digits_len(s: Seq<char>)
    ensures
        digits_len(s) <= s.len(),
        forall|i: int|
            0 <= i < digits_len(s) ==> is_digit(#[trigger] s[i]) || s[i] == '-',
        digits_len(s) < s.len() ==> !is_digit(s[digits_len(s) as int]) && s[digits_len(
            s,
        ) as int] != '-',
    decreases s.len(),
{
    if s.len() > 0 && (is_digit(s[0]) || s[0] == '-') {
        lemma_digits_len(s.skip(1));
        assert forall|i: int| 0 <= i < digits_len(s) implies is_digit(#[trigger] s[i]) || s[i]
            == '-' by {
            if i > 0 {
                assert(s.skip(1)[i - 1] == s[i]);
            }
        }
    }
}

/// A line that gives a key a value holds an equals sign.
pub proof fn lemma_gives(line: Seq<char>, key: Seq<char>)
    requires
        gives(line, key),
    ensures
        holds(line, '='),
        0 <= pos(line, '=') < line.len(),
        pos(line, '=') < value_start(line) <= line.len(),
{
    crate::split::lemma_trim_start_result(line);
    let t = trim_start(line);
    crate::split::lemma_trim_start_result(t.skip(key.len() as int));
    let after = trim_start(t.skip(key.len() as int));
    let k = line.len() - after.len();
    assert(line[k] == '=');
    lemma_pos_from(line, '=', 0);
    crate::split::lemma_trim_start_result(line.skip(pos(line, '=') + 1));
}

/// Whether a line gives a key a value.
fn line_gives(line: &[char], key: &str) -> (r: bool)
    ensures
        r == gives(line@, key@),
{
    let t = trimmed_start(line);
    if !starts(t, key) {
        return false;
    }
    let k = chars(key);
    let after = trimmed_start(rest(t, k.len()));
    after.len() > 0 && after[0] == '='
}

fn read_line(line: &[char], key: &str) -> (r: Option<(i64, usize, usize)>)
    ensures
        match r {
            Some((v, a, b)) => int_in_line(line@, key@) == Some((v, a as int, b as int)) && a <= b
                <= line@.len(),
            None => int_in_line(line@, key@) is None,
        },
{
    if !line_gives(line, key) {
        return None;
    }
    proof {
        lemma_gives(line@, key@);
    }
    let p = position(line, '=');
    let n = line.len();
    let tail = trimmed_start(rest(line, p + 1));
    let a: usize = n - tail.len();
    assert(line@.skip(a as int) == tail@) by {
        crate::split::lemma_trim_start_result(line@.skip(p + 1));
        assert(line@.skip(p + 1).skip(line@.skip(p + 1).len() - tail@.len()) == line@.skip(
            a as int,
        ));
    }
    let mut k: usize = 0;
    assert(tail@.skip(0) == tail@);
    while k < tail.len() && (digit(tail[k]) || tail[k] == '-')
        invariant
            k <= tail@.len(),
            digits_len(tail@) == k + digits_len(tail@.skip(k as int)),
        decreases tail.len() - k,
    {
        assert(tail@.skip(k as int).skip(1) == tail@.skip(k + 1));
        k = k + 1;
    }
    assert(digits_len(tail@) == k);
    let ds = front(tail, k);
    assert(ds@ == line@.subrange(a as int, a + k));
    match read_i64(ds) {
        Some(v) => Some((v, a, a + k)),
        None => None,
    }
}

/// The first line of a block that gives a key a whole number.
fn field_int(ls: &Vec<&[char]>, key: &str, base: usize) -> (r: Option<(i64, usize, usize)>)
    requires
        base + join(slices(ls@), seq!['\n']).len() <= usize::MAX,
        ls@.len() > 0,
    ensures
        match r {
            Some((v, a, b)) => int_field(slices(ls@), key@, base as int) == Some(
                (v, a as int, b as int),
            ),
            None => int_field(slices(ls@), key@, base as int) is None,
        },
{
    let ghost all = slices(ls@);
    let mut off: usize = base;
    let mut i: usize = 0;
    assert(all.skip(0) == all);
    while i < ls.len()
        invariant
            i <= ls@.len(),
            all == slices(ls@),
            i < ls@.len() ==> off + join(all.skip(i as int), seq!['\n']).len() <= usize::MAX,
            int_field(all, key@, base as int) == int_field(all.skip(i as int), key@, off as int),
        decreases ls.len() - i,
    {
        let ghost tail = all.skip(i as int);
        assert(tail[0] == ls@[i as int]@);
        assert(tail.skip(1) == all.skip(i + 1));
        assert(join(tail, seq!['\n']).len() == if tail.len() == 1 {
            tail[0].len()
        } else {
            tail[0].len() + 1 + join(tail.skip(1), seq!['\n']).len()
        });
        if let Some((v, a, b)) = read_line(ls[i], key) {
            return Some((v, off + a, off + b));
        }
        if i + 1 < ls.len() {
            off = off + ls[i].len() + 1;
        } else {
            proof {
                let none = Seq::<Seq<char>>::empty();
                assert(tail.skip(1) == none);
                assert(int_field(none, key@, off + tail[0].len() + 1) is None);
            }
            return None;
        }
        i = i + 1;
    }
    None
}

/// What the first line of a block that gives a key says.
fn field_str(ls: &Vec<&[char]>, key: &str) -> (r: String)
    ensures
        r@ == str_field(slices(ls@), key@),
{
    let ghost all = slices(ls@);
    let mut i: usize = 0;
    assert(all.skip(0) == all);
    while i < ls.len()
        invariant
            i <= ls@.len(),
            all == slices(ls@),
            str_field(all, key@) == str_field(all.skip(i as int), key@),
        decreases ls.len() - i,
    {
        let ghost tail = all.skip(i as int);
        assert(tail[0] == ls@[i as int]@);
        assert(tail.skip(1) == all.skip(i + 1));
        if line_gives(ls[i], key) {
            let k = chars(key);
            let after = trimmed_start(rest(trimmed_start(ls[i]), k.len()));
            let v = rest(after, 1);
            proof {
                lemma_pos_from(v@, '#', 0);
            }
            let n = position(v, '#');
            return string(trimmed(front(v, n)));
        }
        i = i + 1;
    }
    let none: String = String::new();
    assert(none@ == Seq::<char>::empty());
    none
}

/// A listener with where the digits of its timeout stand in the file.
#[derive(Debug)]
struct Spot {
    listener: Listener,
    from: usize,
    to: usize,
}

impl View for Spot {
    type V = Timed;

    closed spec fn view(&self) -> Timed {
        Timed { listener: self.listener@, from: self.from as int, to: self.to as int }
    }
}

closed spec fn spot_views(v: Seq<Spot>) -> Seq<Timed> {
    v.map_values(|s: Spot| s@)
}

fn read_block(block: &[char], base: usize) -> (r: Option<Spot>)
    requires
        base + block@.len() <= usize::MAX,
    ensures
        match r {
            Some(s) => listener_in(block@, base as int) == Some(s@),
            None => listener_in(block@, base as int) is None,
        },
{
    let parts = pieces(block, '\n');
    proof {
        crate::split::lemma_join_of_split(block@, '\n');
    }
    match field_int(&parts, "timeout", base) {
        Some((timeout, from, to)) => {
            let ls = text_lines(block);
            let on_timeout = field_str(&ls, "on-timeout");
            let stage = Stage::classify(on_timeout.as_str());
            Some(Spot { listener: Listener { timeout, on_timeout, stage }, from, to })
        },
        None => None,
    }
}

fn parse_listeners(src: &[char]) -> (r: Vec<Spot>)
    ensures
        spot_views(r@) == listeners_in(src@, 0),
{
    let mut out: Vec<Spot> = Vec::new();
    let mut tail: &[char] = src;
    let mut off: usize = 0;
    let all = src.len();
    assert(spot_views(out@) == Seq::<Timed>::empty());
    assert(spot_views(out@) + listeners_in(tail@, 0) == listeners_in(src@, 0));
    loop
        invariant
            off + tail@.len() <= src@.len(),
            src@.len() <= usize::MAX,
            spot_views(out@) + listeners_in(tail@, off as int) == listeners_in(src@, 0),
        decreases tail@.len(),
    {
        proof {
            lemma_keyword(tail@);
        }
        let kw = match found(tail, "listener") {
            Some(k) => k,
            None => {
                assert(spot_views(out@) + Seq::<Timed>::empty() == spot_views(out@));
                return out;
            },
        };
        let n: usize = kw + 8;
        let after = rest(tail, n);
        proof {
            lemma_gap_len(after@);
        }
        let mut g: usize = 0;
        assert(after@.skip(0) == after@);
        while g < after.len() && (after[g] == ' ' || after[g] == '\t' || after[g] == '\n'
            || after[g] == '\r')
            invariant
                g <= after@.len(),
                gap_len(after@) == g + gap_len(after@.skip(g as int)),
            decreases after.len() - g,
        {
            assert(after@.skip(g as int).skip(1) == after@.skip(g + 1));
            g = g + 1;
        }
        assert(gap_len(after@) == g);
        let open: usize = n + g;
        if open >= tail.len() || tail[open] != '{' {
            tail = after;
            off = off + n;
        } else {
            let body = rest(tail, open + 1);
            proof {
                lemma_closing(body@, 1);
            }
            let size = body.len();
            let mut k: usize = 0;
            let mut depth: usize = 1;
            assert(body@.skip(0) == body@);
            while k < body.len() && depth > 0
                invariant
                    k <= body@.len(),
                    size == body@.len(),
                    size < usize::MAX,
                    depth <= k + 1,
                    closing(body@, 1) == k + closing(body@.skip(k as int), depth as nat),
                    closes(body@, 1) == closes(body@.skip(k as int), depth as nat),
                    k == 0 ==> depth > 0,
                decreases body.len() - k,
            {
                assert(body@.skip(k as int).skip(1) == body@.skip(k + 1));
                if body[k] == '{' {
                    depth = depth + 1;
                } else if body[k] == '}' {
                    depth = depth - 1;
                }
                k = k + 1;
            }
            assert(closing(body@, 1) == k);
            let block = if depth == 0 {
                front(body, k - 1)
            } else {
                front(body, k)
            };
            assert(block@ == inside(body@, k as nat));
            let ghost before = spot_views(out@);
            let ghost here = off as int;
            let found_one = read_block(block, off + open + 1);
            let ghost more = listeners_in(body@.skip(k as int), here + open + 1 + k);
            if let Some(s) = found_one {
                out.push(s);
                assert(spot_views(out@) == before.push(s@));
                assert(before.push(s@) + more == before + (seq![s@] + more));
            }
            tail = rest(body, k);
            off = off + open + 1 + k;
        }
    }
}

/// The hypridle file as an idle timeline.
#[derive(Debug)]
pub struct Hypridle {
    path: String,
    src: Vec<char>,
    listeners: Vec<Spot>,
}

/// A text with the digits of a timeout replaced.
pub open spec fn retimed(src: Seq<char>, from: int, to: int, seconds: i64) -> Seq<char> {
    src.take(from) + int_text(seconds as int) + src.skip(to)
}

/// The position of the first listener with a timeout and an action, or its
/// length.
pub open spec fn position_of(ls: Seq<Timed>, timeout: i64, action: Seq<char>) -> int
    decreases ls.len(),
{
    if ls.len() == 0 {
        0
    } else if ls[0].listener.timeout == timeout && ls[0].listener.on_timeout == action {
        0
    } else {
        1 + position_of(ls.skip(1), timeout, action)
    }
}

/// The listeners in the order of their timeouts.
pub open spec fn timeline_of(ls: Seq<Timed>) -> Seq<ListenerView> {
    sorted_by(
        ls.map_values(|t: Timed| t.listener),
        ls.map_values(|t: Timed| t.listener.timeout),
    )
}

pub open spec fn hypridle_path(paths: &OmarchyPaths) -> Seq<char> {
    path_join(paths.hypr(), "hypridle.conf"@)
}

impl Hypridle {
    pub closed spec fn file(&self) -> Seq<char> {
        self.path@
    }

    pub closed spec fn text(&self) -> Seq<char> {
        self.src@
    }

    pub closed spec fn listeners(&self) -> Seq<Timed> {
        spot_views(self.listeners@)
    }

    /// The listeners are those of the text.
    pub open spec fn wf(&self) -> bool {
        self.listeners() == listeners_in(self.text(), 0)
    }

    /// The model of a file's text, or why the file could not be read.
    pub fn load(paths: &OmarchyPaths, read: Result<&str, &str>) -> (r: Result<Self, StudioError>)
        ensures
            match read {
                Ok(text) => r matches Ok(h) && h.wf() && h.text() == text@ && h.file()
                    == hypridle_path(paths),
                Err(why) => r matches Err(e) && e@ == (Failure::External {
                    cmd: "read "@ + hypridle_path(paths),
                    detail: why@,
                }),
            },
    {
        let path = paths.hypr_file("hypridle.conf");
        match read {
            Ok(text) => {
                let src = chars(text);
                let listeners = parse_listeners(src.as_slice());
                Ok(Hypridle { path, src, listeners })
            },
            Err(why) => {
                let mut cmd = owned("read ");
                cmd.append(path.as_str());
                Err(external(cmd.as_str(), why))
            },
        }
    }

    pub fn path(&self) -> (r: &str)
        ensures
            r@ == self.file(),
    {
        self.path.as_str()
    }

    /// The listeners in the order in which the user meets them.
    pub fn timeline(&self) -> (r: Vec<Listener>)
        ensures
            listener_views(r@) == timeline_of(self.listeners()),
    {
        let ghost ls = self.listeners();
        let ghost keys = ls.map_values(|t: Timed| t.listener.timeout);
        let mut timeouts: Vec<i64> = Vec::new();
        let mut i: usize = 0;
        while i < self.listeners.len()
            invariant
                i <= self.listeners@.len(),
                timeouts@.len() == i,
                forall|j: int|
                    0 <= j < i ==> #[trigger] timeouts@[j] == self.listeners@[j].listener.timeout,
            decreases self.listeners.len() - i,
        {
            timeouts.push(self.listeners[i].listener.timeout);
            i = i + 1;
        }
        assert(timeouts@ == keys);
        let order = stable_order(&timeouts);
        let mut out: Vec<Listener> = Vec::new();
        let mut i: usize = 0;
        while i < order.len()
            invariant
                i <= order@.len(),
                out@.len() == i,
                order@.len() == self.listeners@.len(),
                forall|j: int|
                    0 <= j < order@.len() ==> #[trigger] order@[j] < self.listeners@.len(),
                forall|j: int|
                    0 <= j < i ==> (#[trigger] out@[j])@
                        == self.listeners@[order@[j] as int].listener@,
            decreases order.len() - i,
        {
            out.push(self.listeners[order[i]].listener.copied());
            i = i + 1;
        }
        proof {
            let views = ls.map_values(|t: Timed| t.listener);
            let want = sorted_by(views, keys);
            assert forall|j: int| 0 <= j < out@.len() implies #[trigger] out@[j]@ == want[j] by {
                assert(positions(order@)[j] == order@[j]);
                assert(ls[order@[j] as int] == self.listeners@[order@[j] as int]@);
            }
            assert(listener_views(out@) == want);
        }
        out
    }

    /// Retimes a listener, found by its timeout and its action. Nothing but
    /// the digits of its timeout changes.
    pub fn set_timeout(&mut self, listener: &Listener, seconds: i64) -> (r: Result<
        (),
        StudioError,
    >)
        requires
            old(self).wf(),
        ensures
            final(self).wf(),
            final(self).file() == old(self).file(),
            ({
                let ls = old(self).listeners();
                let k = position_of(ls, listener.timeout, listener.on_timeout@);
                if k < ls.len() {
                    r is Ok && final(self).text() == retimed(
                        old(self).text(),
                        ls[k].from,
                        ls[k].to,
                        seconds,
                    )
                } else {
                    &&& final(self).text() == old(self).text()
                    &&& r matches Err(e)
                    &&& e@ == (Failure::External {
                        cmd: "hypridle"@,
                        detail: "listener no longer present"@,
                    })
                }
            }),
    {
        let ghost ls = self.listeners();
        let mut i: usize = 0;
        assert(ls.skip(0) == ls);
        while i < self.listeners.len() && !(self.listeners[i].listener.timeout == listener.timeout
            && same_str(
            self.listeners[i].listener.on_timeout.as_str(),
            listener.on_timeout.as_str(),
        ))
            invariant
                i <= self.listeners@.len(),
                ls == self.listeners(),
                position_of(ls, listener.timeout, listener.on_timeout@) == i + position_of(
                    ls.skip(i as int),
                    listener.timeout,
                    listener.on_timeout@,
                ),
            decreases self.listeners.len() - i,
        {
            assert(ls.skip(i as int)[0] == self.listeners@[i as int]@);
            assert(ls.skip(i as int).skip(1) == ls.skip(i + 1));
            i = i + 1;
        }
        if i >= self.listeners.len() {
            return Err(external("hypridle", "listener no longer present"));
        }
        assert(ls.skip(i as int)[0] == self.listeners@[i as int]@);
        let from = self.listeners[i].from;
        let to = self.listeners[i].to;
        proof {
            lemma_spans(self.src@, 0);
            assert(ls[i as int] == self.listeners@[i as int]@);
        }
        let mut text = string(front(self.src.as_slice(), from));
        append_i64(&mut text, seconds);
        let tail = string(rest(self.src.as_slice(), to));
        text.append(tail.as_str());
        self.src = chars(text.as_str());
        self.listeners = parse_listeners(self.src.as_slice());
        Ok(())
    }

    /// The file's text as it stands.
    pub fn rendered(&self) -> (r: String)
        ensures
            r@ == self.text(),
    {
        string(self.src.as_slice())
    }

    /// Whether the restart that follows a save went well.
    pub fn apply(&self, restarted: &CmdOutput) -> (r: Result<(), StudioError>)
        ensures
            match r {
                Ok(_) => restarted.succeeded(),
                Err(e) => !restarted.succeeded() && e@ == (Failure::External {
                    cmd: "omarchy-restart-hypridle"@,
                    detail: trim(restarted.stderr@),
                }),
            },
    {
        if restarted.ok() {
            Ok(())
        } else {
            Err(
                external(
                    "omarchy-restart-hypridle",
                    trimmed_str(restarted.stderr.as_str()).as_str(),
                ),
            )
        }
    }
}

/// A number that a line gives stands within the line.
pub proof fn lemma_int_in_line(line: Seq<char>, key: Seq<char>)
    ensures
        int_in_line(line, key) matches Some((v, a, b)) ==> {
            &&& 0 <= pos(line, '=') < a <= b <= line.len()
            &&& b == a + digits_len(line.skip(a))
            &&& parse_i64(line.subrange(a, b)) == Some(v)
        },
{
    if gives(line, key) {
        lemma_gives(line, key);
        lemma_digits_len(line.skip(value_start(line)));
    }
}

pub proof fn lemma_int_field(ls: Seq<Seq<char>>, key: Seq<char>, off: int)
    requires
        ls.len() > 0,
    ensures
        int_field(ls, key, off) matches Some((v, a, b)) ==> off <= a <= b <= off + join(
            ls,
            seq!['\n'],
        ).len(),
    decreases ls.len(),
{
    lemma_int_in_line(ls[0], key);
    if int_in_line(ls[0], key) is Some {
        if ls.len() > 1 {
            assert(join(ls, seq!['\n']).len() == ls[0].len() + 1 + join(
                ls.skip(1),
                seq!['\n'],
            ).len());
        }
    } else if ls.len() > 1 {
        lemma_int_field(ls.skip(1), key, off + ls[0].len() + 1);
        assert(join(ls, seq!['\n']).len() == ls[0].len() + 1 + join(
            ls.skip(1),
            seq!['\n'],
        ).len());
    } else {
        assert(ls.skip(1) == Seq::<Seq<char>>::empty());
        assert(int_field(ls.skip(1), key, off + ls[0].len() + 1) is None);
    }
}

/// The digits of every timeout stand within the text.
pub proof fn lemma_spans(s: Seq<char>, off: int)
    ensures
        forall|i: int|
            0 <= i < listeners_in(s, off).len() ==> off <= (#[trigger] listeners_in(
                s,
                off,
            )[i]).from <= listeners_in(s, off)[i].to <= off + s.len(),
    decreases s.len(),
{
    lemma_keyword(s);
    if let Some(kw) = find(s, "listener"@) {
        let n = kw + 8;
        lemma_gap_len(s.skip(n));
        let open = brace_at(s, kw);
        if open >= s.len() || s[open] != '{' {
            lemma_spans(s.skip(n), off + n);
        } else {
            let body = s.skip(open + 1);
            let k = closing(body, 1);
            lemma_closing(body, 1);
            lemma_spans(body.skip(k as int), off + open + 1 + k);
            let block = inside(body, k);
            crate::split::lemma_join_of_split(block, '\n');
            lemma_int_field(split(block, '\n'), "timeout"@, off + open + 1);
            let more = listeners_in(body.skip(k as int), off + open + 1 + k);
            let all = listeners_in(s, off);
            assert forall|i: int| 0 <= i < all.len() implies off <= (#[trigger] all[i]).from
                <= all[i].to <= off + s.len() by {
                if listener_in(block, off + open + 1) is Some {
                    if i > 0 {
                        assert(all[i] == more[i - 1]);
                    }
                } else {
                    assert(all[i] == more[i]);
                }
            }
        }
    }
}

} // verus!
