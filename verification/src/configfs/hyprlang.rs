//! The hyprlang format: lines of `key = value`, nested in `section { … }`.
//! A document keeps its lines as they are, so an edit touches one value and
//! nothing else.

use vstd::prelude::*;

use crate::split::{
    is_trimmed, join, joined, lemma_join_of_split, lemma_trim_end_result, lemma_trim_padded,
    lemma_trim_start_result, pieces, split,
};
use crate::text::{
    chars, front, has_char, holds, is_space, lemma_pos_from, lemma_pos_is, owned, pos, position,
    rest, same_str, slices, starts_str, starts_with, string, texts, trim, trim_end, trim_start,
    trimmed, trimmed_end, trimmed_start,
};

pub mod reading;

verus! {

/// The layer of the configuration that a file belongs to, lowest first.
#[derive(Debug, Clone, Copy, PartialEq, Eq, Structural)]
pub enum Layer {
    Default,
    Theme,
    User,
    Toggle,
}

/// What a line of a document says.
pub enum LineView {
    /// Blank, a comment, or nothing we know.
    Plain,
    /// `name {`
    Open(Seq<char>),
    /// `}`
    Close,
    /// `key = value`
    Entry(Seq<char>, Seq<char>),
}

pub open spec fn line_view(line: Seq<char>) -> LineView {
    let t = trim(line);
    let p = pos(line, '=');
    if t.len() == 0 || t[0] == '#' {
        LineView::Plain
    } else if t[0] == '}' {
        LineView::Close
    } else if holds(line, '=') {
        LineView::Entry(trim(line.take(p)), trim(line.skip(p + 1)))
    } else if t.last() == '{' {
        LineView::Open(trim(t.drop_last()))
    } else {
        LineView::Plain
    }
}

/// An entry with the sections it stands in and the line it stands on.
pub struct EntryView {
    pub section: Seq<Seq<char>>,
    pub key: Seq<char>,
    pub value: Seq<char>,
    pub line: int,
}

/// The sections that are open behind a line.
pub open spec fn stack_after(line: LineView, stack: Seq<Seq<char>>) -> Seq<Seq<char>> {
    match line {
        LineView::Open(name) => stack.push(name),
        LineView::Close => if stack.len() == 0 {
            stack
        } else {
            stack.drop_last()
        },
        _ => stack,
    }
}

/// The entries from line `i` on, with the sections in `stack` open.
pub open spec fn entries_from(
    lines: Seq<Seq<char>>,
    i: int,
    stack: Seq<Seq<char>>,
) -> Seq<EntryView>
    decreases lines.len() - i,
{
    if i < 0 || i >= lines.len() {
        Seq::empty()
    } else {
        let line = line_view(lines[i]);
        let tail = entries_from(lines, i + 1, stack_after(line, stack));
        match line {
            LineView::Entry(key, value) => seq![
                EntryView { section: stack, key, value, line: i },
            ] + tail,
            _ => tail,
        }
    }
}

/// Every entry of a document, in order.
pub open spec fn entries_of(lines: Seq<Seq<char>>) -> Seq<EntryView> {
    entries_from(lines, 0, Seq::empty())
}

/// The entries of a text.
pub open spec fn entries_in(text: Seq<char>) -> Seq<EntryView> {
    entries_of(split(text, '\n'))
}

/// The sections and the key of an entry with dots between them.
pub open spec fn dotted(e: EntryView) -> Seq<char> {
    join(e.section.push(e.key), "."@)
}

/// The position of the last entry with a dotted key, or `-1`.
pub open spec fn last_match(entries: Seq<EntryView>, key: Seq<char>) -> int
    decreases entries.len(),
{
    if entries.len() == 0 {
        -1
    } else if dotted(entries.last()) == key {
        entries.len() - 1
    } else {
        last_match(entries.drop_last(), key)
    }
}

/// The value that a dotted key has: the last one given counts.
pub open spec fn value_at(lines: Seq<Seq<char>>, key: Seq<char>) -> Option<Seq<char>> {
    let entries = entries_of(lines);
    let k = last_match(entries, key);
    if k < 0 {
        None
    } else {
        Some(entries[k].value)
    }
}

/// An entry's line with another value in the place of its own.
pub open spec fn with_value(line: Seq<char>, value: Seq<char>) -> Seq<char> {
    let tail = trim_start(line.skip(pos(line, '=') + 1));
    let from = line.len() - tail.len();
    line.take(from) + value + line.skip(from + trim_end(tail).len())
}

/// The lines with a dotted key's last value replaced.
pub open spec fn with_set(
    lines: Seq<Seq<char>>,
    key: Seq<char>,
    value: Seq<char>,
) -> Seq<Seq<char>> {
    let entries = entries_of(lines);
    let k = last_match(entries, key);
    if k < 0 {
        lines
    } else {
        let i = entries[k].line;
        lines.update(i, with_value(lines[i], value))
    }
}

/// Whether an entry is a keybind directive.
pub open spec fn is_bind(e: EntryView) -> bool {
    starts_with(e.key, "bind"@) || e.key == "unbind"@
}

/// A `key = value` line of a document.
#[derive(Debug, Clone, PartialEq, Eq)]
pub struct Entry {
    pub section: Vec<String>,
    pub key: String,
    pub value: String,
    pub line: usize,
}

impl View for Entry {
    type V = EntryView;

    open spec fn view(&self) -> EntryView {
        EntryView {
            section: texts(self.section@),
            key: self.key@,
            value: self.value@,
            line: self.line as int,
        }
    }
}

pub open spec fn entry_views(v: Seq<Entry>) -> Seq<EntryView> {
    v.map_values(|e: Entry| e@)
}

/// A copy of a list of strings.
pub fn copied(v: &Vec<String>) -> (r: Vec<String>)
    ensures
        texts(r@) == texts(v@),
{
    let mut out: Vec<String> = Vec::new();
    let mut i: usize = 0;
    while i < v.len()
        invariant
            i <= v@.len(),
            out@.len() == i,
            forall|j: int| 0 <= j < i ==> (#[trigger] out@[j])@ == v@[j]@,
        decreases v.len() - i,
    {
        out.push(owned(v[i].as_str()));
        i = i + 1;
    }
    assert(texts(out@) == texts(v@));
    out
}

impl Entry {
    /// The dotted key, such as `decoration.blur.size`.
    pub fn dotted(&self) -> (r: String)
        ensures
            r@ == dotted(self@),
    {
        let mut parts = copied(&self.section);
        parts.push(owned(self.key.as_str()));
        assert(texts(parts@) == texts(self.section@).push(self.key@));
        joined(&parts, ".")
    }
}

/// What a line says, as values.
enum LineKind {
    Plain,
    Open(String),
    Close,
    Entry(String, String),
}

impl View for LineKind {
    type V = LineView;

    closed spec fn view(&self) -> LineView {
        match self {
            LineKind::Plain => LineView::Plain,
            LineKind::Open(name) => LineView::Open(name@),
            LineKind::Close => LineView::Close,
            LineKind::Entry(key, value) => LineView::Entry(key@, value@),
        }
    }
}

fn classify(line: &str) -> (r: LineKind)
    ensures
        r@ == line_view(line@),
{
    let s = chars(line);
    let t = trimmed(s.as_slice());
    if t.len() == 0 || t[0] == '#' {
        return LineKind::Plain;
    }
    if t[0] == '}' {
        return LineKind::Close;
    }
    if has_char(s.as_slice(), '=') {
        proof {
            lemma_pos_from(s@, '=', 0);
        }
        let p = position(s.as_slice(), '=');
        let key = string(trimmed(front(s.as_slice(), p)));
        let value = string(trimmed(rest(s.as_slice(), p + 1)));
        return LineKind::Entry(key, value);
    }
    if t[t.len() - 1] == '{' {
        let name = front(t, t.len() - 1);
        assert(name@ == t@.drop_last());
        return LineKind::Open(string(trimmed(name)));
    }
    LineKind::Plain
}

/// A parsed document. It holds its text line by line.
#[derive(Debug, Clone, PartialEq, Eq)]
pub struct HyprDoc {
    lines: Vec<String>,
}

impl HyprDoc {
    pub closed spec fn lines(&self) -> Seq<Seq<char>> {
        texts(self.lines@)
    }

    pub fn parse(text: &str) -> (r: Self)
        ensures
            r.lines() == split(text@, '\n'),
    {
        let s = chars(text);
        let parts = pieces(s.as_slice(), '\n');
        let mut lines: Vec<String> = Vec::new();
        let mut i: usize = 0;
        while i < parts.len()
            invariant
                i <= parts@.len(),
                lines@.len() == i,
                forall|j: int| 0 <= j < i ==> (#[trigger] lines@[j])@ == parts@[j]@,
            decreases parts.len() - i,
        {
            lines.push(string(parts[i]));
            i = i + 1;
        }
        let r = HyprDoc { lines };
        assert(r.lines() == slices(parts@));
        r
    }

    /// The document's text.
    pub fn to_text(&self) -> (r: String)
        ensures
            r@ == join(self.lines(), "\n"@),
    {
        joined(&self.lines, "\n")
    }

    pub fn entries(&self) -> (r: Vec<Entry>)
        ensures
            entry_views(r@) == entries_of(self.lines()),
            forall|k: int|
                0 <= k < r@.len() ==> (#[trigger] r@[k]).line < self.lines().len() && line_view(
                    self.lines()[r@[k].line as int],
                ) == LineView::Entry(r@[k].key@, r@[k].value@),
    {
        let mut out: Vec<Entry> = Vec::new();
        let mut stack: Vec<String> = Vec::new();
        let mut i: usize = 0;
        let ghost lines = self.lines();
        assert(texts(stack@) == Seq::<Seq<char>>::empty());
        assert(entry_views(out@) == Seq::<EntryView>::empty());
        assert(entries_of(lines) == entry_views(out@) + entries_from(lines, 0, texts(stack@)));
        while i < self.lines.len()
            invariant
                i <= self.lines@.len(),
                lines == self.lines(),
                lines.len() == self.lines@.len(),
                forall|j: int| 0 <= j < lines.len() ==> self.lines@[j]@ == #[trigger] lines[j],
                entries_of(lines) == entry_views(out@) + entries_from(
                    lines,
                    i as int,
                    texts(stack@),
                ),
                forall|k: int|
                    0 <= k < out@.len() ==> (#[trigger] out@[k]).line < lines.len() && line_view(
                        lines[out@[k].line as int],
                    ) == LineView::Entry(out@[k].key@, out@[k].value@),
            decreases self.lines.len() - i,
        {
            let ghost before = entry_views(out@);
            let ghost open = texts(stack@);
            let ghost tail = entries_from(lines, i as int, open);
            let kind = classify(self.lines[i].as_str());
            assert(kind@ == line_view(lines[i as int]));
            match kind {
                LineKind::Plain => {},
                LineKind::Open(name) => {
                    stack.push(name);
                    assert(texts(stack@) == open.push(name@));
                },
                LineKind::Close => {
                    if stack.len() > 0 {
                        let _ = stack.pop();
                        assert(texts(stack@) == open.drop_last());
                    }
                },
                LineKind::Entry(key, value) => {
                    let e = Entry { section: copied(&stack), key, value, line: i };
                    proof {
                        let rest = entries_from(lines, i + 1, open);
                        assert(tail == seq![e@] + rest);
                        assert(before + (seq![e@] + rest) == before.push(e@) + rest);
                    }
                    out.push(e);
                    assert(entry_views(out@) == before.push(e@));
                },
            }
            i = i + 1;
        }
        assert(entry_views(out@) + Seq::<EntryView>::empty() == entry_views(out@));
        out
    }

    /// The keybind directives, `unbind` included.
    pub fn binds(&self) -> (r: Vec<Entry>)
        ensures
            entry_views(r@) == entries_of(self.lines()).filter(|e: EntryView| is_bind(e)),
    {
        let mut all = self.entries();
        let ghost views = entry_views(all@);
        let mut out: Vec<Entry> = Vec::new();
        let mut i: usize = 0;
        assert(views.take(0) == Seq::<EntryView>::empty());
        assert(entry_views(out@) == views.take(0).filter(|e: EntryView| is_bind(e)));
        while i < all.len()
            invariant
                i <= all@.len(),
                views == entry_views(all@),
                entry_views(out@) == views.take(i as int).filter(|e: EntryView| is_bind(e)),
            decreases all.len() - i,
        {
            let ghost f = |e: EntryView| is_bind(e);
            proof {
                assert(views.take(i + 1).drop_last() == views.take(i as int));
                assert(views.take(i + 1).last() == all@[i as int]@);
                reveal(Seq::filter);
            }
            let e = &all[i];
            let ghost before = entry_views(out@);
            if starts_str(e.key.as_str(), "bind") || same_str(e.key.as_str(), "unbind") {
                out.push(
                    Entry {
                        section: copied(&e.section),
                        key: owned(e.key.as_str()),
                        value: owned(e.value.as_str()),
                        line: e.line,
                    },
                );
                assert(entry_views(out@) == before.push(all@[i as int]@));
            }
            i = i + 1;
        }
        assert(views.take(all@.len() as int) == views);
        out
    }

    /// The place of the last entry with a dotted key.
    fn find_last(entries: &Vec<Entry>, key: &str) -> (r: Option<usize>)
        ensures
            match r {
                Some(k) => k < entries@.len() && last_match(entry_views(entries@), key@) == k,
                None => last_match(entry_views(entries@), key@) < 0,
            },
    {
        let mut n: usize = entries.len();
        let ghost views = entry_views(entries@);
        assert(views.take(n as int) == views);
        while n > 0
            invariant
                n <= entries@.len(),
                views == entry_views(entries@),
                last_match(views, key@) == last_match(views.take(n as int), key@),
            decreases n,
        {
            let d = entries[n - 1].dotted();
            assert(views.take(n as int).last() == entries@[n - 1]@);
            if same_str(d.as_str(), key) {
                return Some(n - 1);
            }
            assert(views.take(n as int).drop_last() == views.take(n - 1));
            n = n - 1;
        }
        None
    }

    pub fn get(&self, key: &str) -> (r: Option<String>)
        ensures
            crate::text::opt_text(r) == value_at(self.lines(), key@),
    {
        let entries = self.entries();
        match Self::find_last(&entries, key) {
            Some(k) => {
                assert(entry_views(entries@)[k as int] == entries@[k as int]@);
                Some(owned(entries[k].value.as_str()))
            },
            None => None,
        }
    }

    /// Replaces the value that counts for a dotted key. `false` where no line
    /// gives it one.
    pub fn set(&mut self, key: &str, value: &str) -> (r: bool)
        ensures
            final(self).lines() == with_set(old(self).lines(), key@, value@),
            r == (value_at(old(self).lines(), key@) is Some),
    {
        let ghost lines = self.lines();
        let entries = self.entries();
        match Self::find_last(&entries, key) {
            Some(k) => {
                let i = entries[k].line;
                assert(entry_views(entries@)[k as int] == entries@[k as int]@);
                let changed = Self::replaced(self.lines[i].as_str(), value);
                self.lines.set(i, changed);
                assert(self.lines() == with_set(lines, key@, value@));
                true
            },
            None => false,
        }
    }

    /// A line with another value.
    fn replaced(line: &str, value: &str) -> (r: String)
        requires
            holds(line@, '='),
        ensures
            r@ == with_value(line@, value@),
    {
        let s = chars(line);
        proof {
            lemma_pos_from(s@, '=', 0);
        }
        let p = position(s.as_slice(), '=');
        let after = rest(s.as_slice(), p + 1);
        proof {
            lemma_trim_start_result(after@);
            lemma_trim_end_result(trim_start(after@));
        }
        let tail = trimmed_start(after);
        let core = trimmed_end(tail);
        let from: usize = s.len() - tail.len();
        let mut out = string(front(s.as_slice(), from));
        out.append(value);
        let end = string(rest(tail, core.len()));
        assert(end@ == s@.skip(from + core@.len()));
        out.append(end.as_str());
        out
    }
}

// ---------------------------------------------------------------------- laws

/// A document gives back the text it was parsed from, byte for byte.
pub proof fn law_lossless(text: Seq<char>)
    ensures
        join(split(text, '\n'), "\n"@) == text,
{
    reveal_strlit("\n");
    assert("\n"@ == seq!['\n']);
    lemma_join_of_split(text, '\n');
}

proof fn lemma_trim_start_append(a: Seq<char>, b: Seq<char>)
    requires
        trim_start(a).len() > 0,
    ensures
        trim_start(a + b) == trim_start(a) + b,
    decreases a.len(),
{
    if is_space(a[0]) {
        lemma_trim_start_append(a.skip(1), b);
        assert((a + b).skip(1) == a.skip(1) + b);
    }
}

pub proof fn lemma_trim_end_head(s: Seq<char>)
    requires
        s.len() > 0,
        !is_space(s[0]),
    ensures
        trim_end(s).len() > 0,
        trim_end(s)[0] == s[0],
    decreases s.len(),
{
    if is_space(s.last()) {
        lemma_trim_end_head(s.drop_last());
    }
}

/// A text that holds more than white space begins with the same character,
/// whatever is put behind it.
pub proof fn lemma_trim_head(a: Seq<char>, b: Seq<char>, i: int)
    requires
        0 <= i < a.len(),
        !is_space(a[i]),
    ensures
        trim_start(a).len() > 0,
        trim(a + b).len() > 0,
        trim(a + b)[0] == trim_start(a)[0],
{
    lemma_trim_start_result(a);
    if trim_start(a).len() == 0 {
        assert(a.take(a.len() as int)[i] == a[i]);
    }
    lemma_trim_start_append(a, b);
    lemma_trim_end_head(trim_start(a) + b);
}

/// An entry's line stays an entry of the same key when its value is replaced,
/// and holds the new value.
pub proof fn lemma_with_value(line: Seq<char>, key: Seq<char>, was: Seq<char>, value: Seq<char>)
    requires
        line_view(line) == LineView::Entry(key, was),
        is_trimmed(value),
    ensures
        line_view(with_value(line, value)) == LineView::Entry(key, value),
{
    let p = pos(line, '=');
    lemma_pos_from(line, '=', 0);
    let after = line.skip(p + 1);
    let tail = trim_start(after);
    lemma_trim_start_result(after);
    lemma_trim_end_result(tail);
    let from = line.len() - tail.len();
    let to = from + trim_end(tail).len();
    let now = with_value(line, value);
    let head = line.take(from);
    assert(now == head + (value + line.skip(to)));
    assert(!is_space('='));
    assert(head[p] == '=');
    lemma_trim_head(head, value + line.skip(to), p);
    lemma_trim_head(head, line.skip(from), p);
    assert(line == head + line.skip(from));
    assert forall|j: int| 0 <= j < p implies now[j] != '=' by {
        assert(now[j] == line[j]);
    }
    assert(now[p] == '=');
    lemma_pos_is(now, '=', p);
    assert(holds(now, '='));
    assert(now.take(p) == line.take(p));
    let gap = line.subrange(p + 1, from);
    assert(gap == after.take(after.len() - tail.len()));
    assert(line.skip(to) == tail.skip(trim_end(tail).len() as int));
    assert(now.skip(p + 1) == gap + value + line.skip(to));
    lemma_trim_padded(gap, value, line.skip(to));
}

/// An entry with another value.
spec fn revalued(e: EntryView, line: int, value: Seq<char>) -> EntryView {
    if e.line == line {
        EntryView { value, ..e }
    } else {
        e
    }
}

proof fn lemma_entries_revalued(
    lines: Seq<Seq<char>>,
    i: int,
    stack: Seq<Seq<char>>,
    at: int,
    value: Seq<char>,
)
    requires
        0 <= i,
        0 <= at < lines.len(),
        line_view(lines[at]) is Entry,
        is_trimmed(value),
    ensures
        entries_from(lines.update(at, with_value(lines[at], value)), i, stack) == entries_from(
            lines,
            i,
            stack,
        ).map_values(|e: EntryView| revalued(e, at, value)),
    decreases lines.len() - i,
{
    let now = lines.update(at, with_value(lines[at], value));
    let f = |e: EntryView| revalued(e, at, value);
    lemma_with_value(lines[at], line_view(lines[at])->Entry_0, line_view(lines[at])->Entry_1, value);
    if i < lines.len() {
        let line = line_view(lines[i]);
        let open = stack_after(line, stack);
        lemma_entries_revalued(lines, i + 1, open, at, value);
        let tail = entries_from(lines, i + 1, open);
        if let LineView::Entry(key, was) = line {
            let e = EntryView { section: stack, key, value: was, line: i };
            assert((seq![e] + tail).map_values(f) == seq![f(e)] + tail.map_values(f));
        }
    } else {
        assert(Seq::<EntryView>::empty().map_values(f) == Seq::<EntryView>::empty());
    }
}

/// Entries stand on lines of the document, each on its own, in order.
proof fn lemma_entry_lines(lines: Seq<Seq<char>>, i: int, stack: Seq<Seq<char>>)
    requires
        0 <= i,
    ensures
        ({
            let es = entries_from(lines, i, stack);
            &&& forall|k: int|
                0 <= k < es.len() ==> i <= (#[trigger] es[k]).line < lines.len() && line_view(
                    lines[es[k].line],
                ) == LineView::Entry(es[k].key, es[k].value)
            &&& forall|j: int, k: int|
                0 <= j < k < es.len() ==> (#[trigger] es[j]).line < (#[trigger] es[k]).line
        }),
    decreases lines.len() - i,
{
    if i < lines.len() {
        let line = line_view(lines[i]);
        lemma_entry_lines(lines, i + 1, stack_after(line, stack));
        let tail = entries_from(lines, i + 1, stack_after(line, stack));
        let es = entries_from(lines, i, stack);
        assert forall|j: int, k: int| 0 <= j < k < es.len() implies (#[trigger] es[j]).line < (
        #[trigger] es[k]).line by {
            if line is Entry {
                assert(es[k] == tail[k - 1]);
                if j > 0 {
                    assert(es[j] == tail[j - 1]);
                }
            }
        }
        assert forall|k: int| 0 <= k < es.len() implies i <= (#[trigger] es[k]).line < lines.len()
            && line_view(lines[es[k].line]) == LineView::Entry(es[k].key, es[k].value) by {
            if line is Entry && k > 0 {
                assert(es[k] == tail[k - 1]);
            }
        }
    }
}

pub proof fn lemma_last_match(entries: Seq<EntryView>, key: Seq<char>)
    ensures
        ({
            let k = last_match(entries, key);
            &&& -1 <= k < entries.len()
            &&& k >= 0 ==> dotted(entries[k]) == key
            &&& forall|j: int| k < j < entries.len() ==> dotted(#[trigger] entries[j]) != key
        }),
    decreases entries.len(),
{
    if entries.len() > 0 && dotted(entries.last()) != key {
        lemma_last_match(entries.drop_last(), key);
        let k = last_match(entries, key);
        assert forall|j: int| k < j < entries.len() implies dotted(#[trigger] entries[j]) != key by {
            if j < entries.len() - 1 {
                assert(entries.drop_last()[j] == entries[j]);
            }
        }
    }
}

proof fn lemma_last_match_is(entries: Seq<EntryView>, key: Seq<char>, k: int)
    requires
        -1 <= k < entries.len(),
        k >= 0 ==> dotted(entries[k]) == key,
        forall|j: int| k < j < entries.len() ==> dotted(#[trigger] entries[j]) != key,
    ensures
        last_match(entries, key) == k,
{
    lemma_last_match(entries, key);
    let m = last_match(entries, key);
    if m > k {
        assert(dotted(entries[m]) != key);
    } else if m < k {
        assert(dotted(entries[k]) != key);
    }
}

/// What is set is what is read back, and no other key's value changes. Keys
/// that no line gives a value are not added.
pub proof fn law_set_then_get(
    lines: Seq<Seq<char>>,
    key: Seq<char>,
    value: Seq<char>,
    other: Seq<char>,
)
    requires
        is_trimmed(value),
    ensures
        value_at(lines, key) is Some ==> value_at(with_set(lines, key, value), key) == Some(value),
        value_at(lines, key) is None ==> with_set(lines, key, value) == lines,
        other != key ==> value_at(with_set(lines, key, value), other) == value_at(lines, other),
{
    let es = entries_of(lines);
    let k = last_match(es, key);
    lemma_last_match(es, key);
    if k >= 0 {
        lemma_entry_lines(lines, 0, Seq::empty());
        let at = es[k].line;
        lemma_entries_revalued(lines, 0, Seq::empty(), at, value);
        let now = entries_of(with_set(lines, key, value));
        let f = |e: EntryView| revalued(e, at, value);
        assert(now == es.map_values(f));
        assert forall|j: int| 0 <= j < es.len() implies dotted(#[trigger] now[j]) == dotted(
            es[j],
        ) by {
            assert(now[j] == f(es[j]));
        }
        lemma_last_match_is(now, key, k);
        if other != key {
            let m = last_match(es, other);
            lemma_last_match(es, other);
            lemma_last_match_is(now, other, m);
            if m >= 0 {
                assert(m != k);
                assert(es[m].line != at) by {
                    if m < k {
                        assert(es[m].line < es[k].line);
                    } else {
                        assert(es[k].line < es[m].line);
                    }
                }
                assert(now[m] == f(es[m]));
            }
        }
    }
}

/// Whether two documents have the same lines but for one.
pub open spec fn same_but_for(a: Seq<Seq<char>>, b: Seq<Seq<char>>, at: int) -> bool {
    &&& a.len() == b.len()
    &&& forall|i: int| 0 <= i < a.len() && i != at ==> #[trigger] a[i] == b[i]
}

/// Setting a value changes one line at most.
pub proof fn law_set_touches_one_line(lines: Seq<Seq<char>>, key: Seq<char>, value: Seq<char>)
    ensures
        exists|at: int| #[trigger] same_but_for(with_set(lines, key, value), lines, at),
{
    let es = entries_of(lines);
    let k = last_match(es, key);
    lemma_last_match(es, key);
    lemma_entry_lines(lines, 0, Seq::empty());
    if k >= 0 {
        assert(same_but_for(with_set(lines, key, value), lines, es[k].line));
    } else {
        assert(same_but_for(with_set(lines, key, value), lines, 0));
    }
}

} // verus!
