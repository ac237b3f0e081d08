//! Blocks of a user's file that are ours to rewrite, between two marker lines.
//! Everything outside the markers is left as it is.

use vstd::prelude::*;

use crate::split::{lemma_split_cons, split};
use crate::text::{
    chars, contains, find, find_from, found_from, front, holds, lemma_find_from, lemma_find_is,
    lemma_pos_from, occurs, owned, pos, rest, string,
};

verus! {

/// How a marker line is turned into a comment of its file.
#[derive(Debug, Clone, Copy, PartialEq, Eq, Structural)]
pub enum CommentStyle {
    /// `# …`
    Hash,
    /// `/* … */`
    CBlock,
}

/// What opens a comment of the style.
pub open spec fn lead(style: CommentStyle) -> Seq<char> {
    match style {
        CommentStyle::Hash => "# "@,
        CommentStyle::CBlock => "/* "@,
    }
}

/// What closes it.
pub open spec fn tail(style: CommentStyle) -> Seq<char> {
    match style {
        CommentStyle::Hash => ""@,
        CommentStyle::CBlock => " */"@,
    }
}

/// The line in front of a block.
pub open spec fn open_marker(name: Seq<char>, style: CommentStyle) -> Seq<char> {
    lead(style) + ">>> omarchy-studio:"@ + name
        + " — generated; edit outside this block only >>>"@ + tail(style)
}

/// The line behind a block.
pub open spec fn close_marker(name: Seq<char>, style: CommentStyle) -> Seq<char> {
    lead(style) + "<<< omarchy-studio:"@ + name + " <<<"@ + tail(style)
}

/// Where a block stands: from the first opening marker to the first closing
/// marker behind it.
pub open spec fn located(text: Seq<char>, open: Seq<char>, close: Seq<char>) -> Option<(int, int)> {
    match find(text, open) {
        Some(i) => match find_from(text, close, i + open.len()) {
            Some(j) => Some((i, j)),
            None => None,
        },
        None => None,
    }
}

/// One past the block that closes at `j`, the line break behind it included.
pub open spec fn block_end(text: Seq<char>, j: int, close: Seq<char>) -> int {
    let e = j + close.len();
    if e < text.len() && text[e] == '\n' {
        e + 1
    } else {
        e
    }
}

/// A body with its markers.
pub open spec fn wrapped(open: Seq<char>, body: Seq<char>, close: Seq<char>) -> Seq<char> {
    open.push('\n') + body + seq!['\n'] + close.push('\n')
}

/// A text with a line break at its end, unless it is empty.
pub open spec fn line_ended(text: Seq<char>) -> Seq<char> {
    if text.len() == 0 || text.last() == '\n' {
        text
    } else {
        text.push('\n')
    }
}

/// The text with its block's body replaced, or with a new block at its end.
pub open spec fn upserted(
    text: Seq<char>,
    open: Seq<char>,
    body: Seq<char>,
    close: Seq<char>,
) -> Seq<char> {
    match located(text, open, close) {
        Some((i, j)) => text.take(i) + wrapped(open, body, close) + text.skip(
            block_end(text, j, close),
        ),
        None => line_ended(text) + wrapped(open, body, close),
    }
}

/// The text without its block.
pub open spec fn removed(text: Seq<char>, open: Seq<char>, close: Seq<char>) -> Seq<char> {
    match located(text, open, close) {
        Some((i, j)) => text.take(i) + text.skip(block_end(text, j, close)),
        None => text,
    }
}

/// What stands between the markers, without the line breaks beside them.
pub open spec fn extracted(text: Seq<char>, open: Seq<char>, close: Seq<char>) -> Option<Seq<char>> {
    match located(text, open, close) {
        Some((i, j)) => {
            let a = i + open.len();
            let from = if a < j && text[a] == '\n' {
                a + 1
            } else {
                a
            };
            let to = if from < j && text[j - 1] == '\n' {
                j - 1
            } else {
                j
            };
            Some(text.subrange(from, to))
        },
        None => None,
    }
}

/// A named block and the comment style of the files it stands in.
#[derive(Debug, Clone, PartialEq, Eq)]
pub struct ManagedBlock {
    name: String,
    style: CommentStyle,
}

impl ManagedBlock {
    pub closed spec fn name(&self) -> Seq<char> {
        self.name@
    }

    pub closed spec fn style(&self) -> CommentStyle {
        self.style
    }

    pub open spec fn open(&self) -> Seq<char> {
        open_marker(self.name(), self.style())
    }

    pub open spec fn close(&self) -> Seq<char> {
        close_marker(self.name(), self.style())
    }

    pub fn new(name: &str, style: CommentStyle) -> (r: Self)
        ensures
            r.name() == name@,
            r.style() == style,
    {
        ManagedBlock { name: owned(name), style }
    }

    fn lead(&self) -> (r: &'static str)
        ensures
            r@ == lead(self.style()),
    {
        match self.style {
            CommentStyle::Hash => "# ",
            CommentStyle::CBlock => "/* ",
        }
    }

    fn tail(&self) -> (r: &'static str)
        ensures
            r@ == tail(self.style()),
    {
        match self.style {
            CommentStyle::Hash => "",
            CommentStyle::CBlock => " */",
        }
    }

    fn open_line(&self) -> (r: String)
        ensures
            r@ == self.open(),
    {
        let mut s = owned(self.lead());
        s.append(">>> omarchy-studio:");
        s.append(self.name.as_str());
        s.append(" — generated; edit outside this block only >>>");
        s.append(self.tail());
        s
    }

    fn close_line(&self) -> (r: String)
        ensures
            r@ == self.close(),
    {
        let mut s = owned(self.lead());
        s.append("<<< omarchy-studio:");
        s.append(self.name.as_str());
        s.append(" <<<");
        s.append(self.tail());
        s
    }

    /// The positions of the two markers.
    fn locate(&self, text: &[char]) -> (r: Option<(usize, usize)>)
        ensures
            match r {
                Some((i, j)) => {
                    &&& located(text@, self.open(), self.close()) == Some((i as int, j as int))
                    &&& i + self.open().len() <= j
                    &&& j + self.close().len() <= text@.len()
                },
                None => located(text@, self.open(), self.close()) is None,
            },
    {
        let open = self.open_line();
        let close = self.close_line();
        let o = chars(open.as_str());
        let c = chars(close.as_str());
        let all = text.len();
        match found_from(text, o.as_slice(), 0) {
            Some(i) => {
                proof {
                    lemma_find_from(text@, o@, 0);
                }
                let n = o.len();
                match found_from(text, c.as_slice(), i + n) {
                    Some(j) => {
                        proof {
                            lemma_find_from(text@, c@, i + n);
                        }
                        Some((i, j))
                    },
                    None => None,
                }
            },
            None => None,
        }
    }

    pub fn contains(&self, text: &str) -> (r: bool)
        ensures
            r == (located(text@, self.open(), self.close()) is Some),
    {
        let t = chars(text);
        self.locate(t.as_slice()).is_some()
    }

    pub fn extract(&self, text: &str) -> (r: Option<String>)
        ensures
            match r {
                Some(b) => extracted(text@, self.open(), self.close()) == Some(b@),
                None => extracted(text@, self.open(), self.close()) is None,
            },
    {
        let t = chars(text);
        match self.locate(t.as_slice()) {
            Some((i, j)) => {
                let open = self.open_line();
                let o = chars(open.as_str());
                let n = o.len();
                let a: usize = i + n;
                let from: usize = if a < j && t[a] == '\n' {
                    a + 1
                } else {
                    a
                };
                let to: usize = if from < j && t[j - 1] == '\n' {
                    j - 1
                } else {
                    j
                };
                let upto = front(t.as_slice(), to);
                let body = rest(upto, from);
                assert(body@ == t@.subrange(from as int, to as int));
                Some(string(body))
            },
            None => None,
        }
    }

    /// One past the block that closes at `j`.
    fn end(&self, text: &Vec<char>, j: usize) -> (r: usize)
        requires
            j + self.close().len() <= text@.len(),
        ensures
            r == block_end(text@, j as int, self.close()),
            r <= text@.len(),
    {
        let close = self.close_line();
        let c = chars(close.as_str());
        let n = c.len();
        let all = text.len();
        let e: usize = j + n;
        if e < text.len() && text[e] == '\n' {
            e + 1
        } else {
            e
        }
    }

    fn append_block(&self, out: &mut String, body: &str)
        ensures
            final(out)@ == old(out)@ + wrapped(self.open(), body@, self.close()),
    {
        let ghost before = out@;
        let open = self.open_line();
        let close = self.close_line();
        out.append(open.as_str());
        out.push('\n');
        out.append(body);
        out.push('\n');
        out.append(close.as_str());
        out.push('\n');
        assert(out@ == before + wrapped(self.open(), body@, self.close()));
    }

    pub fn upsert(&self, text: &str, body: &str) -> (r: String)
        ensures
            r@ == upserted(text@, self.open(), body@, self.close()),
    {
        let t = chars(text);
        match self.locate(t.as_slice()) {
            Some((i, j)) => {
                let e = self.end(&t, j);
                let mut out = string(front(t.as_slice(), i));
                self.append_block(&mut out, body);
                let after = string(rest(t.as_slice(), e));
                out.append(after.as_str());
                out
            },
            None => {
                let mut out = owned(text);
                if t.len() > 0 && t[t.len() - 1] != '\n' {
                    out.push('\n');
                }
                assert(out@ == line_ended(text@));
                self.append_block(&mut out, body);
                out
            },
        }
    }

    pub fn remove(&self, text: &str) -> (r: String)
        ensures
            r@ == removed(text@, self.open(), self.close()),
    {
        let t = chars(text);
        match self.locate(t.as_slice()) {
            Some((i, j)) => {
                let e = self.end(&t, j);
                let mut out = string(front(t.as_slice(), i));
                let after = string(rest(t.as_slice(), e));
                out.append(after.as_str());
                out
            },
            None => owned(text),
        }
    }
}

// ---------------------------------------------------------------------- laws

/// A pattern without a line break stands on one side of a line break.
pub proof fn lemma_one_side(a: Seq<char>, b: Seq<char>, pat: Seq<char>, k: int)
    requires
        !holds(pat, '\n'),
        pat.len() > 0,
        occurs(a + seq!['\n'] + b, pat, k),
    ensures
        ({
            ||| k + pat.len() <= a.len() && occurs(a, pat, k)
            ||| k >= a.len() + 1 && occurs(b, pat, k - a.len() - 1)
        }),
{
    let s = a + seq!['\n'] + b;
    let at = s.subrange(k, k + pat.len());
    assert(at == pat);
    let n = a.len() as int;
    if k <= n < k + pat.len() {
        assert(at[n - k] == '\n');
        assert(pat[n - k] == '\n');
        assert(holds(pat, '\n'));
    } else if k + pat.len() <= n {
        assert(a.subrange(k, k + pat.len()) == pat);
    } else {
        assert(b.subrange(k - n - 1, k - n - 1 + pat.len()) == pat);
    }
}

/// A text in lines holds a pattern without a line break only within a line.
pub proof fn lemma_within_line(lines: Seq<Seq<char>>, pat: Seq<char>)
    requires
        lines.len() > 0,
        pat.len() > 0,
        !holds(pat, '\n'),
        forall|i: int| 0 <= i < lines.len() ==> !contains(#[trigger] lines[i], pat),
    ensures
        !contains(crate::split::join(lines, "\n"@), pat),
    decreases lines.len(),
{
    reveal_strlit("\n");
    assert("\n"@ == seq!['\n']);
    let front = lines.drop_last();
    let last = lines.last();
    assert(lines == front.push(last));
    crate::split::lemma_join_push(front, "\n"@, last);
    assert(lines[lines.len() - 1] == last);
    if front.len() > 0 {
        assert forall|i: int| 0 <= i < front.len() implies !contains(#[trigger] front[i], pat) by {
            assert(front[i] == lines[i]);
        }
        lemma_within_line(front, pat);
        let a = crate::split::join(front, "\n"@);
        let s = a + seq!['\n'] + last;
        if contains(s, pat) {
            let k = choose|k: int| occurs(s, pat, k);
            lemma_one_side(a, last, pat, k);
            if k + pat.len() <= a.len() && occurs(a, pat, k) {
                assert(contains(a, pat));
            } else {
                assert(occurs(last, pat, k - a.len() - 1));
                assert(contains(last, pat));
            }
        }
    }
}

/// What is found in the front part of a text is found in the whole.
pub proof fn lemma_found_in_front(a: Seq<char>, b: Seq<char>, pat: Seq<char>, from: int)
    requires
        0 <= from,
        find_from(a, pat, from) is Some,
    ensures
        find_from(a + b, pat, from) == find_from(a, pat, from),
{
    let k = find_from(a, pat, from)->0;
    let s = a + b;
    lemma_find_from(a, pat, from);
    assert(s.subrange(k, k + pat.len()) == a.subrange(k, k + pat.len()));
    assert forall|j: int| from <= j < k implies !occurs(s, pat, j) by {
        if occurs(s, pat, j) {
            assert(a.subrange(j, j + pat.len()) == s.subrange(j, j + pat.len()));
            assert(occurs(a, pat, j));
        }
    }
    lemma_find_is(s, pat, from, k);
}

/// A wrapped body is located where it stands.
proof fn lemma_located(
    pre: Seq<char>,
    open: Seq<char>,
    body: Seq<char>,
    close: Seq<char>,
    post: Seq<char>,
)
    requires
        forall|k: int| 0 <= k < pre.len() ==> !occurs(pre + open, open, k),
        close.len() > 0,
        !holds(close, '\n'),
        !contains(body, close),
    ensures
        ({
            let text = pre + wrapped(open, body, close) + post;
            let j = pre.len() + open.len() + body.len() + 2;
            &&& located(text, open, close) == Some((pre.len() as int, j as int))
            &&& extracted(text, open, close) == Some(body)
            &&& removed(text, open, close) == pre + post
            &&& text.take(pre.len() as int) == pre
            &&& text.skip(block_end(text, j as int, close)) == post
        }),
{
    let text = pre + wrapped(open, body, close) + post;
    let p = pre.len() as int;
    let j = p + open.len() + body.len() + 2;
    assert(text.subrange(p, p + open.len()) == open);
    assert forall|k: int| 0 <= k < p implies !occurs(text, open, k) by {
        if occurs(text, open, k) {
            assert((pre + open).subrange(k, k + open.len()) == text.subrange(k, k + open.len()));
            assert(occurs(pre + open, open, k));
        }
    }
    lemma_find_is(text, open, 0, p);
    let x = pre + open;
    let y = body + seq!['\n'] + (close.push('\n') + post);
    assert(text == x + seq!['\n'] + y);
    assert(text.subrange(j, j + close.len()) == close);
    assert forall|k: int| p + open.len() <= k < j implies !occurs(text, close, k) by {
        if occurs(text, close, k) {
            lemma_one_side(x, y, close, k);
            lemma_one_side(body, close.push('\n') + post, close, k - x.len() - 1);
        }
    }
    lemma_find_is(text, close, p + open.len(), j);
    assert(text[p + open.len()] == '\n');
    assert(text[j - 1] == '\n');
    assert(text.subrange(p + open.len() + 1, j - 1) == body);
    assert(text[j + close.len()] == '\n');
    assert(text.take(p) == pre);
    assert(text.skip(j + close.len() + 1) == post);
}

/// Neither marker of a block holds a line break, where its name holds none.
pub proof fn lemma_markers(name: Seq<char>, style: CommentStyle)
    requires
        !holds(name, '\n'),
    ensures
        open_marker(name, style).len() > 0,
        close_marker(name, style).len() > 0,
        !holds(open_marker(name, style), '\n'),
        !holds(close_marker(name, style), '\n'),
{
    reveal_strlit("# ");
    reveal_strlit("/* ");
    reveal_strlit("");
    reveal_strlit(" */");
    reveal_strlit(">>> omarchy-studio:");
    reveal_strlit(" — generated; edit outside this block only >>>");
    reveal_strlit("<<< omarchy-studio:");
    reveal_strlit(" <<<");
    assert(!holds(lead(style), '\n'));
    assert(!holds(tail(style), '\n'));
    assert(!holds(">>> omarchy-studio:"@, '\n'));
    assert(!holds("<<< omarchy-studio:"@, '\n'));
    assert(!holds(" — generated; edit outside this block only >>>"@, '\n'));
    assert(!holds(" <<<"@, '\n'));
    lemma_no_break(lead(style), ">>> omarchy-studio:"@);
    lemma_no_break(lead(style) + ">>> omarchy-studio:"@, name);
    lemma_no_break(
        lead(style) + ">>> omarchy-studio:"@ + name,
        " — generated; edit outside this block only >>>"@,
    );
    lemma_no_break(
        lead(style) + ">>> omarchy-studio:"@ + name
            + " — generated; edit outside this block only >>>"@,
        tail(style),
    );
    lemma_no_break(lead(style), "<<< omarchy-studio:"@);
    lemma_no_break(lead(style) + "<<< omarchy-studio:"@, name);
    lemma_no_break(lead(style) + "<<< omarchy-studio:"@ + name, " <<<"@);
    lemma_no_break(lead(style) + "<<< omarchy-studio:"@ + name + " <<<"@, tail(style));
}

proof fn lemma_no_break(a: Seq<char>, b: Seq<char>)
    requires
        !holds(a, '\n'),
        !holds(b, '\n'),
    ensures
        !holds(a + b, '\n'),
{
    let s = a + b;
    assert forall|i: int| 0 <= i < s.len() implies s[i] != '\n' by {
        if i < a.len() {
            assert(s[i] == a[i]);
        } else {
            assert(s[i] == b[i - a.len()]);
        }
    }
}

/// The text in front of a block, as it stands or as an upsert leaves it.
spec fn ahead(text: Seq<char>, open: Seq<char>, close: Seq<char>) -> Seq<char> {
    match located(text, open, close) {
        Some((i, j)) => text.take(i),
        None => line_ended(text),
    }
}

/// The text behind a block.
spec fn behind(text: Seq<char>, open: Seq<char>, close: Seq<char>) -> Seq<char> {
    match located(text, open, close) {
        Some((i, j)) => text.skip(block_end(text, j, close)),
        None => Seq::empty(),
    }
}

/// In front of the first place where a pattern stands it does not stand, nor
/// does it overlap that place.
proof fn lemma_first(text: Seq<char>, open: Seq<char>, i: int, k: int)
    requires
        occurs(text, open, i),
        0 <= k < i,
        occurs(text.take(i) + open, open, k),
    ensures
        occurs(text, open, k),
{
    assert(text.subrange(i, i + open.len()) == open);
    assert(text.take(i) + open =~= text.take(i + open.len()));
    assert(text.take(i + open.len()).subrange(k, k + open.len()) =~= text.subrange(
        k,
        k + open.len(),
    ));
}

/// A pattern that a text does not hold is not made by what follows its last
/// line break.
proof fn lemma_at_end(text: Seq<char>, open: Seq<char>, k: int)
    requires
        open.len() > 0,
        !holds(open, '\n'),
        0 <= k < line_ended(text).len(),
        occurs(line_ended(text) + open, open, k),
    ensures
        occurs(text, open, k),
{
    let pre = line_ended(text);
    let t0 = pre.drop_last();
    assert(pre + open =~= t0 + seq!['\n'] + open);
    lemma_one_side(t0, open, open, k);
    assert(text.subrange(k, k + open.len()) =~= t0.subrange(k, k + open.len()));
}

proof fn lemma_ahead(text: Seq<char>, open: Seq<char>, close: Seq<char>)
    requires
        open.len() > 0,
        !holds(open, '\n'),
        located(text, open, close) is Some || !contains(text, open),
    ensures
        forall|k: int|
            0 <= k < ahead(text, open, close).len() ==> !occurs(
                ahead(text, open, close) + open,
                open,
                k,
            ),
{
    let pre = ahead(text, open, close);
    lemma_find_from(text, open, 0);
    assert forall|k: int| 0 <= k < pre.len() implies !occurs(pre + open, open, k) by {
        if occurs(pre + open, open, k) {
            if located(text, open, close) is Some {
                lemma_first(text, open, find(text, open)->0, k);
            } else {
                lemma_at_end(text, open, k);
            }
        }
    }
}

proof fn lemma_parts(text: Seq<char>, open: Seq<char>, body: Seq<char>, close: Seq<char>)
    ensures
        upserted(text, open, body, close) == ahead(text, open, close) + wrapped(open, body, close)
            + behind(text, open, close),
        located(text, open, close) is Some ==> removed(text, open, close) == ahead(
            text,
            open,
            close,
        ) + behind(text, open, close),
        located(text, open, close) is None ==> ahead(text, open, close) + behind(
            text,
            open,
            close,
        ) == line_ended(text),
{
    let pre = line_ended(text);
    assert(pre + wrapped(open, body, close) + Seq::<char>::empty() == pre + wrapped(
        open,
        body,
        close,
    ));
    assert(pre + Seq::<char>::empty() == pre);
}

/// Reading a block gives back the body that was written, and writing it again
/// changes nothing. The body must not spell the closing marker; a text with an
/// opening marker must have the closing one too.
pub proof fn law_write_then_read(
    text: Seq<char>,
    name: Seq<char>,
    style: CommentStyle,
    body: Seq<char>,
)
    requires
        !holds(name, '\n'),
        located(text, open_marker(name, style), close_marker(name, style)) is Some || !contains(
            text,
            open_marker(name, style),
        ),
        !contains(body, close_marker(name, style)),
    ensures
        ({
            let open = open_marker(name, style);
            let close = close_marker(name, style);
            let written = upserted(text, open, body, close);
            &&& extracted(written, open, close) == Some(body)
            &&& upserted(written, open, body, close) == written
        }),
{
    let open = open_marker(name, style);
    let close = close_marker(name, style);
    lemma_markers(name, style);
    lemma_ahead(text, open, close);
    lemma_parts(text, open, body, close);
    lemma_located(ahead(text, open, close), open, body, close, behind(text, open, close));
}

/// Writing a block and removing it leaves the text as if the block had only
/// been removed. A text that never had one comes back whole, with a line break
/// at its end.
pub proof fn law_write_then_remove(
    text: Seq<char>,
    name: Seq<char>,
    style: CommentStyle,
    body: Seq<char>,
)
    requires
        !holds(name, '\n'),
        located(text, open_marker(name, style), close_marker(name, style)) is Some || !contains(
            text,
            open_marker(name, style),
        ),
        !contains(body, close_marker(name, style)),
    ensures
        ({
            let open = open_marker(name, style);
            let close = close_marker(name, style);
            let back = removed(upserted(text, open, body, close), open, close);
            if located(text, open, close) is Some {
                back == removed(text, open, close)
            } else {
                back == line_ended(text)
            }
        }),
{
    let open = open_marker(name, style);
    let close = close_marker(name, style);
    lemma_markers(name, style);
    lemma_ahead(text, open, close);
    lemma_parts(text, open, body, close);
    lemma_located(ahead(text, open, close), open, body, close, behind(text, open, close));
}

/// Adding a block leaves every block that is already there as it is.
pub proof fn law_blocks_coexist(
    text: Seq<char>,
    name: Seq<char>,
    style: CommentStyle,
    body: Seq<char>,
    other: Seq<char>,
    other_style: CommentStyle,
)
    requires
        located(text, open_marker(name, style), close_marker(name, style)) is None,
        located(text, open_marker(other, other_style), close_marker(other, other_style)) is Some,
    ensures
        extracted(
            upserted(text, open_marker(name, style), body, close_marker(name, style)),
            open_marker(other, other_style),
            close_marker(other, other_style),
        ) == extracted(
            text,
            open_marker(other, other_style),
            close_marker(other, other_style),
        ),
{
    let open = open_marker(other, other_style);
    let close = close_marker(other, other_style);
    let written = upserted(text, open_marker(name, style), body, close_marker(name, style));
    let added = written.skip(text.len() as int);
    assert(written == text + added);
    let i = find(text, open)->0;
    lemma_find_from(text, open, 0);
    lemma_found_in_front(text, added, open, 0);
    lemma_found_in_front(text, added, close, i + open.len());
    lemma_find_from(text, close, i + open.len());
    assert(extracted(written, open, close)->0 == extracted(text, open, close)->0);
}

/// Whether a position is the start of a line.
pub open spec fn starts_line(text: Seq<char>, i: int) -> bool {
    i == 0 || 0 < i <= text.len() && text[i - 1] == '\n'
}

/// Whether two blocks of a text stand one behind the other.
pub open spec fn stand_apart(
    text: Seq<char>,
    open: Seq<char>,
    close: Seq<char>,
    other_open: Seq<char>,
    other_close: Seq<char>,
) -> bool {
    match (located(text, open, close), located(text, other_open, other_close)) {
        (Some((i, j)), Some((a, b))) => b + other_close.len() <= i || block_end(text, j, close)
            <= a,
        _ => false,
    }
}

/// A block in front of a change stays.
proof fn lemma_front_stays(
    pre: Seq<char>,
    a: Seq<char>,
    b: Seq<char>,
    open: Seq<char>,
    close: Seq<char>,
)
    requires
        located(pre, open, close) is Some,
    ensures
        extracted(pre + a, open, close) == extracted(pre + b, open, close),
{
    let i = find(pre, open)->0;
    lemma_find_from(pre, open, 0);
    lemma_find_from(pre, close, i + open.len());
    lemma_found_in_front(pre, a, open, 0);
    lemma_found_in_front(pre, b, open, 0);
    lemma_found_in_front(pre, a, close, i + open.len());
    lemma_found_in_front(pre, b, close, i + open.len());
    assert(extracted(pre + a, open, close)->0 == extracted(pre, open, close)->0);
    assert(extracted(pre + b, open, close)->0 == extracted(pre, open, close)->0);
}

/// A pattern without a line break that stands at `k` in front of `post` stands
/// within `pre` or within `new`, where both are whole lines.
proof fn lemma_in_one_part(
    pre: Seq<char>,
    new: Seq<char>,
    post: Seq<char>,
    pat: Seq<char>,
    k: int,
)
    requires
        pat.len() > 0,
        !holds(pat, '\n'),
        starts_line(pre, pre.len() as int),
        starts_line(new, new.len() as int),
        occurs(pre + new + post, pat, k),
        k < pre.len() + new.len(),
    ensures
        k + pat.len() <= pre.len() && occurs(pre, pat, k) || pre.len() <= k && occurs(
            new,
            pat,
            k - pre.len(),
        ),
{
    let now = pre + new + post;
    let p = pre.len() as int;
    let n = new.len() as int;
    let l = pat.len() as int;
    assert forall|x: int| k <= x < k + l implies #[trigger] now[x] == pat[x - k] by {
        assert(now.subrange(k, k + l)[x - k] == now[x]);
    }
    if k + l <= p {
        assert(pre.subrange(k, k + l) == now.subrange(k, k + l));
    } else if k < p {
        assert(now[p - 1] == pre[p - 1]);
        assert(pat[p - 1 - k] == '\n');
    } else if k + l <= p + n {
        assert(new.subrange(k - p, k - p + l) == now.subrange(k, k + l));
    } else {
        assert(now[p + n - 1] == new[n - 1]);
        assert(pat[p + n - 1 - k] == '\n');
    }
}

/// Blocks that stand in the same text, but for a shift, hold the same.
proof fn lemma_same_inside(
    was: Seq<char>,
    now: Seq<char>,
    d: int,
    open: Seq<char>,
    close: Seq<char>,
)
    requires
        now.len() == was.len() + d,
        located(was, open, close) matches Some((a, b)) && located(now, open, close) == Some(
            (a + d, b + d),
        ) && 0 <= a && a + open.len() <= b <= was.len() && 0 <= a + d && forall|x: int|
            a <= x < was.len() ==> #[trigger] was[x] == now[x + d],
    ensures
        extracted(now, open, close) == extracted(was, open, close),
{
    let (a, b) = located(was, open, close)->0;
    let i = a + open.len();
    if i < b {
        assert(was[i] == now[i + d]);
        assert(was[b - 1] == now[b - 1 + d]);
    }
    let inside = extracted(was, open, close)->0;
    let shifted = extracted(now, open, close)->0;
    assert(shifted.len() == inside.len());
    assert(shifted =~= inside);
}

/// A block behind a change of whole lines stays.
proof fn lemma_rest_stays(
    pre: Seq<char>,
    mid: Seq<char>,
    new: Seq<char>,
    post: Seq<char>,
    open: Seq<char>,
    close: Seq<char>,
)
    requires
        open.len() > 0,
        !holds(open, '\n'),
        starts_line(pre, pre.len() as int),
        starts_line(new, new.len() as int),
        !contains(new, open),
        located(pre + mid + post, open, close) matches Some((a, b)) && a >= pre.len() + mid.len(),
    ensures
        extracted(pre + new + post, open, close) == extracted(pre + mid + post, open, close),
{
    let was = pre + mid + post;
    let now = pre + new + post;
    let (a, b) = located(was, open, close)->0;
    let d = new.len() - mid.len();
    let at = (pre.len() + mid.len()) as int;
    let from = a + open.len();
    lemma_find_from(was, open, 0);
    lemma_find_from(was, close, from);
    assert forall|x: int| at <= x < was.len() implies #[trigger] was[x] == now[x + d] by {
        assert(was[x] == post[x - at]);
        assert(now[x + d] == post[x - at]);
    }
    lemma_shifted(was, now, at, d, open);
    lemma_shifted(was, now, at, d, close);
    assert(located(now, open, close) == Some((a + d, b + d))) by {
        assert(occurs(now, open, a + d));
        assert forall|k: int| 0 <= k < a + d implies !occurs(now, open, k) by {
            if occurs(now, open, k) {
                if k >= at + d {
                    assert(occurs(was, open, k - d));
                } else {
                    lemma_in_one_part(pre, new, post, open, k);
                    if k + open.len() <= pre.len() {
                        assert(was.subrange(k, k + open.len()) == pre.subrange(
                            k,
                            k + open.len(),
                        ));
                        assert(occurs(was, open, k));
                    }
                }
            }
        }
        lemma_find_is(now, open, 0, a + d);
        assert(occurs(now, close, b + d));
        assert forall|k: int| from + d <= k < b + d implies !occurs(now, close, k) by {
            if occurs(now, close, k) {
                assert(occurs(was, close, k - d));
            }
        }
        lemma_find_is(now, close, from + d, b + d);
    }
    lemma_same_inside(was, now, d, open, close);
}

/// Where two texts agree but for a shift, a pattern stands in both or neither.
proof fn lemma_shifted(was: Seq<char>, now: Seq<char>, at: int, d: int, pat: Seq<char>)
    requires
        0 <= at <= was.len(),
        0 <= at + d,
        now.len() == was.len() + d,
        forall|x: int| at <= x < was.len() ==> was[x] == now[x + d],
    ensures
        forall|k: int|
            at <= k ==> #[trigger] occurs(was, pat, k) == occurs(now, pat, k + d),
        forall|k: int|
            at + d <= k ==> #[trigger] occurs(now, pat, k) == occurs(was, pat, k - d),
{
    assert forall|k: int| at <= k implies #[trigger] occurs(was, pat, k) == occurs(
        now,
        pat,
        k + d,
    ) by {
        if k + pat.len() <= was.len() {
            assert(was.subrange(k, k + pat.len()) == now.subrange(k + d, k + d + pat.len()));
        }
    }
    assert forall|k: int| at + d <= k implies #[trigger] occurs(now, pat, k) == occurs(
        was,
        pat,
        k - d,
    ) by {
        assert(occurs(was, pat, k - d) == occurs(now, pat, k - d + d));
    }
}

/// A block that ends in front of a position stands in the text up to there.
proof fn lemma_located_in_front(text: Seq<char>, n: int, open: Seq<char>, close: Seq<char>)
    requires
        0 <= n <= text.len(),
        located(text, open, close) matches Some((a, b)) && b + close.len() <= n,
    ensures
        located(text.take(n), open, close) is Some,
{
    let (a, b) = located(text, open, close)->0;
    let pre = text.take(n);
    lemma_find_from(text, open, 0);
    lemma_find_from(text, close, a + open.len());
    assert(pre.subrange(a, a + open.len()) == text.subrange(a, a + open.len()));
    assert(pre.subrange(b, b + close.len()) == text.subrange(b, b + close.len()));
    assert forall|j: int| 0 <= j < a implies !occurs(pre, open, j) by {
        if occurs(pre, open, j) {
            assert(text.subrange(j, j + open.len()) == pre.subrange(j, j + open.len()));
            assert(occurs(text, open, j));
        }
    }
    lemma_find_is(pre, open, 0, a);
    lemma_find_from(pre, close, a + open.len());
    assert(occurs(pre, close, b));
}

/// Putting whole lines in the place of a block leaves a block that stands apart
/// from it.
proof fn lemma_others_stay(
    text: Seq<char>,
    from: int,
    to: int,
    new: Seq<char>,
    open: Seq<char>,
    close: Seq<char>,
)
    requires
        0 <= from <= to <= text.len(),
        starts_line(text, from),
        starts_line(new, new.len() as int),
        open.len() > 0,
        !holds(open, '\n'),
        !contains(new, open),
        located(text, open, close) matches Some((a, b)) && (b + close.len() <= from || to <= a),
    ensures
        extracted(text.take(from) + new + text.skip(to), open, close) == extracted(
            text,
            open,
            close,
        ),
{
    let pre = text.take(from);
    let mid = text.subrange(from, to);
    let post = text.skip(to);
    let (a, b) = located(text, open, close)->0;
    assert(text == pre + mid + post);
    if b + close.len() <= from {
        lemma_located_in_front(text, from, open, close);
        assert(text == pre + (mid + post));
        assert(pre + new + post == pre + (new + post));
        lemma_front_stays(pre, mid + post, new + post, open, close);
    } else {
        assert(starts_line(pre, pre.len() as int));
        lemma_rest_stays(pre, mid, new, post, open, close);
    }
}

/// Removing a block, or replacing what it holds, leaves every other block as it
/// is. The block must start on a line of its own, the other one stand apart from
/// it, and what is written must not spell the other's opening marker.
pub proof fn law_other_blocks_stay(
    text: Seq<char>,
    name: Seq<char>,
    style: CommentStyle,
    body: Seq<char>,
    other: Seq<char>,
    other_style: CommentStyle,
)
    requires
        !holds(other, '\n'),
        stand_apart(
            text,
            open_marker(name, style),
            close_marker(name, style),
            open_marker(other, other_style),
            close_marker(other, other_style),
        ),
        starts_line(text, find(text, open_marker(name, style))->0),
    ensures
        ({
            let open = open_marker(name, style);
            let close = close_marker(name, style);
            let a = open_marker(other, other_style);
            let b = close_marker(other, other_style);
            &&& extracted(removed(text, open, close), a, b) == extracted(text, a, b)
            &&& !contains(wrapped(open, body, close), a) ==> extracted(
                upserted(text, open, body, close),
                a,
                b,
            ) == extracted(text, a, b)
        }),
{
    let open = open_marker(name, style);
    let close = close_marker(name, style);
    let a = open_marker(other, other_style);
    let b = close_marker(other, other_style);
    let (i, j) = located(text, open, close)->0;
    let e = block_end(text, j, close);
    let none = Seq::<char>::empty();
    let new = wrapped(open, body, close);
    lemma_markers(other, other_style);
    lemma_find_from(text, open, 0);
    lemma_find_from(text, close, i + open.len());
    assert(!contains(none, a));
    lemma_others_stay(text, i, e, none, a, b);
    assert(text.take(i) + none + text.skip(e) == text.take(i) + text.skip(e));
    if !contains(new, a) {
        assert(new.last() == '\n');
        lemma_others_stay(text, i, e, new, a, b);
    }
}

// ----------------------------------------------------------------- the user's lines

/// The lines of a text. Behind a final line break there is none.
pub open spec fn own_lines(text: Seq<char>) -> Seq<Seq<char>> {
    let all = split(text, '\n');
    if all.last().len() == 0 {
        all.drop_last()
    } else {
        all
    }
}

proof fn lemma_split_some(text: Seq<char>)
    ensures
        split(text, '\n').len() > 0,
{
}

proof fn lemma_lines_before(text: Seq<char>, more: Seq<char>)
    ensures
        split(line_ended(text) + more, '\n') == own_lines(text) + split(more, '\n'),
    decreases text.len(),
{
    let p = pos(text, '\n');
    lemma_pos_from(text, '\n', 0);
    if 0 <= p < text.len() {
        let a = text.take(p);
        let b = text.skip(p + 1);
        assert(!holds(a, '\n')) by {
            assert forall|i: int| 0 <= i < a.len() implies a[i] != '\n' by {
                assert(a[i] == text[i]);
            }
        }
        if b.len() == 0 {
            assert(text.last() == text[p]);
        } else {
            assert(b.last() == text.last());
        }
        assert(line_ended(text) + more == a + seq!['\n'] + (line_ended(b) + more));
        lemma_split_cons(a, '\n', line_ended(b) + more);
        lemma_lines_before(b, more);
        lemma_split_some(b);
        assert(split(text, '\n') == seq![a] + split(b, '\n'));
        assert(own_lines(text) == seq![a] + own_lines(b));
        assert(seq![a] + (own_lines(b) + split(more, '\n')) == (seq![a] + own_lines(b)) + split(
            more,
            '\n',
        ));
    } else {
        assert(!holds(text, '\n'));
        assert(split(text, '\n') == seq![text]);
        if text.len() == 0 {
            assert(line_ended(text) + more == more);
            assert(own_lines(text) + split(more, '\n') == split(more, '\n'));
        } else {
            assert(text.last() == text[text.len() - 1]);
            assert(line_ended(text) + more == text + seq!['\n'] + more);
            lemma_split_cons(text, '\n', more);
        }
    }
}

/// A block that is added to a text stands behind all the lines of the text,
/// which stay as they are and in their order.
pub proof fn law_added_block_keeps_the_lines(
    text: Seq<char>,
    name: Seq<char>,
    style: CommentStyle,
    body: Seq<char>,
)
    requires
        !holds(name, '\n'),
        located(text, open_marker(name, style), close_marker(name, style)) is None,
    ensures
        ({
            let open = open_marker(name, style);
            let close = close_marker(name, style);
            let written = upserted(text, open, body, close);
            split(written, '\n') == own_lines(text) + (seq![open] + (split(body, '\n') + seq![
                close,
                Seq::empty(),
            ]))
        }),
{
    let open = open_marker(name, style);
    let close = close_marker(name, style);
    let none = Seq::<char>::empty();
    lemma_markers(name, style);
    lemma_lines_before(text, wrapped(open, body, close));
    let tail = close + seq!['\n'] + none;
    assert(wrapped(open, body, close) == open + seq!['\n'] + (body + seq!['\n'] + tail));
    lemma_split_cons(open, '\n', body + seq!['\n'] + tail);
    lemma_split_sum(body, tail);
    lemma_split_cons(close, '\n', none);
    assert(split(none, '\n') == seq![none]);
    assert(seq![close] + seq![none] == seq![close, none]);
}

/// A line break parts the lines in front of it from those behind it.
proof fn lemma_split_sum(a: Seq<char>, b: Seq<char>)
    ensures
        split(a + seq!['\n'] + b, '\n') == split(a, '\n') + split(b, '\n'),
    decreases a.len(),
{
    let p = pos(a, '\n');
    lemma_pos_from(a, '\n', 0);
    if 0 <= p < a.len() {
        let x = a.take(p);
        let y = a.skip(p + 1);
        assert(!holds(x, '\n')) by {
            assert forall|i: int| 0 <= i < x.len() implies x[i] != '\n' by {
                assert(x[i] == a[i]);
            }
        }
        assert(a + seq!['\n'] + b == x + seq!['\n'] + (y + seq!['\n'] + b));
        lemma_split_cons(x, '\n', y + seq!['\n'] + b);
        lemma_split_sum(y, b);
        assert(seq![x] + (split(y, '\n') + split(b, '\n')) == (seq![x] + split(y, '\n')) + split(
            b,
            '\n',
        ));
    } else {
        assert(!holds(a, '\n'));
        lemma_split_cons(a, '\n', b);
    }
}

} // verus!
