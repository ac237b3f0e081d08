//! TOML documents, as `toml_edit` reads, edits and prints them.
//!
//! A document is seen as a tree of [`Node`]s. What a text parses to and what a
//! document prints as are `toml_edit`'s own: they are named, and the functions
//! of this file that call it say what is relied on.

use vstd::prelude::*;

use crate::number::{bool_text, int_text};
use crate::split::{join, lines};
use crate::text::{
    chars, contains, holds, is_alpha, is_digit, opt_text, pos, starts_with, texts, trim,
    trim_start,
};

verus! {

/// What stands at one place of a document.
pub enum Node {
    Text(Seq<char>),
    Integer(i64),
    Flag(bool),
    /// A float or a date, as it is spelled.
    Other(Seq<char>),
    Array(Seq<Node>),
    /// `{ key = value }`.
    Inline(Seq<(Seq<char>, Node)>),
    /// A table under a header of its own, or made by dotted keys.
    Table(Seq<(Seq<char>, Node)>),
    /// The tables under one `[[name]]`.
    Tables(Seq<Node>),
}

#[verifier::external_type_specification]
#[verifier::external_body]
pub struct ExDocumentMut(toml_edit::DocumentMut);

#[verifier::external_type_specification]
#[verifier::external_body]
pub struct ExItem(toml_edit::Item);

/// What stands at an item.
pub uninterp spec fn node(item: toml_edit::Item) -> Node;

/// The root table of a document.
pub uninterp spec fn root(doc: toml_edit::DocumentMut) -> Node;

/// What a text parses to, or the message it is refused with.
pub uninterp spec fn parsed(text: Seq<char>) -> Result<Node, Seq<char>>;

/// What a document prints as.
pub uninterp spec fn printed(doc: toml_edit::DocumentMut) -> Seq<char>;

/// The lines with a comment on them that stand in an item, as [`is_remark`] takes
/// them. Those in front of a header that can be hidden are left out.
pub uninterp spec fn remarks(item: toml_edit::Item) -> Set<Seq<char>>;

/// The lines with a comment on them that stand in a document, with the same
/// exception.
pub uninterp spec fn remarks_in(doc: toml_edit::DocumentMut) -> Set<Seq<char>>;

/// The comment lines in front of the rows of an item, and of the tables in it, that
/// have a key.
pub uninterp spec fn remarks_above(item: toml_edit::Item, key: Seq<char>) -> Set<Seq<char>>;

/// The comment lines in front of the rows of a document that have a key.
pub uninterp spec fn remarks_above_in(doc: toml_edit::DocumentMut, key: Seq<char>) -> Set<
    Seq<char>,
>;

/// Whether an item is a table that prints no header of its own: its header is
/// marked as hidden, and it holds nothing but tables, none made by dotted keys.
pub uninterp spec fn headless(item: toml_edit::Item) -> bool;

/// The keys of an item under which such tables stand.
pub uninterp spec fn headless_rows(item: toml_edit::Item) -> Set<Seq<char>>;

/// The keys of a document's root under which such tables stand.
pub uninterp spec fn headless_tables(doc: toml_edit::DocumentMut) -> Set<Seq<char>>;

/// The same of the document that a text parses to.
pub uninterp spec fn headless_in(text: Seq<char>) -> Set<Seq<char>>;

/// The key of a line `key = …`, where it is written without quotes and dots.
pub open spec fn row_key(line: Seq<char>) -> Option<Seq<char>> {
    let p = pos(line, '=');
    if p < line.len() && bare_key(trim(line.take(p))) {
        Some(trim(line.take(p)))
    } else {
        None
    }
}

/// A line with nothing on it, or with a comment alone.
pub open spec fn is_aside(line: Seq<char>) -> bool {
    trim_start(line).len() == 0 || trim_start(line)[0] == '#'
}

/// A line with a comment on it: one alone, or one behind what a row of a table
/// gives. A line with three quotes in a row can be the end of a longer string, and
/// one with a brace can have its parts moved: they do not count.
pub open spec fn is_remark(line: Seq<char>) -> bool {
    &&& !contains(line, "\"\"\""@)
    &&& !contains(line, "'''"@)
    &&& starts_with(trim_start(line), "#"@) || row_key(line) is Some && holds(line, '#') && !holds(
        line,
        '{',
    )
}

/// Whether a line stands in front of a row with a key: only blank lines and
/// comments are between them. A backslash can spell the key in another way, and a
/// byte order mark is no part of the line.
pub open spec fn stands_above(ls: Seq<Seq<char>>, key: Seq<char>, line: Seq<char>) -> bool {
    exists|i: int, j: int|
        0 <= i < j < ls.len() && (#[trigger] ls[i] == line || ls[i] == seq!['\u{feff}'] + line) && (
        forall|k: int| i < k < j ==> is_aside(#[trigger] ls[k])) && (contains(
            #[trigger] ls[j],
            key,
        ) || holds(ls[j], '\\'))
}

/// The rows of a table of either kind; nothing else has any.
pub open spec fn rows(n: Node) -> Seq<(Seq<char>, Node)> {
    match n {
        Node::Inline(r) => r,
        Node::Table(r) => r,
        _ => Seq::empty(),
    }
}

/// What stands under a key.
pub open spec fn row(rows: Seq<(Seq<char>, Node)>, key: Seq<char>) -> Option<Node>
    decreases rows.len(),
{
    if rows.len() == 0 {
        None
    } else if rows[0].0 == key {
        Some(rows[0].1)
    } else {
        row(rows.skip(1), key)
    }
}

/// The child of a table under a key.
pub open spec fn child(n: Node, key: Seq<char>) -> Option<Node> {
    row(rows(n), key)
}

/// The rows with `v` under `key`, in the place that the key had, or last.
pub open spec fn put(
    rows: Seq<(Seq<char>, Node)>,
    key: Seq<char>,
    v: Node,
) -> Seq<(Seq<char>, Node)>
    decreases rows.len(),
{
    if rows.len() == 0 {
        seq![(key, v)]
    } else if rows[0].0 == key {
        seq![(key, v)] + rows.skip(1)
    } else {
        seq![rows[0]] + put(rows.skip(1), key, v)
    }
}

/// The rows without those under `key`.
pub open spec fn cut(rows: Seq<(Seq<char>, Node)>, key: Seq<char>) -> Seq<(Seq<char>, Node)>
    decreases rows.len(),
{
    if rows.len() == 0 {
        Seq::empty()
    } else if rows[0].0 == key {
        cut(rows.skip(1), key)
    } else {
        seq![rows[0]] + cut(rows.skip(1), key)
    }
}

/// A table of the same kind with other rows.
pub open spec fn with_rows(n: Node, r: Seq<(Seq<char>, Node)>) -> Node {
    match n {
        Node::Inline(_) => Node::Inline(r),
        _ => Node::Table(r),
    }
}

/// The elements of an array, or the tables under one `[[name]]`.
pub open spec fn elements(n: Node) -> Seq<Node> {
    match n {
        Node::Array(e) => e,
        Node::Tables(e) => e,
        _ => Seq::empty(),
    }
}

/// A step from a place of a document to one below it.
pub enum Step {
    Key(Seq<char>),
    Index(int),
}

/// What a step leads to.
pub open spec fn step(n: Node, s: Step) -> Option<Node> {
    match s {
        Step::Key(key) => child(n, key),
        Step::Index(i) => if 0 <= i < elements(n).len() {
            Some(elements(n)[i])
        } else {
            None
        },
    }
}

/// What stands at the end of a path.
pub open spec fn node_at(n: Node, path: Seq<Step>) -> Option<Node>
    decreases path.len(),
{
    if path.len() == 0 {
        Some(n)
    } else {
        match step(n, path[0]) {
            Some(c) => node_at(c, path.skip(1)),
            None => None,
        }
    }
}

/// The value at the end of a path. A table under a header is none, for its rows
/// have paths of their own; of the tables under one `[[name]]`, which have too,
/// it is their number that counts, written as so many empty ones.
pub open spec fn value_at(n: Node, path: Seq<Step>) -> Option<Node> {
    match node_at(n, path) {
        Some(Node::Table(_)) => None,
        Some(Node::Tables(t)) => Some(
            Node::Tables(Seq::new(t.len(), |i: int| Node::Table(Seq::empty()))),
        ),
        v => v,
    }
}

/// A path of keys alone.
pub open spec fn by_keys(keys: Seq<Seq<char>>) -> Seq<Step> {
    keys.map_values(|key: Seq<char>| Step::Key(key))
}

/// The text at the end of a path of keys.
pub open spec fn text_at(n: Node, keys: Seq<Seq<char>>) -> Option<Seq<char>> {
    match value_at(n, by_keys(keys)) {
        Some(Node::Text(t)) => Some(t),
        _ => None,
    }
}

// ------------------------------------------------------------ plain documents

/// A value that is written without escapes.
pub enum Scalar {
    Text(Seq<char>),
    Integer(int),
    Flag(bool),
    Texts(Seq<Seq<char>>),
}

/// A comment line, some `key = value` lines, and then tables of such lines,
/// all under the same `[[name]]`.
pub struct PlainDoc {
    pub comment: Seq<char>,
    pub top: Seq<(Seq<char>, Scalar)>,
    pub name: Seq<char>,
    pub tables: Seq<Seq<(Seq<char>, Scalar)>>,
}

/// A character that stands for itself between double quotes.
pub open spec fn is_plain(c: char) -> bool {
    c == '\t' || ' ' <= c <= '~' && c != '"' && c != '\\' || '\u{80}' <= c
}

pub open spec fn plain_text(s: Seq<char>) -> bool {
    forall|i: int| 0 <= i < s.len() ==> is_plain(#[trigger] s[i])
}

/// A key that is written without quotes.
pub open spec fn bare_key(s: Seq<char>) -> bool {
    s.len() > 0 && forall|i: int|
        0 <= i < s.len() ==> is_alpha(#[trigger] s[i]) || is_digit(s[i]) || s[i] == '_' || s[i]
            == '-'
}

pub open spec fn plain_scalar(v: Scalar) -> bool {
    match v {
        Scalar::Text(t) => plain_text(t),
        Scalar::Integer(n) => i64::MIN <= n <= i64::MAX,
        Scalar::Flag(_) => true,
        Scalar::Texts(ts) => forall|i: int| 0 <= i < ts.len() ==> plain_text(#[trigger] ts[i]),
    }
}

pub open spec fn plain_lines(lines: Seq<(Seq<char>, Scalar)>) -> bool {
    &&& forall|i: int|
        0 <= i < lines.len() ==> bare_key(#[trigger] lines[i].0) && plain_scalar(lines[i].1)
    &&& forall|i: int, j: int|
        0 <= i < j < lines.len() ==> #[trigger] lines[i].0 != #[trigger] lines[j].0
}

pub open spec fn plain_doc(d: PlainDoc) -> bool {
    &&& plain_text(d.comment)
    &&& plain_lines(d.top)
    &&& bare_key(d.name)
    &&& forall|i: int| 0 <= i < d.top.len() ==> #[trigger] d.top[i].0 != d.name
    &&& forall|i: int| 0 <= i < d.tables.len() ==> plain_lines(#[trigger] d.tables[i])
}

pub open spec fn quoted(t: Seq<char>) -> Seq<char> {
    "\""@ + t + "\""@
}

pub open spec fn scalar_text(v: Scalar) -> Seq<char> {
    match v {
        Scalar::Text(t) => quoted(t),
        Scalar::Integer(n) => int_text(n),
        Scalar::Flag(b) => bool_text(b),
        Scalar::Texts(ts) => "["@ + join(ts.map_values(|t: Seq<char>| quoted(t)), ", "@) + "]"@,
    }
}

pub open spec fn line_text(key: Seq<char>, v: Scalar) -> Seq<char> {
    key + " = "@ + scalar_text(v) + "\n"@
}

pub open spec fn lines_text(lines: Seq<(Seq<char>, Scalar)>) -> Seq<char>
    decreases lines.len(),
{
    if lines.len() == 0 {
        Seq::empty()
    } else {
        lines_text(lines.drop_last()) + line_text(lines.last().0, lines.last().1)
    }
}

pub open spec fn tables_text(
    name: Seq<char>,
    tables: Seq<Seq<(Seq<char>, Scalar)>>,
) -> Seq<char>
    decreases tables.len(),
{
    if tables.len() == 0 {
        Seq::empty()
    } else {
        tables_text(name, tables.drop_last()) + "\n[["@ + name + "]]\n"@ + lines_text(tables.last())
    }
}

pub open spec fn doc_text(d: PlainDoc) -> Seq<char> {
    "# "@ + d.comment + "\n"@ + lines_text(d.top) + tables_text(d.name, d.tables)
}

pub open spec fn scalar_node(v: Scalar) -> Node {
    match v {
        Scalar::Text(t) => Node::Text(t),
        Scalar::Integer(n) => Node::Integer(n as i64),
        Scalar::Flag(b) => Node::Flag(b),
        Scalar::Texts(ts) => Node::Array(ts.map_values(|t: Seq<char>| Node::Text(t))),
    }
}

pub open spec fn lines_rows(lines: Seq<(Seq<char>, Scalar)>) -> Seq<(Seq<char>, Node)> {
    lines.map_values(|l: (Seq<char>, Scalar)| (l.0, scalar_node(l.1)))
}

pub open spec fn doc_node(d: PlainDoc) -> Node {
    let tables = d.tables.map_values(
        |t: Seq<(Seq<char>, Scalar)>| Node::Table(lines_rows(t)),
    );
    Node::Table(
        lines_rows(d.top) + if tables.len() > 0 {
            seq![(d.name, Node::Tables(tables))]
        } else {
            Seq::empty()
        },
    )
}

// ------------------------------------------------------------ outside functions

/// A document that was read from a text, or made empty, and then edited by the
/// functions of this file alone.
pub struct Toml {
    pub(crate) doc: toml_edit::DocumentMut,
}

impl View for Toml {
    type V = Node;

    closed spec fn view(&self) -> Node {
        root(self.doc)
    }
}

/// Whether a text is what a document prints as that holds a tree.
pub open spec fn is_print_of(text: Seq<char>, n: Node) -> bool {
    exists|d: toml_edit::DocumentMut| root(d) == n && text == #[trigger] printed(d)
}

impl Toml {
    /// What the document prints as.
    pub closed spec fn text(&self) -> Seq<char> {
        printed(self.doc)
    }

    /// `DocumentMut::from_str`, with its error's `Display` text. A text without
    /// escapes, in the layout of [`doc_text`], is read as what it spells out.
    /// The comments are kept with what they stand beside.
    #[verifier::external_body]
    pub(crate) fn parse(text: &str) -> (r: Result<Toml, String>)
        ensures
            match r {
                Ok(t) => parsed(text@) == Ok::<Node, Seq<char>>(t@) && t@ == root(t.doc) && t@ is Table,
                Err(e) => parsed(text@) == Err::<Node, Seq<char>>(e@),
            },
            forall|d: PlainDoc|
                plain_doc(d) && text@ == #[trigger] doc_text(d) ==> r is Ok && r->Ok_0@ == doc_node(d),
            r matches Ok(t) ==> forall|l: Seq<char>|
                is_remark(l) && #[trigger] lines(text@).contains(l) ==> remarks_in(t.doc).contains(
                    l,
                ),
            r matches Ok(t) ==> forall|key: Seq<char>, l: Seq<char>| #[trigger]
                remarks_above_in(t.doc, key).contains(l) ==> stands_above(lines(text@), key, l),
            r matches Ok(t) ==> headless_tables(t.doc) == headless_in(text@),
    {
        match text.parse::<toml_edit::DocumentMut>() {
            Ok(doc) => Ok(Toml { doc }),
            Err(e) => Err(e.to_string()),
        }
    }

    /// `DocumentMut::new`: a document with an empty root table.
    #[verifier::external_body]
    pub(crate) fn new() -> (r: Toml)
        ensures
            r@ == Node::Table(Seq::empty()),
            headless_tables(r.doc) == Set::<Seq<char>>::empty(),
    {
        Toml { doc: toml_edit::DocumentMut::new() }
    }

    /// `DocumentMut`'s `Display`. It prints the values as they were written, and
    /// a header for each table under a `[[name]]`, so the text is TOML and holds
    /// each value where the document has it. The lines with comments are lines of
    /// the text too, and a table without a header of its own, with a value below
    /// it, has none in the text. Which blank lines and empty tables of the other
    /// kind it prints is left unsaid.
    #[verifier::external_body]
    pub(crate) fn print(&self) -> (r: String)
        requires
            self@ is Table,
        ensures
            r@ == printed(self.doc) && r@ == self.text(),
            parsed(r@) is Ok,
            forall|path: Seq<Step>|
                #[trigger] value_at(parsed(r@)->Ok_0, path) == value_at(self@, path),
            forall|l: Seq<char>|
                #[trigger] remarks_in(self.doc).contains(l) ==> lines(r@).contains(l),
            forall|key: Seq<char>, path: Seq<Step>|
                headless_tables(self.doc).contains(key) && #[trigger] value_at(
                    self@,
                    seq![Step::Key(key)] + path,
                ) is Some ==> headless_in(r@).contains(key),
    {
        self.doc.to_string()
    }

    /// `DocumentMut::as_item`: the root table.
    #[verifier::external_body]
    pub(crate) fn top(&self) -> (r: &toml_edit::Item)
        ensures
            node(*r) == self@,
    {
        self.doc.as_item()
    }

    /// `DocumentMut::as_item_mut`: the root table, to be edited in place. A
    /// comment stays unless it is lost from that table.
    #[verifier::external_body]
    pub(crate) fn top_mut(&mut self) -> (r: &mut toml_edit::Item)
        ensures
            node(*r) == old(self)@,
            final(self)@ == node(*final(r)),
            forall|l: Seq<char>|
                remarks_in(old(self).doc).contains(l) && (remarks(*r).contains(l) ==> remarks(
                    *final(r),
                ).contains(l)) ==> #[trigger] remarks_in(final(self).doc).contains(l),
            forall|key: Seq<char>, l: Seq<char>| #[trigger]
                remarks_above(*r, key).contains(l) ==> remarks_above_in(
                    old(self).doc,
                    key,
                ).contains(l),
            headless_rows(*r) == headless_tables(old(self).doc),
            headless_tables(final(self).doc) == headless_rows(*final(r)),
    {
        self.doc.as_item_mut()
    }
}

/// What an item is, with the value it holds or how many elements it has.
pub enum Shape {
    Text(String),
    Integer(i64),
    Flag(bool),
    Other,
    Array(usize),
    Inline,
    Table,
    Tables(usize),
}

/// Whether a shape is that of a node.
pub open spec fn shapes(s: Shape, n: Node) -> bool {
    match s {
        Shape::Text(t) => n == Node::Text(t@),
        Shape::Integer(i) => n == Node::Integer(i),
        Shape::Flag(b) => n == Node::Flag(b),
        Shape::Other => n is Other,
        Shape::Array(len) => n is Array && n->Array_0.len() == len,
        Shape::Inline => n is Inline,
        Shape::Table => n is Table,
        Shape::Tables(len) => n is Tables && n->Tables_0.len() == len,
    }
}

/// The variants of `Item` and `Value`, told apart. An item that a document
/// holds is never `Item::None`.
#[verifier::external_body]
pub(crate) fn shape(item: &toml_edit::Item) -> (r: Shape)
    ensures
        shapes(r, node(*item)),
{
    match item {
        toml_edit::Item::Value(toml_edit::Value::String(s)) => Shape::Text(s.value().to_string()),
        toml_edit::Item::Value(toml_edit::Value::Integer(i)) => Shape::Integer(*i.value()),
        toml_edit::Item::Value(toml_edit::Value::Boolean(b)) => Shape::Flag(*b.value()),
        toml_edit::Item::Value(toml_edit::Value::Array(a)) => Shape::Array(a.len()),
        toml_edit::Item::Value(toml_edit::Value::InlineTable(_)) => Shape::Inline,
        toml_edit::Item::Value(_) => Shape::Other,
        toml_edit::Item::Table(_) => Shape::Table,
        toml_edit::Item::ArrayOfTables(a) => Shape::Tables(a.len()),
        toml_edit::Item::None => Shape::Other,
    }
}

/// `Item::get` with a key: the child of a table or an inline table.
#[verifier::external_body]
pub(crate) fn under<'a>(item: &'a toml_edit::Item, key: &str) -> (r: Option<&'a toml_edit::Item>)
    ensures
        match r {
            Some(c) => child(node(*item), key@) == Some(node(*c)),
            None => child(node(*item), key@) is None,
        },
{
    item.get(key)
}

/// `Item::get` with an index: an element of an array or one of several tables.
#[verifier::external_body]
pub(crate) fn element(item: &toml_edit::Item, i: usize) -> (r: Option<&toml_edit::Item>)
    ensures
        match r {
            Some(c) => i < elements(node(*item)).len() && node(*c) == elements(node(*item))[i as int],
            None => i >= elements(node(*item)).len(),
        },
{
    item.get(i)
}

/// The keys of a table's rows.
pub open spec fn row_keys(n: Node) -> Seq<Seq<char>> {
    rows(n).map_values(|r: (Seq<char>, Node)| r.0)
}

/// `Table::iter`, for its keys: each once, in their order.
#[verifier::external_body]
pub(crate) fn keys(item: &toml_edit::Item) -> (r: Vec<String>)
    requires
        node(*item) is Table,
    ensures
        texts(r@) == row_keys(node(*item)),
        texts(r@).no_duplicates(),
{
    item.as_table().unwrap().iter().map(|(key, _)| key.to_string()).collect()
}

/// `Table::entry` and `Entry::or_insert` with an empty table: what stands under
/// the key, after an empty table has been put where nothing stood. A comment
/// stays unless it is lost from what stands under the key. A new table has a
/// header of its own, so a table that has none stays so.
#[verifier::external_body]
pub(crate) fn table_under<'a>(item: &'a mut toml_edit::Item, key: &str) -> (r: &'a mut
    toml_edit::Item)
    requires
        node(*old(item)) is Table,
    ensures
        node(*r) == (match child(node(*old(item)), key@) {
            Some(c) => c,
            None => Node::Table(Seq::empty()),
        }),
        node(*final(item)) == Node::Table(put(rows(node(*old(item))), key@, node(*final(r)))),
        forall|l: Seq<char>|
            remarks(*old(item)).contains(l) && (remarks(*r).contains(l) ==> remarks(
                *final(r),
            ).contains(l)) ==> #[trigger] remarks(*final(item)).contains(l),
        child(node(*old(item)), key@) is None ==> remarks(*r) == Set::<Seq<char>>::empty(),
        forall|k: Seq<char>, l: Seq<char>| #[trigger]
            remarks_above(*r, k).contains(l) ==> remarks_above(*old(item), k).contains(l),
        headless(*r) == headless_rows(*old(item)).contains(key@),
        headless_rows(*final(item)) == (if headless(*final(r)) {
            headless_rows(*old(item)).insert(key@)
        } else {
            headless_rows(*old(item)).remove(key@)
        }),
        headless(*old(item)) && node(*r) is Table && node(*final(r)) is Table ==> headless(
            *final(item),
        ),
{
    item.as_table_mut().unwrap().entry(key).or_insert(toml_edit::table())
}

/// How many of one quote a text ends in.
pub open spec fn ending_quotes(s: Seq<char>, quote: char) -> nat
    decreases s.len(),
{
    if s.len() == 0 || s.last() != quote {
        0
    } else {
        1 + ending_quotes(s.drop_last(), quote)
    }
}

/// Whether the quotes of a text, where many follow one another, are so few that
/// their number fits a byte.
pub open spec fn few_quotes(s: Seq<char>) -> bool {
    forall|k: int|
        0 <= k <= s.len() ==> ending_quotes(#[trigger] s.take(k), '"') <= 255 && ending_quotes(
            s.take(k),
            '\'',
        ) <= 255
}

pub fn has_few_quotes(text: &str) -> (r: bool)
    ensures
        r == few_quotes(text@),
{
    let s = chars(text);
    let mut double: u32 = 0;
    let mut single: u32 = 0;
    let mut i: usize = 0;
    assert(s@.take(0).len() == 0);
    while i < s.len()
        invariant
            i <= s@.len(),
            s@ == text@,
            double <= 255,
            single <= 255,
            double == ending_quotes(s@.take(i as int), '"'),
            single == ending_quotes(s@.take(i as int), '\''),
            forall|k: int|
                0 <= k <= i ==> ending_quotes(#[trigger] s@.take(k), '"') <= 255 && ending_quotes(
                    s@.take(k),
                    '\'',
                ) <= 255,
        decreases s.len() - i,
    {
        let ghost now = s@.take(i + 1);
        assert(now.drop_last() == s@.take(i as int));
        assert(now.last() == s@[i as int]);
        double = if s[i] == '"' {
            double + 1
        } else {
            0
        };
        single = if s[i] == '\'' {
            single + 1
        } else {
            0
        };
        if double > 255 || single > 255 {
            assert(now == text@.take(i + 1));
            return false;
        }
        i = i + 1;
    }
    true
}

/// Whether what stands under a key, if anything, cannot hold a comment line.
pub open spec fn has_no_remark(n: Option<Node>) -> bool {
    match n {
        Some(Node::Text(t)) => !holds(t, '#'),
        Some(Node::Array(_)) => false,
        Some(Node::Inline(_)) => false,
        Some(Node::Table(_)) => false,
        Some(Node::Tables(_)) => false,
        _ => true,
    }
}

/// `Item`'s `IndexMut` with a key, and the assignment of `toml_edit::value`: the
/// text stands under the key, whatever stood there. Of another kind of item it
/// would panic. When the text is printed, the quotes in a row are counted in a
/// byte: a text with more of them is left out. Where nothing stood under the key,
/// or a value that holds no `#`, no line with a comment is lost but the row's own.
#[verifier::external_body]
pub(crate) fn put_text(item: &mut toml_edit::Item, key: &str, text: &str)
    requires
        node(*old(item)) is Table || node(*old(item)) is Inline,
        few_quotes(text@),
    ensures
        node(*final(item)) == with_rows(
            node(*old(item)),
            put(rows(node(*old(item))), key@, Node::Text(text@)),
        ),
        has_no_remark(child(node(*old(item)), key@)) ==> forall|l: Seq<char>|
            #[trigger] remarks(*old(item)).contains(l) && row_key(l) != Some(key@) ==> remarks(
                *final(item),
            ).contains(l),
        child(node(*old(item)), key@) is None ==> forall|l: Seq<char>|
            #[trigger] remarks(*old(item)).contains(l) ==> remarks(*final(item)).contains(l),
{
    item[key] = toml_edit::value(text);
}

/// `TableLike::remove`: the row under the key is gone, and whether there was
/// one. The comments in front of the key go with it, and the row's own line; of a
/// value that holds no `#` no others. Where there was no row, none goes.
#[verifier::external_body]
pub(crate) fn remove(item: &mut toml_edit::Item, key: &str) -> (r: bool)
    requires
        node(*old(item)) is Table || node(*old(item)) is Inline,
    ensures
        r == (child(node(*old(item)), key@) is Some),
        node(*final(item)) == with_rows(node(*old(item)), cut(rows(node(*old(item))), key@)),
        has_no_remark(child(node(*old(item)), key@)) ==> forall|l: Seq<char>|
            #[trigger] remarks(*old(item)).contains(l) && row_key(l) != Some(key@)
                && !remarks_above(*old(item), key@).contains(l) ==> remarks(*final(item)).contains(l),
        child(node(*old(item)), key@) is None ==> forall|l: Seq<char>|
            #[trigger] remarks(*old(item)).contains(l) ==> remarks(*final(item)).contains(l),
{
    item.as_table_like_mut().unwrap().remove(key).is_some()
}

/// `Table::set_implicit`: a table without values of its own prints no header, so
/// one that holds nothing is without a header, and stays so while only tables are
/// put into it. What it holds is unchanged; where it had no header nothing changes.
#[verifier::external_body]
pub(crate) fn hide_header(item: &mut toml_edit::Item)
    requires
        node(*old(item)) is Table,
    ensures
        node(*final(item)) == node(*old(item)),
        rows(node(*old(item))).len() == 0 ==> headless(*final(item)),
        headless(*old(item)) ==> headless(*final(item)) && remarks(*final(item)) == remarks(
            *old(item),
        ),
{
    item.as_table_mut().unwrap().set_implicit(true);
}

// -------------------------------------------------------------------- reading

/// The text under a key of an item.
pub open spec fn text_under(n: Node, key: Seq<char>) -> Option<Seq<char>> {
    match child(n, key) {
        Some(Node::Text(t)) => Some(t),
        _ => None,
    }
}

pub(crate) fn read_text(item: &toml_edit::Item, key: &str) -> (r: Option<String>)
    ensures
        opt_text(r) == text_under(node(*item), key@),
{
    match under(item, key) {
        Some(c) => match shape(c) {
            Shape::Text(t) => Some(t),
            _ => None,
        },
        None => None,
    }
}

// --------------------------------------------------------------------- lemmas

/// The first row under a key is what stands under it.
pub proof fn lemma_row_at(rows: Seq<(Seq<char>, Node)>, i: int)
    requires
        0 <= i < rows.len(),
        forall|k: int| 0 <= k < i ==> (#[trigger] rows[k]).0 != rows[i].0,
    ensures
        row(rows, rows[i].0) == Some(rows[i].1),
    decreases rows.len(),
{
    if i > 0 {
        assert(rows[0].0 != rows[i].0);
        let tail = rows.skip(1);
        assert forall|k: int| 0 <= k < i - 1 implies (#[trigger] tail[k]).0 != tail[i - 1].0 by {
            assert(tail[k] == rows[k + 1]);
        }
        lemma_row_at(tail, i - 1);
    }
}

pub proof fn lemma_row_none(rows: Seq<(Seq<char>, Node)>, key: Seq<char>)
    requires
        forall|k: int| 0 <= k < rows.len() ==> (#[trigger] rows[k]).0 != key,
    ensures
        row(rows, key) is None,
    decreases rows.len(),
{
    if rows.len() > 0 {
        let tail = rows.skip(1);
        assert forall|k: int| 0 <= k < tail.len() implies (#[trigger] tail[k]).0 != key by {
            assert(tail[k] == rows[k + 1]);
        }
        lemma_row_none(tail, key);
    }
}

/// The text of a document is a print of what the document holds.
pub proof fn lemma_text_is_print(doc: Toml)
    ensures
        is_print_of(doc.text(), doc@),
{
    assert(root(doc.doc) == doc@ && doc.text() == printed(doc.doc));
}

/// What was put under a key stands there; every other key has what it had.
pub proof fn lemma_put(rows: Seq<(Seq<char>, Node)>, key: Seq<char>, v: Node, other: Seq<char>)
    ensures
        row(put(rows, key, v), key) == Some(v),
        other != key ==> row(put(rows, key, v), other) == row(rows, other),
    decreases rows.len(),
{
    let all = put(rows, key, v);
    if rows.len() == 0 {
        assert(all.skip(1).len() == 0);
        assert(row(all.skip(1), other) is None);
    } else if rows[0].0 == key {
        assert(all.skip(1) == rows.skip(1));
    } else {
        lemma_put(rows.skip(1), key, v, other);
        assert(all.skip(1) == put(rows.skip(1), key, v));
    }
}

/// Nothing stands under a key that was cut; every other key has what it had.
pub proof fn lemma_cut(rows: Seq<(Seq<char>, Node)>, key: Seq<char>, other: Seq<char>)
    ensures
        row(cut(rows, key), key) is None,
        other != key ==> row(cut(rows, key), other) == row(rows, other),
    decreases rows.len(),
{
    if rows.len() > 0 {
        lemma_cut(rows.skip(1), key, other);
        if rows[0].0 != key {
            assert(cut(rows, key).skip(1) == cut(rows.skip(1), key));
        }
    }
}

/// Putting what already stands under a key changes nothing.
pub proof fn lemma_put_same(rows: Seq<(Seq<char>, Node)>, key: Seq<char>)
    requires
        row(rows, key) is Some,
    ensures
        put(rows, key, row(rows, key)->0) == rows,
    decreases rows.len(),
{
    if rows[0].0 == key {
        assert(seq![(key, rows[0].1)] + rows.skip(1) == rows);
    } else {
        lemma_put_same(rows.skip(1), key);
        assert(seq![rows[0]] + rows.skip(1) == rows);
    }
}

} // verus!
