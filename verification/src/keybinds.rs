//! Keybinds: what the compositor runs, what the config files say, and which
//! line defines which bind.
//!
//! A [`RuntimeBind`] is what Hyprland does right now; a [`ConfigBind`] is a
//! `bind* = …` line of a file. Attribution joins the two: of several lines
//! that match, the last one counts, as it does for Hyprland.

use vstd::prelude::*;

use crate::configfs::hyprlang::{
    entries_of, entry_views, is_bind, Entry, EntryView, HyprDoc, Layer,
};
use crate::number::{append_i64, int_text, parse_i64, parse_u16, read_i64, read_u16};
use crate::split::{join, joined, lines, pieces_at_most, splitn, text_lines, words, words_of};
use crate::text::{
    chars, has_char, holds, is_text, opt_text, owned, pos, position, rest, same_ignoring_case,
    same_str, same_str_but_case, slices, starts, starts_with, string, texts, trim, trim_end,
    trimmed, trimmed_end, upper_text, uppered,
};

pub mod conflicts;
pub mod effective;
pub mod laws;
pub mod mods;
pub mod overrides;
pub mod reread;
pub mod sources;
pub mod written;

verus! {

// ------------------------------------------------------------------ modifiers

/// The bit that a modifier's name stands for; an unknown name stands for none.
pub open spec fn mod_bit(name: Seq<char>) -> u16 {
    let u = uppered(name);
    if u == "SHIFT"@ {
        mods::SHIFT
    } else if u == "CAPS"@ || u == "CAPSLOCK"@ {
        mods::CAPS
    } else if u == "CTRL"@ || u == "CONTROL"@ {
        mods::CTRL
    } else if u == "ALT"@ || u == "MOD1"@ {
        mods::ALT
    } else if u == "MOD2"@ {
        mods::MOD2
    } else if u == "MOD3"@ {
        mods::MOD3
    } else if u == "SUPER"@ || u == "MOD4"@ || u == "WIN"@ || u == "META"@ {
        mods::SUPER
    } else if u == "MOD5"@ {
        mods::MOD5
    } else {
        0
    }
}

/// The bits of several names together.
pub open spec fn mask_of(names: Seq<Seq<char>>) -> u16
    decreases names.len(),
{
    if names.len() == 0 {
        0
    } else {
        mask_of(names.drop_last()) | mod_bit(names.last())
    }
}

/// The mask that a list of modifiers spells, such as `SUPER SHIFT`.
pub open spec fn mask_in(text: Seq<char>) -> u16 {
    mask_of(words(text))
}

fn bit_of(name: &[char]) -> (r: u16)
    ensures
        r == mod_bit(name@),
{
    let u = upper_text(name);
    let s = u.as_slice();
    if is_text(s, "SHIFT") {
        mods::SHIFT
    } else if is_text(s, "CAPS") || is_text(s, "CAPSLOCK") {
        mods::CAPS
    } else if is_text(s, "CTRL") || is_text(s, "CONTROL") {
        mods::CTRL
    } else if is_text(s, "ALT") || is_text(s, "MOD1") {
        mods::ALT
    } else if is_text(s, "MOD2") {
        mods::MOD2
    } else if is_text(s, "MOD3") {
        mods::MOD3
    } else if is_text(s, "SUPER") || is_text(s, "MOD4") || is_text(s, "WIN") || is_text(
        s,
        "META",
    ) {
        mods::SUPER
    } else if is_text(s, "MOD5") {
        mods::MOD5
    } else {
        0
    }
}

fn mask_from(text: &[char]) -> (r: u16)
    ensures
        r == mask_in(text@),
{
    let names = words_of(text);
    let ghost ws = slices(names@);
    let mut mask: u16 = 0;
    let mut i: usize = 0;
    assert(ws.take(0) == Seq::<Seq<char>>::empty());
    while i < names.len()
        invariant
            i <= names@.len(),
            ws == slices(names@),
            mask == mask_of(ws.take(i as int)),
        decreases names.len() - i,
    {
        assert(ws.take(i + 1).drop_last() == ws.take(i as int));
        assert(ws.take(i + 1).last() == names@[i as int]@);
        mask = mask | bit_of(names[i]);
        i = i + 1;
    }
    assert(ws.take(names@.len() as int) == ws);
    mask
}

/// Reads a list of modifiers, aliases included.
pub fn mods_to_mask(text: &str) -> (r: u16)
    ensures
        r == mask_in(text@),
{
    let s = chars(text);
    mask_from(s.as_slice())
}

/// A list of one name, or none.
pub open spec fn name_if(on: bool, name: Seq<char>) -> Seq<Seq<char>> {
    if on {
        seq![name]
    } else {
        seq![]
    }
}

/// The names of a mask's modifiers in display order.
pub open spec fn mod_names(mask: u16) -> Seq<Seq<char>> {
    name_if(mask & mods::SUPER != 0, "SUPER"@) + name_if(mask & mods::CTRL != 0, "CTRL"@)
        + name_if(mask & mods::ALT != 0, "ALT"@) + name_if(mask & mods::SHIFT != 0, "SHIFT"@)
        + name_if(mask & mods::CAPS != 0, "CAPS"@) + name_if(mask & mods::MOD5 != 0, "MOD5"@)
}

/// The views of a list of string slices.
pub open spec fn strs(v: Seq<&str>) -> Seq<Seq<char>> {
    v.map_values(|s: &str| s@)
}

fn push_if(out: &mut Vec<&'static str>, on: bool, name: &'static str)
    ensures
        strs(final(out)@) == strs(old(out)@) + name_if(on, name@),
{
    let ghost before = strs(out@);
    if on {
        out.push(name);
    }
    assert(strs(out@) == before + name_if(on, name@));
}

pub fn mask_to_mods(mask: u16) -> (r: Vec<&'static str>)
    ensures
        strs(r@) == mod_names(mask),
{
    let mut out: Vec<&'static str> = Vec::new();
    assert(strs(out@) == Seq::<Seq<char>>::empty());
    push_if(&mut out, mask & mods::SUPER != 0, "SUPER");
    push_if(&mut out, mask & mods::CTRL != 0, "CTRL");
    push_if(&mut out, mask & mods::ALT != 0, "ALT");
    push_if(&mut out, mask & mods::SHIFT != 0, "SHIFT");
    push_if(&mut out, mask & mods::CAPS != 0, "CAPS");
    push_if(&mut out, mask & mods::MOD5 != 0, "MOD5");
    assert(strs(out@) == mod_names(mask));
    out
}

/// A mask's names as owned strings.
pub fn owned_mods(mask: u16) -> (r: Vec<String>)
    ensures
        texts(r@) == mod_names(mask),
{
    let names = mask_to_mods(mask);
    let mut out: Vec<String> = Vec::new();
    let mut i: usize = 0;
    while i < names.len()
        invariant
            i <= names@.len(),
            out@.len() == i,
            forall|j: int| 0 <= j < i ==> (#[trigger] out@[j])@ == names@[j]@,
        decreases names.len() - i,
    {
        out.push(owned(names[i]));
        i = i + 1;
    }
    assert(texts(out@) == strs(names@));
    out
}

/// A chord as it is shown: `SUPER+SHIFT+T`. A key that is not known is shown
/// as an ellipsis.
pub open spec fn chord_text(mask: u16, key: Seq<char>) -> Seq<char> {
    join(
        mod_names(mask).push(
            if key.len() == 0 {
                "…"@
            } else {
                key
            },
        ),
        "+"@,
    )
}

pub fn render_chord(mask: u16, key: &str) -> (r: String)
    ensures
        r@ == chord_text(mask, key@),
{
    let mut parts = owned_mods(mask);
    let ghost before = texts(parts@);
    let k = chars(key);
    if k.len() == 0 {
        parts.push(owned("…"));
    } else {
        parts.push(owned(key));
    }
    assert(texts(parts@) == before.push(parts@.last()@));
    joined(&parts, "+")
}

// -------------------------------------------------------------- runtime binds

/// A bind as the compositor reports it.
#[derive(Debug, Clone, PartialEq, Eq)]
pub struct RuntimeBind {
    pub modmask: u16,
    pub key: String,
    pub keycode: i64,
    pub dispatcher: String,
    pub arg: String,
    pub submap: String,
    pub description: String,
    pub locked: bool,
    pub release: bool,
    pub repeat: bool,
}

/// What a runtime bind says.
pub struct RuntimeView {
    pub modmask: u16,
    pub key: Seq<char>,
    pub keycode: i64,
    pub dispatcher: Seq<char>,
    pub arg: Seq<char>,
    pub submap: Seq<char>,
    pub description: Seq<char>,
    pub locked: bool,
    pub release: bool,
    pub repeat: bool,
}

impl View for RuntimeBind {
    type V = RuntimeView;

    open spec fn view(&self) -> RuntimeView {
        RuntimeView {
            modmask: self.modmask,
            key: self.key@,
            keycode: self.keycode,
            dispatcher: self.dispatcher@,
            arg: self.arg@,
            submap: self.submap@,
            description: self.description@,
            locked: self.locked,
            release: self.release,
            repeat: self.repeat,
        }
    }
}

pub open spec fn runtime_views(v: Seq<RuntimeBind>) -> Seq<RuntimeView> {
    v.map_values(|b: RuntimeBind| b@)
}

impl RuntimeBind {
    /// The chord as it is shown. A bind that has only a key code shows it.
    pub fn chord(&self) -> (r: String)
        ensures
            r@ == if self.keycode != 0 && self.key@.len() == 0 {
                chord_text(self.modmask, "code:"@ + int_text(self.keycode as int))
            } else {
                chord_text(self.modmask, self.key@)
            },
    {
        let k = chars(self.key.as_str());
        if self.keycode != 0 && k.len() == 0 {
            let mut code = owned("code:");
            append_i64(&mut code, self.keycode);
            render_chord(self.modmask, code.as_str())
        } else {
            render_chord(self.modmask, self.key.as_str())
        }
    }

    pub fn copied(&self) -> (r: Self)
        ensures
            r@ == self@,
    {
        RuntimeBind {
            modmask: self.modmask,
            key: owned(self.key.as_str()),
            keycode: self.keycode,
            dispatcher: owned(self.dispatcher.as_str()),
            arg: owned(self.arg.as_str()),
            submap: owned(self.submap.as_str()),
            description: owned(self.description.as_str()),
            locked: self.locked,
            release: self.release,
            repeat: self.repeat,
        }
    }

    fn blank() -> (r: Self)
        ensures
            r@ == blank_bind(),
    {
        let r = RuntimeBind {
            modmask: 0,
            key: String::new(),
            keycode: 0,
            dispatcher: String::new(),
            arg: String::new(),
            submap: String::new(),
            description: String::new(),
            locked: false,
            release: false,
            repeat: false,
        };
        assert(r@ == blank_bind());
        r
    }
}

/// A bind of which nothing has been read yet.
pub open spec fn blank_bind() -> RuntimeView {
    RuntimeView {
        modmask: 0,
        key: Seq::empty(),
        keycode: 0,
        dispatcher: Seq::empty(),
        arg: Seq::empty(),
        submap: Seq::empty(),
        description: Seq::empty(),
        locked: false,
        release: false,
        repeat: false,
    }
}

/// The bind with one field of the listing read. A number that cannot be read
/// counts as zero, and a field that is not known changes nothing.
pub open spec fn with_field(b: RuntimeView, name: Seq<char>, v: Seq<char>) -> RuntimeView {
    if name == "modmask"@ {
        RuntimeView {
            modmask: match parse_u16(v) {
                Some(n) => n,
                None => 0,
            },
            ..b
        }
    } else if name == "key"@ {
        RuntimeView { key: v, ..b }
    } else if name == "keycode"@ {
        RuntimeView {
            keycode: match parse_i64(v) {
                Some(n) => n,
                None => 0,
            },
            ..b
        }
    } else if name == "description"@ {
        RuntimeView { description: v, ..b }
    } else if name == "dispatcher"@ {
        RuntimeView { dispatcher: v, ..b }
    } else if name == "arg"@ {
        RuntimeView { arg: v, ..b }
    } else if name == "submap"@ {
        RuntimeView { submap: v, ..b }
    } else {
        b
    }
}

/// A line of the listing that is indented belongs to the bind above it.
pub open spec fn is_indented(line: Seq<char>) -> bool {
    line.len() > 0 && (line[0] == ' ' || line[0] == '\t')
}

/// How far a listing has been read: the binds that are complete, and the one
/// whose fields follow.
pub struct ListingView {
    pub done: Seq<RuntimeView>,
    pub current: Option<RuntimeView>,
}

/// A listing with its current bind closed. One with neither a key nor a key
/// code is no bind.
pub open spec fn flushed(st: ListingView) -> Seq<RuntimeView> {
    match st.current {
        Some(b) => if b.key.len() > 0 || b.keycode != 0 {
            st.done.push(b)
        } else {
            st.done
        },
        None => st.done,
    }
}

/// A listing with one more line read.
pub open spec fn with_line(st: ListingView, line: Seq<char>) -> ListingView {
    let p = pos(line, ':');
    if trim(line).len() == 0 {
        st
    } else if !is_indented(line) {
        ListingView {
            done: flushed(st),
            current: if starts_with(trim_end(line), "bind"@) {
                Some(blank_bind())
            } else {
                None
            },
        }
    } else if st.current is Some && holds(line, ':') {
        ListingView {
            current: Some(
                with_field(st.current->0, trim(line.take(p)), trim(line.skip(p + 1))),
            ),
            ..st
        }
    } else {
        st
    }
}

/// A listing with several lines read.
pub open spec fn listing(ls: Seq<Seq<char>>) -> ListingView
    decreases ls.len(),
{
    if ls.len() == 0 {
        ListingView { done: Seq::empty(), current: None }
    } else {
        with_line(listing(ls.drop_last()), ls.last())
    }
}

/// The binds of a plain-text listing.
pub open spec fn binds_in_text(text: Seq<char>) -> Seq<RuntimeView> {
    flushed(listing(lines(text)))
}

pub open spec fn opt_runtime(b: Option<RuntimeBind>) -> Option<RuntimeView> {
    match b {
        Some(b) => Some(b@),
        None => None,
    }
}

fn flush(done: &mut Vec<RuntimeBind>, current: Option<RuntimeBind>)
    ensures
        runtime_views(final(done)@) == flushed(
            ListingView { done: runtime_views(old(done)@), current: opt_runtime(current) },
        ),
{
    let ghost before = runtime_views(done@);
    if let Some(b) = current {
        let k = chars(b.key.as_str());
        if k.len() > 0 || b.keycode != 0 {
            done.push(b);
            assert(runtime_views(done@) == before.push(b@));
        }
    }
}

fn set_field(b: RuntimeBind, name: &[char], v: &[char]) -> (r: RuntimeBind)
    ensures
        r@ == with_field(b@, name@, v@),
{
    let mut out = b;
    if is_text(name, "modmask") {
        out.modmask = match read_u16(v) {
            Some(n) => n,
            None => 0,
        };
    } else if is_text(name, "key") {
        out.key = string(v);
    } else if is_text(name, "keycode") {
        out.keycode = match read_i64(v) {
            Some(n) => n,
            None => 0,
        };
    } else if is_text(name, "description") {
        out.description = string(v);
    } else if is_text(name, "dispatcher") {
        out.dispatcher = string(v);
    } else if is_text(name, "arg") {
        out.arg = string(v);
    } else if is_text(name, "submap") {
        out.submap = string(v);
    }
    out
}

/// Reads the plain-text listing of `hyprctl binds`: a directive line, then its
/// fields indented below it. Fields that are not known are passed over.
pub fn parse_runtime_binds_text(text: &str) -> (r: Vec<RuntimeBind>)
    ensures
        runtime_views(r@) == binds_in_text(text@),
{
    let s = chars(text);
    let ls = text_lines(s.as_slice());
    let ghost all = slices(ls@);
    let mut done: Vec<RuntimeBind> = Vec::new();
    let mut current: Option<RuntimeBind> = None;
    let mut i: usize = 0;
    assert(all.take(0) == Seq::<Seq<char>>::empty());
    assert(runtime_views(done@) == Seq::<RuntimeView>::empty());
    while i < ls.len()
        invariant
            i <= ls@.len(),
            all == slices(ls@),
            listing(all.take(i as int)) == (ListingView {
                done: runtime_views(done@),
                current: opt_runtime(current),
            }),
        decreases ls.len() - i,
    {
        let line = ls[i];
        let ghost st = listing(all.take(i as int));
        assert(all.take(i + 1).drop_last() == all.take(i as int));
        assert(all.take(i + 1).last() == line@);
        assert(listing(all.take(i + 1)) == with_line(st, line@));
        if trimmed(line).len() != 0 {
            let head = line[0];
            if head != ' ' && head != '\t' {
                flush(&mut done, current);
                current = if starts(trimmed_end(line), "bind") {
                    Some(RuntimeBind::blank())
                } else {
                    None
                };
            } else if has_char(line, ':') {
                proof {
                    crate::text::lemma_pos_from(line@, ':', 0);
                }
                let p = position(line, ':');
                current = match current {
                    Some(b) => Some(
                        set_field(b, trimmed(crate::text::front(line, p)), trimmed(rest(line, p + 1))),
                    ),
                    None => None,
                };
            }
        }
        i = i + 1;
    }
    assert(all.take(ls@.len() as int) == all);
    flush(&mut done, current);
    done
}

// --------------------------------------------------------------- config binds

/// A `bind* = MODS, KEY, [DESCRIPTION,] DISPATCHER, ARG` line.
#[derive(Debug, Clone, PartialEq, Eq)]
pub struct ConfigBind {
    /// The directive: `bind`, `binde`, `bindeld`, …
    pub flags: String,
    pub modmask: u16,
    pub key: String,
    /// Present where the directive has the `d` flag.
    pub description: Option<String>,
    pub dispatcher: String,
    pub arg: String,
}

/// What a config bind says.
pub struct BindView {
    pub flags: Seq<char>,
    pub modmask: u16,
    pub key: Seq<char>,
    pub description: Option<Seq<char>>,
    pub dispatcher: Seq<char>,
    pub arg: Seq<char>,
}

impl View for ConfigBind {
    type V = BindView;

    open spec fn view(&self) -> BindView {
        BindView {
            flags: self.flags@,
            modmask: self.modmask,
            key: self.key@,
            description: opt_text(self.description),
            dispatcher: self.dispatcher@,
            arg: self.arg@,
        }
    }
}

pub open spec fn bind_views(v: Seq<ConfigBind>) -> Seq<BindView> {
    v.map_values(|b: ConfigBind| b@)
}

pub open spec fn opt_bind(b: Option<ConfigBind>) -> Option<BindView> {
    match b {
        Some(b) => Some(b@),
        None => None,
    }
}

/// Whether a directive carries a description: a `d` among its flag letters.
pub open spec fn has_description(directive: Seq<char>) -> bool {
    holds(directive.skip("bind"@.len() as int), 'd')
}

/// A field of a bind, trimmed; one that is not there is empty.
pub open spec fn field(parts: Seq<Seq<char>>, i: int) -> Seq<char> {
    if 0 <= i < parts.len() {
        trim(parts[i])
    } else {
        Seq::empty()
    }
}

/// The bind that a directive with its fields defines. The last field keeps its
/// commas.
pub open spec fn bind_of(directive: Seq<char>, value: Seq<char>) -> Option<BindView> {
    let described = has_description(directive);
    let parts = splitn(
        value,
        if described {
            5
        } else {
            4
        },
        ',',
    );
    let at: int = if described {
        3
    } else {
        2
    };
    if !starts_with(directive, "bind"@) || parts.len() < 2 {
        None
    } else {
        Some(
            BindView {
                flags: directive,
                modmask: mask_in(trim(parts[0])),
                key: field(parts, 1),
                description: if described {
                    Some(field(parts, 2))
                } else {
                    None
                },
                dispatcher: field(parts, at),
                arg: field(parts, at + 1),
            },
        )
    }
}

fn field_at(parts: &Vec<&[char]>, i: usize) -> (r: String)
    ensures
        r@ == field(slices(parts@), i as int),
{
    if i < parts.len() {
        string(trimmed(parts[i]))
    } else {
        let none: String = String::new();
        assert(none@ == Seq::<char>::empty());
        none
    }
}

/// Whether a key of a config line names the key of a runtime bind: by its
/// code, or by its name whatever its case.
pub open spec fn key_matches(key: Seq<char>, rt: RuntimeView) -> bool {
    if starts_with(key, "code:"@) {
        parse_i64(trim(key.skip("code:"@.len() as int))) == Some(rt.keycode)
    } else {
        same_ignoring_case(key, rt.key)
    }
}

/// Whether a config line defines a runtime bind.
pub open spec fn defines(b: BindView, rt: RuntimeView) -> bool {
    &&& b.modmask == rt.modmask
    &&& key_matches(b.key, rt)
    &&& same_ignoring_case(b.dispatcher, rt.dispatcher)
    &&& b.arg == rt.arg
}

fn key_eq(key: &str, rt: &RuntimeBind) -> (r: bool)
    ensures
        r == key_matches(key@, rt@),
{
    let k = chars(key);
    if starts(k.as_slice(), "code:") {
        let prefix = chars("code:");
        let code = rest(k.as_slice(), prefix.len());
        match read_i64(trimmed(code)) {
            Some(n) => n == rt.keycode,
            None => false,
        }
    } else {
        same_str_but_case(key, rt.key.as_str())
    }
}

/// A bind as a config line spells it.
pub open spec fn bind_line(b: BindView) -> Seq<char> {
    let head = b.flags + " = "@ + join(mod_names(b.modmask), " "@) + ", "@ + b.key;
    let described = match b.description {
        Some(d) => head + ", "@ + d,
        None => head,
    };
    if b.dispatcher.len() == 0 {
        described
    } else if b.arg.len() == 0 {
        described + ", "@ + b.dispatcher
    } else {
        described + ", "@ + b.dispatcher + ", "@ + b.arg
    }
}

/// What tells two chords apart: the modifiers and the key whatever its case.
pub open spec fn chord_key(mask: u16, key: Seq<char>) -> (u16, Seq<char>) {
    (mask, uppered(key))
}

pub fn chord_id(mask: u16, key: &str) -> (r: (u16, String))
    ensures
        (r.0, r.1@) == chord_key(mask, key@),
{
    let k = chars(key);
    let u = upper_text(k.as_slice());
    (mask, string(u.as_slice()))
}

impl ConfigBind {
    /// Reads an entry of a config file; `None` where it is no bind.
    pub fn from_entry(entry: &Entry) -> (r: Option<Self>)
        ensures
            opt_bind(r) == bind_of(entry.key@, entry.value@),
    {
        let k = chars(entry.key.as_str());
        if !starts(k.as_slice(), "bind") {
            return None;
        }
        let prefix = chars("bind");
        let described = has_char(rest(k.as_slice(), prefix.len()), 'd');
        let cap: usize = if described {
            5
        } else {
            4
        };
        let v = chars(entry.value.as_str());
        let parts = pieces_at_most(v.as_slice(), cap, ',');
        if parts.len() < 2 {
            return None;
        }
        let at: usize = if described {
            3
        } else {
            2
        };
        let modmask = mask_from(trimmed(parts[0]));
        let description = if described {
            Some(field_at(&parts, 2))
        } else {
            None
        };
        let b = ConfigBind {
            flags: owned(entry.key.as_str()),
            modmask,
            key: field_at(&parts, 1),
            description,
            dispatcher: field_at(&parts, at),
            arg: field_at(&parts, at + 1),
        };
        assert(b@.description == bind_of(entry.key@, entry.value@)->0.description);
        Some(b)
    }

    /// Whether this line defines the given runtime bind.
    pub fn defines(&self, rt: &RuntimeBind) -> (r: bool)
        ensures
            r == defines(self@, rt@),
    {
        self.modmask == rt.modmask && key_eq(self.key.as_str(), rt) && same_str_but_case(
            self.dispatcher.as_str(),
            rt.dispatcher.as_str(),
        ) && same_str(self.arg.as_str(), rt.arg.as_str())
    }

    /// The modifiers as a config line spells them.
    pub fn mods_text(&self) -> (r: String)
        ensures
            r@ == join(mod_names(self.modmask), " "@),
    {
        joined(&owned_mods(self.modmask), " ")
    }

    /// This bind as a config line. Empty fields at its end are left out.
    pub fn render_line(&self) -> (r: String)
        ensures
            r@ == bind_line(self@),
    {
        let mut line = owned(self.flags.as_str());
        line.append(" = ");
        let names = self.mods_text();
        line.append(names.as_str());
        line.append(", ");
        line.append(self.key.as_str());
        if let Some(d) = &self.description {
            line.append(", ");
            line.append(d.as_str());
        }
        let disp = chars(self.dispatcher.as_str());
        let arg = chars(self.arg.as_str());
        if disp.len() > 0 {
            line.append(", ");
            line.append(self.dispatcher.as_str());
            if arg.len() > 0 {
                line.append(", ");
                line.append(self.arg.as_str());
            }
        }
        line
    }

    pub fn copied(&self) -> (r: Self)
        ensures
            r@ == self@,
    {
        let description = match &self.description {
            Some(d) => Some(owned(d.as_str())),
            None => None,
        };
        ConfigBind {
            flags: owned(self.flags.as_str()),
            modmask: self.modmask,
            key: owned(self.key.as_str()),
            description,
            dispatcher: owned(self.dispatcher.as_str()),
            arg: owned(self.arg.as_str()),
        }
    }
}

// ---------------------------------------------------------------- attribution

/// A runtime bind with the line that defines it. A bind that no line defines,
/// such as a plugin's, has no source.
#[derive(Debug, Clone, PartialEq, Eq)]
pub struct AttributedBind {
    pub runtime: RuntimeBind,
    pub source: Option<BindSource>,
}

#[derive(Debug, Clone, PartialEq, Eq)]
pub struct BindSource {
    pub layer: Layer,
    pub config: ConfigBind,
}

/// One config file, in the order in which Hyprland reads them: what comes
/// later wins.
pub struct SourceFile<'a> {
    pub layer: Layer,
    pub doc: &'a HyprDoc,
}

pub open spec fn opt_source(s: Option<BindSource>) -> Option<(Layer, BindView)> {
    match s {
        Some(s) => Some((s.layer, s.config@)),
        None => None,
    }
}

pub open spec fn attributed_views(v: Seq<AttributedBind>) -> Seq<(
    RuntimeView,
    Option<(Layer, BindView)>,
)> {
    v.map_values(|a: AttributedBind| (a.runtime@, opt_source(a.source)))
}

/// The documents of some source files, with their layers.
pub open spec fn source_docs(v: Seq<SourceFile>) -> Seq<(Layer, Seq<Seq<char>>)> {
    v.map_values(|s: SourceFile| (s.layer, s.doc.lines()))
}

/// The last of some entries that defines a runtime bind.
pub open spec fn last_defining(entries: Seq<EntryView>, rt: RuntimeView) -> Option<BindView>
    decreases entries.len(),
{
    if entries.len() == 0 {
        None
    } else {
        match bind_of(entries.last().key, entries.last().value) {
            Some(b) => if defines(b, rt) {
                Some(b)
            } else {
                last_defining(entries.drop_last(), rt)
            },
            None => last_defining(entries.drop_last(), rt),
        }
    }
}

/// The line that defines a runtime bind: the last match of the last document
/// that has one.
pub open spec fn source_of(
    docs: Seq<(Layer, Seq<Seq<char>>)>,
    rt: RuntimeView,
) -> Option<(Layer, BindView)>
    decreases docs.len(),
{
    if docs.len() == 0 {
        None
    } else {
        let (layer, lines) = docs.last();
        match last_defining(entries_of(lines).filter(|e: EntryView| is_bind(e)), rt) {
            Some(b) => Some((layer, b)),
            None => source_of(docs.drop_last(), rt),
        }
    }
}

fn find_in(entries: &Vec<Entry>, rt: &RuntimeBind) -> (r: Option<ConfigBind>)
    ensures
        opt_bind(r) == last_defining(entry_views(entries@), rt@),
{
    let ghost views = entry_views(entries@);
    let mut n: usize = entries.len();
    assert(views.take(n as int) == views);
    while n > 0
        invariant
            n <= entries@.len(),
            views == entry_views(entries@),
            last_defining(views, rt@) == last_defining(views.take(n as int), rt@),
        decreases n,
    {
        assert(views.take(n as int).last() == entries@[n - 1]@);
        assert(views.take(n as int).drop_last() == views.take(n - 1));
        if let Some(b) = ConfigBind::from_entry(&entries[n - 1]) {
            if b.defines(rt) {
                return Some(b);
            }
        }
        n = n - 1;
    }
    None
}

fn find_source(sources: &[SourceFile], rt: &RuntimeBind) -> (r: Option<BindSource>)
    ensures
        opt_source(r) == source_of(source_docs(sources@), rt@),
{
    let ghost docs = source_docs(sources@);
    let mut n: usize = sources.len();
    assert(docs.take(n as int) == docs);
    while n > 0
        invariant
            n <= sources@.len(),
            docs == source_docs(sources@),
            source_of(docs, rt@) == source_of(docs.take(n as int), rt@),
        decreases n,
    {
        assert(docs.take(n as int).last() == (sources@[n - 1].layer, sources@[n - 1].doc.lines()));
        assert(docs.take(n as int).drop_last() == docs.take(n - 1));
        let binds = sources[n - 1].doc.binds();
        if let Some(b) = find_in(&binds, rt) {
            return Some(BindSource { layer: sources[n - 1].layer, config: b });
        }
        n = n - 1;
    }
    None
}

/// Finds for each runtime bind the line that defines it.
pub fn attribute(runtime: &[RuntimeBind], sources: &[SourceFile]) -> (r: Vec<AttributedBind>)
    ensures
        attributed_views(r@) == runtime_views(runtime@).map_values(
            |rt: RuntimeView| (rt, source_of(source_docs(sources@), rt)),
        ),
{
    let mut out: Vec<AttributedBind> = Vec::new();
    let mut i: usize = 0;
    while i < runtime.len()
        invariant
            i <= runtime@.len(),
            out@.len() == i,
            forall|j: int|
                0 <= j < i ==> (#[trigger] out@[j]).runtime@ == runtime@[j]@ && opt_source(
                    out@[j].source,
                ) == source_of(source_docs(sources@), runtime@[j]@),
        decreases runtime.len() - i,
    {
        let source = find_source(sources, &runtime[i]);
        out.push(AttributedBind { runtime: runtime[i].copied(), source });
        i = i + 1;
    }
    assert(attributed_views(out@) == runtime_views(runtime@).map_values(
        |rt: RuntimeView| (rt, source_of(source_docs(sources@), rt)),
    ));
    out
}

} // verus!
