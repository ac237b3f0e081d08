//! Look and feel: the settings that can be changed, the values they may take,
//! and the user's changes, kept in a managed block of each config file.

use vstd::prelude::*;

use crate::decimal::{
    is_above, is_below, number_text, parse_number, read_number, append_micro, micro_text,
};
use crate::looknfeel::schema::{
    all_presets, all_settings, names, preset_views, presets, settings, views,
};
use crate::number::{i64_text, int_text, parse_i64, read_i64};
use crate::split::{join, joined};
use crate::text::{
    chars, front, is_text, lower_text, lowered, owned, same_str, string, texts, trim, trimmed,
};

pub mod laws;
pub mod model;
pub mod nested;
pub mod preset_laws;
pub mod reload;
pub mod schema;
pub mod values;

pub use crate::looknfeel::model::{LookFeel, Sources, preview_marker};

verus! {

/// What values a setting takes. The bounds of a `Float` are in millionths.
#[derive(Debug, Clone, Copy, PartialEq, Eq)]
pub enum Kind {
    Int { min: i64, max: i64 },
    Float { min: i64, max: i64 },
    Bool,
    Enum(&'static [&'static str]),
}

#[verifier::ext_equal]
pub enum KindView {
    Int { min: int, max: int },
    Float { min: int, max: int },
    Bool,
    Enum(Seq<Seq<char>>),
}

impl View for Kind {
    type V = KindView;

    open spec fn view(&self) -> KindView {
        match *self {
            Kind::Int { min, max } => KindView::Int { min: min as int, max: max as int },
            Kind::Float { min, max } => KindView::Float { min: min as int, max: max as int },
            Kind::Bool => KindView::Bool,
            Kind::Enum(opts) => KindView::Enum(names(opts@)),
        }
    }
}

/// The config file that a setting is written to.
#[derive(Debug, Clone, Copy, PartialEq, Eq, Structural)]
pub enum Target {
    Looknfeel,
    Input,
}

impl Target {
    pub open spec fn user_name(self) -> Seq<char> {
        match self {
            Target::Looknfeel => "looknfeel.conf"@,
            Target::Input => "input.conf"@,
        }
    }

    /// The user's file.
    pub fn user_file(&self) -> (r: &'static str)
        ensures
            r@ == self.user_name(),
    {
        match self {
            Target::Looknfeel => "looknfeel.conf",
            Target::Input => "input.conf",
        }
    }

    pub open spec fn default_name(self) -> Seq<char> {
        match self {
            Target::Looknfeel => "default/hypr/looknfeel.conf"@,
            Target::Input => "default/hypr/input.conf"@,
        }
    }

    /// Omarchy's file.
    pub fn default_file(&self) -> (r: &'static str)
        ensures
            r@ == self.default_name(),
    {
        match self {
            Target::Looknfeel => "default/hypr/looknfeel.conf",
            Target::Input => "default/hypr/input.conf",
        }
    }

    pub open spec fn block(self) -> Seq<char> {
        match self {
            Target::Looknfeel => "looknfeel"@,
            Target::Input => "input"@,
        }
    }

    /// The name of the managed block in the user's file.
    pub fn block_name(&self) -> (r: &'static str)
        ensures
            r@ == self.block(),
    {
        match self {
            Target::Looknfeel => "looknfeel",
            Target::Input => "input",
        }
    }
}

/// A setting that can be changed.
#[derive(Debug, Clone, Copy, PartialEq, Eq)]
pub struct Setting {
    /// The dotted key.
    pub key: &'static str,
    pub label: &'static str,
    pub group: &'static str,
    pub target: Target,
    pub kind: Kind,
    /// What Hyprland takes where nothing is set.
    pub default: &'static str,
    pub help: &'static str,
}

#[verifier::ext_equal]
pub struct SettingView {
    pub key: Seq<char>,
    pub label: Seq<char>,
    pub group: Seq<char>,
    pub target: Target,
    pub kind: KindView,
    pub default: Seq<char>,
    pub help: Seq<char>,
}

impl View for Setting {
    type V = SettingView;

    open spec fn view(&self) -> SettingView {
        SettingView {
            key: self.key@,
            label: self.label@,
            group: self.group@,
            target: self.target,
            kind: self.kind@,
            default: self.default@,
            help: self.help@,
        }
    }
}

/// A whole look: values that are set together.
#[derive(Debug, Clone, Copy, PartialEq, Eq)]
pub struct Preset {
    pub name: &'static str,
    pub blurb: &'static str,
    pub values: &'static [(&'static str, &'static str)],
}

#[verifier::ext_equal]
pub struct PresetView {
    pub name: Seq<char>,
    pub blurb: Seq<char>,
    pub values: Seq<(Seq<char>, Seq<char>)>,
}

impl View for Preset {
    type V = PresetView;

    open spec fn view(&self) -> PresetView {
        PresetView {
            name: self.name@,
            blurb: self.blurb@,
            values: self.values@.map_values(|v: (&'static str, &'static str)| (v.0@, v.1@)),
        }
    }
}

// ---------------------------------------------------------------------- lookups

/// The first setting with a key.
pub open spec fn setting_of(all: Seq<SettingView>, key: Seq<char>) -> Option<SettingView>
    decreases all.len(),
{
    if all.len() == 0 {
        None
    } else if all[0].key == key {
        Some(all[0])
    } else {
        setting_of(all.skip(1), key)
    }
}

/// The setting with a key.
pub open spec fn setting_at(key: Seq<char>) -> Option<SettingView> {
    setting_of(all_settings(), key)
}

pub fn lookup(key: &str) -> (r: Option<Setting>)
    ensures
        match r {
            Some(s) => setting_at(key@) == Some(s@),
            None => setting_at(key@) is None,
        },
{
    let all = settings();
    let ghost table = all_settings();
    let mut i: usize = 0;
    assert(table.skip(0) == table);
    while i < all.len()
        invariant
            i <= all@.len(),
            table == views(all@),
            table == all_settings(),
            setting_of(table, key@) == setting_of(table.skip(i as int), key@),
        decreases all.len() - i,
    {
        assert(table.skip(i as int)[0] == all@[i as int]@);
        assert(table.skip(i as int).skip(1) == table.skip(i + 1));
        if same_str(all[i].key, key) {
            return Some(all[i]);
        }
        i = i + 1;
    }
    None
}

/// The first look with a name.
pub open spec fn preset_of(all: Seq<PresetView>, name: Seq<char>) -> Option<PresetView>
    decreases all.len(),
{
    if all.len() == 0 {
        None
    } else if all[0].name == name {
        Some(all[0])
    } else {
        preset_of(all.skip(1), name)
    }
}

pub fn preset(name: &str) -> (r: Option<Preset>)
    ensures
        match r {
            Some(p) => preset_of(all_presets(), name@) == Some(p@),
            None => preset_of(all_presets(), name@) is None,
        },
{
    let all = presets();
    let ghost table = all_presets();
    let mut i: usize = 0;
    assert(table.skip(0) == table);
    while i < all.len()
        invariant
            i <= all@.len(),
            table == preset_views(all@),
            table == all_presets(),
            preset_of(table, name@) == preset_of(table.skip(i as int), name@),
        decreases all.len() - i,
    {
        assert(table.skip(i as int)[0] == all@[i as int]@);
        assert(table.skip(i as int).skip(1) == table.skip(i + 1));
        if same_str(all[i].name, name) {
            return Some(all[i]);
        }
        i = i + 1;
    }
    None
}

/// The groups of some settings, each where it is first seen.
pub open spec fn groups_of(all: Seq<SettingView>) -> Seq<Seq<char>>
    decreases all.len(),
{
    if all.len() == 0 {
        Seq::empty()
    } else {
        let before = groups_of(all.drop_last());
        if before.contains(all.last().group) {
            before
        } else {
            before.push(all.last().group)
        }
    }
}

/// The groups there are, in display order.
pub open spec fn group_names() -> Seq<Seq<char>> {
    seq![
        "Windows"@,
        "Layout"@,
        "Behavior"@,
        "Decoration"@,
        "Blur"@,
        "Shadow"@,
        "Input"@,
        "Touchpad"@,
    ]
}

/// The groups in display order.
pub fn groups() -> (r: Vec<&'static str>)
    ensures
        names(r@) == group_names(),
        names(r@) == groups_of(all_settings()),
{
    let all = settings();
    let ghost table = all_settings();
    let mut seen: Vec<&'static str> = Vec::new();
    let mut i: usize = 0;
    assert(table.take(0).len() == 0);
    assert(names(seen@) == Seq::<Seq<char>>::empty());
    while i < all.len()
        invariant
            i <= all@.len(),
            table == views(all@),
            table == all_settings(),
            names(seen@) == groups_of(table.take(i as int)),
        decreases all.len() - i,
    {
        assert(table.take(i + 1).drop_last() == table.take(i as int));
        assert(table.take(i + 1).last() == all@[i as int]@);
        let g = all[i].group;
        if !among(&seen, g) {
            let ghost was = names(seen@);
            seen.push(g);
            assert(names(seen@) == was.push(g@));
        }
        i = i + 1;
    }
    assert(table.take(table.len() as int) == table);
    proof {
        laws::lemma_groups();
    }
    seen
}

fn among(all: &Vec<&'static str>, x: &str) -> (r: bool)
    ensures
        r == names(all@).contains(x@),
{
    let mut i: usize = 0;
    while i < all.len()
        invariant
            i <= all@.len(),
            forall|k: int| 0 <= k < i ==> names(all@)[k] != x@,
        decreases all.len() - i,
    {
        assert(names(all@)[i as int] == all@[i as int]@);
        if same_str(all[i], x) {
            return true;
        }
        i = i + 1;
    }
    false
}

// ------------------------------------------------------------------- validation

pub open spec fn out_of_range(min: Seq<char>, max: Seq<char>) -> Seq<char> {
    "must be between "@ + min + " and "@ + max
}

/// What a value is written as, or why it is refused.
pub open spec fn validated(k: KindView, raw: Seq<char>) -> Result<Seq<char>, Seq<char>> {
    let t = trim(raw);
    match k {
        KindView::Int { min, max } => match parse_i64(t) {
            None => Err("“"@ + t + "” isn't a whole number"@),
            Some(v) => if v < min || v > max {
                Err(out_of_range(int_text(min), int_text(max)))
            } else {
                Ok(int_text(v as int))
            },
        },
        KindView::Float { min, max } => match parse_number(t) {
            None => Err("“"@ + t + "” isn't a number"@),
            Some(v) => if is_below(v, min) || is_above(v, max) {
                Err(out_of_range(micro_text(min), micro_text(max)))
            } else {
                Ok(number_text(v))
            },
        },
        KindView::Bool => {
            let l = lowered(t);
            if l == "true"@ || l == "yes"@ || l == "on"@ || l == "1"@ {
                Ok("true"@)
            } else if l == "false"@ || l == "no"@ || l == "off"@ || l == "0"@ {
                Ok("false"@)
            } else {
                Err("must be on or off"@)
            }
        },
        KindView::Enum(opts) => if opts.contains(t) {
            Ok(t)
        } else {
            Err("must be one of: "@ + join(opts, ", "@))
        },
    }
}

fn range_text(min: &str, max: &str) -> (r: String)
    ensures
        r@ == out_of_range(min@, max@),
{
    let mut e = owned("must be between ");
    e.append(min);
    e.append(" and ");
    e.append(max);
    e
}

fn no_number(raw: &str, why: &str) -> (r: String)
    ensures
        r@ == "“"@ + raw@ + why@,
{
    let mut e = owned("“");
    e.append(raw);
    e.append(why);
    e
}

impl Kind {
    /// The value as it is written, or why it is refused.
    pub fn validate(&self, raw: &str) -> (r: Result<String, String>)
        ensures
            match r {
                Ok(v) => validated(self@, raw@) == Ok::<Seq<char>, Seq<char>>(v@),
                Err(e) => validated(self@, raw@) == Err::<Seq<char>, Seq<char>>(e@),
            },
    {
        let all = chars(raw);
        let t = trimmed(all.as_slice());
        let text = string(t);
        match *self {
            Kind::Int { min, max } => match read_i64(t) {
                None => Err(no_number(text.as_str(), "” isn't a whole number")),
                Some(v) => {
                    if v < min || v > max {
                        let a = i64_text(min);
                        let b = i64_text(max);
                        Err(range_text(a.as_str(), b.as_str()))
                    } else {
                        Ok(i64_text(v))
                    }
                },
            },
            Kind::Float { min, max } => match read_number(t) {
                None => Err(no_number(text.as_str(), "” isn't a number")),
                Some(v) => {
                    if v.below(min) || v.above(max) {
                        let mut a = String::new();
                        append_micro(&mut a, min);
                        let mut b = String::new();
                        append_micro(&mut b, max);
                        assert(a@ == micro_text(min as int) && b@ == micro_text(max as int));
                        Err(range_text(a.as_str(), b.as_str()))
                    } else {
                        Ok(v.text())
                    }
                },
            },
            Kind::Bool => {
                let l = lower_text(t);
                let s = l.as_slice();
                if is_text(s, "true") || is_text(s, "yes") || is_text(s, "on") || is_text(s, "1") {
                    Ok(owned("true"))
                } else if is_text(s, "false") || is_text(s, "no") || is_text(s, "off") || is_text(
                    s,
                    "0",
                ) {
                    Ok(owned("false"))
                } else {
                    Err(owned("must be on or off"))
                }
            },
            Kind::Enum(opts) => {
                let ghost table = names(opts@);
                let mut listed: Vec<String> = Vec::new();
                let mut i: usize = 0;
                assert(texts(listed@) == table.take(0));
                while i < opts.len()
                    invariant
                        i <= opts@.len(),
                        text@ == trim(raw@),
                        self@ == KindView::Enum(table),
                        table == names(opts@),
                        texts(listed@) == table.take(i as int),
                        forall|k: int| 0 <= k < i ==> table[k] != text@,
                    decreases opts.len() - i,
                {
                    assert(table[i as int] == opts@[i as int]@);
                    if same_str(opts[i], text.as_str()) {
                        return Ok(text);
                    }
                    let ghost was = texts(listed@);
                    listed.push(owned(opts[i]));
                    i = i + 1;
                    assert(texts(listed@) == was.push(opts@[i - 1]@));
                    assert(table.take(i as int) == table.take(i - 1).push(opts@[i - 1]@));
                }
                assert(table.take(table.len() as int) == table);
                let list = joined(&listed, ", ");
                let mut e = owned("must be one of: ");
                e.append(list.as_str());
                Err(e)
            },
        }
    }
}

/// A blank, a tab, a line break, a form feed or a carriage return.
pub open spec fn is_ascii_space(c: char) -> bool {
    c == ' ' || c == '\t' || c == '\n' || c == '\u{c}' || c == '\r'
}

/// Where a comment starts behind a value: at a `#` in front of which nothing or
/// white space stands.
pub open spec fn comment_from(v: Seq<char>, i: int) -> int
    decreases v.len() - i,
{
    if i >= v.len() {
        v.len() as int
    } else if v[i] == '#' && (i == 0 || is_ascii_space(v[i - 1])) {
        i
    } else {
        comment_from(v, i + 1)
    }
}

pub open spec fn uncommented(v: Seq<char>) -> Seq<char> {
    trim(v.take(comment_from(v, 0)))
}

pub fn strip_inline_comment(v: &str) -> (r: String)
    ensures
        r@ == uncommented(v@),
{
    let s = chars(v);
    let mut i: usize = 0;
    while i < s.len() && !(s[i] == '#' && (i == 0 || s[i - 1] == ' ' || s[i - 1] == '\t' || s[i - 1]
        == '\n' || s[i - 1] == '\u{c}' || s[i - 1] == '\r'))
        invariant
            i <= s@.len(),
            comment_from(s@, 0) == comment_from(s@, i as int),
        decreases s.len() - i,
    {
        i = i + 1;
    }
    string(trimmed(front(s.as_slice(), i)))
}

/// The key with colons for its dots.
pub open spec fn coloned(key: Seq<char>) -> Seq<char> {
    key.map_values(
        |c: char|
            if c == '.' {
                ':'
            } else {
                c
            },
    )
}

pub fn colon_key(dotted: &str) -> (r: String)
    ensures
        r@ == coloned(dotted@),
{
    let s = chars(dotted);
    let ghost want = coloned(dotted@);
    let mut out = String::new();
    let mut i: usize = 0;
    assert(out@ == want.take(0));
    while i < s.len()
        invariant
            i <= s@.len(),
            s@ == dotted@,
            want == coloned(dotted@),
            out@ == want.take(i as int),
        decreases s.len() - i,
    {
        out.push(
            if s[i] == '.' {
                ':'
            } else {
                s[i]
            },
        );
        assert(want.take(i + 1) == want.take(i as int).push(want[i as int]));
        i = i + 1;
    }
    assert(want.take(want.len() as int) == want);
    out
}

} // verus!
