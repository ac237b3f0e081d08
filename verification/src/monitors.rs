//! Displays: the modes they have, where they stand, and the lines that set
//! them up.
//!
//! Refresh rates and scales are held in millionths. A mode that is asked for
//! is looked up among those the display advertises; where it has no such mode,
//! the answer names what it has.

use vstd::prelude::*;

use crate::configfs::managed::{
    close_marker, law_added_block_keeps_the_lines, law_write_then_read, lemma_one_side, line_ended,
    located, open_marker, own_lines, upserted, wrapped, CommentStyle, ManagedBlock,
};
use crate::decimal::{
    append_fixed, fixed_text, micros_of, parse_number, read_number, short_of, short_text,
};
use crate::engine::{
    content, content_of, edit_to, edit_views, hypr_checks, hypr_reload, hypr_reload_if,
    hypr_verification, opt_edit, opt_plan, plain_plan, planned_edit, ApplyPlan, Cmd, CmdOutput,
    CmdView, FileEdit, PlanView, Risk,
};
use crate::error::{external, Failure, StudioError};
use crate::number::{append_i64, append_u64, digits, int_text, parse_u32, read_u32, u64_text};
use crate::order::{is_order, order_of, sorted_by, stable_order, stands_before, Rank};
use crate::paths::{join as path_join, OmarchyPaths};
use crate::split::{join, joined, split};
use crate::text::{
    chars, contains, ends, ends_with, front, has_char, holds, lemma_pos_from, occurs, opt_str,
    owned, pos, position, rest, same_ignoring_case, same_str, same_str_but_case, starts,
    starts_with, texts, trim, trimmed, trimmed_str, upper_text, uppered,
};

pub mod laws;

verus! {

/// One million: a rate or a scale of one.
pub const UNIT: i64 = 1_000_000;

/// A tenth of a unit.
pub const TENTH: i64 = 100_000;

/// A display as Hyprland reports it.
#[derive(Debug, Clone, PartialEq, Eq)]
pub struct Monitor {
    pub name: String,
    pub description: String,
    pub make: String,
    pub model: String,
    pub width: u32,
    pub height: u32,
    /// In millionths of a hertz.
    pub refresh_rate: i64,
    pub x: i32,
    pub y: i32,
    /// In millionths.
    pub scale: i64,
    pub transform: u8,
    pub focused: bool,
    pub disabled: bool,
    pub dpms: bool,
    /// The modes that the display advertises, as Hyprland prints them. Empty
    /// where Hyprland is too old to list them.
    pub available_modes: Vec<String>,
}

// ----------------------------------------------------------------- sizes

/// A size divided by a scale and rounded, a half upwards.
pub open spec fn scaled(n: u32, scale: i64) -> u32 {
    let s = if scale > 0 {
        scale as int
    } else {
        UNIT as int
    };
    let r = (2 * n * UNIT + s) / (2 * s);
    if r > u32::MAX {
        u32::MAX
    } else {
        r as u32
    }
}

/// Whether a transform turns a display on its side.
pub open spec fn is_turned(transform: u8) -> bool {
    transform == 1 || transform == 3 || transform == 5 || transform == 7
}

/// The size that the compositor lays a display out with.
pub open spec fn layout_size(width: u32, height: u32, scale: i64, transform: u8) -> (u32, u32) {
    if is_turned(transform) {
        (scaled(height, scale), scaled(width, scale))
    } else {
        (scaled(width, scale), scaled(height, scale))
    }
}

fn scale_down(n: u32, scale: i64) -> (r: u32)
    ensures
        r == scaled(n, scale),
{
    let s: i128 = if scale > 0 {
        scale as i128
    } else {
        1_000_000
    };
    let top: i128 = 2 * (n as i128) * 1_000_000 + s;
    let low: i128 = 2 * s;
    let r: i128 = top / low;
    proof {
        let (t, d) = (top as int, low as int);
        assert(t / d >= 0) by (nonlinear_arith)
            requires
                t >= 0,
                d > 0,
        ;
    }
    if r > u32::MAX as i128 {
        u32::MAX
    } else {
        r as u32
    }
}

/// The native size under a scale and a transform.
pub fn effective_size(width: u32, height: u32, scale: i64, transform: u8) -> (r: (u32, u32))
    ensures
        r == layout_size(width, height, scale, transform),
{
    let w = scale_down(width, scale);
    let h = scale_down(height, scale);
    if transform == 1 || transform == 3 || transform == 5 || transform == 7 {
        (h, w)
    } else {
        (w, h)
    }
}

/// `WxH`
pub open spec fn size_text(width: u32, height: u32) -> Seq<char> {
    digits(width as nat) + "x"@ + digits(height as nat)
}

fn append_size(out: &mut String, width: u32, height: u32)
    ensures
        final(out)@ == old(out)@ + size_text(width, height),
{
    let ghost before = out@;
    append_u64(out, width as u64);
    out.append("x");
    append_u64(out, height as u64);
    assert(out@ == before + size_text(width, height));
}

// ----------------------------------------------------------------- modes

/// A resolution with the rate it runs at, in millionths of a hertz.
#[derive(Debug, Clone, Copy, PartialEq, Eq, Structural)]
pub struct Mode {
    pub width: u32,
    pub height: u32,
    pub refresh: i64,
}

/// `WxH@Hz`, with two digits behind the point.
pub open spec fn mode_spec(m: Mode) -> Seq<char> {
    size_text(m.width, m.height) + "@"@ + fixed_text(m.refresh as int)
}

/// Whether two modes are the same one: the rates agree to a tenth of a hertz.
pub open spec fn same_mode(a: Mode, b: Mode) -> bool {
    a.width == b.width && a.height == b.height && -TENTH < a.refresh - b.refresh < TENTH
}

/// A text without any of a suffix at its end.
pub open spec fn without_suffix(s: Seq<char>, suffix: Seq<char>) -> Seq<char>
    decreases s.len(),
{
    if suffix.len() > 0 && ends_with(s, suffix) {
        without_suffix(s.take(s.len() - suffix.len()), suffix)
    } else {
        s
    }
}

/// The text of a rate without its unit.
pub open spec fn without_hertz(s: Seq<char>) -> Seq<char> {
    trim(without_suffix(without_suffix(s, "Hz"@), "hz"@))
}

/// A resolution and a rate.
pub open spec fn mode_from(size: Seq<char>, refresh: i64) -> Option<Mode> {
    let t = trim(size);
    let p = pos(t, 'x');
    if !holds(t, 'x') {
        None
    } else {
        match (parse_u32(trim(t.take(p))), parse_u32(trim(t.skip(p + 1)))) {
            (Some(width), Some(height)) => Some(Mode { width, height, refresh }),
            _ => None,
        }
    }
}

/// Reads `3440x1440@100.00Hz`, `3440x1440@100` or `3440x1440`. Without a rate
/// the rate is zero.
pub open spec fn parse_mode(s: Seq<char>) -> Option<Mode> {
    let t = without_hertz(trim(s));
    let p = pos(t, '@');
    if holds(t, '@') {
        match parse_number(trim(t.skip(p + 1))) {
            Some(n) => mode_from(t.take(p), micros_of(n)),
            None => None,
        }
    } else {
        mode_from(t, 0)
    }
}

fn drop_suffix<'a>(s: &'a [char], suffix: &str) -> (r: &'a [char])
    requires
        suffix@.len() > 0,
    ensures
        r@ == without_suffix(s@, suffix@),
{
    let p = chars(suffix);
    let mut n: usize = s.len();
    assert(s@.take(n as int) == s@);
    loop
        invariant
            n <= s@.len(),
            p@ == suffix@,
            p@.len() > 0,
            without_suffix(s@, suffix@) == without_suffix(s@.take(n as int), suffix@),
        decreases n,
    {
        let now = front(s, n);
        if !ends(now, suffix) {
            return now;
        }
        assert(now@.take(n - p@.len()) == s@.take(n - p@.len()));
        n = n - p.len();
    }
}

fn drop_hertz(s: &[char]) -> (r: &[char])
    ensures
        r@ == without_hertz(s@),
{
    proof {
        reveal_strlit("Hz");
        reveal_strlit("hz");
    }
    trimmed(drop_suffix(drop_suffix(s, "Hz"), "hz"))
}

fn read_size(size: &[char], refresh: i64) -> (r: Option<Mode>)
    ensures
        r == mode_from(size@, refresh),
{
    let t = trimmed(size);
    if !has_char(t, 'x') {
        return None;
    }
    proof {
        lemma_pos_from(t@, 'x', 0);
    }
    let p = position(t, 'x');
    let n = t.len();
    match (read_u32(trimmed(front(t, p))), read_u32(trimmed(rest(t, p + 1)))) {
        (Some(width), Some(height)) => Some(Mode { width, height, refresh }),
        _ => None,
    }
}

impl Mode {
    /// The form that a `monitor=` line takes.
    pub fn to_spec(&self) -> (r: String)
        ensures
            r@ == mode_spec(*self),
    {
        let mut s: String = String::new();
        append_size(&mut s, self.width, self.height);
        s.append("@");
        append_fixed(&mut s, self.refresh);
        assert(s@ == mode_spec(*self));
        s
    }

    /// How it reads in a list: `3440x1440 @ 100Hz`.
    pub fn label(&self) -> (r: String)
        ensures
            r@ == size_text(self.width, self.height) + " @ "@ + short_text(self.refresh as int)
                + "Hz"@,
    {
        let mut s: String = String::new();
        append_size(&mut s, self.width, self.height);
        s.append(" @ ");
        let rate = short_of(self.refresh);
        s.append(rate.as_str());
        s.append("Hz");
        assert(s@ == size_text(self.width, self.height) + " @ "@ + short_text(self.refresh as int)
            + "Hz"@);
        s
    }

    pub fn matches(&self, other: &Mode) -> (r: bool)
        ensures
            r == same_mode(*self, *other),
    {
        let gap: i128 = self.refresh as i128 - other.refresh as i128;
        self.width == other.width && self.height == other.height && -100_000 < gap && gap < 100_000
    }

    pub fn parse(s: &str) -> (r: Option<Mode>)
        ensures
            r == parse_mode(s@),
    {
        let all = chars(s);
        let t = drop_hertz(trimmed(all.as_slice()));
        if has_char(t, '@') {
            proof {
                lemma_pos_from(t@, '@', 0);
            }
            let p = position(t, '@');
            let n = t.len();
            match read_number(trimmed(rest(t, p + 1))) {
                Some(n) => read_size(front(t, p), n.micros()),
                None => None,
            }
        } else {
            read_size(t, 0)
        }
    }
}

/// What a user asks for.
#[derive(Debug, Clone, Copy, PartialEq, Eq, Structural)]
pub enum ModeRequest {
    /// Hyprland chooses.
    Preferred,
    /// A resolution, at its fastest rate.
    Resolution(u32, u32),
    /// A resolution at a rate.
    Exact(Mode),
    /// A rate at the current resolution.
    Refresh(i64),
}

/// Reads `preferred`, `3440x1440`, `3440x1440@100` or `100`.
pub open spec fn parse_request(s: Seq<char>) -> Option<ModeRequest> {
    let t = trim(s);
    if same_ignoring_case(t, "preferred"@) || same_ignoring_case(t, "auto"@) {
        Some(ModeRequest::Preferred)
    } else {
        match parse_mode(t) {
            Some(m) => Some(
                if m.refresh > 0 {
                    ModeRequest::Exact(m)
                } else {
                    ModeRequest::Resolution(m.width, m.height)
                },
            ),
            None => match parse_number(without_hertz(t)) {
                Some(n) => if micros_of(n) > 0 {
                    Some(ModeRequest::Refresh(micros_of(n)))
                } else {
                    None
                },
                None => None,
            },
        }
    }
}

impl ModeRequest {
    pub fn parse(s: &str) -> (r: Option<ModeRequest>)
        ensures
            r == parse_request(s@),
    {
        let t = trimmed_str(s);
        if same_str_but_case(t.as_str(), "preferred") || same_str_but_case(t.as_str(), "auto") {
            return Some(ModeRequest::Preferred);
        }
        if let Some(m) = Mode::parse(t.as_str()) {
            return Some(
                if m.refresh > 0 {
                    ModeRequest::Exact(m)
                } else {
                    ModeRequest::Resolution(m.width, m.height)
                },
            );
        }
        let c = chars(t.as_str());
        match read_number(drop_hertz(c.as_slice())) {
            Some(n) => {
                let hz = n.micros();
                if hz > 0 {
                    Some(ModeRequest::Refresh(hz))
                } else {
                    None
                }
            },
            None => None,
        }
    }
}

impl Rank for Mode {
    /// Larger first, then wider, then faster.
    open spec fn precedes(self, other: Self) -> bool {
        let a = self.width * self.height;
        let b = other.width * other.height;
        a > b || (a == b && (self.width > other.width || (self.width == other.width && self.refresh
            > other.refresh)))
    }

    proof fn law(a: Self, b: Self, c: Self) {
    }

    fn comes_first(&self, other: &Self) -> (r: bool) {
        proof {
            assert(self.width * self.height <= u32::MAX * u32::MAX) by (nonlinear_arith)
                requires
                    self.width <= u32::MAX,
                    self.height <= u32::MAX,
            ;
            assert(other.width * other.height <= u32::MAX * u32::MAX) by (nonlinear_arith)
                requires
                    other.width <= u32::MAX,
                    other.height <= u32::MAX,
            ;
        }
        let a: u64 = self.width as u64 * self.height as u64;
        let b: u64 = other.width as u64 * other.height as u64;
        a > b || (a == b && (self.width > other.width || (self.width == other.width && self.refresh
            > other.refresh)))
    }
}

/// The modes that a display lists and that have a rate.
pub open spec fn listed_modes(available: Seq<Seq<char>>) -> Seq<Mode>
    decreases available.len(),
{
    if available.len() == 0 {
        Seq::empty()
    } else {
        let head = listed_modes(available.drop_last());
        match parse_mode(available.last()) {
            Some(m) => if m.refresh > 0 {
                head.push(m)
            } else {
                head
            },
            None => head,
        }
    }
}

/// A list without the modes that are the same as the one kept before them.
pub open spec fn deduped(modes: Seq<Mode>) -> Seq<Mode>
    decreases modes.len(),
{
    if modes.len() == 0 {
        Seq::empty()
    } else {
        let head = deduped(modes.drop_last());
        if head.len() > 0 && same_mode(modes.last(), head.last()) {
            head
        } else {
            head.push(modes.last())
        }
    }
}

/// The modes to choose from: largest first, fastest first within a size, each
/// once.
pub open spec fn modes_of(available: Seq<Seq<char>>) -> Seq<Mode> {
    deduped(sorted_by(listed_modes(available), listed_modes(available)))
}

/// The sizes of some modes, each once.
pub open spec fn sizes_of(modes: Seq<Mode>) -> Seq<(u32, u32)>
    decreases modes.len(),
{
    if modes.len() == 0 {
        Seq::empty()
    } else {
        let head = sizes_of(modes.drop_last());
        let size = (modes.last().width, modes.last().height);
        if head.contains(size) {
            head
        } else {
            head.push(size)
        }
    }
}

pub open spec fn has_size(m: Mode, width: u32, height: u32) -> bool {
    m.width == width && m.height == height
}

/// The rates of the modes that have a size.
pub open spec fn rates_at(modes: Seq<Mode>, width: u32, height: u32) -> Seq<i64>
    decreases modes.len(),
{
    if modes.len() == 0 {
        Seq::empty()
    } else {
        let head = rates_at(modes.drop_last(), width, height);
        if has_size(modes.last(), width, height) {
            head.push(modes.last().refresh)
        } else {
            head
        }
    }
}

/// The first mode of a list that has a size.
pub open spec fn first_at(modes: Seq<Mode>, width: u32, height: u32) -> Option<Mode>
    decreases modes.len(),
{
    if modes.len() == 0 {
        None
    } else if has_size(modes[0], width, height) {
        Some(modes[0])
    } else {
        first_at(modes.skip(1), width, height)
    }
}

/// The first mode of a list that is the same as one that is wanted.
pub open spec fn first_like(modes: Seq<Mode>, want: Mode) -> Option<Mode>
    decreases modes.len(),
{
    if modes.len() == 0 {
        None
    } else if same_mode(modes[0], want) {
        Some(modes[0])
    } else {
        first_like(modes.skip(1), want)
    }
}

/// `3440x1440, 1920x1080`
pub open spec fn sizes_text(modes: Seq<Mode>) -> Seq<char> {
    join(sizes_of(modes).map_values(|s: (u32, u32)| size_text(s.0, s.1)), ", "@)
}

/// `100Hz, 60Hz`
pub open spec fn rates_text(rates: Seq<i64>) -> Seq<char> {
    join(rates.map_values(|r: i64| short_text(r as int) + "Hz"@), ", "@)
}

/// The answer for a size that a display does not have.
pub open spec fn no_such_size(
    name: Seq<char>,
    width: u32,
    height: u32,
    modes: Seq<Mode>,
) -> Seq<char> {
    name + " can't do "@ + size_text(width, height) + ". It supports: "@ + sizes_text(modes)
}

/// The answer to a request: a mode of the list, `None` for Hyprland's choice,
/// or what the display has instead.
pub open spec fn resolved(
    name: Seq<char>,
    current: (u32, u32),
    modes: Seq<Mode>,
    req: ModeRequest,
) -> Result<Option<Mode>, Seq<char>> {
    match req {
        ModeRequest::Preferred => Ok(None),
        _ if modes.len() == 0 => Err(
            name
                + " reports no modes — this Hyprland may be too old to list them; set the mode by hand in monitors.conf"@,
        ),
        ModeRequest::Resolution(w, h) => match first_at(modes, w, h) {
            Some(m) => Ok(Some(m)),
            None => Err(no_such_size(name, w, h, modes)),
        },
        ModeRequest::Exact(want) => match first_like(modes, want) {
            Some(m) => Ok(Some(m)),
            None => if rates_at(modes, want.width, want.height).len() == 0 {
                Err(no_such_size(name, want.width, want.height, modes))
            } else {
                Err(
                    name + " can't do "@ + size_text(want.width, want.height) + " at "@
                        + short_text(want.refresh as int)
                        + "Hz. At that resolution it supports: "@ + rates_text(
                        rates_at(modes, want.width, want.height),
                    ),
                )
            },
        },
        ModeRequest::Refresh(hz) => {
            let want = Mode { width: current.0, height: current.1, refresh: hz };
            match first_like(modes, want) {
                Some(m) => Ok(Some(m)),
                None => Err(
                    name + " can't do "@ + short_text(hz as int) + "Hz at its current "@
                        + size_text(current.0, current.1) + ". Available there: "@
                        + rates_text(rates_at(modes, current.0, current.1)),
                ),
            }
        },
    }
}

pub open spec fn answer(r: Result<Option<Mode>, String>) -> Result<Option<Mode>, Seq<char>> {
    match r {
        Ok(m) => Ok(m),
        Err(e) => Err(e@),
    }
}

fn sizes(modes: &Vec<Mode>) -> (r: Vec<(u32, u32)>)
    ensures
        r@ == sizes_of(modes@),
{
    let mut out: Vec<(u32, u32)> = Vec::new();
    let mut i: usize = 0;
    assert(modes@.take(0) == Seq::<Mode>::empty());
    while i < modes.len()
        invariant
            i <= modes@.len(),
            out@ == sizes_of(modes@.take(i as int)),
        decreases modes.len() - i,
    {
        assert(modes@.take(i + 1).drop_last() == modes@.take(i as int));
        let m = modes[i];
        let mut seen = false;
        let mut j: usize = 0;
        while j < out.len()
            invariant
                j <= out@.len(),
                seen == exists|k: int| 0 <= k < j && out@[k] == (m.width, m.height),
            decreases out.len() - j,
        {
            if out[j].0 == m.width && out[j].1 == m.height {
                assert(out@[j as int] == (m.width, m.height));
                seen = true;
            }
            j = j + 1;
        }
        assert(seen == out@.contains((m.width, m.height)));
        if !seen {
            out.push((m.width, m.height));
        }
        i = i + 1;
    }
    assert(modes@.take(modes@.len() as int) == modes@);
    out
}

fn rates(modes: &Vec<Mode>, width: u32, height: u32) -> (r: Vec<i64>)
    ensures
        r@ == rates_at(modes@, width, height),
{
    let mut out: Vec<i64> = Vec::new();
    let mut i: usize = 0;
    assert(modes@.take(0) == Seq::<Mode>::empty());
    while i < modes.len()
        invariant
            i <= modes@.len(),
            out@ == rates_at(modes@.take(i as int), width, height),
        decreases modes.len() - i,
    {
        assert(modes@.take(i + 1).drop_last() == modes@.take(i as int));
        let m = modes[i];
        if m.width == width && m.height == height {
            out.push(m.refresh);
        }
        i = i + 1;
    }
    assert(modes@.take(modes@.len() as int) == modes@);
    out
}

fn find_at(modes: &Vec<Mode>, width: u32, height: u32) -> (r: Option<Mode>)
    ensures
        r == first_at(modes@, width, height),
{
    let mut i: usize = 0;
    assert(modes@.skip(0) == modes@);
    while i < modes.len()
        invariant
            i <= modes@.len(),
            first_at(modes@, width, height) == first_at(modes@.skip(i as int), width, height),
        decreases modes.len() - i,
    {
        assert(modes@.skip(i as int).skip(1) == modes@.skip(i + 1));
        let m = modes[i];
        if m.width == width && m.height == height {
            return Some(m);
        }
        i = i + 1;
    }
    None
}

fn find_like(modes: &Vec<Mode>, want: &Mode) -> (r: Option<Mode>)
    ensures
        r == first_like(modes@, *want),
{
    let mut i: usize = 0;
    assert(modes@.skip(0) == modes@);
    while i < modes.len()
        invariant
            i <= modes@.len(),
            first_like(modes@, *want) == first_like(modes@.skip(i as int), *want),
        decreases modes.len() - i,
    {
        assert(modes@.skip(i as int).skip(1) == modes@.skip(i + 1));
        let m = modes[i];
        if m.matches(want) {
            return Some(m);
        }
        i = i + 1;
    }
    None
}

fn list_resolutions(modes: &Vec<Mode>) -> (r: String)
    ensures
        r@ == sizes_text(modes@),
{
    let all = sizes(modes);
    let mut out: Vec<String> = Vec::new();
    let mut i: usize = 0;
    while i < all.len()
        invariant
            i <= all@.len(),
            out@.len() == i,
            forall|j: int| 0 <= j < i ==> (#[trigger] out@[j])@ == size_text(all@[j].0, all@[j].1),
        decreases all.len() - i,
    {
        let mut s: String = String::new();
        append_size(&mut s, all[i].0, all[i].1);
        assert(s@ == size_text(all@[i as int].0, all@[i as int].1));
        out.push(s);
        i = i + 1;
    }
    assert(texts(out@) == all@.map_values(|s: (u32, u32)| size_text(s.0, s.1)));
    joined(&out, ", ")
}

fn list_rates(all: &Vec<i64>) -> (r: String)
    ensures
        r@ == rates_text(all@),
{
    let mut out: Vec<String> = Vec::new();
    let mut i: usize = 0;
    while i < all.len()
        invariant
            i <= all@.len(),
            out@.len() == i,
            forall|j: int|
                0 <= j < i ==> (#[trigger] out@[j])@ == short_text(all@[j] as int) + "Hz"@,
        decreases all.len() - i,
    {
        let mut s = short_of(all[i]);
        s.append("Hz");
        out.push(s);
        i = i + 1;
    }
    assert(texts(out@) == all@.map_values(|r: i64| short_text(r as int) + "Hz"@));
    joined(&out, ", ")
}

fn refuse_size(name: &str, width: u32, height: u32, modes: &Vec<Mode>) -> (r: String)
    ensures
        r@ == no_such_size(name@, width, height, modes@),
{
    let mut s = owned(name);
    s.append(" can't do ");
    append_size(&mut s, width, height);
    s.append(". It supports: ");
    let list = list_resolutions(modes);
    s.append(list.as_str());
    s
}

/// Whether a connector is that of a laptop's own panel.
pub open spec fn is_laptop_name(name: Seq<char>) -> bool {
    starts_with(uppered(name), "EDP"@) || starts_with(uppered(name), "LVDS"@)
}

impl Monitor {
    /// Laptop panels are `eDP-*` or `LVDS-*`.
    pub fn is_laptop(&self) -> (r: bool)
        ensures
            r == is_laptop_name(self.name@),
    {
        let n = chars(self.name.as_str());
        let u = upper_text(n.as_slice());
        starts(u.as_slice(), "EDP") || starts(u.as_slice(), "LVDS")
    }

    /// The make and model, or else the connector's name.
    pub fn label(&self) -> (r: String)
        ensures
            ({
                let both = trim(self.make@ + " "@ + self.model@);
                r@ == if both.len() == 0 {
                    self.name@
                } else {
                    both
                }
            }),
    {
        let mut s = owned(self.make.as_str());
        s.append(" ");
        s.append(self.model.as_str());
        let both = trimmed_str(s.as_str());
        let c = chars(both.as_str());
        if c.len() == 0 {
            owned(self.name.as_str())
        } else {
            both
        }
    }

    pub fn effective_size(&self) -> (r: (u32, u32))
        ensures
            r == layout_size(self.width, self.height, self.scale, self.transform),
    {
        effective_size(self.width, self.height, self.scale, self.transform)
    }

    /// The current mode as a `monitor=` line has it.
    pub open spec fn mode_text(&self) -> Seq<char> {
        if self.refresh_rate > 0 {
            mode_spec(Mode { width: self.width, height: self.height, refresh: self.refresh_rate })
        } else {
            size_text(self.width, self.height)
        }
    }

    pub fn mode(&self) -> (r: String)
        ensures
            r@ == self.mode_text(),
    {
        if self.refresh_rate > 0 {
            Mode { width: self.width, height: self.height, refresh: self.refresh_rate }.to_spec()
        } else {
            let mut s: String = String::new();
            append_size(&mut s, self.width, self.height);
            assert(s@ == size_text(self.width, self.height));
            s
        }
    }

    fn listed(&self) -> (r: Vec<Mode>)
        ensures
            r@ == listed_modes(texts(self.available_modes@)),
    {
        let ghost all = texts(self.available_modes@);
        let mut out: Vec<Mode> = Vec::new();
        let mut i: usize = 0;
        assert(all.take(0) == Seq::<Seq<char>>::empty());
        while i < self.available_modes.len()
            invariant
                i <= self.available_modes@.len(),
                all == texts(self.available_modes@),
                out@ == listed_modes(all.take(i as int)),
            decreases self.available_modes.len() - i,
        {
            assert(all.take(i + 1).drop_last() == all.take(i as int));
            assert(all.take(i + 1).last() == self.available_modes@[i as int]@);
            if let Some(m) = Mode::parse(self.available_modes[i].as_str()) {
                if m.refresh > 0 {
                    out.push(m);
                }
            }
            i = i + 1;
        }
        assert(all.take(self.available_modes@.len() as int) == all);
        out
    }

    /// The modes to choose from, in a picker's order.
    pub fn modes(&self) -> (r: Vec<Mode>)
        ensures
            r@ == modes_of(texts(self.available_modes@)),
    {
        let all = self.listed();
        let order = stable_order(&all);
        let ghost sorted = sorted_by(all@, all@);
        let mut out: Vec<Mode> = Vec::new();
        let mut i: usize = 0;
        assert(sorted.take(0) == Seq::<Mode>::empty());
        while i < order.len()
            invariant
                i <= order@.len(),
                order@.len() == all@.len(),
                sorted.len() == order@.len(),
                forall|j: int| 0 <= j < order@.len() ==> #[trigger] order@[j] < all@.len(),
                forall|j: int|
                    0 <= j < order@.len() ==> #[trigger] sorted[j] == all@[order@[j] as int],
                out@ == deduped(sorted.take(i as int)),
            decreases order.len() - i,
        {
            assert(sorted.take(i + 1).drop_last() == sorted.take(i as int));
            let m = all[order[i]];
            assert(sorted.take(i + 1).last() == m);
            if out.len() == 0 || !m.matches(&out[out.len() - 1]) {
                out.push(m);
            }
            i = i + 1;
        }
        assert(sorted.take(order@.len() as int) == sorted);
        out
    }

    /// The resolutions, largest first.
    pub fn resolutions(&self) -> (r: Vec<(u32, u32)>)
        ensures
            r@ == sizes_of(modes_of(texts(self.available_modes@))),
    {
        sizes(&self.modes())
    }

    /// The rates at a resolution, fastest first.
    pub fn refresh_rates(&self, width: u32, height: u32) -> (r: Vec<i64>)
        ensures
            r@ == rates_at(modes_of(texts(self.available_modes@)), width, height),
    {
        rates(&self.modes(), width, height)
    }

    /// Turns a request into a mode that this display has. The preferred mode
    /// is Hyprland's to pick, so it is `None` on every display, one that lists
    /// no modes too.
    pub fn resolve_mode(&self, req: ModeRequest) -> (r: Result<Option<Mode>, String>)
        ensures
            answer(r) == resolved(
                self.name@,
                (self.width, self.height),
                modes_of(texts(self.available_modes@)),
                req,
            ),
    {
        if let ModeRequest::Preferred = req {
            return Ok(None);
        }
        let modes = self.modes();
        if modes.len() == 0 {
            let mut s = owned(self.name.as_str());
            s.append(
                " reports no modes — this Hyprland may be too old to list them; set the mode by hand in monitors.conf",
            );
            return Err(s);
        }
        match req {
            ModeRequest::Preferred => Ok(None),
            ModeRequest::Resolution(w, h) => match find_at(&modes, w, h) {
                Some(m) => Ok(Some(m)),
                None => Err(refuse_size(self.name.as_str(), w, h, &modes)),
            },
            ModeRequest::Exact(want) => match find_like(&modes, &want) {
                Some(m) => Ok(Some(m)),
                None => {
                    let there = rates(&modes, want.width, want.height);
                    if there.len() == 0 {
                        return Err(
                            refuse_size(self.name.as_str(), want.width, want.height, &modes),
                        );
                    }
                    let mut s = owned(self.name.as_str());
                    s.append(" can't do ");
                    append_size(&mut s, want.width, want.height);
                    s.append(" at ");
                    let rate = short_of(want.refresh);
                    s.append(rate.as_str());
                    s.append("Hz. At that resolution it supports: ");
                    let list = list_rates(&there);
                    s.append(list.as_str());
                    Err(s)
                },
            },
            ModeRequest::Refresh(hz) => {
                let want = Mode { width: self.width, height: self.height, refresh: hz };
                match find_like(&modes, &want) {
                    Some(m) => Ok(Some(m)),
                    None => {
                        let mut s = owned(self.name.as_str());
                        s.append(" can't do ");
                        let rate = short_of(hz);
                        s.append(rate.as_str());
                        s.append("Hz at its current ");
                        append_size(&mut s, self.width, self.height);
                        s.append(". Available there: ");
                        let list = list_rates(&rates(&modes, self.width, self.height));
                        s.append(list.as_str());
                        Err(s)
                    },
                }
            },
        }
    }
}

/// The JSON that `hyprctl monitors -j` printed, or why there is none.
pub fn load(out: &CmdOutput) -> (r: Result<String, StudioError>)
    ensures
        match r {
            Ok(text) => out.succeeded() && text@ == out.stdout@,
            Err(e) => !out.succeeded() && e@ == (Failure::External {
                cmd: "hyprctl monitors -j"@,
                detail: trim(out.stderr@),
            }),
        },
{
    if out.ok() {
        Ok(owned(out.stdout.as_str()))
    } else {
        Err(external("hyprctl monitors -j", trimmed_str(out.stderr.as_str()).as_str()))
    }
}

// ---------------------------------------------------------------- layout

/// Where a display stands beside another.
#[derive(Debug, Clone, Copy, PartialEq, Eq, Structural)]
pub enum Side {
    LeftOf,
    RightOf,
    Above,
    Below,
}

/// The corner of a display that touches another on one side.
pub open spec fn placed(base: (i32, i32, u32, u32), size: (u32, u32), side: Side) -> (int, int) {
    match side {
        Side::RightOf => (base.0 + base.2, base.1 as int),
        Side::LeftOf => (base.0 - size.0, base.1 as int),
        Side::Below => (base.0 as int, base.1 + base.3),
        Side::Above => (base.0 as int, base.1 - size.1),
    }
}

pub open spec fn fits_i32(n: int) -> bool {
    i32::MIN <= n <= i32::MAX
}

/// Places a display of a size beside `base`, which is its corner and size.
pub fn place(base: (i32, i32, u32, u32), size: (u32, u32), side: Side) -> (r: (i32, i32))
    requires
        fits_i32(placed(base, size, side).0),
        fits_i32(placed(base, size, side).1),
    ensures
        (r.0 as int, r.1 as int) == placed(base, size, side),
{
    let (bx, by, bw, bh) = base;
    let (w, h) = size;
    match side {
        Side::RightOf => ((bx as i64 + bw as i64) as i32, by),
        Side::LeftOf => ((bx as i64 - w as i64) as i32, by),
        Side::Below => (bx, (by as i64 + bh as i64) as i32),
        Side::Above => (bx, (by as i64 - h as i64) as i32),
    }
}

/// The widths of some displays together.
pub open spec fn total_width(sizes: Seq<(u32, u32)>) -> int
    decreases sizes.len(),
{
    if sizes.len() == 0 {
        0
    } else {
        total_width(sizes.drop_last()) + sizes.last().0
    }
}

proof fn lemma_total_grows(sizes: Seq<(u32, u32)>, n: int)
    requires
        0 <= n <= sizes.len(),
    ensures
        0 <= total_width(sizes.take(n)) <= total_width(sizes),
    decreases sizes.len(),
{
    if n < sizes.len() {
        lemma_total_grows(sizes.drop_last(), n);
        assert(sizes.drop_last().take(n) == sizes.take(n));
    } else {
        assert(sizes.take(n) == sizes);
        if n > 0 {
            lemma_total_grows(sizes.drop_last(), n - 1);
            assert(sizes.drop_last().take(n - 1) == sizes.drop_last());
        }
    }
}

/// Lays displays out in a row from left to right, each touching the next.
pub fn row_positions(sizes: &[(u32, u32)]) -> (r: Vec<(i32, i32)>)
    requires
        fits_i32(total_width(sizes@)),
    ensures
        r@.len() == sizes@.len(),
        forall|i: int|
            0 <= i < r@.len() ==> (#[trigger] r@[i]).0 == total_width(sizes@.take(i)) && r@[i].1
                == 0,
{
    let mut out: Vec<(i32, i32)> = Vec::new();
    let mut x: i32 = 0;
    let mut i: usize = 0;
    assert(sizes@.take(0) == Seq::<(u32, u32)>::empty());
    while i < sizes.len()
        invariant
            i <= sizes@.len(),
            fits_i32(total_width(sizes@)),
            out@.len() == i,
            x == total_width(sizes@.take(i as int)),
            forall|j: int|
                0 <= j < i ==> (#[trigger] out@[j]).0 == total_width(sizes@.take(j)) && out@[j].1
                    == 0,
        decreases sizes.len() - i,
    {
        out.push((x, 0));
        proof {
            lemma_total_grows(sizes@, i + 1);
            assert(sizes@.take(i + 1).drop_last() == sizes@.take(i as int));
        }
        x = (x as i64 + sizes[i].0 as i64) as i32;
        i = i + 1;
    }
    out
}

// ---------------------------------------------------------------- config

/// What one display is to be set to.
#[derive(Debug, Clone, PartialEq, Eq)]
pub struct MonitorSetting {
    pub name: String,
    /// `WxH@Hz` or `preferred`.
    pub mode: String,
    pub x: i32,
    pub y: i32,
    pub scale: String,
    pub transform: u8,
    pub disabled: bool,
}

/// What a display's setting says.
pub struct SettingView {
    pub name: Seq<char>,
    pub mode: Seq<char>,
    pub x: i32,
    pub y: i32,
    pub scale: Seq<char>,
    pub transform: u8,
    pub disabled: bool,
}

impl View for MonitorSetting {
    type V = SettingView;

    open spec fn view(&self) -> SettingView {
        SettingView {
            name: self.name@,
            mode: self.mode@,
            x: self.x,
            y: self.y,
            scale: self.scale@,
            transform: self.transform,
            disabled: self.disabled,
        }
    }
}

/// A display's `monitor=` line.
pub open spec fn setting_line(s: SettingView) -> Seq<char> {
    if s.disabled {
        "monitor = "@ + s.name + ", disable"@
    } else {
        "monitor = "@ + s.name + ", "@ + s.mode + ", "@ + int_text(s.x as int) + "x"@ + int_text(
            s.y as int,
        ) + ", "@ + s.scale + ", transform, "@ + digits(s.transform as nat)
    }
}

/// The setting that a display has now.
pub open spec fn setting_of(m: Monitor) -> SettingView {
    SettingView {
        name: m.name@,
        mode: m.mode_text(),
        x: m.x,
        y: m.y,
        scale: short_text(m.scale as int),
        transform: m.transform,
        disabled: m.disabled,
    }
}

impl MonitorSetting {
    pub fn from_monitor(m: &Monitor) -> (r: Self)
        ensures
            r@ == setting_of(*m),
    {
        MonitorSetting {
            name: owned(m.name.as_str()),
            mode: m.mode(),
            x: m.x,
            y: m.y,
            scale: fmt_scale(m.scale),
            transform: m.transform,
            disabled: m.disabled,
        }
    }

    pub fn line(&self) -> (r: String)
        ensures
            r@ == setting_line(self@),
    {
        let mut s = owned("monitor = ");
        s.append(self.name.as_str());
        if self.disabled {
            s.append(", disable");
            return s;
        }
        s.append(", ");
        s.append(self.mode.as_str());
        s.append(", ");
        append_i64(&mut s, self.x as i64);
        s.append("x");
        append_i64(&mut s, self.y as i64);
        s.append(", ");
        s.append(self.scale.as_str());
        s.append(", transform, ");
        append_u64(&mut s, self.transform as u64);
        s
    }
}

/// A scale in its shortest form, with two digits behind the point at most.
pub fn fmt_scale(scale: i64) -> (r: String)
    ensures
        r@ == short_text(scale as int),
{
    short_of(scale)
}

/// What every display is to be set to.
#[derive(Debug, Clone, PartialEq, Eq)]
pub struct Layout {
    pub monitors: Vec<MonitorSetting>,
}

impl View for Layout {
    type V = Seq<SettingView>;

    open spec fn view(&self) -> Seq<SettingView> {
        self.monitors@.map_values(|s: MonitorSetting| s@)
    }
}

/// The mode that a setting names: `preferred` where Hyprland chooses.
pub open spec fn mode_name(mode: Option<Mode>) -> Seq<char> {
    match mode {
        Some(m) => mode_spec(m),
        None => "preferred"@,
    }
}

/// A layout with one display pointed at a mode.
pub open spec fn with_mode(l: Seq<SettingView>, name: Seq<char>, mode: Option<Mode>) -> Seq<
    SettingView,
> {
    l.map_values(
        |s: SettingView|
            if s.name == name {
                SettingView { mode: mode_name(mode), ..s }
            } else {
                s
            },
    )
}

/// A line per display, and one that lights up a display that is not known.
pub open spec fn layout_body(l: Seq<SettingView>) -> Seq<char> {
    join(
        l.map_values(|s: SettingView| setting_line(s)).push("monitor = , preferred, auto, 1"@),
        "\n"@,
    )
}

impl Layout {
    pub fn from_monitors(mons: &[Monitor]) -> (r: Self)
        ensures
            r@ == mons@.map_values(|m: Monitor| setting_of(m)),
    {
        let mut out: Vec<MonitorSetting> = Vec::new();
        let mut i: usize = 0;
        while i < mons.len()
            invariant
                i <= mons@.len(),
                out@.len() == i,
                forall|j: int| 0 <= j < i ==> (#[trigger] out@[j])@ == setting_of(mons@[j]),
            decreases mons.len() - i,
        {
            out.push(MonitorSetting::from_monitor(&mons[i]));
            i = i + 1;
        }
        let r = Layout { monitors: out };
        assert(r@ == mons@.map_values(|m: Monitor| setting_of(m)));
        r
    }

    /// Points a display at a mode; `false` where none goes by that name.
    pub fn set_mode(&mut self, name: &str, mode: Option<Mode>) -> (r: bool)
        ensures
            final(self)@ == with_mode(old(self)@, name@, mode),
            r == exists|i: int| 0 <= i < old(self)@.len() && (#[trigger] old(self)@[i]).name == name@,
    {
        let ghost before = self@;
        let spelled = match mode {
            Some(m) => m.to_spec(),
            None => owned("preferred"),
        };
        let mut hit = false;
        let mut i: usize = 0;
        while i < self.monitors.len()
            invariant
                i <= self.monitors@.len(),
                self.monitors@.len() == before.len(),
                spelled@ == mode_name(mode),
                forall|j: int|
                    0 <= j < i ==> (#[trigger] self.monitors@[j])@ == with_mode(
                        before,
                        name@,
                        mode,
                    )[j],
                forall|j: int|
                    i <= j < before.len() ==> (#[trigger] self.monitors@[j])@ == before[j],
                hit == exists|j: int| 0 <= j < i && (#[trigger] before[j]).name == name@,
            decreases self.monitors.len() - i,
        {
            assert(self.monitors@[i as int]@ == before[i as int]);
            if same_str(self.monitors[i].name.as_str(), name) {
                let s = &self.monitors[i];
                let changed = MonitorSetting {
                    name: owned(s.name.as_str()),
                    mode: owned(spelled.as_str()),
                    x: s.x,
                    y: s.y,
                    scale: owned(s.scale.as_str()),
                    transform: s.transform,
                    disabled: s.disabled,
                };
                assert(changed@ == with_mode(before, name@, mode)[i as int]);
                self.monitors.set(i, changed);
                hit = true;
            }
            i = i + 1;
        }
        assert(self@ == with_mode(before, name@, mode));
        hit
    }

    /// The body of the managed block.
    pub fn render_body(&self) -> (r: String)
        ensures
            r@ == layout_body(self@),
    {
        let mut lines: Vec<String> = Vec::new();
        let mut i: usize = 0;
        while i < self.monitors.len()
            invariant
                i <= self.monitors@.len(),
                lines@.len() == i,
                forall|j: int|
                    0 <= j < i ==> (#[trigger] lines@[j])@ == setting_line(self.monitors@[j]@),
            decreases self.monitors.len() - i,
        {
            lines.push(self.monitors[i].line());
            i = i + 1;
        }
        assert(texts(lines@) == self@.map_values(|s: SettingView| setting_line(s)));
        let ghost before = texts(lines@);
        lines.push(owned("monitor = , preferred, auto, 1"));
        assert(texts(lines@) == before.push("monitor = , preferred, auto, 1"@));
        joined(&lines, "\n")
    }
}

/// The file that the layout is kept in.
pub open spec fn monitors_path(paths: &OmarchyPaths) -> Seq<char> {
    path_join(paths.hypr(), "monitors.conf"@)
}

pub fn conf_path(paths: &OmarchyPaths) -> (r: String)
    ensures
        r@ == monitors_path(paths),
{
    paths.hypr_file("monitors.conf")
}

/// A monitors file with a layout in its block.
pub open spec fn with_layout(text: Seq<char>, l: Seq<SettingView>) -> Seq<char> {
    upserted(
        text,
        open_marker("monitors"@, CommentStyle::Hash),
        layout_body(l),
        close_marker("monitors"@, CommentStyle::Hash),
    )
}

/// The monitors file with the layout in its block; the user's own lines stay.
pub fn render_conf(existing: &str, layout: &Layout) -> (r: String)
    ensures
        r@ == with_layout(existing@, layout@),
{
    let body = layout.render_body();
    ManagedBlock::new("monitors", CommentStyle::Hash).upsert(existing, body.as_str())
}

/// The edit that brings the monitors file to a layout, where it changes it.
pub fn plan(paths: &OmarchyPaths, on_disk: Option<&str>, layout: &Layout) -> (r: Option<FileEdit>)
    ensures
        opt_edit(r) == edit_to(
            monitors_path(paths),
            opt_str(on_disk),
            with_layout(content(opt_str(on_disk)), layout@),
        ),
{
    let existing = content_of(on_disk);
    let updated = render_conf(existing.as_str(), layout);
    planned_edit(conf_path(paths), on_disk, updated)
}

/// The plan for a layout. Where `hyprctl` cannot be used, the file is still
/// written, with nothing to reload or check.
pub fn apply(
    paths: &OmarchyPaths,
    on_disk: Option<&str>,
    layout: &Layout,
    summary: &str,
    hypr_usable: bool,
) -> (r: Option<ApplyPlan>)
    ensures
        opt_plan(r) == match edit_to(
            monitors_path(paths),
            opt_str(on_disk),
            with_layout(content(opt_str(on_disk)), layout@),
        ) {
            Some(edit) => Some(
                PlanView {
                    summary: summary@,
                    module: "monitors"@,
                    edits: seq![edit],
                    reload: hypr_reload(hypr_usable),
                    verify: hypr_checks(hypr_usable),
                    risk: Risk::Risky,
                    trailers: Seq::empty(),
                },
            ),
            None => None,
        },
{
    match plan(paths, on_disk, layout) {
        Some(edit) => {
            let edits = vec![edit];
            assert(edit_views(edits@) == seq![edit@]);
            Some(
                plain_plan(
                    summary,
                    "monitors",
                    edits,
                    hypr_reload_if(hypr_usable),
                    hypr_verification(hypr_usable),
                    Risk::Risky,
                ),
            )
        },
        None => None,
    }
}

/// The command that flashes a display's name on it.
pub fn identify_cmd(index: usize, name: &str) -> (r: Cmd)
    ensures
        r@ == (CmdView {
            program: "hyprctl"@,
            args: seq!["notify"@, digits(index as nat), "2000"@, "0"@, "Studio: "@ + name@],
            timeout_ms: None,
        }),
{
    let mut shown = owned("Studio: ");
    shown.append(name);
    let args = vec![
        owned("notify"),
        u64_text(index as u64),
        owned("2000"),
        owned("0"),
        shown,
    ];
    assert(texts(args@) == seq![
        "notify"@,
        digits(index as nat),
        "2000"@,
        "0"@,
        "Studio: "@ + name@,
    ]);
    Cmd::new("hyprctl", args, None)
}

// ---------------------------------------------------------------------- laws

pub proof fn lemma_deduped_part(modes: Seq<Mode>)
    ensures
        forall|m: Mode| deduped(modes).contains(m) ==> modes.contains(m),
    decreases modes.len(),
{
    if modes.len() > 0 {
        let front = modes.drop_last();
        lemma_deduped_part(front);
        assert forall|m: Mode| deduped(modes).contains(m) implies modes.contains(m) by {
            let head = deduped(front);
            let k = choose|k: int| 0 <= k < deduped(modes).len() && deduped(modes)[k] == m;
            if k < head.len() {
                assert(head[k] == m);
                assert(front.contains(m));
                let j = choose|j: int| 0 <= j < front.len() && front[j] == m;
                assert(modes[j] == m);
            } else {
                assert(modes[modes.len() - 1] == m);
            }
        }
    }
}

proof fn lemma_first_at_part(modes: Seq<Mode>, width: u32, height: u32)
    ensures
        first_at(modes, width, height) matches Some(m) ==> modes.contains(m) && has_size(
            m,
            width,
            height,
        ),
    decreases modes.len(),
{
    if modes.len() > 0 && !has_size(modes[0], width, height) {
        lemma_first_at_part(modes.skip(1), width, height);
        if let Some(m) = first_at(modes.skip(1), width, height) {
            let k = choose|k: int| 0 <= k < modes.skip(1).len() && modes.skip(1)[k] == m;
            assert(modes[k + 1] == m);
        }
    } else if modes.len() > 0 {
        assert(modes[0] == modes[0]);
    }
}

proof fn lemma_first_like_part(modes: Seq<Mode>, want: Mode)
    ensures
        first_like(modes, want) matches Some(m) ==> modes.contains(m) && same_mode(m, want),
    decreases modes.len(),
{
    if modes.len() > 0 && !same_mode(modes[0], want) {
        lemma_first_like_part(modes.skip(1), want);
        if let Some(m) = first_like(modes.skip(1), want) {
            let k = choose|k: int| 0 <= k < modes.skip(1).len() && modes.skip(1)[k] == m;
            assert(modes[k + 1] == m);
        }
    } else if modes.len() > 0 {
        assert(modes[0] == modes[0]);
    }
}

proof fn lemma_listed(available: Seq<Seq<char>>, m: Mode)
    requires
        listed_modes(available).contains(m),
    ensures
        m.refresh > 0,
        exists|i: int| 0 <= i < available.len() && parse_mode(#[trigger] available[i]) == Some(m),
    decreases available.len(),
{
    let all = listed_modes(available);
    let k = choose|k: int| 0 <= k < all.len() && all[k] == m;
    let head = listed_modes(available.drop_last());
    if k < head.len() {
        assert(head[k] == m);
        lemma_listed(available.drop_last(), m);
        let i = choose|i: int|
            0 <= i < available.drop_last().len() && parse_mode(
                #[trigger] available.drop_last()[i],
            ) == Some(m);
        assert(parse_mode(available[i]) == Some(m));
    } else {
        assert(parse_mode(available[available.len() - 1]) == Some(m));
    }
}

/// A mode that is handed out is one that the display advertises, and it is
/// what was asked for.
pub proof fn law_resolved_mode_is_advertised(
    name: Seq<char>,
    current: (u32, u32),
    available: Seq<Seq<char>>,
    req: ModeRequest,
    m: Mode,
)
    requires
        resolved(name, current, modes_of(available), req) == Ok::<Option<Mode>, Seq<char>>(Some(m)),
    ensures
        exists|i: int| 0 <= i < available.len() && parse_mode(#[trigger] available[i]) == Some(m),
        m.refresh > 0,
        match req {
            ModeRequest::Preferred => false,
            ModeRequest::Resolution(w, h) => has_size(m, w, h),
            ModeRequest::Exact(want) => same_mode(m, want),
            ModeRequest::Refresh(hz) => same_mode(
                m,
                Mode { width: current.0, height: current.1, refresh: hz },
            ),
        },
{
    let modes = modes_of(available);
    let all = listed_modes(available);
    match req {
        ModeRequest::Preferred => {},
        ModeRequest::Resolution(w, h) => {
            lemma_first_at_part(modes, w, h);
        },
        ModeRequest::Exact(want) => {
            lemma_first_like_part(modes, want);
        },
        ModeRequest::Refresh(hz) => {
            lemma_first_like_part(
                modes,
                Mode { width: current.0, height: current.1, refresh: hz },
            );
        },
    }
    assert(modes.contains(m));
    let sorted = sorted_by(all, all);
    lemma_deduped_part(sorted);
    assert(sorted.contains(m));
    lemma_has_order(all);
    let k = choose|k: int| 0 <= k < sorted.len() && sorted[k] == m;
    assert(all[order_of(all)[k]] == m);
    lemma_listed(available, m);
}

proof fn lemma_first_at_push(modes: Seq<Mode>, x: Mode, width: u32, height: u32)
    ensures
        first_at(modes.push(x), width, height) == match first_at(modes, width, height) {
            Some(m) => Some(m),
            None => if has_size(x, width, height) {
                Some(x)
            } else {
                None
            },
        },
    decreases modes.len(),
{
    let all = modes.push(x);
    if modes.len() == 0 {
        assert(all.skip(1) == Seq::<Mode>::empty());
    } else {
        assert(all[0] == modes[0]);
        assert(all.skip(1) == modes.skip(1).push(x));
        lemma_first_at_push(modes.skip(1), x, width, height);
    }
}

proof fn lemma_first_at_none(modes: Seq<Mode>, width: u32, height: u32, k: int)
    requires
        0 <= k < modes.len(),
        has_size(modes[k], width, height),
    ensures
        first_at(modes, width, height) is Some,
    decreases modes.len(),
{
    if !has_size(modes[0], width, height) {
        assert(modes.skip(1)[k - 1] == modes[k]);
        lemma_first_at_none(modes.skip(1), width, height, k - 1);
    }
}

proof fn lemma_first_of_deduped(modes: Seq<Mode>, width: u32, height: u32)
    ensures
        first_at(deduped(modes), width, height) == first_at(modes, width, height),
    decreases modes.len(),
{
    if modes.len() > 0 {
        let front = modes.drop_last();
        let x = modes.last();
        let head = deduped(front);
        lemma_first_of_deduped(front, width, height);
        lemma_first_at_push(front, x, width, height);
        lemma_first_at_push(head, x, width, height);
        assert(front.push(x) == modes);
        if head.len() > 0 && same_mode(x, head.last()) && has_size(x, width, height) {
            lemma_first_at_none(head, width, height, head.len() - 1);
        }
    }
}

/// The first mode of a size in a list comes before every other of that size.
proof fn lemma_first_at_first(modes: Seq<Mode>, width: u32, height: u32, j: int) -> (i: int)
    requires
        0 <= j < modes.len(),
        has_size(modes[j], width, height),
    ensures
        0 <= i <= j,
        first_at(modes, width, height) == Some(modes[i]),
    decreases modes.len(),
{
    if has_size(modes[0], width, height) {
        0
    } else {
        assert(modes.skip(1)[j - 1] == modes[j]);
        let i = lemma_first_at_first(modes.skip(1), width, height, j - 1);
        i + 1
    }
}

/// Every list has a stable order.
pub proof fn lemma_has_order(all: Seq<Mode>)
    ensures
        is_order(all, order_of(all)),
{
    let order = crate::order::lemma_order_exists(all);
    crate::order::lemma_order_is(all, order);
}

/// A resolution is run at the fastest rate that the display advertises for it.
pub proof fn law_resolution_gets_its_fastest_rate(
    name: Seq<char>,
    current: (u32, u32),
    available: Seq<Seq<char>>,
    width: u32,
    height: u32,
    other: Mode,
)
    requires
        listed_modes(available).contains(other),
        has_size(other, width, height),
    ensures
        resolved(
            name,
            current,
            modes_of(available),
            ModeRequest::Resolution(width, height),
        ) matches Ok(Some(m)) && has_size(m, width, height) && m.refresh >= other.refresh,
{
    let all = listed_modes(available);
    lemma_has_order(all);
    let order = order_of(all);
    let sorted = sorted_by(all, all);
    let k = choose|k: int| 0 <= k < all.len() && all[k] == other;
    crate::order::lemma_order_onto(all, order, k);
    let j = choose|j: int| 0 <= j < order.len() && order[j] == k;
    assert(sorted[j] == other);
    let i = lemma_first_at_first(sorted, width, height, j);
    lemma_first_of_deduped(sorted, width, height);
    lemma_first_at_part(sorted, width, height);
    assert(sorted[i] == all[order[i]]);
    if i < j {
        assert(stands_before(all, order[i], order[j]));
    }
    assert(modes_of(available).len() > 0) by {
        if modes_of(available).len() == 0 {
            assert(first_at(modes_of(available), width, height) is None);
        }
    }
}

/// A mode that is left out of a list is the same as one that is kept.
pub proof fn lemma_deduped_keeps(modes: Seq<Mode>, j: int) -> (k: int)
    requires
        0 <= j < modes.len(),
    ensures
        0 <= k < deduped(modes).len(),
        same_mode(deduped(modes)[k], modes[j]),
    decreases modes.len(),
{
    let front = modes.drop_last();
    let head = deduped(front);
    if j < front.len() {
        let k = lemma_deduped_keeps(front, j);
        assert(deduped(modes)[k] == head[k]);
        k
    } else if head.len() > 0 && same_mode(modes.last(), head.last()) {
        head.len() - 1
    } else {
        head.len() as int
    }
}

proof fn lemma_first_like_some(modes: Seq<Mode>, want: Mode, k: int)
    requires
        0 <= k < modes.len(),
        same_mode(modes[k], want),
    ensures
        first_like(modes, want) is Some,
    decreases modes.len(),
{
    if !same_mode(modes[0], want) {
        assert(modes.skip(1)[k - 1] == modes[k]);
        lemma_first_like_some(modes.skip(1), want, k - 1);
    }
}

/// Every mode that a display advertises can be had by asking for it; and its
/// rate, where it is one of the current size.
pub proof fn law_advertised_mode_can_be_had(
    name: Seq<char>,
    current: (u32, u32),
    available: Seq<Seq<char>>,
    want: Mode,
)
    requires
        listed_modes(available).contains(want),
    ensures
        resolved(name, current, modes_of(available), ModeRequest::Exact(want)) matches Ok(Some(m))
            && same_mode(m, want),
        has_size(want, current.0, current.1) ==> (resolved(
            name,
            current,
            modes_of(available),
            ModeRequest::Refresh(want.refresh),
        ) matches Ok(Some(m)) && same_mode(m, want)),
{
    let all = listed_modes(available);
    let order = order_of(all);
    lemma_has_order(all);
    let sorted = sorted_by(all, all);
    let at = choose|k: int| 0 <= k < all.len() && all[k] == want;
    crate::order::lemma_order_onto(all, order, at);
    let j = choose|j: int| 0 <= j < order.len() && order[j] == at;
    assert(sorted[j] == want);
    let k = lemma_deduped_keeps(sorted, j);
    lemma_first_like_some(modes_of(available), want, k);
    lemma_first_like_part(modes_of(available), want);
}

/// A layout always ends with the line that lights up a display it does not
/// know.
pub proof fn law_layout_has_a_fallback(l: Seq<SettingView>)
    ensures
        ends_with(layout_body(l), "monitor = , preferred, auto, 1"@),
{
    let lines = l.map_values(|s: SettingView| setting_line(s));
    let last = "monitor = , preferred, auto, 1"@;
    crate::split::lemma_join_push(lines, "\n"@, last);
    let body = layout_body(l);
    assert(body.skip(body.len() - last.len()) == last);
}

/// Writing the same layout twice is writing it once. The body must not spell
/// the closing marker; a file with an opening marker must have the closing one
/// too.
pub proof fn law_layout_is_written_once(text: Seq<char>, l: Seq<SettingView>)
    requires
        !contains(layout_body(l), close_marker("monitors"@, CommentStyle::Hash)),
        located(
            text,
            open_marker("monitors"@, CommentStyle::Hash),
            close_marker("monitors"@, CommentStyle::Hash),
        ) is Some || !contains(text, open_marker("monitors"@, CommentStyle::Hash)),
    ensures
        with_layout(with_layout(text, l), l) == with_layout(text, l),
{
    reveal_strlit("monitors");
    law_write_then_read(text, "monitors"@, CommentStyle::Hash, layout_body(l));
}

/// Only the display that is named changes its mode, and nothing else of it.
pub proof fn law_set_mode_leaves_the_rest(
    l: Seq<SettingView>,
    name: Seq<char>,
    mode: Option<Mode>,
    i: int,
)
    requires
        0 <= i < l.len(),
    ensures
        with_mode(l, name, mode).len() == l.len(),
        l[i].name != name ==> with_mode(l, name, mode)[i] == l[i],
        l[i].name == name ==> with_mode(l, name, mode)[i] == (SettingView {
            mode: mode_name(mode),
            ..l[i]
        }),
{
}

/// What both markers of the block hold.
pub open spec fn block_mark() -> Seq<char> {
    "omarchy-studio:monitors"@
}

/// In a marker the mark stands behind its arrows, and nowhere else.
proof fn lemma_mark_in_marker(marker: Seq<char>, k: int)
    requires
        marker == open_marker("monitors"@, CommentStyle::Hash) || marker == close_marker(
            "monitors"@,
            CommentStyle::Hash,
        ),
    ensures
        occurs(marker, block_mark(), k) <==> k == 6,
{
    reveal_strlit("# ");
    reveal_strlit("");
    reveal_strlit(">>> omarchy-studio:");
    reveal_strlit("<<< omarchy-studio:");
    reveal_strlit("monitors");
    reveal_strlit(" — generated; edit outside this block only >>>");
    reveal_strlit(" <<<");
    reveal_strlit("omarchy-studio:monitors");
    let mark = block_mark();
    assert(marker.subrange(6, 29) =~= mark);
    if occurs(marker, mark, k) {
        assert(marker.subrange(k, k + mark.len())[7] == '-');
        assert(marker[k + 7] == '-');
        assert forall|i: int| 0 <= i < marker.len() && marker[i] == '-' implies i == 13 by {}
    }
}

proof fn lemma_mark_is_a_line()
    ensures
        !holds(block_mark(), '\n'),
        block_mark().len() > 0,
{
    reveal_strlit("omarchy-studio:monitors");
}

/// Where a pattern stands in front of a line break it stands in the whole, and
/// so where it stands behind one.
proof fn lemma_both_sides(a: Seq<char>, b: Seq<char>, pat: Seq<char>, k: int)
    requires
        !holds(pat, '\n'),
        pat.len() > 0,
    ensures
        occurs(a + seq!['\n'] + b, pat, k) <==> occurs(a, pat, k) || occurs(
            b,
            pat,
            k - a.len() - 1,
        ),
{
    let s = a + seq!['\n'] + b;
    if occurs(s, pat, k) {
        lemma_one_side(a, b, pat, k);
    }
    if occurs(a, pat, k) {
        assert(s.subrange(k, k + pat.len()) == a.subrange(k, k + pat.len()));
    }
    let j = k - a.len() - 1;
    if occurs(b, pat, j) {
        assert(s.subrange(k, k + pat.len()) == b.subrange(j, j + pat.len()));
    }
}

/// A layout that is put into a file without the block stands behind the lines
/// of the file, which stay as they are and in their order.
pub proof fn law_layout_keeps_the_users_lines(text: Seq<char>, l: Seq<SettingView>)
    requires
        located(
            text,
            open_marker("monitors"@, CommentStyle::Hash),
            close_marker("monitors"@, CommentStyle::Hash),
        ) is None,
    ensures
        ({
            let now = with_layout(text, l);
            let body = layout_body(l);
            let open = open_marker("monitors"@, CommentStyle::Hash);
            let close = close_marker("monitors"@, CommentStyle::Hash);
            &&& split(now, '\n') == own_lines(text) + (seq![open] + (split(body, '\n') + seq![
                close,
                Seq::empty(),
            ]))
            &&& contains(now, body)
        }),
{
    reveal_strlit("monitors");
    let open = open_marker("monitors"@, CommentStyle::Hash);
    let close = close_marker("monitors"@, CommentStyle::Hash);
    let body = layout_body(l);
    law_added_block_keeps_the_lines(text, "monitors"@, CommentStyle::Hash, body);
    let now = with_layout(text, l);
    let at = line_ended(text).len() + open.len() + 1int;
    assert(now == line_ended(text) + wrapped(open, body, close));
    assert(now.subrange(at, at + body.len()) =~= body);
    assert(occurs(now, body, at));
}

/// Where neither a file nor the layout mentions the block, its mark is in the file
/// twice once the layout is in it, in the opening line and in the closing one; and
/// it still is when the layout is written again, for that changes nothing.
pub proof fn law_layout_is_marked_twice(text: Seq<char>, l: Seq<SettingView>)
    requires
        !contains(text, block_mark()),
        !contains(layout_body(l), block_mark()),
    ensures
        ({
            let now = with_layout(text, l);
            let body = layout_body(l);
            let at = line_ended(text).len() as int;
            let open = open_marker("monitors"@, CommentStyle::Hash);
            &&& with_layout(now, l) == now
            &&& forall|k: int| #[trigger]
                occurs(now, block_mark(), k) <==> k == at + 6 || k == at + open.len() + body.len()
                    + 8
        }),
{
    reveal_strlit("monitors");
    lemma_mark_is_a_line();
    let mark = block_mark();
    let open = open_marker("monitors"@, CommentStyle::Hash);
    let close = close_marker("monitors"@, CommentStyle::Hash);
    let body = layout_body(l);
    let none = Seq::<char>::empty();
    lemma_mark_in_marker(open, 6);
    lemma_mark_in_marker(close, 6);
    assert(!contains(text, open)) by {
        if contains(text, open) {
            let k = choose|k: int| occurs(text, open, k);
            assert(text.subrange(k + 6, k + 6 + mark.len()) =~= text.subrange(
                k,
                k + open.len(),
            ).subrange(6, 6int + mark.len()));
            assert(occurs(text, mark, k + 6));
        }
    }
    assert(!contains(body, close)) by {
        if contains(body, close) {
            let k = choose|k: int| occurs(body, close, k);
            assert(body.subrange(k + 6, k + 6 + mark.len()) =~= body.subrange(
                k,
                k + close.len(),
            ).subrange(6, 6int + mark.len()));
            assert(occurs(body, mark, k + 6));
        }
    }
    crate::text::lemma_find_from(text, open, 0);
    assert(located(text, open, close) is None);
    law_layout_is_written_once(text, l);
    let now = with_layout(text, l);
    let ended = line_ended(text);
    let block = wrapped(open, body, close);
    assert(now == ended + block);
    let tail = close + seq!['\n'] + none;
    let rest = body + seq!['\n'] + tail;
    assert(block == open + seq!['\n'] + rest);
    assert forall|k: int| #[trigger] occurs(block, mark, k) <==> k == 6 || k == open.len()
        + body.len() + 8 by {
        lemma_both_sides(open, rest, mark, k);
        lemma_both_sides(body, tail, mark, k - open.len() - 1);
        lemma_both_sides(close, none, mark, k - open.len() - 1 - body.len() - 1);
        lemma_mark_in_marker(open, k);
        lemma_mark_in_marker(close, k - open.len() - 1 - body.len() - 1);
    }
    assert forall|k: int| #[trigger] occurs(now, mark, k) <==> k == ended.len() + 6 || k
        == ended.len() + open.len() + body.len() + 8 by {
        if text.len() == 0 {
            assert(now == block);
            assert(occurs(block, mark, k) <==> k == 6 || k == open.len() + body.len() + 8);
        } else {
            let front = ended.drop_last();
            assert(now == front + seq!['\n'] + block);
            lemma_both_sides(front, block, mark, k);
            if occurs(front, mark, k) {
                assert(text.subrange(k, k + mark.len()) == front.subrange(k, k + mark.len()));
                assert(occurs(text, mark, k));
            }
            let j = k - front.len() - 1;
            assert(occurs(block, mark, j) <==> j == 6 || j == open.len() + body.len() + 8);
        }
    }
}

} // verus!
