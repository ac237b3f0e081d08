//! The color of the picker that is nearest to a color.
//!
//! Colors are compared by hue first. Hues and saturations are fractions of whole
//! numbers, and they are compared as fractions.

use vstd::prelude::*;

use crate::text::{chars, rest};
use crate::wallhaven::{all_colors, colors};

verus! {

/// A color of three parts.
#[derive(Debug, Clone, Copy, PartialEq, Eq, Structural)]
pub struct Color {
    pub r: u8,
    pub g: u8,
    pub b: u8,
}

/// The value of a hexadecimal digit.
pub open spec fn hex_value(c: char) -> Option<int> {
    if '0' <= c <= '9' {
        Some(c as int - 48)
    } else if 'a' <= c <= 'f' {
        Some(c as int - 87)
    } else if 'A' <= c <= 'F' {
        Some(c as int - 55)
    } else {
        None
    }
}

/// The byte that two digits spell.
pub open spec fn hex_byte(a: char, b: char) -> Option<u8> {
    match (hex_value(a), hex_value(b)) {
        (Some(x), Some(y)) => Some((16 * x + y) as u8),
        _ => None,
    }
}

/// The color that six digits spell, behind a `#` or without it.
pub open spec fn color_of(hex: Seq<char>) -> Option<Color> {
    let s = if hex.len() > 0 && hex[0] == '#' {
        hex.skip(1)
    } else {
        hex
    };
    if s.len() != 6 {
        None
    } else {
        match (hex_byte(s[0], s[1]), hex_byte(s[2], s[3]), hex_byte(s[4], s[5])) {
            (Some(r), Some(g), Some(b)) => Some(Color { r, g, b }),
            _ => None,
        }
    }
}

fn digit_value(c: char) -> (r: Option<u8>)
    ensures
        match r {
            Some(v) => hex_value(c) == Some(v as int) && v < 16,
            None => hex_value(c) is None,
        },
{
    if '0' <= c && c <= '9' {
        Some(c as u8 - 48)
    } else if 'a' <= c && c <= 'f' {
        Some(c as u8 - 87)
    } else if 'A' <= c && c <= 'F' {
        Some(c as u8 - 55)
    } else {
        None
    }
}

fn byte_value(a: char, b: char) -> (r: Option<u8>)
    ensures
        r == hex_byte(a, b),
{
    match (digit_value(a), digit_value(b)) {
        (Some(x), Some(y)) => Some(16 * x + y),
        _ => None,
    }
}

impl Color {
    pub fn parse(hex: &str) -> (r: Option<Color>)
        ensures
            r == color_of(hex@),
    {
        let all = chars(hex);
        let s = if all.len() > 0 && all[0] == '#' {
            rest(all.as_slice(), 1)
        } else {
            all.as_slice()
        };
        if s.len() != 6 {
            return None;
        }
        match (byte_value(s[0], s[1]), byte_value(s[2], s[3]), byte_value(s[4], s[5])) {
            (Some(r), Some(g), Some(b)) => Some(Color { r, g, b }),
            _ => None,
        }
    }

    pub open spec fn most(self) -> int {
        if self.r >= self.g && self.r >= self.b {
            self.r as int
        } else if self.g >= self.b {
            self.g as int
        } else {
            self.b as int
        }
    }

    pub open spec fn least(self) -> int {
        if self.r <= self.g && self.r <= self.b {
            self.r as int
        } else if self.g <= self.b {
            self.g as int
        } else {
            self.b as int
        }
    }

    /// How far the parts lie apart.
    pub open spec fn chroma(self) -> int {
        self.most() - self.least()
    }

    /// Whether the parts lie too close together to have a hue: less than 15 of
    /// 100 apart.
    pub open spec fn is_grey(self) -> bool {
        100 * self.chroma() < 15 * 255
    }

    /// Twice the lightness, in parts of 255.
    pub open spec fn light(self) -> int {
        self.most() + self.least()
    }

    /// The largest chroma that the lightness allows; the saturation is the share
    /// of it that the color has.
    pub open spec fn room(self) -> int {
        if self.light() > 255 {
            510 - self.light()
        } else {
            self.light()
        }
    }

    /// The hue, in parts of a sixth of the circle that are as many as the chroma.
    pub open spec fn hue(self) -> int {
        let d = self.chroma();
        if self.most() == self.r {
            if self.g >= self.b {
                self.g - self.b
            } else {
                6 * d - (self.b - self.g)
            }
        } else if self.most() == self.g {
            2 * d + (self.b - self.r)
        } else {
            4 * d + (self.r - self.g)
        }
    }
}

pub open spec fn gap(a: int, b: int) -> int {
    if a >= b {
        a - b
    } else {
        b - a
    }
}

/// The shorter way round the circle between two hues, in parts of a sixth that
/// are as many as the product of the chromas.
pub open spec fn hue_gap(a: Color, b: Color) -> int {
    let n = gap(a.hue() * b.chroma(), b.hue() * a.chroma());
    let whole = 6 * (a.chroma() * b.chroma());
    if n <= whole - n {
        n
    } else {
        whole - n
    }
}

/// How far two saturations lie apart, in parts that are as many as the product
/// of the rooms.
pub open spec fn tint_gap(a: Color, b: Color) -> int {
    gap(a.chroma() * b.room(), b.chroma() * a.room())
}

pub open spec fn square(n: int) -> int {
    n * n
}

/// How far a candidate is from the color that is wanted, as the numerator of a
/// fraction over [`score_parts`]. With the hues `h` apart as a share of half the
/// circle, the lightnesses `l` apart and the saturations `s` apart, it is
/// `8 h² + l² + s² / 2`, times a number that is the same for every candidate.
/// Between greys the lightness alone counts.
pub open spec fn score(want: Color, c: Color) -> int {
    if want.is_grey() {
        gap(want.light(), c.light())
    } else {
        4161600 * (square(hue_gap(want, c)) * square(want.room() * c.room())) + 18 * (square(
            gap(want.light(), c.light()),
        ) * square((want.chroma() * want.room()) * (c.chroma() * c.room()))) + 2340900 * (square(
            tint_gap(want, c),
        ) * square(want.chroma() * c.chroma()))
    }
}

/// The parts that a candidate's score is counted in.
pub open spec fn score_parts(want: Color, c: Color) -> int {
    if want.is_grey() {
        1
    } else {
        square(c.chroma() * c.room())
    }
}

/// Whether one candidate is nearer than another.
pub open spec fn is_nearer(want: Color, a: Color, b: Color) -> bool {
    score(want, a) * score_parts(want, b) < score(want, b) * score_parts(want, a)
}

/// Whether a name of the picker can stand for a color: greys never match colors,
/// nor colors greys.
pub open spec fn matches_kind(want: Color, name: Seq<char>) -> bool {
    color_of(name) matches Some(c) && c.is_grey() == want.is_grey()
}

/// The first of the nearest names, or `-1`.
pub open spec fn nearest_of(want: Color, names: Seq<Seq<char>>) -> int
    decreases names.len(),
{
    if names.len() == 0 {
        -1
    } else {
        let k = nearest_of(want, names.drop_last());
        if !matches_kind(want, names.last()) {
            k
        } else if k < 0 || is_nearer(want, color_of(names.last())->0, color_of(names[k])->0) {
            names.len() - 1
        } else {
            k
        }
    }
}

fn most_of(c: &Color) -> (r: u64)
    ensures
        r == c.most(),
{
    if c.r >= c.g && c.r >= c.b {
        c.r as u64
    } else if c.g >= c.b {
        c.g as u64
    } else {
        c.b as u64
    }
}

fn least_of(c: &Color) -> (r: u64)
    ensures
        r == c.least(),
{
    if c.r <= c.g && c.r <= c.b {
        c.r as u64
    } else if c.g <= c.b {
        c.g as u64
    } else {
        c.b as u64
    }
}

/// The numbers that colors are compared by.
struct Parts {
    chroma: u64,
    light: u64,
    room: u64,
    hue: u64,
}

impl Parts {
    spec fn of(self, c: Color) -> bool {
        &&& self.chroma == c.chroma()
        &&& self.light == c.light()
        &&& self.room == c.room()
        &&& self.hue == c.hue()
        &&& self.chroma <= 255
        &&& self.light <= 510
        &&& self.room <= 255
        &&& self.hue <= 1530
        &&& self.hue <= 6 * self.chroma
        &&& self.chroma <= self.room
    }
}

fn parts(c: &Color) -> (r: Parts)
    ensures
        r.of(*c),
{
    let most = most_of(c);
    let least = least_of(c);
    let d: u64 = most - least;
    let light: u64 = most + least;
    let room: u64 = if light > 255 {
        510 - light
    } else {
        light
    };
    let (r, g, b) = (c.r as u64, c.g as u64, c.b as u64);
    let hue: u64 = if most == r {
        if g >= b {
            g - b
        } else {
            6 * d - (b - g)
        }
    } else if most == g {
        2 * d + b - r
    } else {
        4 * d + r - g
    };
    Parts { chroma: d, light, room, hue }
}

fn grey(c: &Color) -> (r: bool)
    ensures
        r == c.is_grey(),
{
    100 * (most_of(c) - least_of(c)) < 3825
}

fn apart(a: u128, b: u128) -> (r: u128)
    ensures
        r == gap(a as int, b as int),
{
    if a >= b {
        a - b
    } else {
        b - a
    }
}

/// A product with its bound.
fn times(a: u128, b: u128, Ghost(x): Ghost<int>, Ghost(y): Ghost<int>) -> (r: u128)
    requires
        a <= x,
        b <= y,
        x * y <= u128::MAX,
    ensures
        r == a * b,
        r <= x * y,
{
    proof {
        vstd::arithmetic::mul::lemma_mul_upper_bound(a as int, x, b as int, y);
    }
    a * b
}

/// The score of a candidate and the parts it is counted in.
fn scored(want: &Parts, c: &Parts, Ghost(w): Ghost<Color>, Ghost(k): Ghost<Color>) -> (r: (
    u128,
    u128,
))
    requires
        want.of(w),
        c.of(k),
        !w.is_grey(),
    ensures
        r.0 == score(w, k),
        r.1 == score_parts(w, k),
        r.0 <= 800_000_000_000_000_000_000_000_000,
        r.1 <= 4_228_250_625,
{
    let (d1, e1, h1, l1) = (want.chroma as u128, want.room as u128, want.hue as u128, want.light as u128);
    let (d2, e2, h2, l2) = (c.chroma as u128, c.room as u128, c.hue as u128, c.light as u128);
    let dd = times(d1, d2, Ghost(255), Ghost(255));
    let ee = times(e1, e2, Ghost(255), Ghost(255));
    let de1 = times(d1, e1, Ghost(255), Ghost(255));
    let de2 = times(d2, e2, Ghost(255), Ghost(255));
    // the hues
    let x = times(h1, d2, Ghost(1530), Ghost(255));
    let y = times(h2, d1, Ghost(1530), Ghost(255));
    let n = apart(x, y);
    let whole: u128 = 6 * dd;
    proof {
        assert(x <= whole) by (nonlinear_arith)
            requires
                x == h1 * d2,
                whole == 6 * (d1 * d2),
                h1 <= 6 * d1,
                0 <= d2,
        ;
        assert(y <= whole) by (nonlinear_arith)
            requires
                y == h2 * d1,
                whole == 6 * (d1 * d2),
                h2 <= 6 * d2,
                0 <= d1,
        ;
    }
    let m: u128 = if n <= whole - n {
        n
    } else {
        whole - n
    };
    let mm = times(m, m, Ghost(195075), Ghost(195075));
    let ee2 = times(ee, ee, Ghost(65025), Ghost(65025));
    let a = times(mm, ee2, Ghost(38054255625), Ghost(4228250625));
    // the lightness
    let l = apart(l1, l2);
    let ll = times(l, l, Ghost(510), Ghost(510));
    let all = times(de1, de2, Ghost(65025), Ghost(65025));
    let all2 = times(all, all, Ghost(4228250625), Ghost(4228250625));
    let b = times(ll, all2, Ghost(260100), Ghost(17878103347812890625));
    // the saturations
    let p = times(d1, e2, Ghost(255), Ghost(255));
    let q = times(d2, e1, Ghost(255), Ghost(255));
    let t = apart(p, q);
    let tt = times(t, t, Ghost(65025), Ghost(65025));
    let dd2 = times(dd, dd, Ghost(65025), Ghost(65025));
    let s = times(tt, dd2, Ghost(4228250625), Ghost(4228250625));
    let parts = times(de2, de2, Ghost(65025), Ghost(65025));
    (4161600 * a + 18 * b + 2340900 * s, parts)
}

/// Whether one candidate is nearer than another.
fn nearer(want: &Color, a: &Color, b: &Color) -> (r: bool)
    ensures
        r == is_nearer(*want, *a, *b),
{
    let w = parts(want);
    let x = parts(a);
    let y = parts(b);
    if grey(want) {
        return apart(w.light as u128, x.light as u128) < apart(w.light as u128, y.light as u128);
    }
    let (n1, d1) = scored(&w, &x, Ghost(*want), Ghost(*a));
    let (n2, d2) = scored(&w, &y, Ghost(*want), Ghost(*b));
    let left = times(
        n1,
        d2,
        Ghost(800_000_000_000_000_000_000_000_000),
        Ghost(4_228_250_625),
    );
    let right = times(
        n2,
        d1,
        Ghost(800_000_000_000_000_000_000_000_000),
        Ghost(4_228_250_625),
    );
    left < right
}

/// The picker's color nearest to a color; a text that is no color has none.
pub fn nearest_color(hex: &str) -> (r: Option<&'static str>)
    ensures
        match color_of(hex@) {
            Some(want) => {
                let k = nearest_of(want, all_colors());
                match r {
                    Some(name) => 0 <= k < all_colors().len() && name@ == all_colors()[k],
                    None => k < 0,
                }
            },
            None => r is None,
        },
{
    let want = match Color::parse(hex) {
        Some(c) => c,
        None => {
            return None;
        },
    };
    let names = colors();
    let ghost all = all_colors();
    let mut best: Option<(usize, Color)> = None;
    let mut i: usize = 0;
    assert(all.take(0).len() == 0);
    while i < names.len()
        invariant
            i <= names@.len(),
            all == names@.map_values(|c: &'static str| c@),
            match best {
                Some((k, c)) => k < i && nearest_of(want, all.take(i as int)) == k && color_of(
                    all[k as int],
                ) == Some(c),
                None => nearest_of(want, all.take(i as int)) < 0,
            },
        decreases names.len() - i,
    {
        assert(all.take(i + 1).drop_last() == all.take(i as int));
        assert(all.take(i + 1).last() == names@[i as int]@);
        assert(all[i as int] == names@[i as int]@);
        if let Some(c) = Color::parse(names[i]) {
            if grey(&c) == grey(&want) {
                match best {
                    Some((k, had)) => {
                        assert(all.take(i + 1)[k as int] == all[k as int]);
                        if nearer(&want, &c, &had) {
                            best = Some((i, c));
                        }
                    },
                    None => {
                        best = Some((i, c));
                    },
                }
            }
        }
        i = i + 1;
    }
    assert(all.take(all.len() as int) == all);
    match best {
        Some((k, _)) => Some(names[k]),
        None => None,
    }
}

} // verus!
