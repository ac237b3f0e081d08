//! What it is for one color to be near another.

use vstd::prelude::*;

use crate::wallhaven::color::{
    Color, color_of, gap, hex_value, hue_gap, is_nearer, matches_kind, nearest_of, score,
    score_parts, square, tint_gap,
};

verus! {

// --------------------------------------------------------------------------- texts

/// The digits of a color can be small or capital letters, and the letters
/// follow the nine.
pub proof fn law_letter_case_does_not_count(c: char)
    requires
        'a' <= c <= 'f',
    ensures
        hex_value(c) == Some(c as int - 'a' as int + 10),
        hex_value(((c as u8) - 32) as u8 as char) == hex_value(c),
{
}

/// Six digits spell a color, two for each of its parts, the higher one first;
/// a number sign in front of them changes nothing.
pub proof fn law_six_digits_are_a_color(s: Seq<char>)
    requires
        s.len() == 6,
        s[0] != '#',
    ensures
        color_of(seq!['#'] + s) == color_of(s),
        match color_of(s) {
            Some(c) => (forall|i: int| 0 <= i < 6 ==> hex_value(#[trigger] s[i]) is Some)
                && c.r == 16 * hex_value(s[0])->0 + hex_value(s[1])->0 && c.g == 16 * hex_value(
                s[2],
            )->0 + hex_value(s[3])->0 && c.b == 16 * hex_value(s[4])->0 + hex_value(s[5])->0,
            None => exists|i: int| 0 <= i < 6 && hex_value(#[trigger] s[i]) is None,
        },
{
    assert((seq!['#'] + s).skip(1) == s);
    if color_of(s) is Some {
        assert(hex_value(s[0]) is Some && hex_value(s[1]) is Some && hex_value(s[2]) is Some);
        assert(hex_value(s[3]) is Some && hex_value(s[4]) is Some && hex_value(s[5]) is Some);
        assert forall|i: int| 0 <= i < 6 implies hex_value(#[trigger] s[i]) is Some by {
            assert(i == 0 || i == 1 || i == 2 || i == 3 || i == 4 || i == 5);
        }
    } else {
        assert(hex_value(s[0]) is None || hex_value(s[1]) is None || hex_value(s[2]) is None
            || hex_value(s[3]) is None || hex_value(s[4]) is None || hex_value(s[5]) is None);
    }
}

/// What is not of six digits is no color.
pub proof fn law_other_lengths_are_no_color(s: Seq<char>)
    ensures
        color_of(s) is Some ==> s.len() == 6 || s.len() == 7 && s[0] == '#',
{
}

// ---------------------------------------------------------------------------- hues

/// A color with its parts moved on by one: red to green, green to blue and
/// blue to red.
pub open spec fn turned(c: Color) -> Color {
    Color { r: c.b, g: c.r, b: c.g }
}

/// A color with green and blue swapped.
pub open spec fn mirrored(c: Color) -> Color {
    Color { r: c.r, g: c.b, b: c.g }
}

/// Turning a color turns its hue by a third of the circle and mirroring turns
/// it back around red; neither changes what else it is compared by. Between
/// red and yellow the hue grows with the green.
pub proof fn law_hues_go_round(c: Color)
    requires
        c.chroma() > 0,
    ensures
        0 <= c.hue() < 6 * c.chroma(),
        turned(c).hue() == if c.hue() < 4 * c.chroma() {
            c.hue() + 2 * c.chroma()
        } else {
            c.hue() - 4 * c.chroma()
        },
        mirrored(c).hue() == if c.hue() == 0 {
            0
        } else {
            6 * c.chroma() - c.hue()
        },
        c.r >= c.g >= c.b ==> c.hue() == c.g - c.b,
        turned(c).chroma() == c.chroma() && turned(c).light() == c.light(),
        mirrored(c).chroma() == c.chroma() && mirrored(c).light() == c.light(),
{
}

/// The lightness lies between the parts, and the chroma between none and what
/// the lightness allows: a color has no chroma exactly where its parts are
/// equal.
pub proof fn law_parts_bound_the_color(c: Color)
    ensures
        c.least() <= c.r <= c.most() && c.least() <= c.g <= c.most() && c.least() <= c.b
            <= c.most(),
        c.most() == c.r || c.most() == c.g || c.most() == c.b,
        c.least() == c.r || c.least() == c.g || c.least() == c.b,
        c.light() == c.most() + c.least(),
        c.chroma() == 0 <==> c.r == c.g && c.g == c.b,
        0 <= c.chroma() <= c.room() <= 255,
        c.chroma() == 0 ==> c.is_grey(),
{
}

/// A color is grey where no two of its parts lie 15 of 100 apart.
pub proof fn law_greys_have_close_parts(c: Color)
    ensures
        c.is_grey() <==> 100 * gap(c.r as int, c.g as int) < 15 * 255 && 100 * gap(
            c.g as int,
            c.b as int,
        ) < 15 * 255 && 100 * gap(c.r as int, c.b as int) < 15 * 255,
{
}

// ------------------------------------------------------------------------ distances

/// How far two hues are apart does not depend on which is asked first, and it
/// is never more than half the circle.
pub proof fn law_hue_gap_is_the_shorter_way(a: Color, b: Color)
    requires
        a.chroma() > 0,
        b.chroma() > 0,
    ensures
        hue_gap(a, b) == hue_gap(b, a),
        0 <= hue_gap(a, b) <= 3 * (a.chroma() * b.chroma()),
        hue_gap(a, a) == 0,
{
    law_hues_go_round(a);
    law_hues_go_round(b);
    assert(a.chroma() * b.chroma() == b.chroma() * a.chroma()) by (nonlinear_arith);
    let (x, y, d, e) = (a.hue(), b.hue(), a.chroma(), b.chroma());
    assert(0 <= x * e <= 6 * (d * e)) by (nonlinear_arith)
        requires
            0 <= x < 6 * d,
            e > 0,
    ;
    assert(0 <= y * d <= 6 * (d * e)) by (nonlinear_arith)
        requires
            0 <= y < 6 * e,
            d > 0,
    ;
}

proof fn lemma_parts_positive(want: Color, c: Color)
    requires
        c.is_grey() == want.is_grey(),
    ensures
        score_parts(want, c) > 0,
        score(want, c) >= 0,
{
    if !want.is_grey() {
        law_parts_bound_the_color(c);
        law_parts_bound_the_color(want);
        let (d, r) = (c.chroma(), c.room());
        assert((d * r) * (d * r) > 0) by (nonlinear_arith)
            requires
                d > 0,
                r > 0,
        ;
        lemma_square(hue_gap(want, c));
        lemma_square(want.room() * c.room());
        lemma_square(gap(want.light(), c.light()));
        lemma_square((want.chroma() * want.room()) * (c.chroma() * c.room()));
        lemma_square(tint_gap(want, c));
        lemma_square(want.chroma() * c.chroma());
        lemma_product(square(hue_gap(want, c)), square(want.room() * c.room()));
        lemma_product(
            square(gap(want.light(), c.light())),
            square((want.chroma() * want.room()) * (c.chroma() * c.room())),
        );
        lemma_product(square(tint_gap(want, c)), square(want.chroma() * c.chroma()));
    }
}

proof fn lemma_square(n: int)
    ensures
        square(n) >= 0,
{
    assert(n * n >= 0) by (nonlinear_arith);
}

proof fn lemma_product(a: int, b: int)
    requires
        a >= 0,
        b >= 0,
    ensures
        a * b >= 0,
{
    assert(a * b >= 0) by (nonlinear_arith)
        requires
            a >= 0,
            b >= 0,
    ;
}

/// No color is nearer to a color than the color itself, and none is nearer
/// than itself.
pub proof fn law_a_color_is_its_own_nearest(want: Color, c: Color)
    requires
        c.is_grey() == want.is_grey(),
    ensures
        !is_nearer(want, c, want),
        !is_nearer(want, c, c),
        score(want, want) == 0,
{
    lemma_parts_positive(want, c);
    lemma_parts_positive(want, want);
    if !want.is_grey() {
        law_parts_bound_the_color(want);
        law_hue_gap_is_the_shorter_way(want, want);
        assert(square(0) == 0);
        assert(gap(want.light(), want.light()) == 0);
        assert(tint_gap(want, want) == 0);
        let room = square(want.room() * want.room());
        let wide = square((want.chroma() * want.room()) * (want.chroma() * want.room()));
        let deep = square(want.chroma() * want.chroma());
        assert(0 * room == 0) by (nonlinear_arith);
        assert(0 * wide == 0) by (nonlinear_arith);
        assert(0 * deep == 0) by (nonlinear_arith);
    }
    let (s, p) = (score(want, c), score_parts(want, want));
    lemma_product(s, p);
    assert(0 * score_parts(want, c) == 0);
}

/// Away from greys the distance is that of the hues as a share `h` of half the
/// circle, of the lightnesses `l` and of the saturations `s`, as
/// `8 h² + l² + s² / 2`. With `w` for what the wanted color alone gives, a score
/// is `w` times that many of its parts, each fraction here by what is above and
/// what is below its line.
pub proof fn law_hues_count_most(want: Color, c: Color)
    requires
        !want.is_grey(),
    ensures
        ({
            let (h, h_of) = (hue_gap(want, c), 3 * (want.chroma() * c.chroma()));
            let (l, l_of) = (gap(want.light(), c.light()), 510int);
            let (s, s_of) = (tint_gap(want, c), want.room() * c.room());
            let w = 18 * 510 * 510 * (want.chroma() * want.room() * want.chroma() * want.room());
            2 * (score(want, c) * ((h_of * h_of) * (l_of * l_of) * (s_of * s_of))) == (w
                * score_parts(want, c)) * (16 * ((h * h) * (l_of * l_of) * (s_of * s_of)) + 2 * ((l
                * l) * (h_of * h_of) * (s_of * s_of)) + (s * s) * (h_of * h_of) * (l_of * l_of))
        }),
{
    let (h, l, s) = (hue_gap(want, c), gap(want.light(), c.light()), tint_gap(want, c));
    lemma_weights(h * h, l * l, s * s, want.chroma(), want.room(), c.chroma(), c.room());
}

proof fn lemma_weights(hh: int, ll: int, ss: int, x: int, y: int, d: int, r: int)
    ensures
        ({
            let h_of = 3 * (x * d);
            let s_of = y * r;
            let score = 4161600 * (hh * square(y * r)) + 18 * (ll * square((x * y) * (d * r)))
                + 2340900 * (ss * square(x * d));
            2 * (score * ((h_of * h_of) * (510 * 510) * (s_of * s_of))) == ((18 * 510 * 510 * (x * y
                * x * y)) * square(d * r)) * (16 * (hh * (510 * 510) * (s_of * s_of)) + 2 * (ll * (
            h_of * h_of) * (s_of * s_of)) + ss * (h_of * h_of) * (510 * 510))
        }),
{
    // Everything over the squares of the two products.
    let p = (x * d) * (x * d);
    let q = (y * r) * (y * r);
    let h_of = 3 * (x * d);
    assert(h_of * h_of == 9 * p) by (nonlinear_arith)
        requires
            h_of == 3 * (x * d),
            p == (x * d) * (x * d),
    ;
    assert(((x * y) * (d * r)) * ((x * y) * (d * r)) == p * q) by (nonlinear_arith)
        requires
            p == (x * d) * (x * d),
            q == (y * r) * (y * r),
    ;
    assert((x * y * x * y) * ((d * r) * (d * r)) == p * q) by (nonlinear_arith)
        requires
            p == (x * d) * (x * d),
            q == (y * r) * (y * r),
    ;
    let score = 4161600 * (hh * q) + 18 * (ll * (p * q)) + 2340900 * (ss * p);
    let w = 18 * 510 * 510 * (x * y * x * y);
    let m = (d * r) * (d * r);
    assert(w * m == 4681800 * (p * q)) by (nonlinear_arith)
        requires
            w == 18 * 510 * 510 * (x * y * x * y),
            (x * y * x * y) * m == p * q,
    ;
    let far = 16 * (hh * 260100 * q) + 2 * (ll * (9 * p) * q) + ss * (9 * p) * 260100;
    assert(far == score) by (nonlinear_arith)
        requires
            far == 16 * (hh * 260100 * q) + 2 * (ll * (9 * p) * q) + ss * (9 * p) * 260100,
            score == 4161600 * (hh * q) + 18 * (ll * (p * q)) + 2340900 * (ss * p),
    ;
    assert(2 * (score * ((9 * p) * 260100 * q)) == (4681800 * (p * q)) * far) by (nonlinear_arith)
        requires
            far == score,
    ;
}

/// Among greys the one whose lightness is closer is nearer.
pub proof fn law_greys_are_told_by_lightness(want: Color, a: Color, b: Color)
    requires
        want.is_grey(),
    ensures
        is_nearer(want, a, b) <==> gap(want.light(), a.light()) < gap(want.light(), b.light()),
{
}

/// The name that is taken for a color is of the color's kind, no other of that
/// kind is nearer, and none in front of it is as near. There is one wherever a
/// name of the kind is.
pub proof fn law_taken_name_is_the_nearest(want: Color, names: Seq<Seq<char>>)
    ensures
        ({
            let k = nearest_of(want, names);
            &&& k >= 0 ==> k < names.len() && matches_kind(want, names[k])
            &&& forall|j: int|
                0 <= j < names.len() && matches_kind(want, #[trigger] names[j]) ==> k >= 0
                    && !is_nearer(want, color_of(names[j])->0, color_of(names[k])->0)
            &&& forall|j: int|
                0 <= j < k && matches_kind(want, #[trigger] names[j]) ==> is_nearer(
                    want,
                    color_of(names[k])->0,
                    color_of(names[j])->0,
                )
        }),
    decreases names.len(),
{
    if names.len() > 0 {
        let front = names.drop_last();
        law_taken_name_is_the_nearest(want, front);
        let was = nearest_of(want, front);
        let k = nearest_of(want, names);
        assert forall|j: int|
            0 <= j < names.len() && matches_kind(want, #[trigger] names[j]) implies k >= 0
            && !is_nearer(want, color_of(names[j])->0, color_of(names[k])->0) by {
            let c = color_of(names[j])->0;
            lemma_parts_positive(want, c);
            if j < front.len() {
                assert(front[j] == names[j]);
                if k != was {
                    let last = color_of(names[k])->0;
                    let best = color_of(names[was])->0;
                    assert(front[was] == names[was]);
                    lemma_parts_positive(want, last);
                    lemma_parts_positive(want, best);
                    lemma_less_carries(
                        score(want, last),
                        score_parts(want, last),
                        score(want, best),
                        score_parts(want, best),
                        score(want, c),
                        score_parts(want, c),
                    );
                }
            }
        }
        assert forall|j: int| 0 <= j < k && matches_kind(want, #[trigger] names[j]) implies is_nearer(
            want,
            color_of(names[k])->0,
            color_of(names[j])->0,
        ) by {
            assert(front[j] == names[j]);
            if k != was {
                let c = color_of(names[j])->0;
                let last = color_of(names[k])->0;
                let best = color_of(names[was])->0;
                assert(front[was] == names[was]);
                lemma_parts_positive(want, c);
                lemma_parts_positive(want, last);
                lemma_parts_positive(want, best);
                lemma_less_carries(
                    score(want, last),
                    score_parts(want, last),
                    score(want, best),
                    score_parts(want, best),
                    score(want, c),
                    score_parts(want, c),
                );
            }
        }
    }
}

/// A fraction less than one that is no greater than a third is less than it.
proof fn lemma_less_carries(a: int, p: int, b: int, q: int, c: int, r: int)
    requires
        p > 0,
        q > 0,
        r > 0,
        a >= 0,
        b >= 0,
        c >= 0,
        a * q < b * p,
        !(c * q < b * r),
    ensures
        a * r < c * p,
        !(c * p < a * r),
{
    assert(a * r < c * p) by (nonlinear_arith)
        requires
            p > 0,
            q > 0,
            r > 0,
            a * q < b * p,
            b * r <= c * q,
    {
        assert((a * q) * r < (b * p) * r) by (nonlinear_arith)
            requires
                a * q < b * p,
                r > 0,
        ;
        assert((b * r) * p <= (c * q) * p) by (nonlinear_arith)
            requires
                b * r <= c * q,
                p > 0,
        ;
        assert((a * q) * r == (a * r) * q) by (nonlinear_arith);
        assert((b * p) * r == (b * r) * p) by (nonlinear_arith);
        assert((c * q) * p == (c * p) * q) by (nonlinear_arith);
        assert(a * r < c * p) by (nonlinear_arith)
            requires
                (a * r) * q < (c * p) * q,
                q > 0,
        ;
    }
}

} // verus!
