//! What holds of the displays: of their sizes, of the modes they are read and
//! written with, and of the lines that set them up.

use vstd::prelude::*;

use crate::decimal::{
    fixed_text, lemma_fixed_reads_back, lemma_short_reads_back, micros_of, parse_number,
    short_text,
};
use crate::monitors::{
    deduped, is_laptop_name, layout_body, layout_size, lemma_deduped_keeps, lemma_deduped_part,
    lemma_has_order, listed_modes, mode_name, mode_spec, modes_of, parse_mode, parse_request,
    placed, rates_at, resolved, same_mode, scaled, setting_line, setting_of, size_text, sizes_of,
    total_width, with_mode, without_hertz, without_suffix, Mode, ModeRequest, Monitor, SettingView,
    Side,
};
use crate::number::{
    digits, int_text, lemma_digits, lemma_parse_of_text, parse_int, parse_nat, parse_u32,
};
use crate::order::{order_of, sorted_by, stands_before};
use crate::split::{join, lemma_split_cons, lemma_split_none, lemma_trim_id, split};
use crate::text::{
    contains, ends_with, holds, is_digit, is_space, lemma_pos_from, lemma_pos_is, lower, lowered,
    occurs, pos, starts_with, trim, upper, uppered,
};

verus! {

// ------------------------------------------------------------------------ sizes

/// A display on its side has the width and the height of the upright one the
/// other way round, and any other transform leaves them.
pub proof fn law_odd_transforms_swap_the_sides(width: u32, height: u32, scale: i64, transform: u8)
    ensures
        ({
            let upright = layout_size(width, height, scale, 0);
            let size = layout_size(width, height, scale, transform);
            if transform < 8 && transform % 2 == 1 {
                size.0 == upright.1 && size.1 == upright.0
            } else {
                size == upright
            }
        }),
{
}

/// A scaled size times the scale is the native size, to within half of the scale;
/// a scale that is none leaves the size as it is.
pub proof fn law_scaled_size_is_the_nearest(n: u32, scale: i64)
    ensures
        scale > 0 && scaled(n, scale) < u32::MAX ==> -scale <= 2 * scaled(n, scale) * scale - 2 * n
            * 1_000_000 <= scale,
        scale <= 0 ==> scaled(n, scale) == n,
        layout_size(n, n, scale, 0) == (scaled(n, scale), scaled(n, scale)),
{
    let s = scale as int;
    if scale > 0 {
        let top = 2 * n * 1_000_000 + s;
        let low = 2 * s;
        let r = top / low;
        assert(r * low <= top < (r + 1) * low) by (nonlinear_arith)
            requires
                r == top / low,
                low > 0,
        ;
        assert(r * low == 2 * r * s) by (nonlinear_arith)
            requires
                low == 2 * s,
        ;
        assert((r + 1) * low == 2 * r * s + 2 * s) by (nonlinear_arith)
            requires
                low == 2 * s,
        ;
        assert(r >= 0) by (nonlinear_arith)
            requires
                r == top / low,
                low > 0,
                top >= 0,
        ;
    } else {
        assert((2 * n * 1_000_000 + 1_000_000) / 2_000_000 == n);
    }
}

/// A display that is placed beside another touches it there and is in line with
/// it: its near edge is the other's far edge.
pub proof fn law_placed_displays_touch(base: (i32, i32, u32, u32), size: (u32, u32), side: Side)
    ensures
        ({
            let (x, y) = placed(base, size, side);
            match side {
                Side::RightOf => x - base.2 == base.0 && y == base.1,
                Side::LeftOf => x + size.0 == base.0 && y == base.1,
                Side::Below => y - base.3 == base.1 && x == base.0,
                Side::Above => y + size.1 == base.1 && x == base.0,
            }
        }),
{
}

/// In a row the first display stands at the left, and each one's right edge is the
/// next one's left.
pub proof fn law_displays_in_a_row_touch(sizes: Seq<(u32, u32)>, i: int)
    requires
        0 <= i < sizes.len(),
    ensures
        total_width(sizes.take(0)) == 0,
        total_width(sizes.take(i + 1)) == total_width(sizes.take(i)) + sizes[i].0,
{
    assert(sizes.take(0).len() == 0);
    assert(sizes.take(i + 1).drop_last() == sizes.take(i));
}

/// A panel is a laptop's by the beginning of its name, whatever its case.
pub proof fn law_laptop_panels_are_named_so(name: Seq<char>)
    ensures
        is_laptop_name(name) <==> starts_with(lowered(name), "edp"@) || starts_with(
            lowered(name),
            "lvds"@,
        ),
{
    reveal_strlit("EDP");
    reveal_strlit("LVDS");
    reveal_strlit("edp");
    reveal_strlit("lvds");
    let (u, l) = (uppered(name), lowered(name));
    assert forall|i: int| 0 <= i < name.len() implies u[i] == upper(name[i]) && l[i] == lower(
        name[i],
    ) by {}
    if starts_with(u, "EDP"@) {
        assert(u.take(3)[0] == 'E' && u.take(3)[1] == 'D' && u.take(3)[2] == 'P');
        assert(l.take(3) =~= "edp"@);
    }
    if starts_with(u, "LVDS"@) {
        assert(u.take(4)[0] == 'L' && u.take(4)[1] == 'V' && u.take(4)[2] == 'D' && u.take(4)[3]
            == 'S');
        assert(l.take(4) =~= "lvds"@);
    }
    if starts_with(l, "edp"@) {
        assert(l.take(3)[0] == 'e' && l.take(3)[1] == 'd' && l.take(3)[2] == 'p');
        assert(u.take(3) =~= "EDP"@);
    }
    if starts_with(l, "lvds"@) {
        assert(l.take(4)[0] == 'l' && l.take(4)[1] == 'v' && l.take(4)[2] == 'd' && l.take(4)[3]
            == 's');
        assert(u.take(4) =~= "LVDS"@);
    }
}

// ------------------------------------------------------------------------ modes

proof fn lemma_no_hertz(s: Seq<char>)
    requires
        s.len() == 0 || s.last() != 'z',
    ensures
        without_suffix(s, "Hz"@) == s,
        without_suffix(s, "hz"@) == s,
{
    reveal_strlit("Hz");
    reveal_strlit("hz");
    if ends_with(s, "Hz"@) {
        assert(s.skip(s.len() - 2)[1] == s.last());
    }
    if ends_with(s, "hz"@) {
        assert(s.skip(s.len() - 2)[1] == s.last());
    }
}

proof fn lemma_hertz_goes(s: Seq<char>)
    requires
        s.len() > 0,
        s.last() != 'z',
        !is_space(s[0]),
        !is_space(s.last()),
    ensures
        without_hertz(s) == s,
        without_hertz(s + "Hz"@) == s,
        without_hertz(s + "hz"@) == s,
{
    reveal_strlit("Hz");
    reveal_strlit("hz");
    lemma_no_hertz(s);
    lemma_trim_id(s);
    let a = s + "Hz"@;
    let b = s + "hz"@;
    assert(a.skip(a.len() - 2) =~= "Hz"@);
    assert(a.take(a.len() - 2) =~= s);
    assert(b.skip(b.len() - 2) =~= "hz"@);
    assert(b.take(b.len() - 2) =~= s);
    assert(!ends_with(b, "Hz"@)) by {
        assert(b.skip(b.len() - 2)[0] == 'h');
    }
    assert(without_suffix(b, "Hz"@) == b);
    assert(without_suffix(b, "hz"@) == without_suffix(s, "hz"@));
    assert(without_suffix(a, "Hz"@) == without_suffix(s, "Hz"@));
}

/// `WxH` is read as the width and the height, in that order.
proof fn lemma_size_reads_back(width: u32, height: u32)
    ensures
        ({
            let t = size_text(width, height);
            &&& t.len() > 0
            &&& is_digit(t[0])
            &&& is_digit(t.last())
            &&& holds(t, 'x')
            &&& !holds(t, '@')
            &&& !holds(t, ',')
            &&& parse_u32(trim(t.take(pos(t, 'x')))) == Some(width)
            &&& parse_u32(trim(t.skip(pos(t, 'x') + 1))) == Some(height)
            &&& forall|i: int| 0 <= i < t.len() ==> is_digit(#[trigger] t[i]) || t[i] == 'x'
        }),
{
    reveal_strlit("x");
    let a = digits(width as nat);
    let b = digits(height as nat);
    let t = size_text(width, height);
    lemma_digits(width as nat);
    lemma_digits(height as nat);
    lemma_parse_of_text(width as int);
    lemma_parse_of_text(height as int);
    assert(is_digit(a[0]) && is_digit(b[0]));
    assert(is_digit(a[a.len() - 1]) && is_digit(b[b.len() - 1]));
    assert(t[a.len() as int] == 'x');
    assert forall|i: int| 0 <= i < t.len() implies is_digit(#[trigger] t[i]) || t[i] == 'x' by {
        if i < a.len() {
            assert(t[i] == a[i]);
        } else if i > a.len() {
            assert(t[i] == b[i - a.len() - 1]);
        }
    }
    assert forall|i: int| 0 <= i < a.len() implies t[i] != 'x' by {
        assert(t[i] == a[i]);
    }
    lemma_pos_is(t, 'x', a.len() as int);
    assert(t.take(a.len() as int) =~= a);
    assert(t.skip(a.len() + 1int) =~= b);
    assert(t[0] == a[0] && t.last() == b.last());
    lemma_trim_id(a);
    lemma_trim_id(b);
}

/// A mode whose rate is in whole hundredths of a hertz is read back from what it is
/// written as, with its unit behind it or without.
pub proof fn law_mode_reads_back(m: Mode)
    requires
        m.refresh % 10000 == 0,
    ensures
        parse_mode(mode_spec(m)) == Some(m),
        parse_mode(mode_spec(m) + "Hz"@) == Some(m),
        parse_mode(mode_name(Some(m))) == Some(m),
        m.refresh > 0 ==> parse_request(mode_spec(m)) == Some(ModeRequest::Exact(m)),
        !holds(mode_spec(m), ','),
{
    reveal_strlit("@");
    reveal_strlit("Hz");
    let size = size_text(m.width, m.height);
    let rate = fixed_text(m.refresh as int);
    let t = mode_spec(m);
    lemma_size_reads_back(m.width, m.height);
    lemma_fixed_reads_back(m.refresh);
    lemma_fixed_ends(m.refresh);
    assert(t[size.len() as int] == '@');
    assert forall|i: int| 0 <= i < size.len() implies t[i] != '@' by {
        assert(t[i] == size[i]);
    }
    lemma_pos_is(t, '@', size.len() as int);
    assert(t.take(size.len() as int) =~= size);
    assert(t.skip(size.len() + 1int) =~= rate);
    assert(t[0] == size[0] && t.last() == rate.last());
    assert forall|i: int| 0 <= i < t.len() implies t[i] != ',' by {
        if i < size.len() {
            assert(t[i] == size[i]);
        } else if i > size.len() {
            assert(t[i] == rate[i - size.len() - 1]);
        }
    }
    lemma_hertz_goes(t);
    lemma_trim_id(t);
    let u = t + "Hz"@;
    assert(u[0] == t[0] && u.last() == 'z');
    lemma_trim_id(u);
    lemma_trim_id(rate);
    lemma_trim_id(size);
    lemma_is_no_word(t);
}

/// A text that begins with a digit names no preference.
proof fn lemma_is_no_word(t: Seq<char>)
    requires
        t.len() > 0,
        is_digit(t[0]),
    ensures
        lowered(t) != lowered("preferred"@),
        lowered(t) != lowered("auto"@),
{
    reveal_strlit("preferred");
    reveal_strlit("auto");
    assert(lowered(t)[0] == t[0]);
    assert(lowered("preferred"@)[0] == 'p');
    assert(lowered("auto"@)[0] == 'a');
}

proof fn lemma_fixed_ends(m: i64)
    ensures
        fixed_text(m as int).len() > 0,
        is_digit(fixed_text(m as int).last()),
        !is_space(fixed_text(m as int)[0]),
{
    let h = crate::decimal::hundredths(crate::decimal::size_of(m as int));
    let whole = digits((h / 100) as nat);
    lemma_digits((h / 100) as nat);
    assert(is_digit(whole[0]));
    let f = fixed_text(m as int);
    assert(f.last() == crate::number::digit_char(h % 10));
    if m < 0 {
        assert(f[0] == '-');
    } else {
        assert(f[0] == whole[0]);
    }
}

/// A size alone asks for that resolution, and `preferred` or `auto`, whatever the
/// case, leaves the choice to Hyprland.
pub proof fn law_requests_are_understood(width: u32, height: u32, t: Seq<char>)
    ensures
        parse_request(size_text(width, height)) == Some(ModeRequest::Resolution(width, height)),
        lowered(trim(t)) == lowered("preferred"@) || lowered(trim(t)) == lowered("auto"@)
            ==> parse_request(t) == Some(ModeRequest::Preferred),
{
    let s = size_text(width, height);
    lemma_size_reads_back(width, height);
    lemma_hertz_goes(s);
    lemma_trim_id(s);
    lemma_is_no_word(s);
}

/// A rate alone, with or without its unit, asks for that rate.
pub proof fn law_rate_alone_is_a_rate(hz: i64)
    requires
        hz > 0,
        hz % 10000 == 0,
    ensures
        parse_request(fixed_text(hz as int)) == Some(ModeRequest::Refresh(hz)),
        parse_request(fixed_text(hz as int) + "Hz"@) == Some(ModeRequest::Refresh(hz)),
{
    reveal_strlit("Hz");
    let t = fixed_text(hz as int);
    lemma_fixed_reads_back(hz);
    lemma_fixed_ends(hz);
    lemma_hertz_goes(t);
    lemma_trim_id(t);
    let u = t + "Hz"@;
    assert(u[0] == t[0] && u.last() == 'z');
    lemma_trim_id(u);
    let h = crate::decimal::hundredths(crate::decimal::size_of(hz as int));
    let whole = digits((h / 100) as nat);
    lemma_digits((h / 100) as nat);
    assert(t[0] == whole[0]);
    assert(is_digit(whole[0]));
    lemma_is_no_word(t);
    lemma_is_no_word(u);
    assert(!holds(t, 'x')) by {
        assert forall|i: int| 0 <= i < t.len() implies t[i] != 'x' by {
            assert(is_digit(t[i]) || t[i] == '-' || t[i] == '.');
        }
    }
    assert(!holds(t, '@')) by {
        assert forall|i: int| 0 <= i < t.len() implies t[i] != '@' by {
            assert(is_digit(t[i]) || t[i] == '-' || t[i] == '.');
        }
    }
}

/// The modes of a list come largest first; of two of one area the wider one is
/// first, and of two of one size the faster one.
pub proof fn law_modes_are_in_order(available: Seq<Seq<char>>, i: int, j: int)
    requires
        0 <= i < j < modes_of(available).len(),
    ensures
        ({
            let (a, b) = (modes_of(available)[i], modes_of(available)[j]);
            &&& a.width * a.height >= b.width * b.height
            &&& a.width * a.height == b.width * b.height ==> a.width >= b.width
            &&& a.width * a.height == b.width * b.height && a.width == b.width ==> a.refresh
                >= b.refresh
        }),
{
    let all = listed_modes(available);
    lemma_has_order(all);
    let order = order_of(all);
    let sorted = sorted_by(all, all);
    let (x, y) = lemma_deduped_in_order(sorted, i, j);
    assert(sorted[x] == all[order[x]] && sorted[y] == all[order[y]]);
    assert(stands_before(all, order[x], order[y]));
}

proof fn lemma_deduped_in_order(modes: Seq<Mode>, i: int, j: int) -> (r: (int, int))
    requires
        0 <= i < j < deduped(modes).len(),
    ensures
        0 <= r.0 < r.1 < modes.len(),
        modes[r.0] == deduped(modes)[i],
        modes[r.1] == deduped(modes)[j],
    decreases modes.len(),
{
    let front = modes.drop_last();
    let head = deduped(front);
    if j < head.len() {
        lemma_deduped_in_order(front, i, j)
    } else {
        lemma_deduped_part(front);
        assert(head.contains(head[i]));
        assert(front.contains(head[i]));
        let x = choose|x: int| 0 <= x < front.len() && front[x] == head[i];
        (x, modes.len() - 1)
    }
}

/// Every mode that is advertised with a rate is in the list, but for another of
/// the same size whose rate is less than a tenth of a hertz away; and two that
/// follow each other in the list are further apart than that.
pub proof fn law_modes_are_listed_once(available: Seq<Seq<char>>, k: int, i: int)
    requires
        0 <= k < available.len(),
        0 <= i < modes_of(available).len() - 1,
    ensures
        parse_mode(available[k]) matches Some(m) ==> m.refresh > 0 ==> exists|j: int|
            0 <= j < modes_of(available).len() && (#[trigger] modes_of(available)[j]).width
                == m.width && modes_of(available)[j].height == m.height && -100_000
                < modes_of(available)[j].refresh - m.refresh < 100_000,
        ({
            let (a, b) = (modes_of(available)[i], modes_of(available)[i + 1]);
            a.width == b.width && a.height == b.height ==> a.refresh - b.refresh >= 100_000
        }),
{
    let all = listed_modes(available);
    lemma_has_order(all);
    let order = order_of(all);
    let sorted = sorted_by(all, all);
    if let Some(m) = parse_mode(available[k]) {
        if m.refresh > 0 {
            lemma_is_listed(available, k);
            let at = choose|at: int| 0 <= at < all.len() && all[at] == m;
            crate::order::lemma_order_onto(all, order, at);
            let j = choose|j: int| 0 <= j < order.len() && order[j] == at;
            assert(sorted[j] == m);
            let n = lemma_deduped_keeps(sorted, j);
            assert(same_mode(modes_of(available)[n], m));
        }
    }
    law_modes_are_in_order(available, i, i + 1);
    lemma_deduped_apart(sorted, i);
}

proof fn lemma_deduped_apart(modes: Seq<Mode>, i: int)
    requires
        0 <= i < deduped(modes).len() - 1,
    ensures
        !same_mode(deduped(modes)[i + 1], deduped(modes)[i]),
    decreases modes.len(),
{
    let front = modes.drop_last();
    let head = deduped(front);
    if i + 1 < head.len() {
        lemma_deduped_apart(front, i);
    }
}

proof fn lemma_is_listed(available: Seq<Seq<char>>, k: int)
    requires
        0 <= k < available.len(),
        parse_mode(available[k]) is Some,
        parse_mode(available[k])->0.refresh > 0,
    ensures
        listed_modes(available).contains(parse_mode(available[k])->0),
    decreases available.len(),
{
    let front = available.drop_last();
    let head = listed_modes(front);
    let all = listed_modes(available);
    let m = parse_mode(available[k])->0;
    if k < front.len() {
        lemma_is_listed(front, k);
        let j = choose|j: int| 0 <= j < head.len() && head[j] == m;
        assert(all[j] == m);
    } else {
        assert(all[all.len() - 1] == m);
    }
}

// --------------------------------------------------------------------- refusals

proof fn lemma_join_holds(parts: Seq<Seq<char>>, sep: Seq<char>, i: int)
    requires
        0 <= i < parts.len(),
    ensures
        contains(join(parts, sep), parts[i]),
    decreases parts.len(),
{
    let s = join(parts, sep);
    if parts.len() == 1 {
        assert(s.subrange(0, s.len() as int) =~= parts[0]);
        assert(occurs(s, parts[0], 0));
    } else if i == 0 {
        assert(s.subrange(0, parts[0].len() as int) =~= parts[0]);
        assert(occurs(s, parts[0], 0));
    } else {
        let more = parts.skip(1);
        lemma_join_holds(more, sep, i - 1);
        let (all, one) = (join(more, sep), more[i - 1]);
        let k = choose|k: int| occurs(all, one, k);
        let at = parts[0].len() + sep.len() + k;
        assert(s.subrange(at, at + parts[i].len()) =~= join(more, sep).subrange(
            k,
            k + parts[i].len(),
        ));
        assert(occurs(s, parts[i], at));
    }
}

proof fn lemma_tail_holds(a: Seq<char>, b: Seq<char>, pat: Seq<char>)
    requires
        contains(b, pat),
    ensures
        contains(a + b, pat),
{
    let k = choose|k: int| occurs(b, pat, k);
    assert((a + b).subrange(a.len() + k, a.len() + k + pat.len()) =~= b.subrange(k, k + pat.len()));
    assert(occurs(a + b, pat, a.len() + k));
}

proof fn lemma_sizes_hold(modes: Seq<Mode>, i: int)
    requires
        0 <= i < modes.len(),
    ensures
        sizes_of(modes).contains((modes[i].width, modes[i].height)),
    decreases modes.len(),
{
    let front = modes.drop_last();
    let head = sizes_of(front);
    let all = sizes_of(modes);
    let size = (modes[i].width, modes[i].height);
    if i < front.len() {
        lemma_sizes_hold(front, i);
        let k = choose|k: int| 0 <= k < head.len() && head[k] == size;
        assert(all[k] == size);
    } else if head.contains(size) {
        assert(all == head);
    } else {
        assert(all[all.len() - 1] == size);
    }
}

proof fn lemma_rates_hold(modes: Seq<Mode>, width: u32, height: u32, i: int)
    requires
        0 <= i < modes.len(),
        modes[i].width == width,
        modes[i].height == height,
    ensures
        rates_at(modes, width, height).contains(modes[i].refresh),
    decreases modes.len(),
{
    let front = modes.drop_last();
    let head = rates_at(front, width, height);
    let all = rates_at(modes, width, height);
    if i < front.len() {
        lemma_rates_hold(front, width, height, i);
        let k = choose|k: int| 0 <= k < head.len() && head[k] == modes[i].refresh;
        assert(all[k] == modes[i].refresh);
    } else {
        assert(all[all.len() - 1] == modes[i].refresh);
    }
}

/// A resolution that no mode has is refused, and the answer names every size that
/// there is.
pub proof fn law_refused_size_names_the_sizes(
    name: Seq<char>,
    current: (u32, u32),
    modes: Seq<Mode>,
    width: u32,
    height: u32,
    i: int,
)
    requires
        forall|k: int|
            0 <= k < modes.len() ==> (#[trigger] modes[k]).width != width || modes[k].height
                != height,
        0 <= i < modes.len(),
    ensures
        resolved(name, current, modes, ModeRequest::Resolution(width, height)) matches Err(e)
            && starts_with(e, name) && contains(e, size_text(width, height)) && contains(
            e,
            size_text(modes[i].width, modes[i].height),
        ),
{
    lemma_nothing_at(modes, width, height);
    let list = sizes_of(modes).map_values(|s: (u32, u32)| size_text(s.0, s.1));
    lemma_sizes_hold(modes, i);
    let k = choose|k: int|
        0 <= k < sizes_of(modes).len() && sizes_of(modes)[k] == (modes[i].width, modes[i].height);
    lemma_join_holds(list, ", "@, k);
    assert(list[k] == size_text(modes[i].width, modes[i].height));
    let want = size_text(width, height);
    let e = resolved(name, current, modes, ModeRequest::Resolution(width, height))->Err_0;
    let front = name + " can't do "@ + want + ". It supports: "@;
    assert(e == front + join(list, ", "@));
    lemma_tail_holds(front, join(list, ", "@), list[k]);
    assert(e.take(name.len() as int) =~= name);
    let at = (name + " can't do "@).len() as int;
    assert(e.subrange(at, at + want.len()) =~= want);
    assert(occurs(e, want, at));
}

proof fn lemma_nothing_at(modes: Seq<Mode>, width: u32, height: u32)
    requires
        forall|k: int|
            0 <= k < modes.len() ==> (#[trigger] modes[k]).width != width || modes[k].height
                != height,
    ensures
        crate::monitors::first_at(modes, width, height) is None,
    decreases modes.len(),
{
    if modes.len() > 0 {
        assert(modes[0].width != width || modes[0].height != height);
        let tail = modes.skip(1);
        assert forall|k: int| 0 <= k < tail.len() implies (#[trigger] tail[k]).width != width
            || tail[k].height != height by {
            assert(tail[k] == modes[k + 1]);
        }
        lemma_nothing_at(tail, width, height);
    }
}

proof fn lemma_nothing_like(modes: Seq<Mode>, want: Mode)
    requires
        forall|k: int|
            0 <= k < modes.len() && (#[trigger] modes[k]).width == want.width && modes[k].height
                == want.height ==> modes[k].refresh - want.refresh >= 100_000 || want.refresh
                - modes[k].refresh >= 100_000,
    ensures
        crate::monitors::first_like(modes, want) is None,
    decreases modes.len(),
{
    if modes.len() > 0 {
        let tail = modes.skip(1);
        assert(!same_mode(modes[0], want));
        assert forall|k: int|
            0 <= k < tail.len() && (#[trigger] tail[k]).width == want.width && tail[k].height
                == want.height implies tail[k].refresh - want.refresh >= 100_000 || want.refresh
            - tail[k].refresh >= 100_000 by {
            assert(tail[k] == modes[k + 1]);
        }
        lemma_nothing_like(tail, want);
    }
}

/// A rate that no mode of the current size has, to within a tenth of a hertz, is
/// refused, and the answer names every rate that there is at that size. So is a
/// size at such a rate.
pub proof fn law_refused_rate_names_the_rates(
    name: Seq<char>,
    current: (u32, u32),
    modes: Seq<Mode>,
    hz: i64,
    i: int,
)
    requires
        forall|k: int|
            0 <= k < modes.len() && (#[trigger] modes[k]).width == current.0 && modes[k].height
                == current.1 ==> modes[k].refresh - hz >= 100_000 || hz - modes[k].refresh
                >= 100_000,
        0 <= i < modes.len(),
        modes[i].width == current.0,
        modes[i].height == current.1,
    ensures
        resolved(name, current, modes, ModeRequest::Refresh(hz)) matches Err(e) && starts_with(
            e,
            name,
        ) && contains(e, short_text(modes[i].refresh as int) + "Hz"@),
        resolved(
            name,
            current,
            modes,
            ModeRequest::Exact(Mode { width: current.0, height: current.1, refresh: hz }),
        ) matches Err(e) && starts_with(e, name) && contains(
            e,
            short_text(modes[i].refresh as int) + "Hz"@,
        ),
{
    let want = Mode { width: current.0, height: current.1, refresh: hz };
    lemma_nothing_like(modes, want);
    let rates = rates_at(modes, current.0, current.1);
    let list = rates.map_values(|r: i64| short_text(r as int) + "Hz"@);
    lemma_rates_hold(modes, current.0, current.1, i);
    let k = choose|k: int| 0 <= k < rates.len() && rates[k] == modes[i].refresh;
    lemma_join_holds(list, ", "@, k);
    assert(list[k] == short_text(modes[i].refresh as int) + "Hz"@);
    let e = resolved(name, current, modes, ModeRequest::Refresh(hz))->Err_0;
    let front = name + " can't do "@ + short_text(hz as int) + "Hz at its current "@ + size_text(
        current.0,
        current.1,
    ) + ". Available there: "@;
    assert(e == front + join(list, ", "@));
    lemma_tail_holds(front, join(list, ", "@), list[k]);
    assert(e.take(name.len() as int) =~= name);
    let x = resolved(name, current, modes, ModeRequest::Exact(want))->Err_0;
    let there = name + " can't do "@ + size_text(current.0, current.1) + " at "@ + short_text(
        hz as int,
    ) + "Hz. At that resolution it supports: "@;
    assert(x == there + join(list, ", "@));
    lemma_tail_holds(there, join(list, ", "@), list[k]);
    assert(x.take(name.len() as int) =~= name);
}

/// The preferred mode is Hyprland's to pick on every display; and where a display
/// lists no modes, nothing else can be had.
pub proof fn law_preferred_is_always_granted(
    name: Seq<char>,
    current: (u32, u32),
    modes: Seq<Mode>,
    req: ModeRequest,
)
    ensures
        resolved(name, current, modes, ModeRequest::Preferred) == Ok::<Option<Mode>, Seq<char>>(
            None,
        ),
        modes.len() == 0 && req != ModeRequest::Preferred ==> resolved(
            name,
            current,
            modes,
            req,
        ) is Err,
        resolved(name, current, modes, req) == Ok::<Option<Mode>, Seq<char>>(None) ==> req
            == ModeRequest::Preferred,
{
}

// ------------------------------------------------------------------------ lines

/// What stands behind the last separator is the last piece.
proof fn lemma_split_last(a: Seq<char>, sep: char, b: Seq<char>)
    requires
        !holds(b, sep),
    ensures
        split(a + seq![sep] + b, sep).last() == b,
    decreases a.len(),
{
    lemma_pos_from(a, sep, 0);
    let p = pos(a, sep);
    let s = a + seq![sep] + b;
    if p < a.len() {
        let x = a.take(p);
        let y = a.skip(p + 1);
        assert forall|i: int| 0 <= i < x.len() implies x[i] != sep by {
            assert(x[i] == a[i]);
        }
        assert(s == x + seq![sep] + (y + seq![sep] + b));
        lemma_split_cons(x, sep, y + seq![sep] + b);
        lemma_split_last(y, sep, b);
    } else {
        assert(!holds(a, sep));
        lemma_split_cons(a, sep, b);
        lemma_split_none(b, sep);
    }
}

/// Whatever the texts of a setting hold, the number behind the last comma of its
/// line is the display's transform: two that are turned differently have different
/// lines.
pub proof fn law_line_ends_in_the_transform(s: SettingView)
    requires
        !s.disabled,
    ensures
        parse_nat(split(setting_line(s), ',').last().skip(1)) == Some(s.transform as nat),
{
    reveal_strlit(", transform, ");
    reveal_strlit(", ");
    let n = digits(s.transform as nat);
    lemma_digits(s.transform as nat);
    lemma_parse_of_text(s.transform as int);
    assert(is_digit(n[0]));
    let tail = seq![' '] + n;
    assert forall|i: int| 0 <= i < tail.len() implies tail[i] != ',' by {
        if i > 0 {
            assert(tail[i] == n[i - 1]);
            assert(is_digit(n[i - 1]));
        }
    }
    let head = "monitor = "@ + s.name + ", "@ + s.mode + ", "@ + int_text(s.x as int) + "x"@
        + int_text(s.y as int) + ", "@ + s.scale;
    let front = head + seq![',', ' ', 't', 'r', 'a', 'n', 's', 'f', 'o', 'r', 'm'];
    assert(setting_line(s) =~= front + seq![','] + tail);
    lemma_split_last(front, ',', tail);
    assert(tail.skip(1) =~= n);
}

/// The line of a display that is on, with a comma in front of each field but the
/// first.
proof fn lemma_line_parts(s: SettingView)
    requires
        !s.disabled,
    ensures
        ({
            let comma = seq![','];
            let at = int_text(s.x as int) + "x"@ + int_text(s.y as int);
            let t4 = " transform"@ + comma + (" "@ + digits(s.transform as nat));
            let t3 = (" "@ + s.scale) + comma + t4;
            let t2 = (" "@ + at) + comma + t3;
            let t1 = (" "@ + s.mode) + comma + t2;
            setting_line(s) == ("monitor = "@ + s.name) + comma + t1
        }),
{
    let comma = seq![','];
    let (a, x, b) = (int_text(s.x as int), "x"@, int_text(s.y as int));
    let at = a + x + b;
    let n = digits(s.transform as nat);
    let head = "monitor = "@ + s.name;
    let sp = " "@;
    let word = " transform"@;
    assert(", "@ == comma + sp && ", transform, "@ == comma + word + comma + sp) by {
        reveal_strlit(", transform, ");
        reveal_strlit(" transform");
        reveal_strlit(", ");
        reveal_strlit(" ");
        assert(", "@ =~= comma + sp);
        assert(", transform, "@ =~= comma + word + comma + sp);
    }
    let t4 = word + comma + (sp + n);
    let t3 = (sp + s.scale) + comma + t4;
    let t2 = (sp + at) + comma + t3;
    let t1 = (sp + s.mode) + comma + t2;
    let want = head + comma + t1;
    let line = head + (comma + sp) + s.mode + (comma + sp) + a + x + b + (comma + sp) + s.scale + (
    comma + word + comma + sp) + n;
    assert(setting_line(s) == line);
    assert(line =~= want);
}

/// The line of a display that is on, split at its commas, is the name, the mode, the
/// position, the scale and the transform; the position and the transform read as
/// the numbers that were set. The line of one that is off is its name and the word
/// for it.
#[verifier::rlimit(60)]
#[verifier::spinoff_prover]
pub proof fn law_line_reads_back(s: SettingView)
    requires
        !holds(s.name, ','),
        !holds(s.mode, ','),
        !holds(s.scale, ','),
    ensures
        ({
            let fields = split(setting_line(s), ',');
            if s.disabled {
                fields == seq!["monitor = "@ + s.name, " disable"@]
            } else {
                &&& fields.len() == 6
                &&& fields[0] == "monitor = "@ + s.name
                &&& fields[1] == " "@ + s.mode
                &&& split(fields[2].skip(1), 'x').len() == 2
                &&& parse_int(split(fields[2].skip(1), 'x')[0]) == Some(s.x as int)
                &&& parse_int(split(fields[2].skip(1), 'x')[1]) == Some(s.y as int)
                &&& fields[3] == " "@ + s.scale
                &&& fields[4] == " transform"@
                &&& parse_nat(fields[5].skip(1)) == Some(s.transform as nat)
            }
        }),
{
    reveal_strlit("monitor = ");
    reveal_strlit(", transform, ");
    reveal_strlit(" transform");
    reveal_strlit(" disable");
    reveal_strlit(", disable");
    reveal_strlit(", ");
    reveal_strlit(" ");
    reveal_strlit("x");
    let sp = " "@;
    let comma = seq![','];
    let head = "monitor = "@ + s.name;
    assert forall|i: int| 0 <= i < head.len() implies head[i] != ',' by {
        if i >= 10 {
            assert(head[i] == s.name[i - 10]);
        }
    }
    if s.disabled {
        let off = " disable"@;
        assert(!holds(off, ','));
        assert(setting_line(s) =~= head + comma + off);
        lemma_split_cons(head, ',', off);
        lemma_split_none(off, ',');
        assert(seq![head] + seq![off] =~= seq![head, off]);
    } else {
        let (a, b) = (int_text(s.x as int), int_text(s.y as int));
        lemma_parse_of_text(s.x as int);
        lemma_parse_of_text(s.y as int);
        let at = a + "x"@ + b;
        let n = digits(s.transform as nat);
        lemma_digits(s.transform as nat);
        lemma_parse_of_text(s.transform as int);
        assert(is_digit(n[0]));
        let f1 = sp + s.mode;
        let f2 = sp + at;
        let f3 = sp + s.scale;
        let f4 = " transform"@;
        let f5 = sp + n;
        lemma_padded(s.mode);
        lemma_padded(s.scale);
        assert forall|i: int| 0 <= i < at.len() implies at[i] != ',' by {
            if i < a.len() {
                assert(at[i] == a[i]);
            } else if i > a.len() {
                assert(at[i] == b[i - a.len() - 1]);
            }
        }
        lemma_padded(at);
        assert forall|i: int| 0 <= i < n.len() implies n[i] != ',' by {
            assert(is_digit(n[i]));
        }
        lemma_padded(n);
        assert(!holds(f4, ','));
        let t4 = f4 + comma + f5;
        let t3 = f3 + comma + t4;
        let t2 = f2 + comma + t3;
        let t1 = f1 + comma + t2;
        lemma_line_parts(s);
        lemma_split_cons(head, ',', t1);
        lemma_split_cons(f1, ',', t2);
        lemma_split_cons(f2, ',', t3);
        lemma_split_cons(f3, ',', t4);
        lemma_split_cons(f4, ',', f5);
        lemma_split_none(f5, ',');
        let fields = split(setting_line(s), ',');
        assert(fields =~= seq![head, f1, f2, f3, f4, f5]);
        assert(f2.skip(1) =~= at);
        assert(f5.skip(1) =~= n);
        assert(!holds(a, 'x')) by {
            assert forall|i: int| 0 <= i < a.len() implies a[i] != 'x' by {
                assert(is_digit(a[i]) || a[i] == '-');
            }
        }
        assert(!holds(b, 'x')) by {
            assert forall|i: int| 0 <= i < b.len() implies b[i] != 'x' by {
                assert(is_digit(b[i]) || b[i] == '-');
            }
        }
        assert(at =~= a + seq!['x'] + b);
        lemma_split_cons(a, 'x', b);
        lemma_split_none(b, 'x');
        assert(split(at, 'x') =~= seq![a, b]);
    }
}

proof fn lemma_padded(s: Seq<char>)
    requires
        !holds(s, ','),
    ensures
        !holds(" "@ + s, ','),
{
    reveal_strlit(" ");
    let t = " "@ + s;
    assert forall|i: int| 0 <= i < t.len() implies t[i] != ',' by {
        if i > 0 {
            assert(t[i] == s[i - 1]);
        }
    }
}

/// Two settings that differ in anything have different lines, but for two displays
/// of one name that are both off.
pub proof fn law_different_settings_have_different_lines(a: SettingView, b: SettingView)
    requires
        !holds(a.name, ',') && !holds(a.mode, ',') && !holds(a.scale, ','),
        !holds(b.name, ',') && !holds(b.mode, ',') && !holds(b.scale, ','),
        setting_line(a) == setting_line(b),
    ensures
        a.name == b.name,
        a.disabled == b.disabled,
        !a.disabled ==> a == b,
{
    reveal_strlit("monitor = ");
    reveal_strlit(" ");
    law_line_reads_back(a);
    law_line_reads_back(b);
    let fields = split(setting_line(a), ',');
    assert(a.name =~= fields[0].skip(10));
    assert(b.name =~= fields[0].skip(10));
    if !a.disabled {
        assert(a.mode =~= fields[1].skip(1));
        assert(b.mode =~= fields[1].skip(1));
        assert(a.scale =~= fields[3].skip(1));
        assert(b.scale =~= fields[3].skip(1));
    }
}

/// The line that a display as it is now is written as gives its name, its size and
/// rate, its place, its scale and its transform. The rate and the scale are read
/// back where they are whole hundredths.
pub proof fn law_display_is_written_as_it_is(m: Monitor)
    requires
        !holds(m.name@, ','),
        !m.disabled,
        m.refresh_rate > 0,
        m.refresh_rate % 10000 == 0,
        m.scale % 10000 == 0,
    ensures
        ({
            let fields = split(setting_line(setting_of(m)), ',');
            &&& fields.len() == 6
            &&& fields[0] == "monitor = "@ + m.name@
            &&& parse_mode(fields[1].skip(1)) == Some(
                Mode { width: m.width, height: m.height, refresh: m.refresh_rate },
            )
            &&& parse_int(split(fields[2].skip(1), 'x')[0]) == Some(m.x as int)
            &&& parse_int(split(fields[2].skip(1), 'x')[1]) == Some(m.y as int)
            &&& parse_number(fields[3].skip(1)) matches Some(n) && micros_of(n) == m.scale
            &&& parse_nat(fields[5].skip(1)) == Some(m.transform as nat)
        }),
{
    reveal_strlit(" ");
    let s = setting_of(m);
    let mode = Mode { width: m.width, height: m.height, refresh: m.refresh_rate };
    law_mode_reads_back(mode);
    lemma_short_reads_back(m.scale);
    law_line_reads_back(s);
    let fields = split(setting_line(s), ',');
    assert(fields[1].skip(1) =~= s.mode);
    assert(fields[3].skip(1) =~= s.scale);
}

/// A display that is off stays off, and one without a rate is written with its size
/// alone.
pub proof fn law_display_off_is_written_off(m: Monitor)
    ensures
        setting_of(m).disabled == m.disabled,
        m.disabled ==> setting_line(setting_of(m)) == "monitor = "@ + m.name@ + ", disable"@,
        m.refresh_rate <= 0 ==> parse_mode(setting_of(m).mode) == Some(
            Mode { width: m.width, height: m.height, refresh: 0 },
        ),
{
    if m.refresh_rate <= 0 {
        let t = size_text(m.width, m.height);
        lemma_size_reads_back(m.width, m.height);
        lemma_hertz_goes(t);
        lemma_trim_id(t);
    }
}

/// After a display was pointed at a mode its line asks for that mode, and every
/// other line is as it was.
pub proof fn law_set_mode_is_written(
    l: Seq<SettingView>,
    name: Seq<char>,
    mode: Option<Mode>,
    i: int,
)
    requires
        0 <= i < l.len(),
        !holds(l[i].name, ','),
        !holds(l[i].scale, ','),
        !l[i].disabled,
        mode matches Some(m) ==> m.refresh % 10000 == 0,
    ensures
        ({
            let now = with_mode(l, name, mode);
            let was = split(setting_line(l[i]), ',');
            let fields = split(setting_line(now[i]), ',');
            &&& now.len() == l.len()
            &&& l[i].name != name ==> setting_line(now[i]) == setting_line(l[i])
            &&& l[i].name == name ==> fields.len() == 6 && match mode {
                Some(m) => parse_mode(fields[1].skip(1)) == Some(m),
                None => fields[1].skip(1) == "preferred"@,
            }
            &&& l[i].name == name ==> setting_line(
                SettingView { mode: l[i].mode, ..now[i] },
            ) == setting_line(l[i])
        }),
{
    reveal_strlit(" ");
    reveal_strlit("preferred");
    let now = with_mode(l, name, mode);
    if l[i].name == name {
        if let Some(m) = mode {
            law_mode_reads_back(m);
        } else {
            assert(!holds("preferred"@, ','));
        }
        law_line_reads_back(now[i]);
        let fields = split(setting_line(now[i]), ',');
        assert(fields[1].skip(1) =~= now[i].mode);
        assert(SettingView { mode: l[i].mode, ..now[i] } == l[i]);
    }
}

/// The block of a layout has a line for each display, in their order, and then one
/// for a display that is not known.
pub proof fn law_layout_has_a_line_for_each(l: Seq<SettingView>)
    requires
        forall|i: int| 0 <= i < l.len() ==> !holds(setting_line(#[trigger] l[i]), '\n'),
    ensures
        split(layout_body(l), '\n').len() == l.len() + 1,
        forall|i: int|
            0 <= i < l.len() ==> #[trigger] split(layout_body(l), '\n')[i] == setting_line(l[i]),
        split(layout_body(l), '\n').last() == "monitor = , preferred, auto, 1"@,
{
    reveal_strlit("\n");
    reveal_strlit("monitor = , preferred, auto, 1");
    let last = "monitor = , preferred, auto, 1"@;
    let lines = l.map_values(|s: SettingView| setting_line(s)).push(last);
    assert forall|i: int| 0 <= i < lines.len() implies !holds(#[trigger] lines[i], '\n') by {
        if i < l.len() {
            assert(lines[i] == setting_line(l[i]));
        } else {
            assert(lines[i] == last);
        }
    }
    assert("\n"@ =~= seq!['\n']);
    crate::split::lemma_split_of_join(lines, '\n');
}

} // verus!
