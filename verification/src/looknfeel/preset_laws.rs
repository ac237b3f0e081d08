//! What holds of the presets.

use vstd::prelude::*;

use crate::decimal::{
    DecimalView, NumberView, lemma_pointed, normalized, parse_number, whole_millionths, zeros,
};
use crate::looknfeel::model::{accepted, preset_values};
use crate::looknfeel::schema::{
    all_presets, all_settings, behavior_settings, blur_settings, decoration_settings,
    layout_settings, shadow_settings, windows_settings,
};
use crate::looknfeel::{KindView, PresetView, SettingView, setting_at, setting_of, validated};
use crate::number::{all_digits, digits, int_text, lemma_parse_of_text, value};
use crate::split::lemma_trim_id;
use crate::text::{is_digit, is_space, lowered, strip_leading, strip_trailing};

verus! {

/// A setting with no other of its key in front of it is the one that is found.
proof fn lemma_first_of_key(all: Seq<SettingView>, n: int)
    requires
        0 <= n < all.len(),
        forall|j: int| 0 <= j < n ==> (#[trigger] all[j]).key != all[n].key,
    ensures
        setting_of(all, all[n].key) == Some(all[n]),
    decreases all.len(),
{
    if n > 0 {
        assert(all[0].key != all[n].key);
        let tail = all.skip(1);
        assert forall|j: int| 0 <= j < n - 1 implies (#[trigger] tail[j]).key != tail[n - 1].key by {
            assert(tail[j] == all[j + 1]);
        }
        lemma_first_of_key(tail, n - 1);
    }
}

/// Whether a key is one of the decoration's.
spec fn is_decoration(key: Seq<char>) -> bool {
    key.len() > 11 && key[0] == 'd' && key[1] == 'e'
}

proof fn lemma_windows_keys()
    ensures
        forall|i: int|
            0 <= i < windows_settings().len() ==> !is_decoration(
                (#[trigger] windows_settings()[i]).key,
            ),
{
    reveal_strlit("general.gaps_in");
    reveal_strlit("general.gaps_out");
    reveal_strlit("general.border_size");
    reveal_strlit("general.extend_border_grab_area");
    reveal_strlit("general.resize_on_border");
    reveal_strlit("general.layout");
    assert forall|i: int| 0 <= i < windows_settings().len() implies !is_decoration(
                (#[trigger] windows_settings()[i]).key,
            ) by {}
}

proof fn lemma_layout_keys()
    ensures
        forall|i: int|
            0 <= i < layout_settings().len() ==> !is_decoration(
                (#[trigger] layout_settings()[i]).key,
            ),
{
    reveal_strlit("dwindle.force_split");
    reveal_strlit("dwindle.preserve_split");
    reveal_strlit("dwindle.smart_split");
    reveal_strlit("master.new_status");
    assert forall|i: int| 0 <= i < layout_settings().len() implies !is_decoration(
                (#[trigger] layout_settings()[i]).key,
            ) by {}
}

proof fn lemma_behavior_keys()
    ensures
        forall|i: int|
            0 <= i < behavior_settings().len() ==> !is_decoration(
                (#[trigger] behavior_settings()[i]).key,
            ),
{
    reveal_strlit("general.allow_tearing");
    reveal_strlit("misc.focus_on_activate");
    reveal_strlit("misc.disable_hyprland_logo");
    reveal_strlit("misc.vrr");
    reveal_strlit("misc.middle_click_paste");
    reveal_strlit("misc.enable_swallow");
    reveal_strlit("misc.key_press_enables_dpms");
    reveal_strlit("misc.mouse_move_enables_dpms");
    reveal_strlit("binds.workspace_back_and_forth");
    reveal_strlit("binds.allow_workspace_cycles");
    reveal_strlit("xwayland.force_zero_scaling");
    reveal_strlit("cursor.hide_on_key_press");
    assert forall|i: int| 0 <= i < behavior_settings().len() implies !is_decoration(
                (#[trigger] behavior_settings()[i]).key,
            ) by {}
}

proof fn lemma_decoration_keys()
    ensures
        forall|i: int|
            0 <= i < decoration_settings().len() ==> is_decoration(
                (#[trigger] decoration_settings()[i]).key,
            ) && decoration_settings()[i].key[11] != 'b' && decoration_settings()[i].key[11] != 's',
{
    reveal_strlit("decoration.rounding");
    reveal_strlit("decoration.active_opacity");
    reveal_strlit("decoration.inactive_opacity");
    reveal_strlit("decoration.fullscreen_opacity");
    reveal_strlit("decoration.dim_inactive");
    reveal_strlit("decoration.dim_strength");
    reveal_strlit("decoration.dim_special");
    assert forall|i: int| 0 <= i < decoration_settings().len() implies is_decoration(
                (#[trigger] decoration_settings()[i]).key,
            ) && decoration_settings()[i].key[11] != 'b' && decoration_settings()[i].key[11] != 's' by {}
}

proof fn lemma_blur_keys()
    ensures
        forall|i: int|
            0 <= i < blur_settings().len() ==> is_decoration(
                (#[trigger] blur_settings()[i]).key,
            ) && blur_settings()[i].key[11] == 'b',
{
    reveal_strlit("decoration.blur.enabled");
    reveal_strlit("decoration.blur.size");
    reveal_strlit("decoration.blur.passes");
    reveal_strlit("decoration.blur.special");
    reveal_strlit("decoration.blur.brightness");
    reveal_strlit("decoration.blur.contrast");
    reveal_strlit("decoration.blur.noise");
    reveal_strlit("decoration.blur.popups");
    assert forall|i: int| 0 <= i < blur_settings().len() implies is_decoration(
                (#[trigger] blur_settings()[i]).key,
            ) && blur_settings()[i].key[11] == 'b' by {}
}

proof fn lemma_shadow_keys()
    ensures
        forall|i: int|
            0 <= i < shadow_settings().len() ==> is_decoration(
                (#[trigger] shadow_settings()[i]).key,
            ) && shadow_settings()[i].key[11] == 's',
{
    reveal_strlit("decoration.shadow.enabled");
    reveal_strlit("decoration.shadow.range");
    reveal_strlit("decoration.shadow.render_power");
    assert forall|i: int| 0 <= i < shadow_settings().len() implies is_decoration(
                (#[trigger] shadow_settings()[i]).key,
            ) && shadow_settings()[i].key[11] == 's' by {}
}

proof fn lemma_windows_apart()
    ensures
        forall|i: int, j: int|
            0 <= i < j < windows_settings().len() ==> (#[trigger] windows_settings()[i]).key != (
            #[trigger] windows_settings()[j]).key,
{
    reveal_strlit("general.gaps_in");
    reveal_strlit("general.gaps_out");
    reveal_strlit("general.border_size");
    reveal_strlit("general.extend_border_grab_area");
    reveal_strlit("general.resize_on_border");
    reveal_strlit("general.layout");
    let all = windows_settings();
    assert("general.gaps_in"@.len() == 15 && "general.gaps_out"@.len() == 16);
    assert("general.gaps_in"@.len() == 15 && "general.border_size"@.len() == 19);
    assert("general.gaps_in"@.len() == 15 && "general.extend_border_grab_area"@.len() == 31);
    assert("general.gaps_in"@.len() == 15 && "general.resize_on_border"@.len() == 24);
    assert("general.gaps_in"@.len() == 15 && "general.layout"@.len() == 14);
    assert("general.gaps_out"@.len() == 16 && "general.border_size"@.len() == 19);
    assert("general.gaps_out"@.len() == 16 && "general.extend_border_grab_area"@.len() == 31);
    assert("general.gaps_out"@.len() == 16 && "general.resize_on_border"@.len() == 24);
    assert("general.gaps_out"@.len() == 16 && "general.layout"@.len() == 14);
    assert("general.border_size"@.len() == 19 && "general.extend_border_grab_area"@.len() == 31);
    assert("general.border_size"@.len() == 19 && "general.resize_on_border"@.len() == 24);
    assert("general.border_size"@.len() == 19 && "general.layout"@.len() == 14);
    assert("general.extend_border_grab_area"@.len() == 31 && "general.resize_on_border"@.len() == 24);
    assert("general.extend_border_grab_area"@.len() == 31 && "general.layout"@.len() == 14);
    assert("general.resize_on_border"@.len() == 24 && "general.layout"@.len() == 14);
}

proof fn lemma_decoration_apart()
    ensures
        forall|i: int, j: int|
            0 <= i < j < decoration_settings().len() ==> (#[trigger] decoration_settings()[i]).key != (
            #[trigger] decoration_settings()[j]).key,
{
    reveal_strlit("decoration.rounding");
    reveal_strlit("decoration.active_opacity");
    reveal_strlit("decoration.inactive_opacity");
    reveal_strlit("decoration.fullscreen_opacity");
    reveal_strlit("decoration.dim_inactive");
    reveal_strlit("decoration.dim_strength");
    reveal_strlit("decoration.dim_special");
    let all = decoration_settings();
    assert("decoration.rounding"@.len() == 19 && "decoration.active_opacity"@.len() == 25);
    assert("decoration.rounding"@.len() == 19 && "decoration.inactive_opacity"@.len() == 27);
    assert("decoration.rounding"@.len() == 19 && "decoration.fullscreen_opacity"@.len() == 29);
    assert("decoration.rounding"@.len() == 19 && "decoration.dim_inactive"@.len() == 23);
    assert("decoration.rounding"@.len() == 19 && "decoration.dim_strength"@.len() == 23);
    assert("decoration.rounding"@.len() == 19 && "decoration.dim_special"@.len() == 22);
    assert("decoration.active_opacity"@.len() == 25 && "decoration.inactive_opacity"@.len() == 27);
    assert("decoration.active_opacity"@.len() == 25 && "decoration.fullscreen_opacity"@.len() == 29);
    assert("decoration.active_opacity"@.len() == 25 && "decoration.dim_inactive"@.len() == 23);
    assert("decoration.active_opacity"@.len() == 25 && "decoration.dim_strength"@.len() == 23);
    assert("decoration.active_opacity"@.len() == 25 && "decoration.dim_special"@.len() == 22);
    assert("decoration.inactive_opacity"@.len() == 27 && "decoration.fullscreen_opacity"@.len() == 29);
    assert("decoration.inactive_opacity"@.len() == 27 && "decoration.dim_inactive"@.len() == 23);
    assert("decoration.inactive_opacity"@.len() == 27 && "decoration.dim_strength"@.len() == 23);
    assert("decoration.inactive_opacity"@.len() == 27 && "decoration.dim_special"@.len() == 22);
    assert("decoration.fullscreen_opacity"@.len() == 29 && "decoration.dim_inactive"@.len() == 23);
    assert("decoration.fullscreen_opacity"@.len() == 29 && "decoration.dim_strength"@.len() == 23);
    assert("decoration.fullscreen_opacity"@.len() == 29 && "decoration.dim_special"@.len() == 22);
    assert("decoration.dim_inactive"@[15] != "decoration.dim_strength"@[15]);
    assert("decoration.dim_inactive"@.len() == 23 && "decoration.dim_special"@.len() == 22);
    assert("decoration.dim_strength"@.len() == 23 && "decoration.dim_special"@.len() == 22);
}

proof fn lemma_blur_apart()
    ensures
        forall|i: int, j: int|
            0 <= i < j < blur_settings().len() ==> (#[trigger] blur_settings()[i]).key != (
            #[trigger] blur_settings()[j]).key,
{
    reveal_strlit("decoration.blur.enabled");
    reveal_strlit("decoration.blur.size");
    reveal_strlit("decoration.blur.passes");
    reveal_strlit("decoration.blur.special");
    reveal_strlit("decoration.blur.brightness");
    reveal_strlit("decoration.blur.contrast");
    reveal_strlit("decoration.blur.noise");
    reveal_strlit("decoration.blur.popups");
    let all = blur_settings();
    assert("decoration.blur.enabled"@.len() == 23 && "decoration.blur.size"@.len() == 20);
    assert("decoration.blur.enabled"@.len() == 23 && "decoration.blur.passes"@.len() == 22);
    assert("decoration.blur.enabled"@[16] != "decoration.blur.special"@[16]);
    assert("decoration.blur.enabled"@.len() == 23 && "decoration.blur.brightness"@.len() == 26);
    assert("decoration.blur.enabled"@.len() == 23 && "decoration.blur.contrast"@.len() == 24);
    assert("decoration.blur.enabled"@.len() == 23 && "decoration.blur.noise"@.len() == 21);
    assert("decoration.blur.enabled"@.len() == 23 && "decoration.blur.popups"@.len() == 22);
    assert("decoration.blur.size"@.len() == 20 && "decoration.blur.passes"@.len() == 22);
    assert("decoration.blur.size"@.len() == 20 && "decoration.blur.special"@.len() == 23);
    assert("decoration.blur.size"@.len() == 20 && "decoration.blur.brightness"@.len() == 26);
    assert("decoration.blur.size"@.len() == 20 && "decoration.blur.contrast"@.len() == 24);
    assert("decoration.blur.size"@.len() == 20 && "decoration.blur.noise"@.len() == 21);
    assert("decoration.blur.size"@.len() == 20 && "decoration.blur.popups"@.len() == 22);
    assert("decoration.blur.passes"@.len() == 22 && "decoration.blur.special"@.len() == 23);
    assert("decoration.blur.passes"@.len() == 22 && "decoration.blur.brightness"@.len() == 26);
    assert("decoration.blur.passes"@.len() == 22 && "decoration.blur.contrast"@.len() == 24);
    assert("decoration.blur.passes"@.len() == 22 && "decoration.blur.noise"@.len() == 21);
    assert("decoration.blur.passes"@[17] != "decoration.blur.popups"@[17]);
    assert("decoration.blur.special"@.len() == 23 && "decoration.blur.brightness"@.len() == 26);
    assert("decoration.blur.special"@.len() == 23 && "decoration.blur.contrast"@.len() == 24);
    assert("decoration.blur.special"@.len() == 23 && "decoration.blur.noise"@.len() == 21);
    assert("decoration.blur.special"@.len() == 23 && "decoration.blur.popups"@.len() == 22);
    assert("decoration.blur.brightness"@.len() == 26 && "decoration.blur.contrast"@.len() == 24);
    assert("decoration.blur.brightness"@.len() == 26 && "decoration.blur.noise"@.len() == 21);
    assert("decoration.blur.brightness"@.len() == 26 && "decoration.blur.popups"@.len() == 22);
    assert("decoration.blur.contrast"@.len() == 24 && "decoration.blur.noise"@.len() == 21);
    assert("decoration.blur.contrast"@.len() == 24 && "decoration.blur.popups"@.len() == 22);
    assert("decoration.blur.noise"@.len() == 21 && "decoration.blur.popups"@.len() == 22);
}

proof fn lemma_shadow_apart()
    ensures
        forall|i: int, j: int|
            0 <= i < j < shadow_settings().len() ==> (#[trigger] shadow_settings()[i]).key != (
            #[trigger] shadow_settings()[j]).key,
{
    reveal_strlit("decoration.shadow.enabled");
    reveal_strlit("decoration.shadow.range");
    reveal_strlit("decoration.shadow.render_power");
    let all = shadow_settings();
    assert("decoration.shadow.enabled"@.len() == 25 && "decoration.shadow.range"@.len() == 23);
    assert("decoration.shadow.enabled"@.len() == 25 && "decoration.shadow.render_power"@.len() == 30);
    assert("decoration.shadow.range"@.len() == 23 && "decoration.shadow.render_power"@.len() == 30);
}

/// The settings up to the shadow's, by where they stand.
proof fn lemma_places()
    ensures
        all_settings().len() >= 40,
        forall|i: int| 0 <= i < 6 ==> #[trigger] all_settings()[i] == windows_settings()[i],
        forall|i: int| 6 <= i < 10 ==> #[trigger] all_settings()[i] == layout_settings()[i - 6],
        forall|i: int| 10 <= i < 22 ==> #[trigger] all_settings()[i] == behavior_settings()[i - 10],
        forall|i: int| 22 <= i < 29 ==> #[trigger] all_settings()[i] == decoration_settings()[i - 22],
        forall|i: int| 29 <= i < 37 ==> #[trigger] all_settings()[i] == blur_settings()[i - 29],
        forall|i: int| 37 <= i < 40 ==> #[trigger] all_settings()[i] == shadow_settings()[i - 37],
        windows_settings().len() == 6,
        layout_settings().len() == 4,
        behavior_settings().len() == 12,
        decoration_settings().len() == 7,
        blur_settings().len() == 8,
        shadow_settings().len() == 3,
{
    reveal(all_settings);
}

/// Up to the shadow's, no two settings from the decoration's on, and no two of the
/// windows', have the same key, and none in front of them has one of theirs.
proof fn lemma_found(n: int)
    requires
        0 <= n < 6 || 22 <= n < 40,
    ensures
        setting_at(all_settings()[n].key) == Some(all_settings()[n]),
{
    lemma_places();
    lemma_windows_keys();
    lemma_layout_keys();
    lemma_behavior_keys();
    lemma_decoration_keys();
    lemma_blur_keys();
    lemma_shadow_keys();
    lemma_windows_apart();
    lemma_decoration_apart();
    lemma_blur_apart();
    lemma_shadow_apart();
    let all = all_settings();
    assert forall|j: int| 0 <= j < n implies (#[trigger] all[j]).key != all[n].key by {
        if n < 6 {
            assert(all[j] == windows_settings()[j]);
            assert(all[n] == windows_settings()[n]);
        } else {
            assert(is_decoration(all[n].key));
            if j < 22 {
                assert(!is_decoration(all[j].key));
            }
        }
    }
    lemma_first_of_key(all, n);
}

/// Whole numbers in range are accepted as they are.
proof fn lemma_whole(min: int, max: int, n: int)
    requires
        min <= n <= max,
        0 <= n < 100,
    ensures
        validated(KindView::Int { min, max }, int_text(n)) == Ok::<Seq<char>, Seq<char>>(
            int_text(n),
        ),
{
    let t = int_text(n);
    lemma_parse_of_text(n);
    assert(!is_space(t[0]) && !is_space(t[t.len() - 1]));
    lemma_trim_id(t);
}

proof fn lemma_numerals()
    ensures
        "0"@ == int_text(0),
        "1"@ == int_text(1),
        "2"@ == int_text(2),
        "3"@ == int_text(3),
        "4"@ == int_text(4),
        "6"@ == int_text(6),
        "8"@ == int_text(8),
        "10"@ == int_text(10),
        "12"@ == int_text(12),
        "16"@ == int_text(16),
{
    reveal_with_fuel(digits, 3);
    reveal_strlit("0");
    reveal_strlit("1");
    reveal_strlit("2");
    reveal_strlit("3");
    reveal_strlit("4");
    reveal_strlit("6");
    reveal_strlit("8");
    reveal_strlit("10");
    reveal_strlit("12");
    reveal_strlit("16");
    assert("0"@ =~= int_text(0));
    assert("1"@ =~= int_text(1));
    assert("2"@ =~= int_text(2));
    assert("3"@ =~= int_text(3));
    assert("4"@ =~= int_text(4));
    assert("6"@ =~= int_text(6));
    assert("8"@ =~= int_text(8));
    assert("10"@ =~= int_text(10));
    assert("12"@ =~= int_text(12));
    assert("16"@ =~= int_text(16));
}

/// A number from nought to one with digits behind its point is accepted.
proof fn lemma_part_of_one(whole: Seq<char>, part: Seq<char>)
    requires
        whole.len() == 1,
        1 <= part.len() <= 2,
        all_digits(whole),
        all_digits(part),
        whole[0] == '0' || whole[0] == '1' && part == seq!['0'],
        part.len() == 2 ==> part[0] != '0',
    ensures
        validated(
            KindView::Float { min: 0, max: 1000000 },
            whole + seq!['.'] + part,
        ) is Ok,
{
    let t = whole + seq!['.'] + part;
    assert(is_digit(whole[0]));
    assert(is_digit(part[part.len() - 1]));
    assert(t[0] == whole[0] && t.last() == part[part.len() - 1]);
    lemma_trim_id(t);
    lemma_pointed(false, whole, part);
    let ds = whole + part;
    let n = normalized(false, ds, 1);
    assert(parse_number(t) == Some(n));
    let body = strip_leading(ds, '0');
    assert(ds.skip(1) =~= part);
    reveal_with_fuel(strip_leading, 4);
    reveal_with_fuel(strip_trailing, 4);
    reveal_with_fuel(value, 10);
    if whole[0] == '1' {
        assert(body == ds);
        assert(ds.drop_last() =~= seq!['1']);
        let d = DecimalView { negative: false, digits: seq!['1'], point: 1 };
        assert(n == NumberView::Finite(d));
        let all = d.digits + zeros(6);
        assert(all =~= seq!['1', '0', '0', '0', '0', '0', '0']);
        lemma_million(all);
    } else if part.len() == 2 {
        assert(body == part);
        if part[1] == '0' {
            assert(part.drop_last() =~= seq![part[0]]);
            let d = DecimalView { negative: false, digits: seq![part[0]], point: 0 };
            assert(n == NumberView::Finite(d));
            lemma_below_one(d);
        } else {
            let d = DecimalView { negative: false, digits: part, point: 0 };
            assert(n == NumberView::Finite(d));
            lemma_below_one(d);
        }
    } else {
        assert(part.skip(1) =~= Seq::<char>::empty());
        if part[0] == '0' {
            assert(body =~= Seq::<char>::empty());
            let d = DecimalView { negative: false, digits: Seq::empty(), point: 0 };
            assert(n == NumberView::Finite(d));
            lemma_below_one(d);
        } else {
            assert(body == part);
            let d = DecimalView { negative: false, digits: part, point: 0 };
            assert(n == NumberView::Finite(d));
            lemma_below_one(d);
        }
    }
}

proof fn lemma_million(s: Seq<char>)
    requires
        s =~= seq!['1', '0', '0', '0', '0', '0', '0'],
    ensures
        value(s) == 1000000,
{
    reveal_with_fuel(value, 8);
    assert(s.drop_last() =~= seq!['1', '0', '0', '0', '0', '0']);
    assert(s.drop_last().drop_last() =~= seq!['1', '0', '0', '0', '0']);
    assert(s.drop_last().drop_last().drop_last() =~= seq!['1', '0', '0', '0']);
    assert(s.drop_last().drop_last().drop_last().drop_last() =~= seq!['1', '0', '0']);
    assert(s.drop_last().drop_last().drop_last().drop_last().drop_last() =~= seq!['1', '0']);
    assert(s.drop_last().drop_last().drop_last().drop_last().drop_last().drop_last() =~= seq!['1']);
    assert(value(seq!['1']) == 1) by {
        assert(seq!['1'].drop_last() =~= Seq::<char>::empty());
    }
}

/// Digits behind the point are less than one.
proof fn lemma_below_one(d: DecimalView)
    requires
        !d.negative,
        d.point == 0,
        d.digits.len() <= 6,
        all_digits(d.digits),
    ensures
        0 <= whole_millionths(d) < 1000000,
{
    let all = d.digits + zeros((6 - d.digits.len()) as nat);
    assert forall|i: int| 0 <= i < all.len() implies is_digit(#[trigger] all[i]) by {
        if i < d.digits.len() {
            assert(all[i] == d.digits[i]);
        }
    }
    lemma_six_digits(all);
}

proof fn lemma_six_digits(s: Seq<char>)
    requires
        s.len() == 6,
        all_digits(s),
    ensures
        value(s) < 1000000,
{
    reveal_with_fuel(value, 7);
    let a = s.drop_last();
    let b = a.drop_last();
    let c = b.drop_last();
    let d = c.drop_last();
    let e = d.drop_last();
    assert(s[5] == s.last() && a.last() == s[4] && b.last() == s[3] && c.last() == s[2] && d.last()
        == s[1] && e.last() == s[0]);
    assert(is_digit(s[0]) && is_digit(s[1]) && is_digit(s[2])
        && is_digit(s[3]) && is_digit(s[4]) && is_digit(
        s[5],
    ));
    assert(value(e) < 10);
    assert(value(d) < 100);
    assert(value(c) < 1000);
    assert(value(b) < 10000);
    assert(value(a) < 100000);
}

proof fn lemma_decimals()
    ensures
        validated(KindView::Float { min: 0, max: 1000000 }, "0.25"@) is Ok,
        validated(KindView::Float { min: 0, max: 1000000 }, "0.80"@) is Ok,
        validated(KindView::Float { min: 0, max: 1000000 }, "0.90"@) is Ok,
        validated(KindView::Float { min: 0, max: 1000000 }, "0.92"@) is Ok,
        validated(KindView::Float { min: 0, max: 1000000 }, "1.0"@) is Ok,
{
    reveal_strlit("0.25");
    assert("0.25"@ =~= seq!['0'] + seq!['.'] + seq!['2', '5']);
    lemma_part_of_one(seq!['0'], seq!['2', '5']);
    reveal_strlit("0.80");
    assert("0.80"@ =~= seq!['0'] + seq!['.'] + seq!['8', '0']);
    lemma_part_of_one(seq!['0'], seq!['8', '0']);
    reveal_strlit("0.90");
    assert("0.90"@ =~= seq!['0'] + seq!['.'] + seq!['9', '0']);
    lemma_part_of_one(seq!['0'], seq!['9', '0']);
    reveal_strlit("0.92");
    assert("0.92"@ =~= seq!['0'] + seq!['.'] + seq!['9', '2']);
    lemma_part_of_one(seq!['0'], seq!['9', '2']);
    reveal_strlit("1.0");
    assert("1.0"@ =~= seq!['1'] + seq!['.'] + seq!['0']);
    lemma_part_of_one(seq!['1'], seq!['0']);
}

proof fn lemma_switches()
    ensures
        validated(KindView::Bool, "true"@) is Ok,
        validated(KindView::Bool, "false"@) is Ok,
{
    reveal_strlit("true");
    reveal_strlit("false");
    lemma_trim_id("true"@);
    lemma_trim_id("false"@);
    assert(lowered("true"@) =~= "true"@);
    assert(lowered("false"@) =~= "false"@);
}

/// The settings that the presets give values to.
proof fn lemma_preset_keys()
    ensures
        setting_at("general.gaps_in"@) matches Some(s) && s.kind == (KindView::Int { min: 0, max: 60 }),
        setting_at("general.gaps_out"@) matches Some(s) && s.kind == (KindView::Int { min: 0, max: 100 }),
        setting_at("general.border_size"@) matches Some(s) && s.kind == (KindView::Int { min: 0, max: 12 }),
        setting_at("decoration.rounding"@) matches Some(s) && s.kind == (KindView::Int { min: 0, max: 30 }),
        setting_at("decoration.blur.enabled"@) matches Some(s) && s.kind == (KindView::Bool),
        setting_at("decoration.shadow.enabled"@) matches Some(s) && s.kind == (KindView::Bool),
        setting_at("decoration.active_opacity"@) matches Some(s) && s.kind == (KindView::Float { min: 0, max: 1000000 }),
        setting_at("decoration.inactive_opacity"@) matches Some(s) && s.kind == (KindView::Float { min: 0, max: 1000000 }),
        setting_at("decoration.blur.size"@) matches Some(s) && s.kind == (KindView::Int { min: 1, max: 20 }),
        setting_at("decoration.blur.passes"@) matches Some(s) && s.kind == (KindView::Int { min: 1, max: 6 }),
        setting_at("decoration.shadow.range"@) matches Some(s) && s.kind == (KindView::Int { min: 0, max: 60 }),
        setting_at("decoration.dim_inactive"@) matches Some(s) && s.kind == (KindView::Bool),
        setting_at("decoration.dim_strength"@) matches Some(s) && s.kind == (KindView::Float { min: 0, max: 1000000 }),
{
    lemma_places();
    lemma_found(0);
    assert(all_settings()[0].key == "general.gaps_in"@);
    lemma_found(1);
    assert(all_settings()[1].key == "general.gaps_out"@);
    lemma_found(2);
    assert(all_settings()[2].key == "general.border_size"@);
    lemma_found(22);
    assert(all_settings()[22].key == "decoration.rounding"@);
    lemma_found(29);
    assert(all_settings()[29].key == "decoration.blur.enabled"@);
    lemma_found(37);
    assert(all_settings()[37].key == "decoration.shadow.enabled"@);
    lemma_found(23);
    assert(all_settings()[23].key == "decoration.active_opacity"@);
    lemma_found(24);
    assert(all_settings()[24].key == "decoration.inactive_opacity"@);
    lemma_found(30);
    assert(all_settings()[30].key == "decoration.blur.size"@);
    lemma_found(31);
    assert(all_settings()[31].key == "decoration.blur.passes"@);
    lemma_found(38);
    assert(all_settings()[38].key == "decoration.shadow.range"@);
    lemma_found(26);
    assert(all_settings()[26].key == "decoration.dim_inactive"@);
    lemma_found(27);
    assert(all_settings()[27].key == "decoration.dim_strength"@);
}

/// Every key of a preset is a setting, and its value is one that the setting takes:
/// none is passed over when the preset is applied.
pub proof fn law_presets_are_accepted(p: PresetView, i: int)
    requires
        all_presets().contains(p),
        0 <= i < p.values.len(),
    ensures
        setting_at(p.values[i].0) is Some,
        accepted(p.values[i].0, p.values[i].1) is Some,
        preset_values(p.values).dom().contains(p.values[i].0),
{
    lemma_preset_keys();
    lemma_numerals();
    lemma_decimals();
    lemma_switches();
    lemma_whole(0, 60, 0);
    lemma_whole(0, 100, 0);
    lemma_whole(0, 12, 1);
    lemma_whole(0, 30, 0);
    lemma_whole(0, 60, 8);
    lemma_whole(0, 100, 16);
    lemma_whole(0, 12, 2);
    lemma_whole(0, 30, 12);
    lemma_whole(1, 20, 6);
    lemma_whole(1, 6, 3);
    lemma_whole(0, 60, 12);
    lemma_whole(0, 60, 6);
    lemma_whole(0, 100, 12);
    lemma_whole(0, 30, 10);
    lemma_whole(1, 20, 8);
    lemma_whole(1, 6, 4);
    lemma_whole(0, 60, 4);
    lemma_whole(0, 100, 8);
    lemma_whole(0, 30, 8);
    reveal(all_presets);
    let k = choose|k: int| 0 <= k < all_presets().len() && all_presets()[k] == p;
    assert(accepted(p.values[i].0, p.values[i].1) is Some);
    lemma_accepted_is_there(p.values, i);
}

proof fn lemma_accepted_is_there(values: Seq<(Seq<char>, Seq<char>)>, i: int)
    requires
        0 <= i < values.len(),
        accepted(values[i].0, values[i].1) is Some,
    ensures
        preset_values(values).dom().contains(values[i].0),
    decreases values.len(),
{
    if i < values.len() - 1 {
        assert(values.drop_last()[i] == values[i]);
        lemma_accepted_is_there(values.drop_last(), i);
    }
}

} // verus!
