//! What holds of the look and feel settings as a whole.

use vstd::prelude::*;

use crate::decimal::{
    DecimalView, NumberView, decimal_text, lemma_number_reads_back, number_text, parse_number, zeros,
};
use crate::looknfeel::nested::{is_line_value, is_name_char};
use crate::looknfeel::schema::{
    all_settings, behavior_settings, blur_settings, decoration_settings, input_settings,
    layout_settings, shadow_settings, touchpad_settings, windows_settings,
};
use crate::looknfeel::{KindView, SettingView, group_names, groups_of, validated};
use crate::number::{all_digits, int_text, lemma_parse_of_text, parse_i64};
use crate::split::{lemma_trim_id, lemma_trim_result};
use crate::text::{holds, is_digit, is_space, lowered, trim};

verus! {

/// A text of letters, digits, points, dashes and underscores.
pub open spec fn is_plain(v: Seq<char>) -> bool {
    v.len() > 0 && forall|i: int|
        0 <= i < v.len() ==> is_name_char(#[trigger] v[i]) || v[i] == '.'
}

/// Names with single dots between them.
pub open spec fn is_tidy_key(k: Seq<char>) -> bool {
    &&& k.len() > 0
    &&& k[0] != '.'
    &&& k.last() != '.'
    &&& forall|i: int| 0 <= i < k.len() ==> is_name_char(#[trigger] k[i]) || k[i] == '.'
    &&& forall|i: int| 0 <= i < k.len() - 1 && #[trigger] k[i] == '.' ==> k[i + 1] != '.'
}

pub open spec fn is_tidy(s: SettingView) -> bool {
    &&& is_tidy_key(s.key)
    &&& holds(s.key, '.')
    &&& s.kind matches KindView::Enum(opts) ==> forall|i: int|
        0 <= i < opts.len() ==> is_plain(#[trigger] opts[i])
}

pub open spec fn all_tidy(all: Seq<SettingView>) -> bool {
    forall|i: int| 0 <= i < all.len() ==> is_tidy(#[trigger] all[i])
}

proof fn lemma_windows_tidy()
    ensures
        all_tidy(windows_settings()),
{
    assert(is_tidy_key("general.gaps_in"@) && holds("general.gaps_in"@, '.')) by {
        reveal_strlit("general.gaps_in");
        assert("general.gaps_in"@[7] == '.');
    }
    assert(is_tidy_key("general.gaps_out"@) && holds("general.gaps_out"@, '.')) by {
        reveal_strlit("general.gaps_out");
        assert("general.gaps_out"@[7] == '.');
    }
    assert(is_tidy_key("general.border_size"@) && holds("general.border_size"@, '.')) by {
        reveal_strlit("general.border_size");
        assert("general.border_size"@[7] == '.');
    }
    assert(is_tidy_key("general.extend_border_grab_area"@) && holds("general.extend_border_grab_area"@, '.')) by {
        reveal_strlit("general.extend_border_grab_area");
        assert("general.extend_border_grab_area"@[7] == '.');
    }
    assert(is_tidy_key("general.resize_on_border"@) && holds("general.resize_on_border"@, '.')) by {
        reveal_strlit("general.resize_on_border");
        assert("general.resize_on_border"@[7] == '.');
    }
    assert(is_tidy_key("general.layout"@) && holds("general.layout"@, '.')) by {
        reveal_strlit("general.layout");
        assert("general.layout"@[7] == '.');
    }
    assert(is_plain("dwindle"@)) by {
        reveal_strlit("dwindle");
    }
    assert(is_plain("master"@)) by {
        reveal_strlit("master");
    }
    assert(is_plain("scrolling"@)) by {
        reveal_strlit("scrolling");
    }
}

proof fn lemma_layout_tidy()
    ensures
        all_tidy(layout_settings()),
{
    assert(is_tidy_key("dwindle.force_split"@) && holds("dwindle.force_split"@, '.')) by {
        reveal_strlit("dwindle.force_split");
        assert("dwindle.force_split"@[7] == '.');
    }
    assert(is_tidy_key("dwindle.preserve_split"@) && holds("dwindle.preserve_split"@, '.')) by {
        reveal_strlit("dwindle.preserve_split");
        assert("dwindle.preserve_split"@[7] == '.');
    }
    assert(is_tidy_key("dwindle.smart_split"@) && holds("dwindle.smart_split"@, '.')) by {
        reveal_strlit("dwindle.smart_split");
        assert("dwindle.smart_split"@[7] == '.');
    }
    assert(is_tidy_key("master.new_status"@) && holds("master.new_status"@, '.')) by {
        reveal_strlit("master.new_status");
        assert("master.new_status"@[6] == '.');
    }
    assert(is_plain("master"@)) by {
        reveal_strlit("master");
    }
    assert(is_plain("slave"@)) by {
        reveal_strlit("slave");
    }
    assert(is_plain("inherit"@)) by {
        reveal_strlit("inherit");
    }
}

proof fn lemma_behavior_tidy()
    ensures
        all_tidy(behavior_settings()),
{
    assert(is_tidy_key("general.allow_tearing"@) && holds("general.allow_tearing"@, '.')) by {
        reveal_strlit("general.allow_tearing");
        assert("general.allow_tearing"@[7] == '.');
    }
    assert(is_tidy_key("misc.focus_on_activate"@) && holds("misc.focus_on_activate"@, '.')) by {
        reveal_strlit("misc.focus_on_activate");
        assert("misc.focus_on_activate"@[4] == '.');
    }
    assert(is_tidy_key("misc.disable_hyprland_logo"@) && holds("misc.disable_hyprland_logo"@, '.')) by {
        reveal_strlit("misc.disable_hyprland_logo");
        assert("misc.disable_hyprland_logo"@[4] == '.');
    }
    assert(is_tidy_key("misc.vrr"@) && holds("misc.vrr"@, '.')) by {
        reveal_strlit("misc.vrr");
        assert("misc.vrr"@[4] == '.');
    }
    assert(is_tidy_key("misc.middle_click_paste"@) && holds("misc.middle_click_paste"@, '.')) by {
        reveal_strlit("misc.middle_click_paste");
        assert("misc.middle_click_paste"@[4] == '.');
    }
    assert(is_tidy_key("misc.enable_swallow"@) && holds("misc.enable_swallow"@, '.')) by {
        reveal_strlit("misc.enable_swallow");
        assert("misc.enable_swallow"@[4] == '.');
    }
    assert(is_tidy_key("misc.key_press_enables_dpms"@) && holds("misc.key_press_enables_dpms"@, '.')) by {
        reveal_strlit("misc.key_press_enables_dpms");
        assert("misc.key_press_enables_dpms"@[4] == '.');
    }
    assert(is_tidy_key("misc.mouse_move_enables_dpms"@) && holds("misc.mouse_move_enables_dpms"@, '.')) by {
        reveal_strlit("misc.mouse_move_enables_dpms");
        assert("misc.mouse_move_enables_dpms"@[4] == '.');
    }
    assert(is_tidy_key("binds.workspace_back_and_forth"@) && holds("binds.workspace_back_and_forth"@, '.')) by {
        reveal_strlit("binds.workspace_back_and_forth");
        assert("binds.workspace_back_and_forth"@[5] == '.');
    }
    assert(is_tidy_key("binds.allow_workspace_cycles"@) && holds("binds.allow_workspace_cycles"@, '.')) by {
        reveal_strlit("binds.allow_workspace_cycles");
        assert("binds.allow_workspace_cycles"@[5] == '.');
    }
    assert(is_tidy_key("xwayland.force_zero_scaling"@) && holds("xwayland.force_zero_scaling"@, '.')) by {
        reveal_strlit("xwayland.force_zero_scaling");
        assert("xwayland.force_zero_scaling"@[8] == '.');
    }
    assert(is_tidy_key("cursor.hide_on_key_press"@) && holds("cursor.hide_on_key_press"@, '.')) by {
        reveal_strlit("cursor.hide_on_key_press");
        assert("cursor.hide_on_key_press"@[6] == '.');
    }
}

proof fn lemma_decoration_tidy()
    ensures
        all_tidy(decoration_settings()),
{
    assert(is_tidy_key("decoration.rounding"@) && holds("decoration.rounding"@, '.')) by {
        reveal_strlit("decoration.rounding");
        assert("decoration.rounding"@[10] == '.');
    }
    assert(is_tidy_key("decoration.active_opacity"@) && holds("decoration.active_opacity"@, '.')) by {
        reveal_strlit("decoration.active_opacity");
        assert("decoration.active_opacity"@[10] == '.');
    }
    assert(is_tidy_key("decoration.inactive_opacity"@) && holds("decoration.inactive_opacity"@, '.')) by {
        reveal_strlit("decoration.inactive_opacity");
        assert("decoration.inactive_opacity"@[10] == '.');
    }
    assert(is_tidy_key("decoration.fullscreen_opacity"@) && holds("decoration.fullscreen_opacity"@, '.')) by {
        reveal_strlit("decoration.fullscreen_opacity");
        assert("decoration.fullscreen_opacity"@[10] == '.');
    }
    assert(is_tidy_key("decoration.dim_inactive"@) && holds("decoration.dim_inactive"@, '.')) by {
        reveal_strlit("decoration.dim_inactive");
        assert("decoration.dim_inactive"@[10] == '.');
    }
    assert(is_tidy_key("decoration.dim_strength"@) && holds("decoration.dim_strength"@, '.')) by {
        reveal_strlit("decoration.dim_strength");
        assert("decoration.dim_strength"@[10] == '.');
    }
    assert(is_tidy_key("decoration.dim_special"@) && holds("decoration.dim_special"@, '.')) by {
        reveal_strlit("decoration.dim_special");
        assert("decoration.dim_special"@[10] == '.');
    }
}

proof fn lemma_blur_tidy()
    ensures
        all_tidy(blur_settings()),
{
    assert(is_tidy_key("decoration.blur.enabled"@) && holds("decoration.blur.enabled"@, '.')) by {
        reveal_strlit("decoration.blur.enabled");
        assert("decoration.blur.enabled"@[10] == '.');
    }
    assert(is_tidy_key("decoration.blur.size"@) && holds("decoration.blur.size"@, '.')) by {
        reveal_strlit("decoration.blur.size");
        assert("decoration.blur.size"@[10] == '.');
    }
    assert(is_tidy_key("decoration.blur.passes"@) && holds("decoration.blur.passes"@, '.')) by {
        reveal_strlit("decoration.blur.passes");
        assert("decoration.blur.passes"@[10] == '.');
    }
    assert(is_tidy_key("decoration.blur.special"@) && holds("decoration.blur.special"@, '.')) by {
        reveal_strlit("decoration.blur.special");
        assert("decoration.blur.special"@[10] == '.');
    }
    assert(is_tidy_key("decoration.blur.brightness"@) && holds("decoration.blur.brightness"@, '.')) by {
        reveal_strlit("decoration.blur.brightness");
        assert("decoration.blur.brightness"@[10] == '.');
    }
    assert(is_tidy_key("decoration.blur.contrast"@) && holds("decoration.blur.contrast"@, '.')) by {
        reveal_strlit("decoration.blur.contrast");
        assert("decoration.blur.contrast"@[10] == '.');
    }
    assert(is_tidy_key("decoration.blur.noise"@) && holds("decoration.blur.noise"@, '.')) by {
        reveal_strlit("decoration.blur.noise");
        assert("decoration.blur.noise"@[10] == '.');
    }
    assert(is_tidy_key("decoration.blur.popups"@) && holds("decoration.blur.popups"@, '.')) by {
        reveal_strlit("decoration.blur.popups");
        assert("decoration.blur.popups"@[10] == '.');
    }
}

proof fn lemma_shadow_tidy()
    ensures
        all_tidy(shadow_settings()),
{
    assert(is_tidy_key("decoration.shadow.enabled"@) && holds("decoration.shadow.enabled"@, '.')) by {
        reveal_strlit("decoration.shadow.enabled");
        assert("decoration.shadow.enabled"@[10] == '.');
    }
    assert(is_tidy_key("decoration.shadow.range"@) && holds("decoration.shadow.range"@, '.')) by {
        reveal_strlit("decoration.shadow.range");
        assert("decoration.shadow.range"@[10] == '.');
    }
    assert(is_tidy_key("decoration.shadow.render_power"@) && holds("decoration.shadow.render_power"@, '.')) by {
        reveal_strlit("decoration.shadow.render_power");
        assert("decoration.shadow.render_power"@[10] == '.');
    }
}

proof fn lemma_input_tidy()
    ensures
        all_tidy(input_settings()),
{
    assert(is_tidy_key("input.sensitivity"@) && holds("input.sensitivity"@, '.')) by {
        reveal_strlit("input.sensitivity");
        assert("input.sensitivity"@[5] == '.');
    }
    assert(is_tidy_key("input.follow_mouse"@) && holds("input.follow_mouse"@, '.')) by {
        reveal_strlit("input.follow_mouse");
        assert("input.follow_mouse"@[5] == '.');
    }
    assert(is_tidy_key("input.accel_profile"@) && holds("input.accel_profile"@, '.')) by {
        reveal_strlit("input.accel_profile");
        assert("input.accel_profile"@[5] == '.');
    }
    assert(is_tidy_key("input.force_no_accel"@) && holds("input.force_no_accel"@, '.')) by {
        reveal_strlit("input.force_no_accel");
        assert("input.force_no_accel"@[5] == '.');
    }
    assert(is_tidy_key("input.left_handed"@) && holds("input.left_handed"@, '.')) by {
        reveal_strlit("input.left_handed");
        assert("input.left_handed"@[5] == '.');
    }
    assert(is_tidy_key("input.repeat_rate"@) && holds("input.repeat_rate"@, '.')) by {
        reveal_strlit("input.repeat_rate");
        assert("input.repeat_rate"@[5] == '.');
    }
    assert(is_tidy_key("input.repeat_delay"@) && holds("input.repeat_delay"@, '.')) by {
        reveal_strlit("input.repeat_delay");
        assert("input.repeat_delay"@[5] == '.');
    }
    assert(is_tidy_key("input.numlock_by_default"@) && holds("input.numlock_by_default"@, '.')) by {
        reveal_strlit("input.numlock_by_default");
        assert("input.numlock_by_default"@[5] == '.');
    }
    assert(is_tidy_key("input.natural_scroll"@) && holds("input.natural_scroll"@, '.')) by {
        reveal_strlit("input.natural_scroll");
        assert("input.natural_scroll"@[5] == '.');
    }
    assert(is_tidy_key("input.scroll_factor"@) && holds("input.scroll_factor"@, '.')) by {
        reveal_strlit("input.scroll_factor");
        assert("input.scroll_factor"@[5] == '.');
    }
    assert(is_tidy_key("input.scroll_method"@) && holds("input.scroll_method"@, '.')) by {
        reveal_strlit("input.scroll_method");
        assert("input.scroll_method"@[5] == '.');
    }
    assert(is_plain("adaptive"@)) by {
        reveal_strlit("adaptive");
    }
    assert(is_plain("flat"@)) by {
        reveal_strlit("flat");
    }
    assert(is_plain("2fg"@)) by {
        reveal_strlit("2fg");
    }
    assert(is_plain("edge"@)) by {
        reveal_strlit("edge");
    }
    assert(is_plain("on_button_down"@)) by {
        reveal_strlit("on_button_down");
    }
    assert(is_plain("no_scroll"@)) by {
        reveal_strlit("no_scroll");
    }
}

proof fn lemma_touchpad_tidy()
    ensures
        all_tidy(touchpad_settings()),
{
    assert(is_tidy_key("input.touchpad.natural_scroll"@) && holds("input.touchpad.natural_scroll"@, '.')) by {
        reveal_strlit("input.touchpad.natural_scroll");
        assert("input.touchpad.natural_scroll"@[5] == '.');
    }
    assert(is_tidy_key("input.touchpad.disable_while_typing"@) && holds("input.touchpad.disable_while_typing"@, '.')) by {
        reveal_strlit("input.touchpad.disable_while_typing");
        assert("input.touchpad.disable_while_typing"@[5] == '.');
    }
    assert(is_tidy_key("input.touchpad.tap-to-click"@) && holds("input.touchpad.tap-to-click"@, '.')) by {
        reveal_strlit("input.touchpad.tap-to-click");
        assert("input.touchpad.tap-to-click"@[5] == '.');
    }
    assert(is_tidy_key("input.touchpad.drag_lock"@) && holds("input.touchpad.drag_lock"@, '.')) by {
        reveal_strlit("input.touchpad.drag_lock");
        assert("input.touchpad.drag_lock"@[5] == '.');
    }
    assert(is_tidy_key("input.touchpad.middle_button_emulation"@) && holds("input.touchpad.middle_button_emulation"@, '.')) by {
        reveal_strlit("input.touchpad.middle_button_emulation");
        assert("input.touchpad.middle_button_emulation"@[5] == '.');
    }
}

/// Every key is made of names, and every choice is plain.
pub proof fn lemma_settings_tidy()
    ensures
        all_tidy(all_settings()),
{
    lemma_windows_tidy();
    lemma_layout_tidy();
    lemma_behavior_tidy();
    lemma_decoration_tidy();
    lemma_blur_tidy();
    lemma_shadow_tidy();
    lemma_input_tidy();
    lemma_touchpad_tidy();
    reveal(all_settings);
}

proof fn lemma_plain_sum(a: Seq<char>, b: Seq<char>)
    requires
        a.len() == 0 || is_plain(a),
        b.len() == 0 || is_plain(b),
    ensures
        (a + b).len() == 0 || is_plain(a + b),
{
    let s = a + b;
    assert forall|i: int| 0 <= i < s.len() implies is_name_char(#[trigger] s[i]) || s[i] == '.' by {
        if i < a.len() {
            assert(s[i] == a[i]);
        } else {
            assert(s[i] == b[i - a.len()]);
        }
    }
}

proof fn lemma_digits_plain(s: Seq<char>)
    requires
        all_digits(s),
    ensures
        s.len() == 0 || is_plain(s),
{
}

proof fn lemma_decimal_plain(d: DecimalView)
    requires
        all_digits(d.digits),
    ensures
        is_plain(decimal_text(d)),
{
    let n = d.digits.len();
    let sign = if d.negative {
        seq!['-']
    } else {
        seq![]
    };
    lemma_digits_plain(d.digits);
    let body = if n == 0 {
        seq!['0']
    } else if d.point <= 0 {
        lemma_plain_sum(seq!['0', '.'], zeros((-d.point) as nat));
        lemma_plain_sum(seq!['0', '.'] + zeros((-d.point) as nat), d.digits);
        seq!['0', '.'] + zeros((-d.point) as nat) + d.digits
    } else if d.point >= n {
        lemma_plain_sum(d.digits, zeros((d.point - n) as nat));
        d.digits + zeros((d.point - n) as nat)
    } else {
        let a = d.digits.take(d.point);
        let b = d.digits.skip(d.point);
        assert(all_digits(a));
        assert(all_digits(b)) by {
            assert forall|i: int| 0 <= i < b.len() implies is_digit(#[trigger] b[i]) by {
                assert(b[i] == d.digits[d.point + i]);
            }
        }
        lemma_plain_sum(a, seq!['.']);
        lemma_plain_sum(a + seq!['.'], b);
        a + seq!['.'] + b
    };
    lemma_plain_sum(sign, body);
}

/// A value that a setting accepts is written plainly.
pub proof fn lemma_valid_plain(s: SettingView, raw: Seq<char>)
    requires
        all_settings().contains(s),
    ensures
        validated(s.kind, raw) matches Ok(v) ==> is_plain(v),
{
    lemma_settings_tidy();
    let i = choose|i: int| 0 <= i < all_settings().len() && all_settings()[i] == s;
    assert(is_tidy(all_settings()[i]));
    let t = trim(raw);
    match s.kind {
        KindView::Int { min, max } => {
            if let Some(v) = parse_i64(t) {
                lemma_parse_of_text(v as int);
                assert(is_plain(int_text(v as int)));
            }
        },
        KindView::Float { min, max } => {
            if let Some(v) = parse_number(t) {
                reveal_strlit("NaN");
                reveal_strlit("inf");
                reveal_strlit("-inf");
                crate::decimal::lemma_parsed_digits(t);
                match v {
                    NumberView::Finite(d) => {
                        lemma_decimal_plain(d);
                    },
                    NumberView::NotANumber => {
                        assert(is_plain("NaN"@));
                    },
                    NumberView::Infinite(negative) => {
                        assert(is_plain("inf"@));
                        assert(is_plain("-inf"@));
                    },
                }
            }
        },
        KindView::Bool => {
            reveal_strlit("true");
            reveal_strlit("false");
            assert(is_plain("true"@));
            assert(is_plain("false"@));
        },
        KindView::Enum(opts) => {
            if opts.contains(t) {
                let k = choose|k: int| 0 <= k < opts.len() && opts[k] == t;
                assert(is_plain(opts[k]));
            }
        },
    }
}

/// A plain text fits on a line.
pub proof fn lemma_plain_fits(v: Seq<char>)
    requires
        is_plain(v),
    ensures
        is_line_value(v),
        !holds(v, '#'),
{
    assert(is_name_char(v[0]) || v[0] == '.');
    assert(is_name_char(v[v.len() - 1]) || v[v.len() - 1] == '.');
}

/// A value that a setting accepts fits on a line.
pub proof fn lemma_valid_fits(s: SettingView, raw: Seq<char>)
    requires
        all_settings().contains(s),
    ensures
        validated(s.kind, raw) matches Ok(v) ==> is_line_value(v),
{
    lemma_valid_plain(s, raw);
    if let Ok(v) = validated(s.kind, raw) {
        lemma_plain_fits(v);
    }
}

/// A value that was accepted is accepted again, as it is.
pub proof fn law_valid_value_stays(k: KindView, raw: Seq<char>)
    ensures
        validated(k, raw) matches Ok(v) ==> validated(k, v) == Ok::<Seq<char>, Seq<char>>(v),
{
    let t = trim(raw);
    match k {
        KindView::Int { min, max } => {
            if let Some(v) = parse_i64(t) {
                let text = int_text(v as int);
                lemma_parse_of_text(v as int);
                assert(!is_space(text[0]) && !is_space(text[text.len() - 1]));
                lemma_trim_id(text);
            }
        },
        KindView::Float { min, max } => {
            if let Some(v) = parse_number(t) {
                lemma_number_reads_back(t);
                lemma_trim_id(number_text(v));
            }
        },
        KindView::Bool => {
            reveal_strlit("true");
            reveal_strlit("false");
            reveal_strlit("yes");
            reveal_strlit("on");
            reveal_strlit("1");
            lemma_trim_id("true"@);
            lemma_trim_id("false"@);
            assert(lowered("true"@) == "true"@);
            assert(lowered("false"@) == "false"@);
            assert("false"@[0] == 'f' && "true"@[0] == 't');
        },
        KindView::Enum(opts) => {
            lemma_trim_result(raw);
            lemma_trim_id(t);
        },
    }
}

// ----------------------------------------------------------------------- groups

spec fn all_in(part: Seq<SettingView>, group: Seq<char>) -> bool {
    part.len() > 0 && forall|i: int| 0 <= i < part.len() ==> (#[trigger] part[i]).group == group
}

/// Settings of one new group add that group behind the others.
proof fn lemma_group_added(all: Seq<SettingView>, part: Seq<SettingView>, group: Seq<char>)
    requires
        all_in(part, group),
        !groups_of(all).contains(group),
    ensures
        groups_of(all + part) == groups_of(all).push(group),
    decreases part.len(),
{
    let front = part.drop_last();
    let sum = all + part;
    assert(sum.drop_last() == all + front);
    assert(sum.last() == part[part.len() - 1]);
    if front.len() == 0 {
        assert(all + front == all);
    } else {
        assert forall|i: int| 0 <= i < front.len() implies (#[trigger] front[i]).group == group by {
            assert(front[i] == part[i]);
        }
        lemma_group_added(all, front, group);
        let before = groups_of(all).push(group);
        assert(before[before.len() - 1] == group);
        assert(before.contains(group));
    }
}

proof fn lemma_parts_grouped()
    ensures
        all_in(windows_settings(), "Windows"@),
        all_in(layout_settings(), "Layout"@),
        all_in(behavior_settings(), "Behavior"@),
        all_in(decoration_settings(), "Decoration"@),
        all_in(blur_settings(), "Blur"@),
        all_in(shadow_settings(), "Shadow"@),
        all_in(input_settings(), "Input"@),
        all_in(touchpad_settings(), "Touchpad"@),
{
}

proof fn lemma_group_names_differ()
    ensures
        group_names().no_duplicates(),
{
    reveal_strlit("Windows");
    reveal_strlit("Layout");
    reveal_strlit("Behavior");
    reveal_strlit("Decoration");
    reveal_strlit("Blur");
    reveal_strlit("Shadow");
    reveal_strlit("Input");
    reveal_strlit("Touchpad");
    let all = group_names();
    assert forall|i: int, j: int| 0 <= i < j < all.len() implies all[i] != all[j] by {
        assert(all[i][0] != all[j][0] || all[i].len() != all[j].len());
    }
}

/// The groups of the settings are the eight that are listed, in that order.
pub proof fn lemma_groups()
    ensures
        groups_of(all_settings()) == group_names(),
{
    reveal(all_settings);
    lemma_parts_grouped();
    lemma_group_names_differ();
    let g = group_names();
    let s0 = Seq::<SettingView>::empty();
    let s1 = windows_settings();
    let s2 = s1 + layout_settings();
    let s3 = s2 + behavior_settings();
    let s4 = s3 + decoration_settings();
    let s5 = s4 + blur_settings();
    let s6 = s5 + shadow_settings();
    let s7 = s6 + input_settings();
    assert(groups_of(s0) == g.take(0));
    assert(s0 + windows_settings() == s1);
    lemma_group_next(s0, windows_settings(), 0);
    lemma_group_next(s1, layout_settings(), 1);
    lemma_group_next(s2, behavior_settings(), 2);
    lemma_group_next(s3, decoration_settings(), 3);
    lemma_group_next(s4, blur_settings(), 4);
    lemma_group_next(s5, shadow_settings(), 5);
    lemma_group_next(s6, input_settings(), 6);
    lemma_group_next(s7, touchpad_settings(), 7);
    assert(g.take(8) == g);
}

proof fn lemma_group_next(all: Seq<SettingView>, part: Seq<SettingView>, n: int)
    requires
        0 <= n < group_names().len(),
        groups_of(all) == group_names().take(n),
        all_in(part, group_names()[n]),
    ensures
        groups_of(all + part) == group_names().take(n + 1),
{
    let g = group_names();
    lemma_group_names_differ();
    assert(!g.take(n).contains(g[n])) by {
        if g.take(n).contains(g[n]) {
            let i = choose|i: int| 0 <= i < n && g.take(n)[i] == g[n];
            assert(g[i] == g[n]);
        }
    }
    lemma_group_added(all, part, g[n]);
    assert(g.take(n).push(g[n]) == g.take(n + 1));
}

} // verus!
