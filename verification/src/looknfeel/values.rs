//! What holds of a setting's value: where it comes from, and which one is taken.

use vstd::prelude::*;

use crate::decimal::{fixed_text, lemma_fixed_is_exact};
use crate::looknfeel::model::{
    accepted, base_value, found_in, preset_values, said, shown_value, Sources, Values,
};
use crate::looknfeel::schema::{
    all_settings, behavior_settings, blur_settings, decoration_settings, input_settings,
    layout_settings, shadow_settings, touchpad_settings, windows_settings,
};
use crate::looknfeel::{
    coloned, comment_from, groups_of, preset_of, setting_at, uncommented, validated, KindView,
    PresetView, SettingView, Target,
};
use crate::number::{int_text, lemma_parse_of_text};
use crate::split::lemma_trim_id;
use crate::text::{is_digit, is_space, lowered, opt_str, starts_with, trim};

verus! {

// --------------------------------------------------------------------- the files

/// What the user's own file says of a setting counts, whatever Omarchy's file says;
/// the input files count before the others. Where the user's file is silent
/// Omarchy's counts, and where all are silent there is no value.
pub proof fn law_users_files_win(
    looknfeel: Sources<'_>,
    input: Sources<'_>,
    key: Seq<char>,
    v: Seq<char>,
)
    ensures
        said(opt_str(input.user), Target::Input, key) == Some(v) ==> base_value(
            looknfeel,
            input,
            key,
        ) == Some(v),
        said(opt_str(looknfeel.user), Target::Looknfeel, key) == Some(v) && said(
            opt_str(input.user),
            Target::Input,
            key,
        ) is None && said(opt_str(input.default), Target::Input, key) is None ==> base_value(
            looknfeel,
            input,
            key,
        ) == Some(v),
        said(opt_str(input.default), Target::Input, key) == Some(v) && said(
            opt_str(input.user),
            Target::Input,
            key,
        ) is None ==> base_value(looknfeel, input, key) == Some(v),
        said(opt_str(looknfeel.default), Target::Looknfeel, key) == Some(v) && said(
            opt_str(looknfeel.user),
            Target::Looknfeel,
            key,
        ) is None && said(opt_str(input.user), Target::Input, key) is None && said(
            opt_str(input.default),
            Target::Input,
            key,
        ) is None ==> base_value(looknfeel, input, key) == Some(v),
        base_value(looknfeel, input, key) is Some ==> said(
            opt_str(input.user),
            Target::Input,
            key,
        ) is Some || said(opt_str(input.default), Target::Input, key) is Some || said(
            opt_str(looknfeel.user),
            Target::Looknfeel,
            key,
        ) is Some || said(opt_str(looknfeel.default), Target::Looknfeel, key) is Some,
{
}

/// Whether the files' values of a model are those that loading some files gives.
pub open spec fn is_loaded(base: Values, looknfeel: Sources<'_>, input: Sources<'_>) -> bool {
    forall|key: Seq<char>| #[trigger]
        found_in(base, key) == if setting_at(key) is Some {
            base_value(looknfeel, input, key)
        } else {
            None
        }
}

/// After loading, a setting that no change overrides shows what the user's own file
/// says of it, whatever Omarchy's file says. For a file of looks no input file may
/// speak of the key.
pub proof fn law_loaded_value_is_the_users(
    base: Values,
    overrides: Values,
    looknfeel: Sources<'_>,
    input: Sources<'_>,
    key: Seq<char>,
    v: Seq<char>,
)
    requires
        is_loaded(base, looknfeel, input),
        setting_at(key) is Some,
        !overrides.dom().contains(key),
        said(opt_str(input.user), Target::Input, key) == Some(v) || said(
            opt_str(looknfeel.user),
            Target::Looknfeel,
            key,
        ) == Some(v) && said(opt_str(input.user), Target::Input, key) is None && said(
            opt_str(input.default),
            Target::Input,
            key,
        ) is None,
    ensures
        shown_value(base, overrides, key) == v,
{
    law_users_files_win(looknfeel, input, key, v);
    assert(found_in(base, key) == Some(v));
}

/// A change is what is shown, whatever the files say; without one it is what the
/// files say, and without that what Hyprland takes.
pub proof fn law_changes_are_shown_first(base: Values, overrides: Values, key: Seq<char>)
    ensures
        overrides.dom().contains(key) ==> shown_value(base, overrides, key) == overrides[key],
        !overrides.dom().contains(key) && base.dom().contains(key) ==> shown_value(
            base,
            overrides,
            key,
        ) == base[key],
        !overrides.dom().contains(key) && !base.dom().contains(key) ==> (match setting_at(key) {
            Some(s) => shown_value(base, overrides, key) == s.default,
            None => shown_value(base, overrides, key).len() == 0,
        }),
{
}

// ------------------------------------------------------------------- acceptance

/// A whole number is accepted just where it is in range, and stays as it is.
pub proof fn law_whole_numbers_in_range(min: int, max: int, n: i64)
    ensures
        validated(KindView::Int { min, max }, int_text(n as int)) is Ok <==> min <= n <= max,
        min <= n <= max ==> validated(KindView::Int { min, max }, int_text(n as int)) == Ok::<
            Seq<char>,
            Seq<char>,
        >(int_text(n as int)),
{
    let t = int_text(n as int);
    lemma_parse_of_text(n as int);
    assert(!is_space(t[0]) && !is_space(t[t.len() - 1]));
    lemma_trim_id(t);
}

/// A fraction in whole hundredths is accepted just where it is in range; the ends of
/// the range are in it.
pub proof fn law_fractions_in_range(min: int, max: int, m: i64)
    requires
        m % 10000 == 0,
    ensures
        validated(KindView::Float { min, max }, fixed_text(m as int)) is Ok <==> min <= m <= max,
{
    let t = fixed_text(m as int);
    lemma_fixed_is_exact(m);
    assert(is_digit(t[0]) || t[0] == '-' || t[0] == '.');
    let last = t[t.len() - 1];
    assert(is_digit(last) || last == '-' || last == '.');
    lemma_trim_id(t);
}

/// A switch takes four words for on and four for off, whatever their case and the
/// blanks around them, and no others.
pub proof fn law_switches_take_eight_words(raw: Seq<char>)
    ensures
        ({
            let w = lowered(trim(raw));
            let r = validated(KindView::Bool, raw);
            &&& w == "true"@ || w == "yes"@ || w == "on"@ || w == "1"@ ==> r == Ok::<
                Seq<char>,
                Seq<char>,
            >("true"@)
            &&& w == "false"@ || w == "no"@ || w == "off"@ || w == "0"@ ==> r == Ok::<
                Seq<char>,
                Seq<char>,
            >("false"@)
            &&& r is Ok ==> w == "true"@ || w == "yes"@ || w == "on"@ || w == "1"@ || w == "false"@
                || w == "no"@ || w == "off"@ || w == "0"@
        }),
{
    reveal_strlit("true");
    reveal_strlit("yes");
    reveal_strlit("on");
    reveal_strlit("1");
    reveal_strlit("false");
    reveal_strlit("no");
    reveal_strlit("off");
    reveal_strlit("0");
    assert("true"@[0] == 't' && "yes"@[0] == 'y' && "on"@[1] == 'n' && "1"@[0] == '1');
    assert("false"@[0] == 'f' && "no"@[0] == 'n' && "off"@[1] == 'f' && "0"@[0] == '0');
}

/// A choice takes each of its options, with blanks around it or without, as it is
/// spelled, and nothing else.
pub proof fn law_choices_take_their_options(opts: Seq<Seq<char>>, raw: Seq<char>)
    ensures
        validated(KindView::Enum(opts), raw) is Ok <==> exists|i: int|
            0 <= i < opts.len() && #[trigger] opts[i] == trim(raw),
        validated(KindView::Enum(opts), raw) matches Ok(v) ==> v == trim(raw),
{
    if opts.contains(trim(raw)) {
        let i = choose|i: int| 0 <= i < opts.len() && opts[i] == trim(raw);
        assert(opts[i] == trim(raw));
    }
    if exists|i: int| 0 <= i < opts.len() && #[trigger] opts[i] == trim(raw) {
        let i = choose|i: int| 0 <= i < opts.len() && #[trigger] opts[i] == trim(raw);
        assert(opts.contains(opts[i]));
    }
}

// ----------------------------------------------------------------------- spelling

/// A key is spelled for the compositor with a colon for each dot, and nothing else
/// changes.
pub proof fn law_dots_become_colons(key: Seq<char>)
    ensures
        coloned(key).len() == key.len(),
        forall|i: int|
            0 <= i < key.len() ==> #[trigger] coloned(key)[i] == (if key[i] == '.' {
                ':'
            } else {
                key[i]
            }),
{
}

/// A value without a `#` is taken as it is, but for the blanks around it; behind a
/// value a blank and a `#` begin a comment, whatever that says. A `#` inside a word
/// begins none.
pub proof fn law_comments_are_dropped(v: Seq<char>, blank: char, comment: Seq<char>)
    requires
        forall|i: int|
            0 <= i < v.len() && #[trigger] v[i] == '#' ==> i > 0 && !is_space(v[i - 1]),
        blank == ' ' || blank == '\t',
    ensures
        uncommented(v) == trim(v),
        uncommented(v + seq![blank, '#'] + comment) == trim(v),
{
    lemma_no_comment(v, 0);
    assert(v.take(v.len() as int) =~= v);
    let s = v + seq![blank, '#'] + comment;
    let k = v.len() + 1int;
    assert forall|j: int| 0 <= j < k && #[trigger] s[j] == '#' implies j > 0 && !is_space(
        s[j - 1],
    ) by {
        assert(v[j] == '#');
        assert(s[j - 1] == v[j - 1]);
    }
    lemma_comment_at(s, 0, k);
    assert(uncommented(s) == trim(s.take(k)));
    assert(s.take(k) =~= Seq::<char>::empty() + v + seq![blank]);
    assert(v =~= Seq::<char>::empty() + v + Seq::<char>::empty());
    lemma_trim_blank(v, blank);
}

proof fn lemma_trim_blank(v: Seq<char>, blank: char)
    requires
        is_space(blank),
    ensures
        trim(Seq::<char>::empty() + v + seq![blank]) == trim(v),
{
    let s = v + seq![blank];
    assert(Seq::<char>::empty() + v + seq![blank] =~= s);
    let t = crate::text::trim_start(v);
    crate::split::lemma_trim_start_result(v);
    lemma_trim_start_push(v, blank);
    if t.len() > 0 {
        assert(t.push(blank).drop_last() =~= t);
    }
    assert(s =~= v.push(blank));
}

proof fn lemma_trim_start_push(v: Seq<char>, blank: char)
    requires
        is_space(blank),
    ensures
        crate::text::trim_start(v).len() > 0 ==> crate::text::trim_start(v.push(blank))
            == crate::text::trim_start(v).push(blank),
        crate::text::trim_start(v).len() == 0 ==> crate::text::trim_start(v.push(blank)).len() == 0,
    decreases v.len(),
{
    let s = v.push(blank);
    if v.len() == 0 {
        assert(s.skip(1) =~= Seq::<char>::empty());
        assert(crate::text::trim_start(s) == crate::text::trim_start(s.skip(1)));
    } else {
        assert(s[0] == v[0]);
        assert(s.skip(1) =~= v.skip(1).push(blank));
        lemma_trim_start_push(v.skip(1), blank);
    }
}

proof fn lemma_no_comment(v: Seq<char>, i: int)
    requires
        forall|i: int|
            0 <= i < v.len() && #[trigger] v[i] == '#' ==> i > 0 && !is_space(v[i - 1]),
        0 <= i <= v.len(),
    ensures
        comment_from(v, i) == v.len(),
    decreases v.len() - i,
{
    if i < v.len() {
        lemma_no_comment(v, i + 1);
    }
}

proof fn lemma_comment_at(s: Seq<char>, i: int, k: int)
    requires
        0 <= i <= k < s.len(),
        k > 0,
        s[k] == '#',
        s[k - 1] == ' ' || s[k - 1] == '\t',
        forall|j: int|
            0 <= j < k && #[trigger] s[j] == '#' ==> j > 0 && !is_space(s[j - 1]),
    ensures
        comment_from(s, i) == k,
    decreases k - i,
{
    if i < k {
        lemma_comment_at(s, i + 1, k);
    }
}

// ------------------------------------------------------------------------ targets

/// A setting is written to the input file just where its key is one of the input's.
pub proof fn law_input_keys_go_to_the_input_file(s: SettingView)
    requires
        all_settings().contains(s),
    ensures
        s.target == Target::Input <==> starts_with(s.key, "input."@),
{
    reveal_strlit("input.");
    let i = choose|i: int| 0 <= i < all_settings().len() && all_settings()[i] == s;
    lemma_others_first();
    lemma_inputs_last();
}

proof fn lemma_starts(key: Seq<char>)
    requires
        key.len() > 0,
        key[0] != 'i',
    ensures
        !starts_with(key, "input."@),
{
    reveal_strlit("input.");
    if starts_with(key, "input."@) {
        assert(key.take(6)[0] == key[0]);
    }
}

proof fn lemma_windows_target()
    ensures
        forall|i: int|
            0 <= i < windows_settings().len() ==> (#[trigger] windows_settings()[i]).target == Target::Looknfeel
                && !starts_with(windows_settings()[i].key, "input."@),
{
    reveal_strlit("general.gaps_in");
    reveal_strlit("general.gaps_out");
    reveal_strlit("general.border_size");
    reveal_strlit("general.extend_border_grab_area");
    reveal_strlit("general.resize_on_border");
    reveal_strlit("general.layout");
    let all = windows_settings();
    assert forall|i: int| 0 <= i < all.len() implies (#[trigger] all[i]).target == Target::Looknfeel
        && !starts_with(all[i].key, "input."@) by {
        lemma_starts(all[i].key);
    }
}

proof fn lemma_layout_target()
    ensures
        forall|i: int|
            0 <= i < layout_settings().len() ==> (#[trigger] layout_settings()[i]).target == Target::Looknfeel
                && !starts_with(layout_settings()[i].key, "input."@),
{
    reveal_strlit("dwindle.force_split");
    reveal_strlit("dwindle.preserve_split");
    reveal_strlit("dwindle.smart_split");
    reveal_strlit("master.new_status");
    let all = layout_settings();
    assert forall|i: int| 0 <= i < all.len() implies (#[trigger] all[i]).target == Target::Looknfeel
        && !starts_with(all[i].key, "input."@) by {
        lemma_starts(all[i].key);
    }
}

proof fn lemma_behavior_target()
    ensures
        forall|i: int|
            0 <= i < behavior_settings().len() ==> (#[trigger] behavior_settings()[i]).target == Target::Looknfeel
                && !starts_with(behavior_settings()[i].key, "input."@),
{
    reveal_strlit("general.allow_tearing");
    reveal_strlit("misc.focus_on_activate");
    reveal_strlit("misc.disable_hyprland_logo");
    reveal_strlit("misc.vrr");
    reveal_strlit("misc.middle_click_paste");
    reveal_strlit("misc.enable_swallow");
    reveal_strlit("misc.key_press_enables_dpms");
    reveal_strlit("misc.mouse_move_enables_dpms");
    reveal_strlit("binds.workspace_back_and_forth");
    reveal_strlit("binds.allow_workspace_cycles");
    reveal_strlit("xwayland.force_zero_scaling");
    reveal_strlit("cursor.hide_on_key_press");
    let all = behavior_settings();
    assert forall|i: int| 0 <= i < all.len() implies (#[trigger] all[i]).target == Target::Looknfeel
        && !starts_with(all[i].key, "input."@) by {
        lemma_starts(all[i].key);
    }
}

proof fn lemma_decoration_target()
    ensures
        forall|i: int|
            0 <= i < decoration_settings().len() ==> (#[trigger] decoration_settings()[i]).target == Target::Looknfeel
                && !starts_with(decoration_settings()[i].key, "input."@),
{
    reveal_strlit("decoration.rounding");
    reveal_strlit("decoration.active_opacity");
    reveal_strlit("decoration.inactive_opacity");
    reveal_strlit("decoration.fullscreen_opacity");
    reveal_strlit("decoration.dim_inactive");
    reveal_strlit("decoration.dim_strength");
    reveal_strlit("decoration.dim_special");
    let all = decoration_settings();
    assert forall|i: int| 0 <= i < all.len() implies (#[trigger] all[i]).target == Target::Looknfeel
        && !starts_with(all[i].key, "input."@) by {
        lemma_starts(all[i].key);
    }
}

proof fn lemma_blur_target()
    ensures
        forall|i: int|
            0 <= i < blur_settings().len() ==> (#[trigger] blur_settings()[i]).target == Target::Looknfeel
                && !starts_with(blur_settings()[i].key, "input."@),
{
    reveal_strlit("decoration.blur.enabled");
    reveal_strlit("decoration.blur.size");
    reveal_strlit("decoration.blur.passes");
    reveal_strlit("decoration.blur.special");
    reveal_strlit("decoration.blur.brightness");
    reveal_strlit("decoration.blur.contrast");
    reveal_strlit("decoration.blur.noise");
    reveal_strlit("decoration.blur.popups");
    let all = blur_settings();
    assert forall|i: int| 0 <= i < all.len() implies (#[trigger] all[i]).target == Target::Looknfeel
        && !starts_with(all[i].key, "input."@) by {
        lemma_starts(all[i].key);
    }
}

proof fn lemma_shadow_target()
    ensures
        forall|i: int|
            0 <= i < shadow_settings().len() ==> (#[trigger] shadow_settings()[i]).target == Target::Looknfeel
                && !starts_with(shadow_settings()[i].key, "input."@),
{
    reveal_strlit("decoration.shadow.enabled");
    reveal_strlit("decoration.shadow.range");
    reveal_strlit("decoration.shadow.render_power");
    let all = shadow_settings();
    assert forall|i: int| 0 <= i < all.len() implies (#[trigger] all[i]).target == Target::Looknfeel
        && !starts_with(all[i].key, "input."@) by {
        lemma_starts(all[i].key);
    }
}

proof fn lemma_input_target()
    ensures
        forall|i: int|
            0 <= i < input_settings().len() ==> (#[trigger] input_settings()[i]).target == Target::Input
                && starts_with(input_settings()[i].key, "input."@),
{
    reveal_strlit("input.sensitivity");
    reveal_strlit("input.follow_mouse");
    reveal_strlit("input.accel_profile");
    reveal_strlit("input.force_no_accel");
    reveal_strlit("input.left_handed");
    reveal_strlit("input.repeat_rate");
    reveal_strlit("input.repeat_delay");
    reveal_strlit("input.numlock_by_default");
    reveal_strlit("input.natural_scroll");
    reveal_strlit("input.scroll_factor");
    reveal_strlit("input.scroll_method");
    reveal_strlit("input.");
    let all = input_settings();
    assert forall|i: int| 0 <= i < all.len() implies (#[trigger] all[i]).target == Target::Input
        && starts_with(all[i].key, "input."@) by {
        assert(all[i].key.take(6) =~= "input."@);
    }
}

proof fn lemma_touchpad_target()
    ensures
        forall|i: int|
            0 <= i < touchpad_settings().len() ==> (#[trigger] touchpad_settings()[i]).target == Target::Input
                && starts_with(touchpad_settings()[i].key, "input."@),
{
    reveal_strlit("input.touchpad.natural_scroll");
    reveal_strlit("input.touchpad.disable_while_typing");
    reveal_strlit("input.touchpad.tap-to-click");
    reveal_strlit("input.touchpad.drag_lock");
    reveal_strlit("input.touchpad.middle_button_emulation");
    reveal_strlit("input.");
    let all = touchpad_settings();
    assert forall|i: int| 0 <= i < all.len() implies (#[trigger] all[i]).target == Target::Input
        && starts_with(all[i].key, "input."@) by {
        assert(all[i].key.take(6) =~= "input."@);
    }
}

proof fn lemma_others_first()
    ensures
        forall|i: int|
            0 <= i < 40 ==> (#[trigger] all_settings()[i]).target == Target::Looknfeel
                && !starts_with(all_settings()[i].key, "input."@),
        all_settings().len() == 56,
{
    lemma_windows_target();
    lemma_layout_target();
    lemma_behavior_target();
    lemma_decoration_target();
    lemma_blur_target();
    lemma_shadow_target();
    reveal(all_settings);
}

proof fn lemma_inputs_last()
    ensures
        forall|i: int|
            40 <= i < all_settings().len() ==> (#[trigger] all_settings()[i]).target
                == Target::Input && starts_with(all_settings()[i].key, "input."@),
{
    lemma_input_target();
    lemma_touchpad_target();
    reveal(all_settings);
}

// -------------------------------------------------------------------- the lists

/// A preset is found by its name, and a name that none has finds none.
pub proof fn law_presets_are_found_by_name(all: Seq<PresetView>, name: Seq<char>)
    ensures
        match preset_of(all, name) {
            Some(p) => p.name == name && all.contains(p),
            None => forall|i: int| 0 <= i < all.len() ==> (#[trigger] all[i]).name != name,
        },
    decreases all.len(),
{
    if all.len() > 0 {
        let more = all.skip(1);
        law_presets_are_found_by_name(more, name);
        if all[0].name == name {
            assert(all.contains(all[0]));
        } else {
            match preset_of(more, name) {
                Some(p) => {
                    let i = choose|i: int| 0 <= i < more.len() && more[i] == p;
                    assert(all[i + 1] == p);
                },
                None => {
                    assert forall|i: int| 0 <= i < all.len() implies (#[trigger] all[i]).name
                        != name by {
                        if i > 0 {
                            assert(more[i - 1] == all[i]);
                        }
                    }
                },
            }
        }
    }
}

/// Every group that a setting belongs to is listed, no other is, and none twice.
pub proof fn law_groups_are_listed_once(all: Seq<SettingView>)
    ensures
        groups_of(all).no_duplicates(),
        forall|i: int| 0 <= i < all.len() ==> groups_of(all).contains((#[trigger] all[i]).group),
        forall|k: int|
            0 <= k < groups_of(all).len() ==> exists|i: int|
                0 <= i < all.len() && (#[trigger] all[i]).group == #[trigger] groups_of(all)[k],
    decreases all.len(),
{
    if all.len() > 0 {
        let front = all.drop_last();
        let was = groups_of(front);
        let now = groups_of(all);
        law_groups_are_listed_once(front);
        let last = all[all.len() - 1].group;
        if was.contains(last) {
            assert(now == was);
        } else {
            assert(now == was.push(last));
            assert(now[now.len() - 1] == last);
        }
        assert forall|i: int| 0 <= i < all.len() implies now.contains((#[trigger] all[i]).group) by {
            if i < front.len() {
                assert(front[i] == all[i]);
                let k = choose|k: int| 0 <= k < was.len() && was[k] == all[i].group;
                assert(now[k] == all[i].group);
            }
        }
        assert forall|k: int| 0 <= k < now.len() implies exists|i: int|
            0 <= i < all.len() && (#[trigger] all[i]).group == #[trigger] now[k] by {
            if k < was.len() {
                assert(now[k] == was[k]);
                let i = choose|i: int|
                    0 <= i < front.len() && (#[trigger] front[i]).group == was[k];
                assert(all[i].group == now[k]);
            } else {
                assert(all[all.len() - 1].group == now[k]);
            }
        }
    }
}

// ------------------------------------------------------------------- the presets

/// Under a preset a setting that the preset names shows the preset's own value,
/// the last where it names the setting twice. A setting that it does not name is
/// as the files have it, whatever was changed before.
pub proof fn law_preset_values_are_shown(
    base: Values,
    values: Seq<(Seq<char>, Seq<char>)>,
    i: int,
    other: Seq<char>,
)
    requires
        0 <= i < values.len(),
        accepted(values[i].0, values[i].1) is Some,
        forall|j: int| i < j < values.len() ==> (#[trigger] values[j]).0 != values[i].0,
        forall|j: int| 0 <= j < values.len() ==> (#[trigger] values[j]).0 != other,
    ensures
        setting_at(values[i].0) matches Some(s) && (validated(s.kind, values[i].1) matches Ok(v)
            && shown_value(base, preset_values(values), values[i].0) == v),
        shown_value(base, preset_values(values), other) == shown_value(base, Map::empty(), other),
{
    lemma_preset_values(values, i);
    lemma_preset_lacks(values, other);
}

proof fn lemma_preset_values(values: Seq<(Seq<char>, Seq<char>)>, i: int)
    requires
        0 <= i < values.len(),
        accepted(values[i].0, values[i].1) is Some,
        forall|j: int| i < j < values.len() ==> (#[trigger] values[j]).0 != values[i].0,
    ensures
        found_in(preset_values(values), values[i].0) == accepted(values[i].0, values[i].1),
    decreases values.len(),
{
    let front = values.drop_last();
    if i < front.len() {
        assert(front[i] == values[i]);
        assert forall|j: int| i < j < front.len() implies (#[trigger] front[j]).0 != front[i].0 by {
            assert(front[j] == values[j]);
        }
        lemma_preset_values(front, i);
        assert(values[values.len() - 1].0 != values[i].0);
    }
}

proof fn lemma_preset_lacks(values: Seq<(Seq<char>, Seq<char>)>, key: Seq<char>)
    requires
        forall|j: int| 0 <= j < values.len() ==> (#[trigger] values[j]).0 != key,
    ensures
        found_in(preset_values(values), key) is None,
    decreases values.len(),
{
    if values.len() > 0 {
        let front = values.drop_last();
        assert forall|j: int| 0 <= j < front.len() implies (#[trigger] front[j]).0 != key by {
            assert(front[j] == values[j]);
        }
        lemma_preset_lacks(front, key);
        assert(values[values.len() - 1].0 != key);
    }
}

} // verus!
