//! What is made of what `hyprpm` says and of what a settings file holds.

use vstd::prelude::*;

use crate::decimal::{micros_of, parse_number};
use crate::engine::{EditView, ReloadStep, Risk, Verification};
use crate::number::parse_i64;
use crate::paths::{OmarchyPaths, join as path_join};
use crate::scrolloverview::laws::{lemma_field, lemma_silent};
use crate::scrolloverview::{
    PLUGIN, SettingsView, State, as_edits, autoload_edit, behind, build_detail, code_len,
    default_settings, last_said, overview_plan, settings_edit, source_edit, sourcing_edits,
    state_in, unstyled, with_line,
};
use crate::split::{all_space, is_trimmed, lines};
use crate::text::{contains, holds, is_alpha, lowered, occurs, same_ignoring_case, trim};

verus! {

// --------------------------------------------------------------------------- state

/// The plugin that a line names.
pub open spec fn named_by(line: Seq<char>) -> Option<Seq<char>> {
    match behind(line, "Plugin "@) {
        Some(name) => Some(trim(name)),
        None => None,
    }
}

/// Whether a line says of a plugin whether it is on, and does not name one.
pub open spec fn is_flag(line: Seq<char>) -> bool {
    named_by(line) is None && behind(line, "enabled:"@) is Some
}

/// Whether a line says that a plugin is on.
pub open spec fn says_on(line: Seq<char>) -> bool {
    is_flag(line) && same_ignoring_case(trim(behind(line, "enabled:"@)->0), "true"@)
}

/// Whether line `j` is the first that says, of the plugin that line `i` names,
/// whether it is on.
pub open spec fn answers(ls: Seq<Seq<char>>, i: int, j: int) -> bool {
    &&& 0 <= i < j < ls.len()
    &&& named_by(ls[i]) == Some(PLUGIN@)
    &&& is_flag(ls[j])
    &&& forall|k: int| i < k < j ==> named_by(#[trigger] ls[k]) is None && !is_flag(ls[k])
}

proof fn lemma_state(ls: Seq<Seq<char>>, ours: bool, named: bool)
    requires
        ours ==> named,
    ensures
        ({
            let s = state_in(ls, ours, named);
            &&& s == State::Enabled || s == State::Disabled || s == State::NotAdded
            &&& s == State::NotAdded <==> !named && forall|i: int|
                0 <= i < ls.len() ==> named_by(#[trigger] ls[i]) != Some(PLUGIN@)
            &&& s == State::Enabled ==> exists|j: int|
                0 <= j < ls.len() && says_on(#[trigger] ls[j]) && (ours && (forall|k: int|
                    0 <= k < j ==> named_by(#[trigger] ls[k]) is None && !is_flag(ls[k]))
                    || exists|i: int| #[trigger] answers(ls, i, j))
        }),
    decreases ls.len(),
{
    if ls.len() > 0 {
        let more = ls.skip(1);
        assert forall|k: int| 0 <= k < more.len() implies #[trigger] more[k] == ls[k + 1] by {}
        let (o, n) = match behind(ls[0], "Plugin "@) {
            Some(name) => (trim(name) == PLUGIN@, named || trim(name) == PLUGIN@),
            None => (ours, named),
        };
        let s = state_in(ls, ours, named);
        if is_flag(ls[0]) && ours {
            if s == State::Enabled {
                assert(says_on(ls[0]));
            }
        } else {
            lemma_state(more, o, n);
            assert(s == state_in(more, o, n));
            if s == State::NotAdded {
                assert forall|i: int| 0 <= i < ls.len() implies named_by(#[trigger] ls[i]) != Some(
                    PLUGIN@,
                ) by {
                    if i > 0 {
                        assert(more[i - 1] == ls[i]);
                    }
                }
            }
            if !named && forall|i: int|
                0 <= i < ls.len() ==> named_by(#[trigger] ls[i]) != Some(PLUGIN@) {
                assert(named_by(ls[0]) != Some(PLUGIN@));
                assert forall|i: int| 0 <= i < more.len() implies named_by(#[trigger] more[i])
                    != Some(PLUGIN@) by {
                    assert(more[i] == ls[i + 1]);
                }
            }
            if s == State::Enabled {
                let j = choose|j: int|
                    0 <= j < more.len() && says_on(#[trigger] more[j]) && (o && (forall|k: int|
                        0 <= k < j ==> named_by(#[trigger] more[k]) is None && !is_flag(more[k]))
                        || exists|i: int| #[trigger] answers(more, i, j));
                assert(says_on(ls[j + 1]));
                if exists|i: int| #[trigger] answers(more, i, j) {
                    let i = choose|i: int| #[trigger] answers(more, i, j);
                    assert forall|k: int| i + 1 < k < j + 1 implies named_by(#[trigger] ls[k])
                        is None && !is_flag(ls[k]) by {
                        assert(more[k - 1] == ls[k]);
                    }
                    assert(answers(ls, i + 1, j + 1));
                } else if behind(ls[0], "Plugin "@) is Some {
                    assert forall|k: int| 0 < k < j + 1 implies named_by(#[trigger] ls[k]) is None
                        && !is_flag(ls[k]) by {
                        assert(more[k - 1] == ls[k]);
                    }
                    assert(answers(ls, 0, j + 1));
                } else {
                    assert forall|k: int| 0 <= k < j + 1 implies named_by(#[trigger] ls[k]) is None
                        && !is_flag(ls[k]) by {
                        if k > 0 {
                            assert(more[k - 1] == ls[k]);
                        }
                    }
                }
            }
        }
    } else {
        assert(ls.len() == 0);
    }
}

/// The plugin has not been added exactly where no line names it, and it is on
/// only where the first flag behind a line that names it says so.
pub proof fn law_state_is_what_the_list_says(ls: Seq<Seq<char>>)
    ensures
        state_in(ls, false, false) == State::NotAdded <==> forall|i: int|
            0 <= i < ls.len() ==> named_by(#[trigger] ls[i]) != Some(PLUGIN@),
        state_in(ls, false, false) == State::Enabled ==> exists|i: int, j: int| #[trigger]
            answers(ls, i, j) && says_on(ls[j]),
{
    lemma_state(ls, false, false);
    if state_in(ls, false, false) == State::Enabled {
        let j = choose|j: int|
            0 <= j < ls.len() && says_on(#[trigger] ls[j]) && (exists|i: int| #[trigger]
                answers(ls, i, j));
        let i = choose|i: int| #[trigger] answers(ls, i, j);
        assert(answers(ls, i, j) && says_on(ls[j]));
    }
}

proof fn lemma_answered(ls: Seq<Seq<char>>, ours: bool, named: bool, i: int, j: int)
    requires
        -1 <= i < j < ls.len(),
        i >= 0 ==> answers(ls, i, j),
        i < 0 ==> ours && is_flag(ls[j]) && forall|k: int|
            0 <= k < j ==> named_by(#[trigger] ls[k]) is None && !is_flag(ls[k]),
        i >= 0 ==> !ours && forall|k: int|
            0 <= k < i ==> named_by(#[trigger] ls[k]) != Some(PLUGIN@),
    ensures
        state_in(ls, ours, named) == if says_on(ls[j]) {
            State::Enabled
        } else {
            State::Disabled
        },
    decreases ls.len(),
{
    let more = ls.skip(1);
    assert forall|k: int| 0 <= k < more.len() implies #[trigger] more[k] == ls[k + 1] by {}
    let (o, n) = match behind(ls[0], "Plugin "@) {
        Some(name) => (trim(name) == PLUGIN@, named || trim(name) == PLUGIN@),
        None => (ours, named),
    };
    if i < 0 && j == 0 {
    } else {
        if i < 0 {
            assert(named_by(ls[0]) is None && !is_flag(ls[0]));
            assert forall|k: int| 0 <= k < j - 1 implies named_by(#[trigger] more[k]) is None
                && !is_flag(more[k]) by {
                assert(more[k] == ls[k + 1]);
            }
            lemma_answered(more, o, n, -1, j - 1);
        } else {
            assert(is_flag(ls[j]));
            assert forall|k: int| i - 1 < k < j - 1 && k >= 0 implies named_by(#[trigger] more[k])
                is None && !is_flag(more[k]) by {
                assert(more[k] == ls[k + 1]);
            }
            if i > 0 {
                assert(named_by(ls[0]) != Some(PLUGIN@));
                assert forall|k: int| 0 <= k < i - 1 implies named_by(#[trigger] more[k]) != Some(
                    PLUGIN@,
                ) by {
                    assert(more[k] == ls[k + 1]);
                }
                assert(answers(more, i - 1, j - 1));
            }
            lemma_answered(more, o, n, i - 1, j - 1);
        }
        assert(more[j - 1] == ls[j]);
    }
}

/// Where the first line that names the plugin is followed by a flag before the
/// next plugin, the flag decides.
pub proof fn law_first_flag_decides(ls: Seq<Seq<char>>, i: int, j: int)
    requires
        answers(ls, i, j),
        forall|k: int| 0 <= k < i ==> named_by(#[trigger] ls[k]) != Some(PLUGIN@),
    ensures
        state_in(ls, false, false) == if says_on(ls[j]) {
            State::Enabled
        } else {
            State::Disabled
        },
{
    lemma_answered(ls, false, false, i, j);
}

// -------------------------------------------------------------------------- output

/// A text without an escape is left as it is, wherever codes stand behind it.
pub proof fn law_plain_text_stays(a: Seq<char>, b: Seq<char>)
    requires
        !holds(a, '\u{1b}'),
    ensures
        unstyled(a) == a,
        unstyled(a + b) == a + unstyled(b),
    decreases a.len(),
{
    if a.len() > 0 {
        assert(a[0] != '\u{1b}');
        let more = a.skip(1);
        assert(!holds(more, '\u{1b}')) by {
            if holds(more, '\u{1b}') {
                let i = choose|i: int| 0 <= i < more.len() && more[i] == '\u{1b}';
                assert(a[i + 1] == '\u{1b}');
            }
        }
        law_plain_text_stays(more, b);
        assert((a + b).skip(1) =~= more + b);
        assert((a + b)[0] == a[0]);
        assert(seq![a[0]] + more =~= a);
        assert(seq![a[0]] + (more + unstyled(b)) =~= a + unstyled(b));
    } else {
        assert(a + b =~= b);
        assert(a + unstyled(b) =~= unstyled(b));
    }
}

/// A code, from its escape to its letter, is dropped and nothing more.
pub proof fn law_codes_are_dropped(code: Seq<char>, letter: char, more: Seq<char>)
    requires
        is_alpha(letter),
        forall|i: int| 0 <= i < code.len() ==> !is_alpha(#[trigger] code[i]),
    ensures
        unstyled(seq!['\u{1b}', '['] + code + seq![letter] + more) == unstyled(more),
{
    let s = seq!['\u{1b}', '['] + code + seq![letter] + more;
    let tail = code + seq![letter] + more;
    assert(s.skip(2) =~= tail);
    lemma_code(code, letter, more);
    assert(tail.skip(code.len() as int + 1) =~= more);
}

proof fn lemma_code(code: Seq<char>, letter: char, more: Seq<char>)
    requires
        is_alpha(letter),
        forall|i: int| 0 <= i < code.len() ==> !is_alpha(#[trigger] code[i]),
    ensures
        code_len(code + seq![letter] + more) == code.len() + 1,
    decreases code.len(),
{
    let s = code + seq![letter] + more;
    if code.len() > 0 {
        assert(s[0] == code[0]);
        assert(!is_alpha(code[0]));
        assert(s.skip(1) =~= code.skip(1) + seq![letter] + more);
        assert forall|i: int| 0 <= i < code.skip(1).len() implies !is_alpha(
            #[trigger] code.skip(1)[i],
        ) by {
            assert(code.skip(1)[i] == code[i + 1]);
        }
        lemma_code(code.skip(1), letter, more);
    } else {
        assert(s[0] == letter);
    }
}

/// A failure of the build names the command that mends it where the words for
/// it are there; else it is the last line that says something.
pub proof fn law_failures_name_the_fix(said: Seq<char>)
    ensures
        contains(lowered(said), "headers"@) ==> contains(build_detail(said), "hyprpm update"@),
        !contains(lowered(said), "headers"@) && (contains(lowered(said), "superuser"@) || contains(
            said,
            "failed to create cache dir"@,
        )) ==> contains(build_detail(said), "hyprpm add"@),
        !contains(lowered(said), "headers"@) && !contains(lowered(said), "superuser"@)
            && !contains(said, "failed to create cache dir"@) ==> {
            ||| forall|i: int| 0 <= i < lines(said).len() ==> trim(#[trigger] lines(said)[i]).len() == 0
            ||| exists|i: int|
                0 <= i < lines(said).len() && build_detail(said) == trim(#[trigger] lines(said)[i])
                    && build_detail(said).len() > 0 && forall|k: int|
                    i < k < lines(said).len() ==> trim(#[trigger] lines(said)[k]).len() == 0
        },
{
    reveal_strlit("hyprpm update");
    reveal_strlit("hyprpm add");
    reveal_strlit(
        "Hyprland's plugin headers are missing or out of date. Run `hyprpm update` in a terminal — it needs your password, so Studio can't run it for you.",
    );
    reveal_strlit(
        "hyprpm needs your password to install the built plugin (its cache lives under /var/cache). Run `hyprpm add` in a terminal — Studio can't answer a sudo prompt.",
    );
    let a = crate::scrolloverview::missing_headers();
    let b = crate::scrolloverview::needs_password();
    assert(a.subrange(59, 72) =~= "hyprpm update"@);
    assert(occurs(a, "hyprpm update"@, 59));
    assert(b.subrange(96, 106) =~= "hyprpm add"@);
    assert(occurs(b, "hyprpm add"@, 96));
    crate::text::lemma_find_from(a, "hyprpm update"@, 0);
    crate::text::lemma_find_from(b, "hyprpm add"@, 0);
    lemma_last_said(lines(said));
}

proof fn lemma_last_said(ls: Seq<Seq<char>>)
    ensures
        match last_said(ls) {
            Some(t) => exists|i: int|
                0 <= i < ls.len() && t == trim(#[trigger] ls[i]) && t.len() > 0 && forall|k: int|
                    i < k < ls.len() ==> trim(#[trigger] ls[k]).len() == 0,
            None => forall|i: int| 0 <= i < ls.len() ==> trim(#[trigger] ls[i]).len() == 0,
        },
    decreases ls.len(),
{
    if ls.len() > 0 {
        let front = ls.drop_last();
        let last = ls[ls.len() - 1];
        if trim(ls.last()).len() == 0 {
            lemma_last_said(front);
            match last_said(front) {
                Some(t) => {
                    let i = choose|i: int|
                        0 <= i < front.len() && t == trim(#[trigger] front[i]) && t.len() > 0
                            && forall|k: int|
                            i < k < front.len() ==> trim(#[trigger] front[k]).len() == 0;
                    assert(t == trim(ls[i]));
                    assert forall|k: int| i < k < ls.len() implies trim(#[trigger] ls[k]).len()
                        == 0 by {
                        if k < front.len() {
                            assert(front[k] == ls[k]);
                        }
                    }
                },
                None => {
                    assert forall|i: int| 0 <= i < ls.len() implies trim(#[trigger] ls[i]).len()
                        == 0 by {
                        if i < front.len() {
                            assert(front[i] == ls[i]);
                        }
                    }
                },
            }
        }
    }
}

// ------------------------------------------------------------------------ settings

/// A line sets the one setting that it names; a number that cannot be read
/// leaves it as it was, and a switch is on for `true` alone.
pub proof fn law_lines_set_what_they_name(s: SettingsView, pad: Seq<char>, value: Seq<char>)
    requires
        all_space(pad),
        is_trimmed(value),
    ensures
        with_line(s, pad + "scale"@ + " = "@ + value) == (match parse_number(value) {
            Some(n) => SettingsView { scale: micros_of(n), ..s },
            None => s,
        }),
        with_line(s, pad + "layout"@ + " = "@ + value) == (SettingsView { layout: value, ..s }),
        with_line(s, pad + "workspace_gap"@ + " = "@ + value) == (match parse_i64(value) {
            Some(n) => SettingsView { workspace_gap: n, ..s },
            None => s,
        }),
        with_line(s, pad + "blur"@ + " = "@ + value) == (SettingsView {
            blur: value == "true"@,
            ..s
        }),
        with_line(s, pad + "gesture_distance"@ + " = "@ + value) == (match parse_i64(value) {
            Some(n) => SettingsView { gesture_distance: n, ..s },
            None => s,
        }),
{
    reveal_strlit("scale");
    reveal_strlit("layout");
    reveal_strlit("workspace_gap");
    reveal_strlit("blur");
    reveal_strlit("gesture_distance");
    assert("scale"@.len() == 5 && "layout"@.len() == 6 && "workspace_gap"@.len() == 13);
    assert("blur"@.len() == 4 && "gesture_distance"@.len() == 16);
    lemma_field(pad, "scale"@, value);
    lemma_field(pad, "layout"@, value);
    lemma_field(pad, "workspace_gap"@, value);
    lemma_field(pad, "blur"@, value);
    lemma_field(pad, "gesture_distance"@, value);
}

/// A line without an equals sign, or for another setting, changes nothing.
pub proof fn law_other_lines_set_nothing(
    s: SettingsView,
    line: Seq<char>,
    pad: Seq<char>,
    key: Seq<char>,
    value: Seq<char>,
)
    requires
        !holds(line, '='),
        all_space(pad),
        key.len() > 0,
        is_trimmed(key),
        !holds(key, '='),
        is_trimmed(value),
        key != "scale"@ && key != "layout"@ && key != "workspace_gap"@ && key != "blur"@ && key
            != "gesture_distance"@,
    ensures
        with_line(s, line) == s,
        with_line(s, pad + key + " = "@ + value) == s,
{
    lemma_silent(s, line);
    lemma_field(pad, key, value);
}

// ------------------------------------------------------------------------- sourcing

/// What a plan for the overview holds is the edits, in their order, and there
/// is none without edits. Hyprland reloads after it.
pub proof fn law_plans_hold_their_edits(
    edits: Seq<EditView>,
    summary: Seq<char>,
    usable: bool,
    risk: Risk,
)
    ensures
        match overview_plan(edits, summary, usable, risk) {
            Some(p) => p.edits == edits && edits.len() > 0 && p.reload.contains(
                ReloadStep::HyprReload,
            ) && p.risk == risk && p.summary == summary && (usable ==> p.verify.contains(
                Verification::HyprctlConfigErrorsEmpty,
            )) && (!usable ==> p.verify.len() == 0),
            None => edits.len() == 0,
        },
{
    let reload = seq![ReloadStep::HyprReload];
    assert(reload[0] == ReloadStep::HyprReload);
    let checks = seq![Verification::HyprctlConfigErrorsEmpty];
    assert(checks[0] == Verification::HyprctlConfigErrorsEmpty);
}

/// The settings file is made only where there is none, and then in front of
/// the line that has it read; a settings file that is there is not touched.
pub proof fn law_settings_are_seeded_once(
    paths: &OmarchyPaths,
    settings: Option<Seq<char>>,
    hyprland: Option<Seq<char>>,
    autostart: Option<Seq<char>>,
)
    requires
        path_join(paths.hypr(), "scrolloverview.conf"@) != path_join(
            paths.hypr(),
            "hyprland.conf"@,
        ),
        path_join(paths.hypr(), "scrolloverview.conf"@) != path_join(
            paths.hypr(),
            "autostart.conf"@,
        ),
    ensures
        ({
            let edits = sourcing_edits(paths, settings, hyprland, autostart);
            let file = path_join(paths.hypr(), "scrolloverview.conf"@);
            &&& settings is Some ==> forall|i: int|
                0 <= i < edits.len() ==> (#[trigger] edits[i]).file != file
            &&& settings is None && settings_edit(paths, None, default_settings()) is Some
                ==> edits.len() > 0 && edits[0].file == file && edits[0].old is None
            &&& source_edit(paths, hyprland) matches Some(e) ==> edits.contains(e)
            &&& autoload_edit(paths, autostart) matches Some(e) ==> edits.contains(e)
            &&& hyprland is None ==> forall|i: int|
                0 <= i < edits.len() ==> (#[trigger] edits[i]).file != path_join(
                    paths.hypr(),
                    "hyprland.conf"@,
                ) || edits[i].file == path_join(paths.hypr(), "autostart.conf"@)
        }),
{
    let edits = sourcing_edits(paths, settings, hyprland, autostart);
    let first = if settings is None {
        as_edits(settings_edit(paths, None, default_settings()))
    } else {
        Seq::empty()
    };
    let second = as_edits(source_edit(paths, hyprland));
    let third = as_edits(autoload_edit(paths, autostart));
    assert(edits =~= first + second + third);
    let (n, m) = (first.len() as int, second.len() as int);
    if second.len() > 0 {
        assert(edits[n] == second[0]);
    }
    if third.len() > 0 {
        assert(edits[n + m] == third[0]);
    }
}

} // verus!
