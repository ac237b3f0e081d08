use studio_core::configfs::managed::{CommentStyle, ManagedBlock};
use studio_core::engine::CmdOutput;
use studio_core::error::StudioError;
use studio_core::paths::OmarchyPaths;
use studio_core::scrolloverview::{
    add, add_cmd, autoloads, build_error, conf_path, ensure_sourced, is_sourced, list_cmd,
    nav_binds, nav_binds_installed, parse_state, plan_autoload, plan_source, set_enabled,
    set_enabled_cmd, set_nav_binds, source_line, state, strip_ansi, Settings, State, AUTHOR,
    LICENSE, REPO,
};

fn paths() -> OmarchyPaths {
    OmarchyPaths {
        system: "/r/sys/omarchy".to_string(),
        config: "/r/.config/omarchy".to_string(),
        state: "/r/.local/state/omarchy".to_string(),
    }
}

fn ran(status: i32, stdout: &str, stderr: &str) -> CmdOutput {
    CmdOutput {
        status,
        stdout: stdout.into(),
        stderr: stderr.into(),
    }
}

/// Real `hyprpm list` output, colour codes and all.
const LIST: &str = "\u{1b}[0m→\u{1b}[0m Repository hyprland-plugins (by hyprwm):\n\
     \x20 │ Plugin hyprbars\n\
     \x20 └─ enabled: \u{1b}[31mfalse\n\
     \u{1b}[0m→\u{1b}[0m Repository hyprland-scroll-overview (by yayuuu):\n\
     \x20 │ Plugin scrolloverview\n\
     \x20 └─ enabled: \u{1b}[32mtrue\n";

#[test]
fn reads_enabled_out_of_real_hyprpm_output() {
    assert_eq!(parse_state(LIST), State::Enabled);
    assert!(parse_state(LIST).is_on());
}

#[test]
fn a_disabled_plugin_is_installed_but_off() {
    let off = LIST.replace("\u{1b}[32mtrue", "\u{1b}[31mfalse");
    assert_eq!(parse_state(&off), State::Disabled);
}

#[test]
fn another_repos_enabled_flag_is_not_ours() {
    // hyprbars is enabled, scrolloverview absent — must not read as ours.
    let other =
        "→ Repository hyprland-plugins (by hyprwm):\n  │ Plugin hyprbars\n  └─ enabled: true\n";
    assert_eq!(parse_state(other), State::NotAdded);
    assert_eq!(parse_state(""), State::NotAdded);
}

#[test]
fn a_plugin_that_failed_to_build_was_added() {
    let failed = "→ Repository hyprland-scroll-overview (by yayuuu):\n  │ Plugin scrolloverview\n  \
                  └─ failed to build\n  │ Plugin hyprbars\n  └─ enabled: true\n";
    assert_eq!(parse_state(failed), State::Disabled);
}

#[test]
fn without_hyprpm_there_is_no_state() {
    assert_eq!(state(false, Some(LIST)), State::NoHyprpm);
    assert_eq!(state(true, Some(LIST)), State::Enabled);
    assert_eq!(state(true, None), State::NotAdded);
    assert!(!State::Disabled.is_on());
}

#[test]
fn colours_are_stripped() {
    assert_eq!(strip_ansi("\u{1b}[31mred\u{1b}[0m é"), "red é");
    assert_eq!(strip_ansi("\u{1b}[31"), "");
}

#[test]
fn settings_round_trip_through_the_managed_block() {
    let p = paths();
    let want = Settings {
        scale: 650_000,
        layout: "horizontal".into(),
        workspace_gap: 40,
        blur: true,
        gesture_distance: 250,
    };
    let edit = want.plan(&p, None).expect("a fresh file is a change");
    assert_eq!(edit.file, conf_path(&p));
    assert_eq!(Settings::load(Some(&edit.new_content)), want);
    // Idempotent: writing the same settings again is not a change.
    assert!(want.plan(&p, Some(&edit.new_content)).is_none());
    assert!(want.apply(&p, Some(&edit.new_content), true).is_none());
}

#[test]
fn the_block_credits_the_plugin_author() {
    // The credit lives in the file the user actually reads, not just docs.
    let body = Settings::default().render();
    assert!(body.contains(AUTHOR), "{body}");
    assert!(body.contains(LICENSE), "{body}");
    assert!(body.contains(REPO), "{body}");
}

#[test]
fn a_hand_edited_block_keeps_what_it_sets_and_defaults_the_rest() {
    let block = ManagedBlock::new("scrolloverview", CommentStyle::Hash);
    let text = block.upsert("", "plugin {\n  scrolloverview {\n    scale = 0.8\n  }\n}");
    let s = Settings::load(Some(&text));
    assert_eq!(s.scale, 800_000, "the value they set wins");
    assert_eq!(s.layout, "vertical", "the rest fall back to defaults");
}

#[test]
fn a_missing_block_is_the_defaults() {
    assert_eq!(Settings::load(None), Settings::default());
    assert_eq!(Settings::load(Some("scale = 3\n")), Settings::default());
}

#[test]
fn a_root_owned_cache_says_to_run_it_in_a_terminal() {
    // The real message from the reference machine: the plugin builds, then
    // the install step can't write to /var/cache/hyprpm/<user>/.
    let e = build_error(
        "✔ built scrolloverview",
        "[ERR] addNewPluginRepo: failed to create cache dir",
    );
    let msg = format!("{e:?}");
    assert!(msg.contains("password"), "{msg}");
    assert!(msg.contains("terminal"), "{msg}");
}

#[test]
fn ensure_sourced_also_makes_the_plugin_load_on_boot() {
    // The reboot trap: enabled but not auto-loaded errors on every boot.
    let p = paths();
    assert!(!autoloads(None), "nothing loads plugins to begin with");
    let edit = plan_autoload(&p, None).expect("a missing autoload line is a change");
    assert!(autoloads(Some(&edit.new_content)), "now loads on boot");
    assert!(plan_autoload(&p, Some(&edit.new_content)).is_none(), "idempotent");

    let plan = ensure_sourced(&p, None, Some(""), None, true).unwrap();
    assert!(plan.edits.iter().any(|e| e.file == edit.file));
    assert!(plan.edits.iter().any(|e| e.file == conf_path(&p)));
}

#[test]
fn autoload_defers_to_an_existing_hyprpm_reload() {
    // If the user already loads plugins their own way, don't add a second.
    let theirs = "exec-once = hyprpm reload -n  # mine\n";
    assert!(autoloads(Some(theirs)));
    assert!(plan_autoload(&paths(), Some(theirs)).is_none(), "their line is enough");
}

#[test]
fn sourcing_is_idempotent_and_detected() {
    let p = paths();
    let hypr = "source = ~/.config/omarchy/current/theme/hyprland.conf\n";
    assert!(!is_sourced(&p, Some(hypr)), "not sourced to begin with");
    let edit = plan_source(&p, Some(hypr)).expect("a missing source line is a change");
    let after = edit.new_content;
    assert!(is_sourced(&p, Some(&after)), "now sourced");
    assert!(after.contains(&source_line(&p)), "{after}");
    // The user's own source lines survive, and re-running is a no-op.
    assert!(after.contains("current/theme/hyprland.conf"), "{after}");
    assert!(plan_source(&p, Some(&after)).is_none(), "already sourced = no change");
}

#[test]
fn header_failures_name_the_fix_rather_than_dumping_the_log() {
    let e = build_error("", "✖ Headers outdated, please run hyprpm update.");
    let msg = format!("{e:?}");
    assert!(msg.contains("hyprpm update"), "{msg}");
    // And it says why Studio can't just do it.
    assert!(msg.contains("password"), "{msg}");
}

#[test]
fn any_other_failure_shows_the_end_of_the_log() {
    let e = build_error("one\ntwo\n", "three\n\nlast words\n");
    assert!(matches!(e, StudioError::External { .. }), "{e:?}");
    assert!(format!("{e:?}").contains("last words"), "{e:?}");
}

#[test]
fn hyprpm_commands_are_judged_by_their_status() {
    assert_eq!(list_cmd().args, vec!["list"]);
    assert_eq!(add_cmd().args, vec!["add", REPO]);
    assert_eq!(set_enabled_cmd(true).args[0], "enable");
    assert_eq!(set_enabled_cmd(false).args[0], "disable");
    assert!(add(&ran(0, "ok", "")).is_ok());
    assert!(add(&ran(1, "", "headers")).is_err());
    assert!(set_enabled(true, &ran(0, "", "")).is_ok());
    assert!(set_enabled(false, &ran(1, "", "nope")).is_err());
}

#[test]
fn navigation_binds_come_and_go() {
    let p = paths();
    let mine = "bindd = SUPER, RETURN, Terminal, exec, foot\n";
    assert!(!nav_binds_installed(Some(mine)));
    let (n, plan) = set_nav_binds(&p, Some(mine), true, false);
    assert_eq!(n, nav_binds().len());
    let text = plan.unwrap().edits[0].new_content.clone();
    assert!(nav_binds_installed(Some(&text)));
    assert!(text.starts_with(mine));
    let (_, plan) = set_nav_binds(&p, Some(&text), false, false);
    assert_eq!(plan.unwrap().edits[0].new_content, mine);
}
