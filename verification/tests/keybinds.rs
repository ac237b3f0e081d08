use studio_core::configfs::hyprlang::{HyprDoc, Layer};
use studio_core::engine::{CmdOutput, Risk};
use studio_core::error::StudioError;
use studio_core::keybinds::conflicts::find_conflicts;
use studio_core::keybinds::effective::{load_effective, runtime_from, wants_plain, BindingsFile};
use studio_core::keybinds::mods;
use studio_core::keybinds::overrides::{
    apply_overrides, find_marked, install_marked, install_marked_dispatch, overrides_installed,
    plan_overrides, read_overrides, remove_marked, render_override_block, user_bindings_path,
    write_overrides, Override,
};
use studio_core::keybinds::{
    attribute, chord_id, mask_to_mods, mods_to_mask, parse_runtime_binds_text, render_chord,
    ConfigBind, RuntimeBind, SourceFile,
};
use studio_core::paths::OmarchyPaths;

fn paths() -> OmarchyPaths {
    OmarchyPaths {
        system: "/r/sys/omarchy".to_string(),
        config: "/r/.config/omarchy".to_string(),
        state: "/r/.local/state/omarchy".to_string(),
    }
}

fn cb(mods: &str, key: &str, disp: &str, arg: &str) -> ConfigBind {
    ConfigBind {
        flags: "bind".into(),
        modmask: mods_to_mask(mods),
        key: key.into(),
        description: None,
        dispatcher: disp.into(),
        arg: arg.into(),
    }
}

fn rt(modmask: u16, key: &str, dispatcher: &str, arg: &str) -> RuntimeBind {
    RuntimeBind {
        modmask,
        key: key.into(),
        keycode: 0,
        dispatcher: dispatcher.into(),
        arg: arg.into(),
        submap: String::new(),
        description: String::new(),
        locked: false,
        release: false,
        repeat: false,
    }
}

fn ran(status: i32, stdout: &str, stderr: &str) -> CmdOutput {
    CmdOutput {
        status,
        stdout: stdout.into(),
        stderr: stderr.into(),
    }
}

#[test]
fn modmask_round_trips_and_renders() {
    assert_eq!(mods_to_mask("SUPER"), 64);
    assert_eq!(mods_to_mask("SUPER SHIFT"), 65);
    assert_eq!(mods_to_mask("CTRL ALT"), 12);
    assert_eq!(mods_to_mask("MOD4 CONTROL"), 68); // aliases
    assert_eq!(mask_to_mods(65), vec!["SUPER", "SHIFT"]);
    assert_eq!(render_chord(64, "T"), "SUPER+T");
    assert_eq!(render_chord(0, "XF86AudioMute"), "XF86AudioMute");
    assert_eq!(render_chord(65, "Return"), "SUPER+SHIFT+Return");
}

#[test]
fn load_effective_reads_hyprctl_and_attributes_layers() {
    let runtime = vec![
        rt(64, "T", "togglefloating", ""),
        rt(64, "B", "exec", "chromium"),
        rt(64, "P", "exec", "plugin-only"),
    ];
    let files = vec![BindingsFile {
        path: "/r/sys/omarchy/default/hypr/bindings/tiling.conf".into(),
        text: Some("bind = SUPER, T, togglefloating,\n".into()),
    }];
    let attributed = load_effective(
        &ran(0, "[]", ""),
        Ok(runtime),
        None,
        &files,
        Some("bindd = SUPER, B, Browser, exec, chromium\n"),
    )
    .unwrap();
    assert_eq!(attributed.len(), 3);
    // SUPER+T attributed to the Omarchy default layer
    let t = attributed.iter().find(|a| a.runtime.key == "T").unwrap();
    assert_eq!(t.source.as_ref().unwrap().layer, Layer::Default);
    // SUPER+B attributed to the user's own file
    let b = attributed.iter().find(|a| a.runtime.key == "B").unwrap();
    assert_eq!(b.source.as_ref().unwrap().layer, Layer::User);
    // SUPER+P defined nowhere in config → no source (plugin)
    let p = attributed.iter().find(|a| a.runtime.key == "P").unwrap();
    assert!(p.source.is_none());
}

#[test]
fn config_bind_parses_and_keeps_commas_in_arg() {
    let doc = HyprDoc::parse(
        "bind = SUPER, T, exec, foot\nbinde = SUPER SHIFT, left, resizeactive, -20 0\n",
    );
    let binds = doc.binds();
    let a = ConfigBind::from_entry(&binds[0]).unwrap();
    assert_eq!(a.modmask, 64);
    assert_eq!(
        (a.key.as_str(), a.dispatcher.as_str(), a.arg.as_str()),
        ("T", "exec", "foot")
    );
    let b = ConfigBind::from_entry(&binds[1]).unwrap();
    assert_eq!(b.flags, "binde");
    assert_eq!(b.arg, "-20 0"); // arg with a space, dispatcher split correct
}

#[test]
fn attribution_picks_the_highest_priority_layer() {
    let default = HyprDoc::parse("bind = SUPER, T, togglefloating,\n");
    let user = HyprDoc::parse("bind = SUPER, T, exec, btop\n");
    let sources = [
        SourceFile {
            layer: Layer::Default,
            doc: &default,
        },
        SourceFile {
            layer: Layer::User,
            doc: &user,
        },
    ];
    // runtime reflects the user's version (what Hyprland actually runs)
    let attributed = attribute(&[rt(64, "T", "exec", "btop")], &sources);
    assert_eq!(attributed.len(), 1);
    let src = attributed[0].source.as_ref().expect("attributed");
    assert_eq!(src.layer, Layer::User);
    assert_eq!(src.config.arg, "btop");
}

#[test]
fn unmatched_runtime_bind_has_no_source() {
    let empty = HyprDoc::parse("");
    let sources = [SourceFile {
        layer: Layer::User,
        doc: &empty,
    }];
    assert!(attribute(&[rt(64, "P", "exec", "plugin")], &sources)[0]
        .source
        .is_none());
}

#[test]
fn render_line_round_trips_through_the_cst() {
    for (mods, key, disp, arg) in [
        ("SUPER", "T", "exec", "foot"),
        ("SUPER SHIFT", "left", "resizeactive", "-20 0"),
        ("SUPER", "W", "killactive", ""),
        ("", "XF86AudioMute", "exec", "mute"),
    ] {
        let line = cb(mods, key, disp, arg).render_line();
        let parsed = HyprDoc::parse(&format!("{line}\n"));
        let back = ConfigBind::from_entry(&parsed.binds()[0]).unwrap();
        assert_eq!(back.modmask, mods_to_mask(mods));
        assert_eq!(back.key, key);
        assert_eq!(back.dispatcher, disp);
        assert_eq!(back.arg, arg, "arg round-trip for {line}");
    }
}

#[test]
fn conflicts_flag_disagreements_not_harmless_dupes() {
    let binds = vec![
        cb("SUPER", "T", "togglefloating", ""),
        cb("SUPER", "T", "exec", "btop"), // conflict: same chord, diff action
        cb("SUPER", "Q", "killactive", ""),
        cb("SUPER", "Q", "killactive", ""), // exact dup: not a conflict
    ];
    let conflicts = find_conflicts(&binds);
    assert_eq!(conflicts.len(), 1);
    assert_eq!(conflicts[0].chord, "SUPER+T");
    assert_eq!(conflicts[0].binds.len(), 2);
    // last-defined wins
    assert_eq!(conflicts[0].binds.last().unwrap().arg, "btop");
}

#[test]
fn override_block_renders_binds_and_unbinds() {
    let overrides = vec![
        Override::Bind(cb("SUPER", "B", "exec", "chromium")),
        Override::Disable {
            modmask: mods_to_mask("SUPER"),
            key: "T".into(),
        },
    ];
    let body = render_override_block(&overrides);
    assert_eq!(body, "bind = SUPER, B, exec, chromium\nunbind = SUPER, T");
    // the rendered block itself parses back cleanly
    let doc = HyprDoc::parse(&format!("{body}\n"));
    assert_eq!(doc.binds().len(), 2); // bind + unbind both counted as bind* keys
}

#[test]
fn write_overrides_manages_a_block_and_preserves_user_binds() {
    let p = paths();
    let user = "# Application bindings\nbindd = SUPER, RETURN, Terminal, exec, foot\n";
    assert!(!overrides_installed(Some(user)));

    let overrides = vec![
        Override::Bind(cb("SUPER", "B", "exec", "chromium")),
        Override::Disable {
            modmask: mods_to_mask("SUPER"),
            key: "T".into(),
        },
    ];
    let (path, after) = write_overrides(&p, Some(user), &overrides);
    assert_eq!(path, user_bindings_path(&p));
    assert_eq!(path, "/r/.config/hypr/bindings.conf");
    assert!(overrides_installed(Some(&after)));
    assert!(after.contains("bindd = SUPER, RETURN, Terminal, exec, foot")); // user's bind kept
    assert!(after.contains("bind = SUPER, B, exec, chromium"));
    assert!(after.contains("unbind = SUPER, T"));

    // re-write is idempotent (single managed block)
    let (_, twice) = write_overrides(&p, Some(&after), &overrides);
    assert_eq!(twice.matches("omarchy-studio:keybinds").count(), 2); // open+close
    assert!(plan_overrides(&p, Some(&after), &overrides).is_none());

    // empty overrides removes the block, restoring the user's file exactly
    let (_, back) = write_overrides(&p, Some(&twice), &[]);
    assert!(!overrides_installed(Some(&back)));
    assert_eq!(back, user);
}

#[test]
fn read_overrides_round_trips_the_written_block() {
    let p = paths();
    let written = vec![
        Override::Bind(cb("SUPER", "B", "exec", "chromium")),
        Override::Disable {
            modmask: mods_to_mask("SUPER"),
            key: "T".into(),
        },
    ];
    let (_, text) = write_overrides(
        &p,
        Some("# user\nbindd = SUPER, RETURN, Term, exec, foot\n"),
        &written,
    );
    let read = read_overrides(Some(&text));
    assert_eq!(read.len(), 2);
    match &read[0] {
        Override::Bind(cb) => {
            assert_eq!(
                (cb.key.as_str(), cb.dispatcher.as_str(), cb.arg.as_str()),
                ("B", "exec", "chromium")
            );
        }
        _ => panic!("expected Bind"),
    }
    match &read[1] {
        Override::Disable { modmask, key } => {
            assert_eq!((*modmask, key.as_str()), (mods_to_mask("SUPER"), "T"));
        }
        _ => panic!("expected Disable"),
    }
    // no block → empty
    assert!(read_overrides(Some("# nothing here\n")).is_empty());
    assert!(read_overrides(None).is_empty());
}

#[test]
fn parses_omarchy_described_binds_correctly() {
    // real Omarchy formats: bindd (MODS,KEY,DESC,DISP,ARG) and bindeld
    let doc = HyprDoc::parse(
        "bindd = SUPER, RETURN, Terminal, exec, foot\n\
         bindeld = ,XF86AudioRaiseVolume, Volume up, exec, omarchy-swayosd-client --output-volume raise\n",
    );
    let binds = doc.binds();
    let term = ConfigBind::from_entry(&binds[0]).unwrap();
    assert_eq!(term.description.as_deref(), Some("Terminal"));
    assert_eq!(term.dispatcher, "exec");
    assert_eq!(term.arg, "foot"); // NOT "Terminal, exec, foot"

    let vol = ConfigBind::from_entry(&binds[1]).unwrap();
    assert_eq!(vol.key, "XF86AudioRaiseVolume");
    assert_eq!(vol.description.as_deref(), Some("Volume up"));
    assert_eq!(vol.dispatcher, "exec");
    assert_eq!(vol.arg, "omarchy-swayosd-client --output-volume raise");

    // render_line puts the description back in the right place, round-trips
    let back =
        ConfigBind::from_entry(&HyprDoc::parse(&format!("{}\n", vol.render_line())).binds()[0])
            .unwrap();
    assert_eq!(back.description, vol.description);
    assert_eq!(back.arg, vol.arg);
}

/// Real `hyprctl binds` text from Hyprland 0.56.
const BINDS_TEXT: &str = "bindled\n\
\tmodmask: 0\n\
\tsubmap: \n\
\tkey: XF86AudioRaiseVolume\n\
\tkeycode: 0\n\
\tcatchall: false\n\
\tdescription: Volume up\n\
\tdispatcher: exec\n\
\targ: omarchy-swayosd-client --output-volume raise\n\
\n\
bindd\n\
\tmodmask: 64\n\
\tsubmap: \n\
\tkey: Q\n\
\tkeycode: 0\n\
\tcatchall: false\n\
\tdescription: Close window\n\
\tdispatcher: killactive\n\
\targ: \n";

#[test]
fn parses_the_plain_text_keymap_hyprland_056_forces_us_to_use() {
    let binds = parse_runtime_binds_text(BINDS_TEXT);
    assert_eq!(binds.len(), 2);

    assert_eq!(binds[0].key, "XF86AudioRaiseVolume");
    assert_eq!(binds[0].modmask, 0);
    assert_eq!(binds[0].dispatcher, "exec");
    assert_eq!(binds[0].arg, "omarchy-swayosd-client --output-volume raise");
    assert_eq!(binds[0].description, "Volume up");

    // Modifiers survive, so the chord renders the way the screen shows it.
    assert_eq!(binds[1].modmask, mods::SUPER);
    assert_eq!(binds[1].chord(), "SUPER+Q");
    assert_eq!(binds[1].dispatcher, "killactive");
}

#[test]
fn text_parsing_ignores_junk_and_unknown_fields() {
    // A future Hyprland adding fields must not break this, and a stray
    // header line isn't a bind.
    let odd =
        "Bind list:\nbindd\n\tmodmask: 64\n\tkey: T\n\tsome_new_field: 1\n\tdispatcher: exec\n";
    let binds = parse_runtime_binds_text(odd);
    assert_eq!(binds.len(), 1);
    assert_eq!(binds[0].key, "T");
    assert!(parse_runtime_binds_text("").is_empty());
}

#[test]
fn chords_are_compared_without_case() {
    assert_eq!(chord_id(64, "Return"), chord_id(64, "RETURN"));
    assert_ne!(chord_id(64, "T"), chord_id(65, "T"));
}

#[test]
fn a_modifier_without_a_name_is_lost_in_the_text() {
    assert_eq!(mods_to_mask(&mask_to_mods(64 | 16).join(" ")), 64);
}

#[test]
fn a_broken_json_keymap_falls_back_to_the_plain_one() {
    let broken: Result<Vec<RuntimeBind>, StudioError> = Err(StudioError::External {
        cmd: "hyprctl binds -j".into(),
        detail: "bad".into(),
    });
    assert!(wants_plain(&ran(0, "{", ""), &broken));
    let plain = ran(0, BINDS_TEXT, "");
    let binds = runtime_from(&ran(0, "{", ""), broken, Some(&plain)).unwrap();
    assert_eq!(binds.len(), 2);
    assert_eq!(binds[1].key, "Q");
}

#[test]
fn a_failing_hyprctl_is_an_error() {
    let out = ran(1, "", "no socket\n");
    let e = load_effective(&out, Ok(vec![]), None, &vec![], None).unwrap_err();
    assert!(matches!(e, StudioError::External { .. }), "{e:?}");
}

#[test]
fn a_plan_of_changes_reloads_and_checks_hyprland() {
    let p = paths();
    let os = vec![Override::Bind(cb("SUPER", "B", "exec", "chromium"))];
    let plan = apply_overrides(&p, None, &os, "bind B", true).unwrap();
    assert_eq!(plan.module, "keybinds");
    assert_eq!(plan.summary, "bind B");
    assert_eq!(plan.risk, Risk::Risky);
    assert_eq!(plan.edits.len(), 1);
    assert_eq!(plan.edits[0].old, None);
    assert_eq!(plan.verify.len(), 1);
    // a second time there is nothing to do
    let text = plan.edits[0].new_content.clone();
    assert!(apply_overrides(&p, Some(&text), &os, "bind B", true).is_none());
}

#[test]
fn marked_binds_replace_one_another_and_go_again() {
    let p = paths();
    let (bind, plan) = install_marked(&p, None, "Studio", "SUPER", "S", "studio", false);
    assert_eq!(bind.render_line(), "bindd = SUPER, S, Studio, exec, studio");
    let text = plan.unwrap().edits[0].new_content.clone();
    assert_eq!(find_marked(Some(&text), "Studio").unwrap().key, "S");

    let (_, plan) = install_marked_dispatch(
        &p,
        Some(&text),
        "Studio",
        "SUPER SHIFT",
        "O",
        "scrolloverview:overview",
        "toggle",
        false,
    );
    let plan = plan.unwrap();
    assert!(plan.verify.is_empty());
    let text = plan.edits[0].new_content.clone();
    assert_eq!(read_overrides(Some(&text)).len(), 1);
    assert_eq!(
        find_marked(Some(&text), "Studio").unwrap().dispatcher,
        "scrolloverview:overview"
    );

    let (gone, plan) = remove_marked(&p, Some(&text), "Studio", false);
    assert!(gone);
    let text = plan.unwrap().edits[0].new_content.clone();
    assert!(find_marked(Some(&text), "Studio").is_none());
    let (gone, plan) = remove_marked(&p, Some(&text), "Studio", false);
    assert!(!gone && plan.is_none());
}

#[test]
fn lists_of_modifiers_join_and_have_no_case() {
    assert_eq!(mods_to_mask("MOD4 CONTROL"), 68);
    assert_eq!(mods_to_mask("SUPER CTRL"), 68);
    for (a, b) in [("SUPER", "shift Alt"), ("", "CTRL"), ("Nope", "win"), (" caps ", "")] {
        let both = mods_to_mask(&format!("{a} {b}"));
        assert_eq!(both, mods_to_mask(a) | mods_to_mask(b));
        assert_eq!(mods_to_mask(&a.to_ascii_lowercase()), mods_to_mask(a));
    }
    assert_eq!(mods_to_mask("nope"), 0);
}

#[test]
fn what_is_applied_reads_back() {
    let p = paths();
    let text = "bind = SUPER, Q, killactive\n";
    let (bind, plan) = install_marked(&p, Some(text), "Launch", "SUPER", "SPACE", "walker", true);
    let now = plan.unwrap().edits[0].new_content.clone();
    assert_eq!(read_overrides(Some(&now)), vec![Override::Bind(bind)]);
    let (gone, plan) = remove_marked(&p, Some(&now), "Launch", true);
    assert!(gone);
    let back = plan.unwrap().edits[0].new_content.clone();
    assert_eq!(read_overrides(Some(&back)), vec![]);
    assert_eq!(remove_marked(&p, Some(&back), "Launch", true), (false, None));
    assert_eq!(back, text);
}

#[test]
fn changes_that_were_read_are_written_as_they_were() {
    let p = paths();
    let lines = "binde = SUPER SHIFT, code:20, resizeactive, -100 0\nunbind = , XF86Mail\n\
                 bindd=CTRL,K,say: a # b,exec,echo 1, 2 = 3";
    let text = format!(
        "# >>> omarchy-studio:keybinds — generated; edit outside this block only >>>\n{lines}\n\
         # <<< omarchy-studio:keybinds <<<\n"
    );
    let old = read_overrides(Some(&text));
    assert_eq!(old.len(), 3);
    let (_, again) = write_overrides(&p, Some(&text), &old);
    assert_eq!(read_overrides(Some(&again)), old);
    let (_, third) = write_overrides(&p, Some(&again), &old);
    assert_eq!(third, again);
}
