use studio_core::configfs::jsonc::JsoncDoc;
use studio_core::engine::{CmdOutput, Component, ReloadStep, Verification};
use studio_core::error::StudioError;
use studio_core::paths::OmarchyPaths;
use studio_core::targets::{Overrides, Source, WaybarInstance};
use studio_core::waybar::{
    config_path, grab_px, in_group, json_escape, label_for, lookup, modules, outcome,
    resolve_config, resolve_style, style_path, waybar_alive, ApplyOutcome, CustomSpec, Group,
    WaybarConfig, WaybarStyle,
};

fn paths() -> OmarchyPaths {
    OmarchyPaths {
        system: "/r/sys/omarchy".to_string(),
        config: "/r/.config/omarchy".to_string(),
        state: "/r/.local/state/omarchy".to_string(),
    }
}

#[test]
fn catalog_is_unique_and_snippets_are_valid_jsonc() {
    let all = modules();
    let mut ids: Vec<_> = all.iter().map(|m| m.id).collect();
    let n = ids.len();
    ids.sort_unstable();
    ids.dedup();
    assert_eq!(ids.len(), n, "duplicate module id");

    for m in &all {
        if !m.default_config.is_empty() {
            // each snippet must parse as a JSONC object
            let wrapped = format!(
                "{{ \"{}\": {} }}",
                m.id.trim_end_matches("/*"),
                m.default_config
            );
            JsoncDoc::parse(&wrapped).unwrap_or_else(|e| panic!("bad snippet for {}: {e}", m.id));
        }
    }
}

#[test]
fn resolves_standard_and_custom_ids() {
    assert_eq!(lookup("clock").unwrap().group, Group::Clock);
    assert_eq!(label_for("clock"), "Clock");
    // the user's real modules resolve (custom/* + group/* fallbacks)
    for id in [
        "hyprland/workspaces",
        "battery",
        "network",
        "pulseaudio",
        "tray",
    ] {
        assert!(lookup(id).is_some(), "missing {id}");
    }
    assert!(lookup("custom/voxtype").is_some());
    assert_eq!(label_for("custom/voxtype"), "custom/voxtype");
    assert!(lookup("group/tray-expander").is_some());
    assert!(lookup("nonexistent-core-module").is_none());
}

#[test]
fn deps_are_surfaced() {
    assert_eq!(lookup("temperature").unwrap().needs, &["lm_sensors"]);
    assert!(lookup("clock").unwrap().needs.is_empty());
}

#[test]
fn groups_part_the_catalog() {
    let groups = [
        Group::Workspaces,
        Group::System,
        Group::Hardware,
        Group::Audio,
        Group::Network,
        Group::Clock,
        Group::Tray,
        Group::Custom,
    ];
    let total: usize = groups.iter().map(|g| in_group(*g).len()).sum();
    assert_eq!(total, modules().len());
    assert_eq!(Group::Clock.label(), "Clock");
}

#[test]
fn config_model_reads_and_edits_lanes() {
    let text = "{\n  // bar\n  \"modules-left\": [\"clock\", \"cpu\"],\n  \"modules-center\": [],\n  \"modules-right\": [\"battery\", \"tray\"]\n}\n";
    let path = config_path(&paths());
    let mut wb = WaybarConfig::load(&path, Ok(text)).unwrap();
    assert_eq!(wb.lane("modules-left"), vec!["clock", "cpu"]);
    assert_eq!(wb.lanes().len(), 3);

    // reorder, add, remove — all through the comment-preserving editor
    wb.reorder("modules-left", &vec!["cpu".into(), "clock".into()])
        .unwrap();
    assert_eq!(wb.lane("modules-left"), vec!["cpu", "clock"]);
    wb.add("modules-center", "network").unwrap();
    assert_eq!(wb.lane("modules-center"), vec!["network"]);
    wb.remove("modules-right", "battery").unwrap();
    assert_eq!(wb.lane("modules-right"), vec!["tray"]);

    let on_disk = wb.save();
    assert!(on_disk.contains("// bar")); // comment preserved through edits
                                         // reloads to the same state
    let wb2 = WaybarConfig::load(&path, Ok(&on_disk)).unwrap();
    assert_eq!(wb2.lane("modules-left"), vec!["cpu", "clock"]);
}

#[test]
fn a_module_is_moved_to_one_lane() {
    let text = "{\"modules-left\": [\"clock\"], \"modules-center\": [\"clock\"], \"modules-right\": [\"tray\"]}";
    let mut wb = WaybarConfig::load("/c", Ok(text)).unwrap();
    wb.move_to("clock", "modules-right").unwrap();
    assert!(wb.lane("modules-left").is_empty());
    assert!(wb.lane("modules-center").is_empty());
    assert_eq!(wb.lane("modules-right"), vec!["tray", "clock"]);
}

#[test]
fn a_lane_that_is_not_there_is_an_error() {
    let mut wb = WaybarConfig::load("/c", Ok("{}")).unwrap();
    let e = wb.add("modules-left", "clock").unwrap_err();
    assert!(matches!(e, StudioError::External { .. }), "{e:?}");
    assert!(wb.lane("modules-left").is_empty());
}

#[test]
fn a_broken_or_unreadable_bar_config_is_an_error() {
    let e = WaybarConfig::load("/c", Ok("{ nope")).unwrap_err();
    assert!(matches!(e, StudioError::ParseFailed { .. }), "{e:?}");
    let e = WaybarConfig::load("/c", Err("denied")).unwrap_err();
    assert!(format!("{e:?}").contains("denied"), "{e:?}");
}

#[test]
fn custom_module_wizard_scaffolds_config_and_lane_entry() {
    let text = "{\n  \"modules-left\": [\"clock\"],\n  \"modules-center\": [],\n  \"modules-right\": []\n}\n";
    let path = config_path(&paths());
    let mut wb = WaybarConfig::load(&path, Ok(text)).unwrap();
    let spec = CustomSpec {
        name: "My Weather!".into(),
        command: "curl wttr.in?format=3".into(),
        interval: Some(600),
        format: "{}".into(),
        on_click: Some("xdg-open https://wttr.in".into()),
    };
    let id = wb.add_custom_module(&spec, "modules-right").unwrap();
    assert_eq!(id, "custom/my-weather");
    assert_eq!(wb.lane("modules-right"), vec!["custom/my-weather"]);

    let on_disk = wb.save();
    let re = WaybarConfig::load(&path, Ok(&on_disk)).unwrap();
    // config object landed and is reachable + valid
    assert!(on_disk.contains("\"custom/my-weather\""));
    assert_eq!(re.lane("modules-right"), vec!["custom/my-weather"]);
    assert!(on_disk.contains("\"interval\": 600"));
    assert!(on_disk.contains("\"on-click\""));
    assert!(on_disk.contains("\"exec\": \"curl wttr.in?format=3\""));
    // the original module survived
    assert_eq!(re.lane("modules-left"), vec!["clock"]);
}

#[test]
fn a_custom_module_needs_a_name() {
    let mut wb = WaybarConfig::load("/c", Ok("{\"modules-left\": []}")).unwrap();
    let spec = CustomSpec {
        name: " !! ".into(),
        ..Default::default()
    };
    assert!(wb.add_custom_module(&spec, "modules-left").is_err());
    assert_eq!(wb.save(), "{\"modules-left\": []}");
}

#[test]
fn watchdog_reverts_when_waybar_dies_and_leaves_good_edits_alone() {
    let good = "{\n  \"modules-left\": [\"clock\"],\n  \"modules-center\": [],\n  \"modules-right\": []\n}\n";
    let path = config_path(&paths());
    let up = CmdOutput {
        status: 0,
        stdout: String::new(),
        stderr: String::new(),
    };
    let dead = CmdOutput {
        status: 1,
        stdout: String::new(),
        stderr: String::new(),
    };
    assert!(waybar_alive(Some(&up)));
    assert!(!waybar_alive(Some(&dead)));
    assert!(!waybar_alive(None));

    // Case 1: Waybar alive before, alive after → Applied, edit persists.
    let mut wb = WaybarConfig::load(&path, Ok(good)).unwrap();
    wb.add("modules-center", "cpu").unwrap();
    let plan = wb.apply_watched(Some(good), true, 0);
    assert_eq!(plan.edits.len(), 1);
    assert_eq!(plan.edits[0].old.as_deref(), Some(good));
    assert!(plan.edits[0].new_content.contains("cpu"));
    assert_eq!(plan.reload, vec![ReloadStep::Restart(Component::Waybar)]);
    assert_eq!(
        plan.verify,
        vec![Verification::ProcessAlive {
            component: Component::Waybar,
            grace_ms: 0
        }]
    );
    assert_eq!(outcome(true, Ok(())).unwrap(), ApplyOutcome::Applied);

    // Case 2: Waybar alive before, gone after → Reverted.
    let rolled = StudioError::VerifyFailed { rolled_back: true };
    assert_eq!(outcome(true, Err(rolled)).unwrap(), ApplyOutcome::Reverted);

    // Case 3: Waybar not running beforehand → AppliedUnwatched (no revert).
    let plan = wb.apply_watched(Some(good), false, 0);
    assert!(plan.verify.is_empty());
    assert_eq!(
        outcome(false, Ok(())).unwrap(),
        ApplyOutcome::AppliedUnwatched
    );

    // anything else that failed is passed on
    let other = StudioError::External {
        cmd: "x".into(),
        detail: "y".into(),
    };
    assert!(outcome(true, Err(other)).is_err());
}

#[test]
fn slug_and_escape_are_sane() {
    let s = CustomSpec {
        name: "  Foo Bar / Baz  ".into(),
        ..Default::default()
    };
    assert_eq!(s.slug(), "foo-bar-baz");
    assert_eq!(json_escape(r#"say "hi"\ok"#), r#"say \"hi\"\\ok"#);
}

#[test]
fn style_geometry_block_after_import_and_round_trips() {
    let css = "@import \"theme.css\";\n\n* {\n  font-size: 12px;\n}\n";
    let mut st = WaybarStyle::load(Some(css));
    assert!(st.font_size.is_none()); // nothing managed yet
    st.font_size = Some(14);
    st.radius = Some(6);
    let out = st.save(Some(css));

    // the @import stays first; our block is appended after the user's rules
    assert!(out.starts_with("@import"));
    let import_pos = out.find("@import").unwrap();
    let block_pos = out.find("omarchy-studio:waybar-style").unwrap();
    assert!(import_pos < block_pos, "managed block must follow @import");
    assert!(out.contains("font-size: 14px"));
    assert!(out.contains("border-radius: 6px"));
    // the user's own rule is untouched
    assert!(out.contains("font-size: 12px"));

    // reload reads the managed values back
    let re = WaybarStyle::load(Some(&out));
    assert_eq!(re.font_size, Some(14));
    assert_eq!(re.radius, Some(6));

    // clearing removes the block, leaving the original css intact
    let empty = WaybarStyle::default();
    let cleared = empty.save(Some(&out));
    assert!(!cleared.contains("omarchy-studio:waybar-style"));
    assert_eq!(cleared, css);
}

#[test]
fn pixel_values_are_read_by_property() {
    assert_eq!(grab_px("  font-size: 14px;", "font-size"), Some(14));
    assert_eq!(grab_px("  font-size: big;", "font-size"), None);
    assert_eq!(grab_px("  font-size: 99999999999px;", "font-size"), None);
    assert_eq!(grab_px("", "font-size"), None);
}

#[test]
fn a_running_bar_says_where_its_files_are() {
    let p = paths();
    let none = Overrides::load("/r/config.toml", None);
    let bars = vec![WaybarInstance {
        pid: 7,
        config: Some("/bar/config".into()),
        style: None,
    }];
    let c = resolve_config(&p, &none, "/h", &bars);
    assert_eq!((c.path.as_str(), c.source), ("/bar/config", Source::Detected));
    let s = resolve_style(&p, &none, "/h", &bars);
    assert_eq!((s.path, s.source), (style_path(&p), Source::Default));
}

#[test]
fn control_characters_are_escaped() {
    assert_eq!(json_escape("a\r\u{1}\u{1f}\u{8}b"), "a\\u000d\\u0001\\u001f\\u0008b");
    assert_eq!(json_escape("\n\t\u{7f} é"), "\\n\\t\u{7f} é");
    for s in ["", "say \"hi\"\\ok", "\r\n\t\u{0}\u{1b}[0m", "– ünïcode 🦀"] {
        let literal = format!("\"{}\"", json_escape(s));
        let back: String = serde_json::from_str(&literal).unwrap();
        assert_eq!(back, s);
    }
}

#[test]
fn a_slug_is_its_own_slug() {
    for name in ["CPU -- temp!", "---", " é x ", "a", "Foo Bar / Baz"] {
        let once = CustomSpec {
            name: name.into(),
            ..Default::default()
        }
        .slug();
        let again = CustomSpec {
            name: once.clone(),
            ..Default::default()
        }
        .slug();
        assert_eq!(once, again);
        assert!(!once.contains("--") && !once.starts_with('-') && !once.ends_with('-'));
    }
}
