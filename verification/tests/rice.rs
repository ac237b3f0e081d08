use studio_core::engine::{CmdOutput, Risk};
use studio_core::error::StudioError;
use studio_core::paths::OmarchyPaths;
use studio_core::rice::{
    copied_along, export, exported, home, import, import_copies, machine_specific, now_utc, plan_export,
    plan_import, portable, safe_rel, understood, unpack, unpack_cmd, Bundle, Entry, FileState,
    ImportFilter, ThemeListing, ThemeState, Written, FORMAT,
};

const HOME: &str = "/home/me";

fn paths() -> OmarchyPaths {
    OmarchyPaths {
        system: "/home/me/sys/omarchy".to_string(),
        config: "/home/me/.config/omarchy".to_string(),
        state: "/home/me/.local/state/omarchy".to_string(),
    }
}

fn written(rel: &str, module: &str) -> Written {
    Written {
        path: format!("{HOME}/{rel}"),
        module: module.into(),
        is_file: true,
    }
}

fn seeded() -> Vec<Written> {
    vec![
        written(".config/hypr/looknfeel.conf", "looknfeel"),
        written(".config/hypr/monitors.conf", "monitors"),
    ]
}

fn my_rice() -> Vec<ThemeListing> {
    vec![
        ThemeListing {
            slug: "my-rice".into(),
            user: true,
            scratch: false,
        },
        ThemeListing {
            slug: "tokyo-night".into(),
            user: false,
            scratch: false,
        },
    ]
}

fn seeded_bundle() -> Bundle {
    let p = paths();
    let (entries, themes) = plan_export(&seeded(), &p.state, HOME, &my_rice());
    export(
        entries, themes, &p, HOME, "/home/me/rice.tar.gz", "0.9.0", "3.8.2", "now", 1, 2,
    )
    .bundle
}

fn ok() -> CmdOutput {
    CmdOutput {
        status: 0,
        stdout: String::new(),
        stderr: String::new(),
    }
}

#[test]
fn export_carries_tracked_files_and_user_themes_but_not_dotgit() {
    let p = paths();
    let (entries, themes) = plan_export(&seeded(), &p.state, HOME, &my_rice());
    let x = export(
        entries, themes, &p, HOME, "/home/me/rice.tar.gz", "0.9.0", "3.8.2", "now", 11, 22,
    );
    assert_eq!(x.stage, "/home/me/.rice-export-11-22");
    assert_eq!(x.make_dir.as_deref(), Some("/home/me"));
    assert_eq!(
        x.files[0],
        (
            "/home/me/.config/hypr/looknfeel.conf".to_string(),
            "/home/me/.rice-export-11-22/files/.config/hypr/looknfeel.conf".to_string()
        )
    );
    assert_eq!(
        x.themes,
        vec![(
            "/home/me/.config/omarchy/themes/my-rice".to_string(),
            "/home/me/.rice-export-11-22/themes/my-rice".to_string()
        )]
    );
    let b = exported(x.bundle, &ok()).expect("export writes a bundle");

    assert_eq!(b.omarchy_version, "3.8.2");
    assert_eq!(b.themes, ["my-rice"]);
    assert_eq!(b.modules(), ["looknfeel", "monitors"]);
    assert!(
        b.entries
            .iter()
            .any(|e| e.home_rel.ends_with("monitors.conf") && e.machine),
        "monitors.conf travels, flagged machine-specific"
    );

    let read = unpack(&ok(), Some(&x.manifest)).expect("our own bundle unpacks");
    assert_eq!(read, b, "manifest survives the round trip");
    // a theme's clone metadata is not part of the rice
    assert!(!copied_along(".git"));
    assert!(copied_along("colors.toml"));
}

#[test]
fn import_skips_machine_files_and_leaves_existing_themes_alone() {
    let b = seeded_bundle();
    // A different machine: no look-and-feel file, other displays, and the
    // same theme slug already present with content of its own.
    let files = vec![
        FileState {
            bundled: Some("# gaps\ngaps_in = 4\n".into()),
            on_disk: None,
        },
        FileState {
            bundled: Some("monitor=eDP-1,preferred,auto,1\n".into()),
            on_disk: Some("monitor=DP-1,3440x1440@100,0x0,1\n".into()),
        },
    ];
    let themes = vec![ThemeState {
        in_bundle: true,
        here: true,
    }];
    let filter = ImportFilter {
        themes: true,
        ..Default::default()
    };
    let plan = plan_import(&b, &files, &themes, "3.8.2", HOME, &filter);

    assert_eq!(plan.edits.len(), 1, "only the portable file is an edit");
    assert!(plan.edits[0].file.ends_with("looknfeel.conf"));
    assert!(
        plan.skipped
            .iter()
            .any(|(f, _)| f.ends_with("monitors.conf")),
        "monitors.conf is skipped by default"
    );
    assert_eq!(plan.themes_existing, ["my-rice"], "never clobbered");
    assert!(plan.themes_new.is_empty());
    assert!(plan.omarchy_mismatch.is_none(), "same Omarchy version");

    // Asking for it explicitly brings the machine file back in.
    let all = ImportFilter {
        with_machine: true,
        ..Default::default()
    };
    let plan = plan_import(&b, &files, &themes, "3.8.2", HOME, &all);
    assert_eq!(plan.edits.len(), 2);
}

#[test]
fn import_replays_through_the_pipeline_and_dry_run_writes_nothing() {
    let b = seeded_bundle();
    let theirs = "# theirs\ngaps_in = 99\n";
    let files = vec![
        FileState {
            bundled: Some("# gaps\ngaps_in = 4\n".into()),
            on_disk: Some(theirs.into()),
        },
        FileState {
            bundled: Some("monitor=eDP-1,preferred,auto,1\n".into()),
            on_disk: Some("monitor=eDP-1,preferred,auto,1\n".into()),
        },
    ];
    let themes = vec![ThemeState {
        in_bundle: true,
        here: false,
    }];
    let filter = ImportFilter {
        themes: true,
        ..Default::default()
    };
    let plan = plan_import(&b, &files, &themes, "3.8.2", HOME, &filter);
    let apply = import(&plan);
    let copies = import_copies(&plan, &paths(), "/tmp/unpacked", false, Ok(())).unwrap();
    assert_eq!(apply.module, "rice");
    assert_eq!(apply.risk, Risk::Risky);
    assert_eq!(apply.edits.len(), 1);
    // the edit is refused where the file is no longer what was planned for
    assert_eq!(apply.edits[0].old.as_deref(), Some(theirs));
    // the bundle's content wins
    assert_eq!(apply.edits[0].new_content, "# gaps\ngaps_in = 4\n");
    assert_eq!(
        copies,
        vec![(
            "/tmp/unpacked/themes/my-rice".to_string(),
            "/home/me/.config/omarchy/themes/my-rice".to_string()
        )]
    );
}

#[test]
fn a_second_import_changes_nothing() {
    let b = seeded_bundle();
    let text = Some("# gaps\ngaps_in = 4\n".to_string());
    let same = |t: &Option<String>| FileState {
        bundled: t.clone(),
        on_disk: t.clone(),
    };
    let files = vec![same(&text), same(&text)];
    let themes = vec![ThemeState {
        in_bundle: true,
        here: true,
    }];
    let filter = ImportFilter {
        with_machine: true,
        themes: true,
        ..Default::default()
    };
    let plan = plan_import(&b, &files, &themes, "3.8.2", HOME, &filter);
    assert!(plan.edits.is_empty());
    assert_eq!(plan.unchanged.len(), 2);
    assert!(plan.themes_new.is_empty());
}

#[test]
fn a_bundle_of_another_omarchy_says_so() {
    let b = seeded_bundle();
    let none = || FileState {
        bundled: None,
        on_disk: None,
    };
    let themes = vec![ThemeState {
        in_bundle: false,
        here: false,
    }];
    let filter = ImportFilter {
        only: vec!["looknfeel".into()],
        with_machine: true,
        themes: true,
    };
    let plan = plan_import(&b, &vec![none(), none()], &themes, "3.9.0", HOME, &filter);
    let note = plan.omarchy_mismatch.unwrap();
    assert!(note.contains("3.8.2") && note.contains("3.9.0"), "{note}");
    // a file that the archive lacks is skipped, and so is another module
    assert!(plan.edits.is_empty());
    assert_eq!(plan.skipped.len(), 2);
    assert!(plan.themes_new.is_empty() && plan.themes_existing.is_empty());
}

fn bundle() -> Bundle {
    Bundle {
        format: FORMAT,
        studio_version: "0.9.0".into(),
        omarchy_version: "3.8.2".into(),
        created: "2026-07-17T10:00:00Z".into(),
        entries: vec![
            Entry {
                home_rel: ".config/hypr/looknfeel.conf".into(),
                module: "looknfeel".into(),
                machine: false,
            },
            Entry {
                home_rel: ".config/hypr/monitors.conf".into(),
                module: "monitors".into(),
                machine: true,
            },
            Entry {
                home_rel: ".config/waybar/config.jsonc".into(),
                module: "waybar".into(),
                machine: false,
            },
        ],
        themes: vec!["my-rice".into()],
    }
}

#[test]
fn manifest_round_trips() {
    let b = bundle();
    let parsed = Bundle::parse(&b.render()).expect("our own manifest parses");
    assert_eq!(parsed, b);
    assert_eq!(parsed.modules(), ["looknfeel", "monitors", "waybar"]);
}

#[test]
fn a_manifest_with_odd_texts_round_trips() {
    let mut b = bundle();
    b.studio_version = "1.0 # not a comment = really".into();
    b.entries[0].module = "café ☕".into();
    b.themes = vec![];
    assert_eq!(Bundle::parse(&b.render()).unwrap(), b);
    b.entries = vec![];
    assert_eq!(Bundle::parse(&b.render()).unwrap(), b);
    // texts are written as they are, so a quote breaks the manifest
    b.studio_version = "a \"b".into();
    assert!(Bundle::parse(&b.render()).is_err());
}

#[test]
fn a_manifest_that_isnt_ours_is_rejected_not_guessed() {
    assert!(
        Bundle::parse("format = = =").is_err(),
        "invalid TOML"
    );
    assert!(
        Bundle::parse("name = \"some other archive\"").is_err(),
        "no format key — not a rice bundle"
    );
}

#[test]
fn path_traversal_in_a_bundle_is_refused() {
    for evil in ["../../.ssh/authorized_keys", "/etc/passwd", ".."] {
        let text = format!("format = 1\n\n[[files]]\npath = \"{evil}\"\nmodule = \"x\"\n");
        assert!(
            Bundle::parse(&text).is_err(),
            "{evil} must not be importable"
        );
    }
    assert!(safe_rel(".config/hypr/looknfeel.conf"));
}

#[test]
fn only_config_roots_are_rice_material() {
    assert!(portable(".config/hypr/looknfeel.conf"));
    assert!(portable(".local/share/applications/x.desktop"));
    assert!(portable(".bashrc"), "themesync's block travels");
    // A custom [targets] path, or anything a test run pointed us at,
    // is not part of anyone's rice.
    assert!(!portable(
        ".agent/jobs/78313bf8/tmp/wbtest/.config/waybar/config.jsonc"
    ));
    assert!(!portable("Projects/scratch/waybar/config.jsonc"));
}

#[test]
fn export_leaves_out_files_tracked_from_scratch_dirs() {
    let p = paths();
    let mut files = seeded();
    files.push(written("scratch/waybar/config.jsonc", "waybar"));
    let (entries, _) = plan_export(&files, &p.state, HOME, &my_rice());
    assert!(
        entries.iter().all(|e| !e.home_rel.contains("scratch")),
        "a tracked file outside the config roots is not rice material"
    );
    assert!(entries
        .iter()
        .any(|e| e.home_rel.ends_with("looknfeel.conf")));
}

#[test]
fn export_leaves_out_what_is_gone_and_what_is_state() {
    let p = paths();
    let mut gone = written(".config/hypr/input.conf", "looknfeel");
    gone.is_file = false;
    let state = written(".local/state/omarchy/toggles", "toggles");
    let scratch = vec![ThemeListing {
        slug: "studio-scratch".into(),
        user: true,
        scratch: true,
    }];
    let (entries, themes) = plan_export(&vec![gone, state], &p.state, HOME, &scratch);
    assert!(entries.is_empty() && themes.is_empty());
}

#[test]
fn monitors_are_machine_specific_by_module_or_by_path() {
    assert!(machine_specific(".config/hypr/monitors.conf", "monitors"));
    assert!(machine_specific(".config/hypr/monitors.conf", "other"));
    assert!(!machine_specific(
        ".config/hypr/looknfeel.conf",
        "looknfeel"
    ));
}

#[test]
fn a_newer_layout_is_not_understood() {
    let mut b = bundle();
    b.format = FORMAT + 1;
    let e = understood(b.clone()).unwrap_err();
    assert!(matches!(e, StudioError::External { .. }), "{e:?}");
    assert!(unpack(&ok(), Some(&b.render())).is_err());
}

#[test]
fn an_archive_that_tar_refuses_is_an_error() {
    let bad = CmdOutput {
        status: 2,
        stdout: String::new(),
        stderr: "not in gzip format".into(),
    };
    let e = unpack(&bad, None).unwrap_err();
    assert!(format!("{e:?}").contains("not in gzip format"), "{e:?}");
    assert!(exported(bundle(), &bad).is_err());
    // no manifest inside: not a rice
    assert!(unpack(&ok(), None).is_err());
    assert!(unpack_cmd("/nope.tar.gz", "/d", false).is_err());
    assert_eq!(unpack_cmd("/b.tar.gz", "/d", true).unwrap().program, "tar");
}

#[test]
fn the_date_and_the_home_are_read_off() {
    let date = CmdOutput {
        status: 0,
        stdout: "2026-07-17T10:00:00Z\n".into(),
        stderr: String::new(),
    };
    assert_eq!(now_utc(Some(&date)), "2026-07-17T10:00:00Z");
    assert_eq!(now_utc(None), "");
    assert_eq!(home(Some("/home/me")).unwrap(), "/home/me");
    assert!(home(None).is_err());
}

#[test]
fn a_path_is_exported_once_and_in_order() {
    let p = paths();
    let files = vec![
        written(".config/waybar/config.jsonc", "waybar"),
        written(".config/hypr/looknfeel.conf", "looknfeel"),
        written(".config/hypr/looknfeel.conf", "animations"),
    ];
    let (entries, _) = plan_export(&files, &p.state, HOME, &vec![]);
    let rels: Vec<&str> = entries.iter().map(|e| e.home_rel.as_str()).collect();
    assert_eq!(
        rels,
        [".config/hypr/looknfeel.conf", ".config/waybar/config.jsonc"]
    );
    assert_eq!(entries[0].module, "looknfeel");
}

#[test]
fn a_theme_with_an_unsafe_name_is_not_copied() {
    let mut b = bundle();
    b.entries = vec![];
    b.themes = vec!["../evil".into(), "good".into()];
    let here = || ThemeState {
        in_bundle: true,
        here: false,
    };
    let filter = ImportFilter {
        themes: true,
        ..Default::default()
    };
    let plan = plan_import(&b, &vec![], &vec![here(), here()], "3.8.2", HOME, &filter);
    assert_eq!(plan.themes_new, ["good"]);
}

#[test]
fn a_dry_run_and_a_failed_import_copy_no_themes() {
    let mut b = bundle();
    b.entries = vec![];
    b.themes = vec!["mine".into(), "kept".into()];
    let state = |here: bool| ThemeState {
        in_bundle: true,
        here,
    };
    let filter = ImportFilter {
        themes: true,
        ..Default::default()
    };
    let themes = vec![state(false), state(true)];
    let plan = plan_import(&b, &vec![], &themes, "3.8.2", HOME, &filter);
    let copies = |dry_run, applied| import_copies(&plan, &paths(), "/u", dry_run, applied);
    let failed = StudioError::VerifyFailed { rolled_back: true };
    assert_eq!(copies(true, Ok(())), Ok(vec![]));
    assert_eq!(copies(true, Err(failed.clone())), Err(failed.clone()));
    assert_eq!(copies(false, Err(failed.clone())), Err(failed));
    assert_eq!(
        copies(false, Ok(())),
        Ok(vec![(
            "/u/themes/mine".to_string(),
            "/home/me/.config/omarchy/themes/mine".to_string()
        )])
    );
}

#[test]
fn a_format_that_is_not_ours_is_refused_whatever_its_size() {
    for n in ["4294967297", "-4294967295", "-1", "0", "2", "4294967295"] {
        let text = format!("format = {n}\n");
        assert!(unpack(&ok(), Some(&text)).is_err(), "{n}");
    }
    assert!(unpack(&ok(), Some("format = 1\n")).is_ok());
    let e = Bundle::parse("format = 4294967297\n").unwrap_err();
    assert!(
        format!("{e:?}").contains("there is no bundle format 4294967297"),
        "{e:?}"
    );
}

#[test]
fn of_the_files_right_in_the_home_only_dotfiles_travel() {
    assert!(portable(".zshrc"));
    assert!(!portable("notes.txt"));
    assert!(!portable("x.config/y"));
    assert!(!portable("a/.config/b"));
}

#[test]
fn a_rendered_bundle_with_an_unsafe_path_is_refused() {
    let mut b = bundle();
    b.entries.push(Entry {
        home_rel: "../outside".into(),
        module: "other".into(),
        machine: false,
    });
    let e = Bundle::parse(&b.render()).unwrap_err();
    assert!(format!("{e:?}").contains("../outside"), "{e:?}");
}
