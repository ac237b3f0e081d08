use studio_core::configfs::hyprlang::HyprDoc;
use studio_core::engine::{CmdOutput, ReloadStep, Verification};
use studio_core::error::StudioError;
use studio_core::looknfeel::nested::render_nested;
use studio_core::looknfeel::schema::{presets, settings};
use studio_core::looknfeel::{
    colon_key, groups, lookup, preset, preview_marker, strip_inline_comment, Kind, LookFeel,
    Sources, Target,
};
use studio_core::paths::OmarchyPaths;

fn paths() -> OmarchyPaths {
    OmarchyPaths {
        system: "/r/sys/omarchy".to_string(),
        config: "/r/.config/omarchy".to_string(),
        state: "/r/.local/state/omarchy".to_string(),
    }
}

const NONE: Sources<'static> = Sources {
    default: None,
    user: None,
};

/// What the look-and-feel file and the input file hold after a save.
fn saved(lf: &LookFeel, lnf: Option<&str>, input: Option<&str>) -> (Option<String>, Option<String>) {
    let mut out = (lnf.map(String::from), input.map(String::from));
    for e in lf.save(&paths(), lnf, input) {
        if e.file.ends_with("input.conf") {
            out.1 = Some(e.new_content);
        } else {
            out.0 = Some(e.new_content);
        }
    }
    out
}

#[test]
fn schema_is_coherent() {
    let all = settings();
    for s in &all {
        // defaults must validate against their own kind
        assert!(
            s.kind.validate(s.default).is_ok(),
            "default {:?} invalid for {}",
            s.default,
            s.key
        );
    }
    // keys are unique
    let mut seen = std::collections::HashSet::new();
    for s in &all {
        assert!(seen.insert(s.key), "duplicate key {}", s.key);
    }
    assert!(lookup("decoration.blur.size").is_some());
    assert!(groups().contains(&"Blur"));
    assert!(groups().contains(&"Input"));
    assert!(groups().contains(&"Touchpad"));
    assert_eq!(colon_key("decoration.blur.size"), "decoration:blur:size");
    // input settings target input.conf; the rest target looknfeel.conf
    assert_eq!(lookup("input.repeat_rate").unwrap().target, Target::Input);
    assert_eq!(
        lookup("input.touchpad.tap-to-click").unwrap().target,
        Target::Input
    );
    assert_eq!(lookup("general.gaps_in").unwrap().target, Target::Looknfeel);
}

#[test]
fn validation_enforces_kind_and_range() {
    let int = Kind::Int { min: 0, max: 10 };
    assert_eq!(int.validate("7").unwrap(), "7");
    assert!(int.validate("20").is_err());
    assert!(int.validate("x").is_err());
    assert_eq!(Kind::Bool.validate("YES").unwrap(), "true");
    assert_eq!(Kind::Bool.validate("off").unwrap(), "false");
    let en = Kind::Enum(&["dwindle", "master"]);
    assert!(en.validate("master").is_ok());
    assert!(en.validate("floating").is_err());
}

#[test]
fn fractions_are_validated_exactly() {
    let f = Kind::Float {
        min: -1_000_000,
        max: 1_000_000,
    };
    assert!(f.validate("0.5").is_ok());
    assert!(f.validate("-1").is_ok());
    assert!(f.validate("1.0000001").is_err());
    assert!(f.validate("half").is_err());
    assert!(f.validate("inf").is_err());
    assert!(Kind::Bool.validate("maybe").is_err());
}

#[test]
fn effective_value_overlays_default_user_and_override() {
    let default = "general {\n    gaps_in = 5\n    border_size = 2\n}\n";
    // user's own file bumps border_size; no Studio block yet
    let user = "general {\n    border_size = 4\n}\n";
    let src = Sources {
        default: Some(default),
        user: Some(user),
    };
    let mut lf = LookFeel::load(&src, &NONE);
    assert_eq!(lf.value("general.gaps_in"), "5"); // from default
    assert_eq!(lf.value("general.border_size"), "4"); // user overrides default
    assert_eq!(lf.value("decoration.rounding"), "0"); // schema default (absent)
    assert!(!lf.is_overridden("general.gaps_in"));

    // set an override, save, and confirm it round-trips + wins
    lf.set("general.gaps_in", "12").unwrap();
    assert!(lf.set("general.gaps_in", "999").is_err()); // out of range, unchanged
    let (on_disk, _) = saved(&lf, Some(user), None);
    let on_disk = on_disk.unwrap();

    let src = Sources {
        default: Some(default),
        user: Some(&on_disk),
    };
    let reloaded = LookFeel::load(&src, &NONE);
    assert_eq!(reloaded.value("general.gaps_in"), "12");
    assert!(reloaded.is_overridden("general.gaps_in"));
    assert_eq!(reloaded.value("general.border_size"), "4"); // user's own preserved
    assert!(on_disk.contains("border_size = 4")); // untouched
    assert!(on_disk.contains("omarchy-studio:looknfeel"));
    // saving once more is no change
    assert!(reloaded.save(&paths(), Some(&on_disk), None).is_empty());

    // clearing all overrides removes the block, restoring the user's file
    let mut r2 = LookFeel::load(&src, &NONE);
    r2.clear("general.gaps_in");
    let (after, _) = saved(&r2, Some(&on_disk), None);
    let after = after.unwrap();
    assert!(!after.contains("omarchy-studio:looknfeel"));
    assert!(after.contains("border_size = 4"));
    assert_eq!(after, user);
}

#[test]
fn base_value_strips_inline_comment() {
    assert_eq!(strip_inline_comment("0 # -1.0 - 1.0, no change"), "0");
    assert_eq!(strip_inline_comment("  5\t# gaps"), "5");
    assert_eq!(strip_inline_comment("dwindle"), "dwindle");
    assert_eq!(strip_inline_comment("rgba(11223344)"), "rgba(11223344)");

    // and it flows through base reading: the Omarchy default's commented
    // sensitivity line resolves to a clean, nudge-able value.
    let src = Sources {
        default: Some(
            "input {\n    sensitivity = 0 # -1.0 - 1.0, 0 means no modification.\n}\n",
        ),
        user: None,
    };
    let lf = LookFeel::load(&NONE, &src);
    assert_eq!(lf.value("input.sensitivity"), "0");
}

#[test]
fn input_settings_write_to_input_conf() {
    // an input override and a looknfeel override
    let mut lf = LookFeel::load(&NONE, &NONE);
    lf.set("input.repeat_rate", "35").unwrap();
    lf.set("input.touchpad.tap-to-click", "false").unwrap();
    lf.set("general.gaps_in", "9").unwrap();
    let written = lf.save(&paths(), None, None);
    assert_eq!(written.len(), 2); // both files touched

    let (lnf, input) = saved(&lf, None, None);
    let (lnf_conf, input_conf) = (lnf.unwrap(), input.unwrap());
    // input keys land in input.conf, not looknfeel.conf
    assert!(input_conf.contains("omarchy-studio:input"));
    assert!(input_conf.contains("repeat_rate = 35"));
    assert!(input_conf.contains("tap-to-click = false")); // hyphen key survives
    assert!(!input_conf.contains("gaps_in"));
    assert!(lnf_conf.contains("omarchy-studio:looknfeel"));
    assert!(lnf_conf.contains("gaps_in = 9"));
    assert!(!lnf_conf.contains("repeat_rate"));

    // round-trips back from the split files, including the hyphenated key
    let lnf_src = Sources {
        default: None,
        user: Some(&lnf_conf),
    };
    let input_src = Sources {
        default: None,
        user: Some(&input_conf),
    };
    let reloaded = LookFeel::load(&lnf_src, &input_src);
    assert_eq!(reloaded.value("input.repeat_rate"), "35");
    assert_eq!(reloaded.value("input.touchpad.tap-to-click"), "false");
    assert_eq!(reloaded.value("general.gaps_in"), "9");
    assert!(reloaded.is_overridden("input.touchpad.tap-to-click"));

    // clearing only the input overrides removes the input block, keeps lnf
    let mut r = reloaded;
    r.clear("input.repeat_rate");
    r.clear("input.touchpad.tap-to-click");
    let (lnf_after, input_after) = saved(&r, Some(&lnf_conf), Some(&input_conf));
    assert!(!input_after.unwrap().contains("omarchy-studio:input"));
    assert!(lnf_after.unwrap().contains("gaps_in = 9"));
}

#[test]
fn presets_are_valid_and_apply_cleanly() {
    // every preset value must reference a real setting and validate
    for p in presets() {
        for (key, value) in p.values {
            let s = lookup(key).unwrap_or_else(|| panic!("preset {} bad key {key}", p.name));
            assert!(
                s.kind.validate(value).is_ok(),
                "preset {} value {value} invalid for {key}",
                p.name
            );
        }
    }
    // applying replaces overrides wholesale
    let src = Sources {
        default: None,
        user: Some(""),
    };
    let mut lf = LookFeel::load(&src, &NONE);
    lf.set("general.gaps_in", "40").unwrap();
    lf.apply_preset(&preset("Minimal").unwrap());
    assert_eq!(lf.value("general.gaps_in"), "0"); // preset wins, old override gone
    assert_eq!(lf.value("decoration.blur.enabled"), "false");
    // "Omarchy default" clears everything
    lf.apply_preset(&preset("Omarchy default").unwrap());
    assert!(!lf.any_overrides());
}

#[test]
fn the_preview_marker_lies_in_the_state_directory() {
    let m = preview_marker("/state");
    assert!(m.starts_with("/state/"), "{m}");
}

#[test]
fn nested_block_renders_categories() {
    let entries = vec![
        (vec!["general".into(), "gaps_in".into()], "8".to_string()),
        (
            vec!["decoration".into(), "rounding".into()],
            "12".to_string(),
        ),
        (
            vec!["decoration".into(), "blur".into(), "size".into()],
            "4".to_string(),
        ),
    ];
    let mut out = String::new();
    render_nested(&entries, 0, &mut out);
    assert!(out.contains("general {\n    gaps_in = 8\n}"));
    assert!(out.contains("decoration {\n    rounding = 12\n"));
    assert!(out.contains("    blur {\n        size = 4\n    }"));
    // and it parses back as valid hyprlang with the right dotted keys
    let doc = HyprDoc::parse(&out);
    assert_eq!(doc.get("decoration.blur.size").as_deref(), Some("4"));
    assert_eq!(doc.get("general.gaps_in").as_deref(), Some("8"));
}

#[test]
fn an_unknown_key_cannot_be_changed() {
    let mut lf = LookFeel::load(&NONE, &NONE);
    let e = lf.set("general.nope", "1").unwrap_err();
    assert!(e.contains("general.nope"), "{e}");
    assert!(!lf.any_overrides());
    assert_eq!(lf.render_block_body(Target::Looknfeel), None);
}

#[test]
fn a_preview_goes_through_hyprctl_keyword() {
    let mut lf = LookFeel::load(&NONE, &NONE);
    lf.set("decoration.blur.size", "9").unwrap();
    let c = lf.preview_cmd("decoration.blur.size");
    assert_eq!(c.program, "hyprctl");
    assert_eq!(c.args, vec!["keyword", "decoration:blur:size", "9"]);
    let ran = |status: i32, stdout: &str| CmdOutput {
        status,
        stdout: stdout.into(),
        stderr: String::new(),
    };
    assert!(lf.preview_one("decoration.blur.size", &ran(0, "ok")).is_ok());
    let e = lf
        .preview_one("decoration.blur.size", &ran(1, "bad option"))
        .unwrap_err();
    assert!(matches!(e, StudioError::External { .. }), "{e:?}");
    // one command for each setting, in their order
    let all = lf.preview_all_cmds();
    assert_eq!(all.len(), 56);
    for (c, s) in all.iter().zip(settings()) {
        assert_eq!(c.program, "hyprctl");
        assert_eq!(
            c.args,
            vec!["keyword".to_string(), colon_key(s.key), lf.value(s.key)]
        );
    }
    // the first failure is the one that is reported, in its setting's name
    let with = |odd: Vec<(usize, Result<CmdOutput, StudioError>)>| {
        let mut all: Vec<Result<CmdOutput, StudioError>> =
            (0..56).map(|_| Ok(ran(0, "ok"))).collect();
        for (i, r) in odd {
            all[i] = r;
        }
        all
    };
    assert_eq!(lf.preview_all(with(vec![])), Ok(()));
    let told = lf.preview_all(with(vec![(1, Ok(ran(1, "no"))), (2, Err(e.clone()))]));
    match told {
        Err(StudioError::External { cmd, .. }) => assert_eq!(
            cmd,
            format!("hyprctl keyword {}", colon_key(settings()[1].key))
        ),
        other => panic!("{other:?}"),
    }
    assert_eq!(lf.preview_all(with(vec![(55, Err(e.clone()))])), Err(e));
}

#[test]
fn the_groups_come_in_display_order() {
    assert_eq!(
        groups(),
        [
            "Windows", "Layout", "Behavior", "Decoration", "Blur", "Shadow", "Input", "Touchpad"
        ]
    );
}

#[test]
fn a_value_that_was_accepted_is_accepted_again() {
    for s in settings() {
        for raw in ["+007", "-0", "1e-1", "0.50", "12.", "on", "OFF", "dwindle", "NaN", "3"] {
            if let Ok(v) = s.kind.validate(raw) {
                assert_eq!(s.kind.validate(&v), Ok(v.clone()), "{} {raw}", s.key);
            }
        }
    }
    let opacity = lookup("decoration.active_opacity").unwrap().kind;
    assert_eq!(opacity.validate(" 0.50 "), Ok("0.5".into()));
    assert_eq!(opacity.validate("1e-1"), Ok("0.1".into()));
}

#[test]
fn applying_reloads_hyprland() {
    let mut lf = LookFeel::load(&NONE, &NONE);
    lf.set("general.gaps_in", "9").unwrap();
    let plan = lf.apply(&paths(), None, None, true, "gaps");
    assert_eq!(plan.module, "looknfeel");
    assert_eq!(plan.edits.len(), 1);
    assert_eq!(plan.edits[0].file, "/r/.config/hypr/looknfeel.conf");
    assert_eq!(plan.reload, vec![ReloadStep::HyprReload]);
    assert_eq!(plan.verify, vec![Verification::HyprctlConfigErrorsEmpty]);
    assert!(lf.apply(&paths(), None, None, false, "gaps").verify.is_empty());
    assert_eq!(LookFeel::managed_paths(&paths()).len(), 2);
}

#[test]
fn the_catalogue_has_its_settings_and_presets() {
    assert_eq!(settings().len(), 56);
    assert_eq!(presets().len(), 6);
}

#[test]
fn clearing_all_drops_every_change() {
    let mut lf = LookFeel::load(&NONE, &NONE);
    lf.set("general.gaps_in", "9").unwrap();
    lf.set("input.repeat_rate", "35").unwrap();
    assert!(lf.any_overrides());
    lf.clear_all();
    assert!(!lf.any_overrides());
    assert_eq!(lf.value("general.gaps_in"), "5");
}
