use studio_core::error::StudioError;
use studio_core::paths::OmarchyPaths;
use studio_core::targets::{
    bad_table, default_for, detect_key, known, parse_waybar_cmdline, resolve, resolve_all,
    split_key, validate, waybar_instance, Overrides, Source,
};
use studio_core::toml::has_few_quotes;

fn s(v: &str) -> String {
    v.to_string()
}

#[test]
fn resolve_precedence_override_beats_detected_beats_default() {
    let over = resolve(Some(s("/over")), Some(s("/det")), s("/def"));
    assert_eq!(over.source, Source::Override);
    assert_eq!(over.path, "/over");

    let det = resolve(None, Some(s("/det")), s("/def"));
    assert_eq!(det.source, Source::Detected);
    assert_eq!(det.path, "/det");

    let def = resolve(None, None, s("/def"));
    assert_eq!(def.source, Source::Default);
    assert_eq!(def.path, "/def");
}

#[test]
fn cmdline_separate_flags() {
    let args = vec![
        s("waybar"),
        s("-c"),
        s("/a/config.jsonc"),
        s("-s"),
        s("/a/style.css"),
    ];
    let (c, st) = parse_waybar_cmdline(&args, "/h");
    assert_eq!(c, Some(s("/a/config.jsonc")));
    assert_eq!(st, Some(s("/a/style.css")));
}

#[test]
fn cmdline_long_and_joined_forms() {
    let args = vec![
        s("waybar"),
        s("--config=/b/bar.jsonc"),
        s("--style"),
        s("/b/bar.css"),
    ];
    let (c, st) = parse_waybar_cmdline(&args, "/h");
    assert_eq!(c, Some(s("/b/bar.jsonc")));
    assert_eq!(st, Some(s("/b/bar.css")));
}

#[test]
fn cmdline_absent_flags_yield_none() {
    let args = vec![s("waybar"), s("-b"), s("DP-1")];
    let (c, st) = parse_waybar_cmdline(&args, "/h");
    assert!(c.is_none());
    assert!(st.is_none());
}

#[test]
fn cmdline_tilde_expands() {
    let args = vec![s("waybar"), s("-c"), s("~/.config/waybar/x.jsonc")];
    let (c, _) = parse_waybar_cmdline(&args, "/home/tester");
    assert_eq!(c, Some(s("/home/tester/.config/waybar/x.jsonc")));
}

#[test]
fn overrides_roundtrip_through_toml() {
    let mut o = Overrides::load("/d/config.toml", None);
    o.set("waybar.config", "~/.config/waybar/mybar.jsonc")
        .unwrap();
    o.set("waybar.style", "/abs/style.css").unwrap();
    let text = o.save();

    let reloaded = Overrides::load("/d/config.toml", Some(&text));
    assert_eq!(
        reloaded.get("waybar.config", "/home/tester"),
        Some(s("/home/tester/.config/waybar/mybar.jsonc"))
    );
    assert_eq!(
        reloaded.get("waybar.style", "/home/tester"),
        Some(s("/abs/style.css"))
    );
    assert_eq!(reloaded.entries("/home/tester").len(), 2);
}

#[test]
fn reset_prunes_emptied_tables() {
    let mut o = Overrides::load("/d/config.toml", None);
    o.set("waybar.config", "/a.jsonc").unwrap();
    assert!(o.reset("waybar.config").unwrap());
    assert!(o.get("waybar.config", "/h").is_none());
    assert!(o.entries("/h").is_empty());
    // second reset is a no-op, not an error
    assert!(!o.reset("waybar.config").unwrap());
    assert_eq!(o.save(), "");
}

#[test]
fn set_preserves_unrelated_config() {
    let mut o = Overrides::load("/d/config.toml", Some("[update]\ncheck = false\n"));
    o.set("waybar.config", "/a.jsonc").unwrap();
    let text = o.save();
    assert!(text.contains("[update]"));
    assert!(text.contains("check = false"));
    assert!(text.contains("[targets.waybar]"));
}

#[test]
fn split_key_rejects_flat_key() {
    assert!(split_key("waybar").is_err());
    assert_eq!(
        split_key("waybar.config").unwrap(),
        (s("waybar"), s("config"))
    );
}

#[test]
fn validate_rejects_missing_file() {
    let err = validate("waybar.config", "/no/such/file.jsonc", None);
    assert!(err.is_err());
}

#[test]
fn validate_rejects_bad_jsonc() {
    assert!(validate("waybar.config", "/d/bad.jsonc", Some(Ok("{ this is not json "))).is_err());
}

#[test]
fn validate_accepts_good_jsonc() {
    assert!(validate(
        "waybar.config",
        "/d/ok.jsonc",
        Some(Ok("{\n  // a comment\n  \"layer\": \"top\"\n}\n"))
    )
    .is_ok());
}

#[test]
fn validate_takes_any_text_for_a_style() {
    assert!(validate("waybar.style", "/d/x.css", Some(Ok("not json"))).is_ok());
}

#[test]
fn an_unreadable_file_fails_where_its_text_is_needed() {
    assert!(validate("waybar.style", "/d/x.css", Some(Err("denied"))).is_ok());
    let e = validate("waybar.config", "/d/x.jsonc", Some(Err("denied"))).unwrap_err();
    assert_eq!(
        e,
        StudioError::External {
            cmd: "read /d/x.jsonc".into(),
            detail: "denied".into()
        }
    );
}

#[test]
fn saving_keeps_arrays_of_tables_floats_and_dates() {
    let text = "[[hooks]]\nrun = \"a\"\n\n[[hooks]]\nratio = 1.50\nsince = 2024-01-02\n";
    let mut o = Overrides::load("/d/config.toml", Some(text));
    o.set("waybar.config", "/a").unwrap();
    let saved = o.save();
    assert!(saved.contains("[[hooks]]\nrun = \"a\""), "{saved}");
    assert!(saved.contains("ratio = 1.50\nsince = 2024-01-02"), "{saved}");
}

#[test]
fn a_flat_key_can_be_neither_set_nor_reset() {
    let mut o = Overrides::load("/d/config.toml", None);
    let e = o.set("waybar", "/a").unwrap_err();
    assert_eq!(
        e,
        StudioError::External {
            cmd: s("target"),
            detail: s("target key must be module.file, got `waybar`"),
        }
    );
    assert!(o.reset("waybar").is_err());
    assert_eq!(o.get("waybar", "/h"), None);
}

#[test]
fn a_value_in_the_place_of_a_table_is_an_error() {
    let mut o = Overrides::load("/d/config.toml", Some("targets = 3\n"));
    assert_eq!(o.set("waybar.config", "/a").unwrap_err(), bad_table("targets"));
    assert_eq!(o.save(), "targets = 3\n");

    let mut o = Overrides::load("/d/config.toml", Some("[targets]\nwaybar = 3\n"));
    assert_eq!(o.set("waybar.config", "/a").unwrap_err(), bad_table("waybar"));
}

#[test]
fn a_broken_config_reads_as_an_empty_one() {
    let o = Overrides::load("/d/config.toml", Some("targets = = ="));
    assert!(o.entries("/h").is_empty());
    assert_eq!(o.path(), "/d/config.toml");
}

#[test]
fn quotes_in_a_row_are_counted() {
    assert!(has_few_quotes("\"'\"'"));
    assert!(has_few_quotes(&"\"".repeat(255)));
    assert!(!has_few_quotes(&format!("a{}b", "\"".repeat(256))));
}

#[test]
fn dotted_and_inline_configs_keep_their_texts() {
    let dotted = "targets.foo.x = \"1\"\n[z]\nq = \"r\"\n";
    let mut o = Overrides::load("/d/config.toml", Some(dotted));
    o.set("waybar.config", "/a b/\"c\".jsonc").unwrap();
    let again = Overrides::load("/d/config.toml", Some(&o.save()));
    assert_eq!(again.get("foo.x", "/h"), Some(s("1")));
    assert_eq!(
        again.get("waybar.config", "/h"),
        Some(s("/a b/\"c\".jsonc"))
    );

    let inline = "[targets]\nwaybar = { config = \"x\" }\n";
    let mut o = Overrides::load("/d/config.toml", Some(inline));
    assert_eq!(o.get("waybar.config", "/h"), Some(s("x")));
    assert_eq!(o.set("waybar.style", "y").unwrap_err(), bad_table("waybar"));
}

#[test]
fn reset_keeps_a_sibling() {
    let mut o = Overrides::load("/d/config.toml", None);
    o.set("waybar.config", "/a.jsonc").unwrap();
    o.set("waybar.style", "/a.css").unwrap();
    assert!(o.reset("waybar.config").unwrap());
    assert_eq!(
        o.entries("/h"),
        vec![(s("waybar.style"), s("/a.css"))]
    );
}

#[test]
fn every_known_target_has_a_default() {
    let p = OmarchyPaths {
        system: s("/s"),
        config: s("/r/.config/omarchy"),
        state: s("/t"),
    };
    for spec in known() {
        assert!(default_for(spec.key, &p).is_some(), "{}", spec.key);
    }
    assert_eq!(default_for("nope.nope", &p), None);

    let mut o = Overrides::load("/d/config.toml", None);
    o.set("waybar.config", "~/bar").unwrap();
    let all = resolve_all(&p, &o, "/home/me", &vec![]);
    assert_eq!(all.len(), known().len());
    for (spec, r) in all {
        if spec.key == "waybar.config" {
            assert_eq!((r.path.as_str(), r.source), ("/home/me/bar", Source::Override));
        } else {
            assert_eq!(Some(r.path), default_for(spec.key, &p));
            assert_eq!(r.source.label(), "default");
        }
    }
}

#[test]
fn only_waybar_processes_are_instances() {
    let args = vec![s("/usr/bin/waybar"), s("-s"), s("/x.css")];
    let w = waybar_instance("42", "waybar\n", &args, "/h").unwrap();
    assert_eq!(w.pid, 42);
    assert_eq!(w.config, None);
    assert_eq!(w.style, Some(s("/x.css")));
    assert!(waybar_instance("self", "waybar\n", &args, "/h").is_none());
    assert!(waybar_instance("42", "foot\n", &args, "/h").is_none());
    let bars = vec![w];
    assert_eq!(detect_key("waybar.style", &bars), Some(s("/x.css")));
    assert_eq!(detect_key("waybar.config", &bars), None);
}

#[test]
fn setting_and_resetting_keep_every_other_value() {
    let before = "# notes\ntop = 7\n[targets.other]\nfile = \"/o\"\n[x]\nlist = [1, 2]\nflag = true\nin = { a.b = 1.5 }\n";
    let mut o = Overrides::load("/d/config.toml", Some(before));
    o.set("waybar.config", "/a.jsonc").unwrap();
    let set = o.save();
    for kept in ["# notes", "top = 7", "list = [1, 2]", "flag = true", "in = { a.b = 1.5 }"] {
        assert!(set.contains(kept), "{set}");
    }
    assert_eq!(o.get("other.file", "/h"), Some(s("/o")));
    assert!(o.reset("waybar.config").unwrap());
    assert_eq!(o.save(), before);
}

#[test]
fn only_the_modules_table_has_a_header() {
    let mut o = Overrides::load("/d/config.toml", Some("# note\n[x]\na = 1 # one\n"));
    o.set("waybar.config", "/a").unwrap();
    o.set("waybar.style", "/b").unwrap();
    let text = o.save();
    assert!(text.contains("[targets.waybar]"), "{text}");
    assert!(!text.contains("[targets]"), "{text}");
    assert!(text.contains("# note\n") && text.contains("a = 1 # one\n"), "{text}");
    let again = Overrides::load("/d/config.toml", Some(&text));
    assert_eq!(again.get("waybar.style", "/h").as_deref(), Some("/b"));
}
