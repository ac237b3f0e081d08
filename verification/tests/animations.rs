use studio_core::animations::{apply, current, preset, presets, AnimPreset};
use studio_core::configfs::hyprlang::HyprDoc;
use studio_core::paths::OmarchyPaths;

fn paths() -> OmarchyPaths {
    OmarchyPaths {
        system: "/r/sys/omarchy".to_string(),
        config: "/r/.config/omarchy".to_string(),
        state: "/r/.local/state/omarchy".to_string(),
    }
}

fn applied(p: &AnimPreset, text: &str) -> String {
    match apply(&paths(), p, Some(text), true) {
        Some(plan) => plan.edits[0].new_content.clone(),
        None => text.to_string(),
    }
}

#[test]
fn presets_bodies_are_valid_hyprlang_animation_blocks() {
    for p in presets() {
        if p.body.is_empty() {
            continue;
        }
        // must parse and round-trip; "Off" disables, others enable
        let doc = HyprDoc::parse(&format!("{}\n", p.body));
        assert_eq!(
            HyprDoc::parse(&format!("{}\n", p.body)).to_text(),
            format!("{}\n", p.body)
        );
        let enabled = doc.get("animations.enabled");
        if p.name == "Off" {
            assert_eq!(enabled.as_deref(), Some("no"));
        } else {
            assert_eq!(enabled.as_deref(), Some("yes"), "{} should enable", p.name);
        }
    }
}

#[test]
fn apply_and_current_round_trip() {
    let user = "# user\ngeneral {\n    border_size = 2\n}\n";
    assert_eq!(current(Some(user)), "Default");
    let on_disk = applied(&preset("Fast").unwrap(), user);
    assert_eq!(current(Some(&on_disk)), "Fast");
    assert!(on_disk.contains("border_size = 2")); // user's own untouched
    assert!(on_disk.contains("bezier = snappy"));

    // switching preset replaces cleanly
    let off = applied(&preset("Off").unwrap(), &on_disk);
    assert_eq!(current(Some(&off)), "Off");
    // Default removes the block, restoring the file
    let after = applied(&preset("Default").unwrap(), &off);
    assert_eq!(current(Some(&after)), "Default");
    assert!(!after.contains("omarchy-studio:animations"));
    assert_eq!(after, user);
}

#[test]
fn every_feel_is_found_again() {
    for p in presets() {
        let text = applied(&p, "# mine\n");
        assert_eq!(current(Some(&text)), p.name);
        assert!(apply(&paths(), &p, Some(&text), true).is_none());
    }
    assert!(preset("Wild").is_none());
    assert_eq!(current(None), "Default");
}

#[test]
fn a_block_of_the_users_own_is_custom() {
    let text = applied(&preset("Off").unwrap(), "").replace("enabled = no", "enabled = maybe");
    assert_eq!(current(Some(&text)), "Custom");
}

#[test]
fn a_plan_names_the_feel() {
    let plan = apply(&paths(), &preset("Fast").unwrap(), None, false).unwrap();
    assert_eq!(plan.summary, "animations: Fast");
    assert_eq!(plan.edits[0].file, "/r/.config/hypr/looknfeel.conf");
    assert_eq!(plan.edits[0].old, None);
    assert!(plan.verify.is_empty());
}
