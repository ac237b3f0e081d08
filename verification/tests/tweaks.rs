use studio_core::engine::FileEdit;
use studio_core::paths::OmarchyPaths;
use studio_core::tweaks::{
    apply, catalog, find, plan_edits, Action, Applied, Ctx, Folder, Seen, State, Tweak,
};

fn ctx() -> Ctx {
    Ctx {
        paths: OmarchyPaths {
            system: "/h/sys".to_string(),
            config: "/h/cfg/omarchy".to_string(),
            state: "/h/cfg/state".to_string(),
        },
        home: "/h".to_string(),
    }
}

fn holding(text: Option<&str>) -> Seen<'_> {
    Seen {
        text,
        screenshots: Folder::Absent,
        screencasts: Folder::Absent,
    }
}

fn folders(screenshots: Folder, screencasts: Folder) -> Seen<'static> {
    Seen {
        text: None,
        screenshots,
        screencasts,
    }
}

/// The text that one write leaves.
fn written(actions: Vec<Action>) -> String {
    assert_eq!(actions.len(), 1);
    match &actions[0] {
        Action::Write(e) => e.new_content.clone(),
        other => panic!("{other:?}"),
    }
}

#[test]
fn catalog_ids_unique() {
    let cat = catalog();
    let mut seen = std::collections::HashSet::new();
    for t in &cat {
        assert!(seen.insert(t.id()), "dup id {}", t.id());
    }
    assert!(find("caps-escape").is_some());
    assert!(find("nope").is_none());
}

#[test]
fn caps_escape_round_trips() {
    let c = ctx();
    let t = Tweak::CapsEscape;
    assert_eq!(t.state(&holding(None)), State::Off);
    let text = written(t.set(&c, &holding(None), true));
    assert_eq!(t.state(&holding(Some(&text))), State::On);
    assert!(text.contains("kb_options = caps:escape"));
    assert!(text.contains("omarchy-studio:tweak-caps-escape"));
    assert_eq!(t.path(&c).as_deref(), Some("/h/cfg/hypr/input.conf"));
    // idempotent apply
    assert!(t.set(&c, &holding(Some(&text)), true).is_empty());
    // revert
    let back = written(t.set(&c, &holding(Some(&text)), false));
    assert_eq!(t.state(&holding(Some(&back))), State::Off);
}

#[test]
fn tweak_block_leaves_other_content_intact() {
    let c = ctx();
    // Pretend the looknfeel module already owns a block here.
    let before = "# >>> omarchy-studio:input — generated; edit outside this block only >>>\ninput {\n  repeat_rate = 40\n}\n# <<< omarchy-studio:input <<<\n";
    let text = written(Tweak::CapsEscape.set(&c, &holding(Some(before)), true));
    assert!(text.contains("repeat_rate = 40")); // untouched
    assert!(text.contains("caps:escape")); // added
    let text = written(Tweak::CapsEscape.set(&c, &holding(Some(&text)), false));
    assert!(text.contains("repeat_rate = 40")); // still there
    assert!(!text.contains("caps:escape")); // removed
    assert_eq!(text, before);
}

#[test]
fn transparency_uses_omarchy_opacity_syntax() {
    let c = ctx();
    let t = Tweak::InactiveTransparency;
    let text = written(t.set(&c, &holding(None), true));
    assert!(text.contains("windowrule = opacity 1.0 0.95, match:class .*"));
    assert_eq!(t.state(&holding(Some(&text))), State::On);
}

#[test]
fn media_dirs_create_and_revert_when_empty() {
    let c = ctx();
    let t = Tweak::MediaDirs;
    let absent = folders(Folder::Absent, Folder::Absent);
    assert_eq!(t.state(&absent), State::Off);
    let made = t.set(&c, &absent, true);
    assert_eq!(made.len(), 2);
    assert_eq!(made[0], Action::MakeDir("/h/Pictures/Screenshots".into()));
    let there = folders(Folder::Empty, Folder::Empty);
    assert_eq!(t.state(&there), State::On);
    assert!(t.state(&there).is_on());
    // revert removes the empty dirs
    let gone = t.set(&c, &there, false);
    assert_eq!(gone.len(), 2);
    assert_eq!(gone[0], Action::RemoveDir("/h/Pictures/Screenshots".into()));
}

#[test]
fn media_dirs_revert_keeps_nonempty() {
    let c = ctx();
    // revert must not delete a dir with captures in it
    let seen = folders(Folder::Filled, Folder::Empty);
    let gone = Tweak::MediaDirs.set(&c, &seen, false);
    let (shots, casts) = Tweak::dirs(&c);
    assert_eq!(gone, vec![Action::RemoveDir(casts)]);
    assert!(!gone.contains(&Action::RemoveDir(shots)));
}

#[test]
fn one_folder_of_two_is_off() {
    let seen = folders(Folder::Filled, Folder::Absent);
    assert_eq!(Tweak::MediaDirs.state(&seen), State::Off);
}

#[test]
fn tweaks_of_hyprland_go_through_a_plan() {
    let c = ctx();
    match apply(Tweak::CapsEscape, &c, &holding(None), true, true) {
        Applied::Plan(p) => {
            assert_eq!(p.edits.len(), 1);
            assert_eq!(p.module, "tweaks");
            assert_eq!(p.verify.len(), 1);
        }
        other => panic!("{other:?}"),
    }
    let seen = folders(Folder::Absent, Folder::Absent);
    match apply(Tweak::MediaDirs, &c, &seen, true, true) {
        Applied::Direct(actions) => assert_eq!(actions.len(), 2),
        other => panic!("{other:?}"),
    }
}

#[test]
fn a_tweak_of_ones_own_goes_through_the_same_plan() {
    let edit = FileEdit {
        file: "/h/cfg/hypr/mine.conf".into(),
        old: None,
        new_content: "x = 1\n".into(),
    };
    let p = plan_edits("mine", true, vec![edit.clone()], true, true).unwrap();
    assert_eq!(p.summary, "tweak mine on");
    assert_eq!(p.edits, vec![edit.clone()]);
    assert_eq!((p.reload.len(), p.verify.len()), (1, 1));
    let p = plan_edits("mine", false, vec![edit], false, true).unwrap();
    assert_eq!((p.reload.len(), p.verify.len()), (0, 0));
    assert_eq!(plan_edits("mine", true, vec![], true, true), None);
}
