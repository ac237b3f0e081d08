use studio_core::engine::CmdOutput;
use studio_core::error::StudioError;
use studio_core::lockidle::hyprlock::{image_kind, Hyprlock};
use studio_core::lockidle::{Hypridle, Stage};
use studio_core::paths::OmarchyPaths;

fn paths() -> OmarchyPaths {
    OmarchyPaths {
        system: "/r/sys/omarchy".to_string(),
        config: "/r/.config/omarchy".to_string(),
        state: "/r/.local/state/omarchy".to_string(),
    }
}

const HYPRIDLE: &str = "\
general {
    lock_cmd = omarchy-system-lock
}

listener {
    timeout = 150
    on-timeout = pidof hyprlock || omarchy-launch-screensaver
}

listener {
    timeout = 152
    on-timeout = omarchy-system-lock
    on-resume = omarchy-system-wake
}

listener {
    timeout = 600
    on-timeout = hyprctl dispatch dpms off
    on-resume = hyprctl dispatch dpms on
}
";

#[test]
fn parses_and_classifies_the_idle_timeline() {
    let idle = Hypridle::load(&paths(), Ok(HYPRIDLE)).unwrap();
    let tl = idle.timeline();
    assert_eq!(tl.len(), 3);
    assert_eq!(tl[0].timeout, 150);
    assert_eq!(tl[0].stage, Stage::Screensaver);
    assert_eq!(tl[1].stage, Stage::Lock);
    assert_eq!(tl[2].stage, Stage::ScreenOff);
}

#[test]
fn retimes_one_listener_in_place() {
    let mut idle = Hypridle::load(&paths(), Ok(HYPRIDLE)).unwrap();
    let lock = idle
        .timeline()
        .into_iter()
        .find(|l| l.stage == Stage::Lock)
        .unwrap();
    idle.set_timeout(&lock, 300).unwrap();
    let out = idle.rendered();
    // only the lock listener's timeout changed; the screensaver stays 150
    assert!(out.contains("timeout = 300"));
    assert!(out.contains("timeout = 150"));
    assert!(!out.contains("timeout = 152"));
    // everything else preserved
    assert!(out.contains("lock_cmd = omarchy-system-lock"));
    assert!(out.contains("dpms off"));
    assert_eq!(out, HYPRIDLE.replace("timeout = 152", "timeout = 300"));
    // reloads clean
    assert_eq!(
        Hypridle::load(&paths(), Ok(&out))
            .unwrap()
            .timeline()
            .iter()
            .find(|l| l.stage == Stage::Lock)
            .unwrap()
            .timeout,
        300
    );
}

#[test]
fn the_timeline_is_in_the_order_of_time() {
    let text = "listener {\n timeout = 9\n on-timeout = systemctl suspend\n}\nlistener {\n timeout = 3\n on-timeout = beep\n}\n";
    let tl = Hypridle::load(&paths(), Ok(text)).unwrap().timeline();
    assert_eq!(tl[0].timeout, 3);
    assert_eq!(tl[0].stage, Stage::Other);
    assert_eq!(tl[1].stage, Stage::Suspend);
    assert_eq!(tl[1].stage.label(), "Suspend");
}

#[test]
fn a_listener_that_is_gone_cannot_be_retimed() {
    let mut idle = Hypridle::load(&paths(), Ok(HYPRIDLE)).unwrap();
    let lock = idle.timeline().remove(1);
    idle.set_timeout(&lock, 300).unwrap();
    let e = idle.set_timeout(&lock, 400).unwrap_err();
    assert!(matches!(e, StudioError::External { .. }), "{e:?}");
}

#[test]
fn an_unreadable_config_is_an_error() {
    let e = Hypridle::load(&paths(), Err("denied")).unwrap_err();
    assert!(format!("{e:?}").contains("denied"), "{e:?}");
    assert!(Hyprlock::load(&paths(), Err("denied")).is_err());
}

#[test]
fn a_failed_restart_is_reported() {
    let idle = Hypridle::load(&paths(), Ok(HYPRIDLE)).unwrap();
    assert_eq!(idle.path(), "/r/.config/hypr/hypridle.conf");
    let ok = CmdOutput {
        status: 0,
        stdout: String::new(),
        stderr: String::new(),
    };
    assert!(idle.apply(&ok).is_ok());
    let bad = CmdOutput {
        status: 1,
        stdout: String::new(),
        stderr: "no such unit".into(),
    };
    let e = idle.apply(&bad).unwrap_err();
    assert!(format!("{e:?}").contains("no such unit"), "{e:?}");
}

const HYPRLOCK: &str = "\
source = ~/.config/omarchy/current/theme/hyprlock.conf

background {
    color = $color
    path = ~/.config/omarchy/current/background
    blur_passes = 3
    brightness = 0.55
}

image {
    path = ~/.face
    size = 200
}

label {
    text = $TIME
    color = $font_color
}
";

#[test]
fn hyprlock_edits_avatar_blur_dim_and_keeps_theme_source() {
    let mut lock = Hyprlock::load(&paths(), Ok(HYPRLOCK)).unwrap();
    assert_eq!(lock.avatar_path().as_deref(), Some("~/.face"));
    assert_eq!(lock.blur_passes().as_deref(), Some("3"));
    assert_eq!(lock.dim().as_deref(), Some("0.55"));

    assert!(lock.set_avatar("~/.config/omarchy/profile_images/me.png"));
    assert!(lock.set_blur_passes(1));
    assert!(lock.set_dim(800_000));
    let (backup, out) = lock.save(&vec!["hyprlock.conf".to_string()], 1700);
    // first save creates a backup
    assert_eq!(
        backup.as_deref(),
        Some("/r/.config/hypr/lock-screen-backup.1700")
    );

    assert!(out.contains("path = ~/.config/omarchy/profile_images/me.png"));
    assert!(out.contains("blur_passes = 1"));
    assert!(out.contains("brightness = 0.80"));
    // theme source + the $TIME label are untouched
    assert!(out.contains("source = ~/.config/omarchy/current/theme/hyprlock.conf"));
    assert!(out.contains("text = $TIME"));

    // a second save doesn't make another backup
    let lock2 = Hyprlock::load(&paths(), Ok(&out)).unwrap();
    let siblings = vec![
        "hyprlock.conf".to_string(),
        "lock-screen-backup.1700".to_string(),
    ];
    let (again, same) = lock2.save(&siblings, 1800);
    assert!(again.is_none());
    assert_eq!(same, out);
}

#[test]
fn a_key_that_is_not_there_cannot_be_set() {
    let mut lock = Hyprlock::load(&paths(), Ok("label {\n text = hi\n}\n")).unwrap();
    assert!(!lock.set_avatar("x.png"));
    assert!(!lock.set_avatar_size(10));
    assert!(!lock.set_blur_passes(2));
    assert!(!lock.set_dim(500_000));
    assert_eq!(lock.avatar_size(), None);
    assert_eq!(lock.path(), "/r/.config/hypr/hyprlock.conf");
}

/// Smallest valid file — enough for the magic-byte check.
fn png_bytes() -> Vec<u8> {
    let mut v = vec![0x89, b'P', b'N', b'G', 0x0D, 0x0A, 0x1A, 0x0A];
    v.extend_from_slice(&[0u8; 8]);
    v
}

#[test]
fn importing_an_avatar_copies_it_into_the_picker_directory() {
    let p = paths();
    let dest =
        Hyprlock::import_avatar(&p, "/tmp/oms-av.png", "/h", true, &png_bytes(), &vec![]).unwrap();
    assert!(dest.starts_with(&Hyprlock::avatar_dir(&p)));
    assert!(dest.ends_with(".png"));
    // The picker reads the same directory, so it's offered immediately.
    assert!(Hyprlock::avatar_choices(&vec![dest.clone()]).contains(&dest));
}

#[test]
fn importing_the_same_name_twice_keeps_both() {
    let p = paths();
    let a =
        Hyprlock::import_avatar(&p, "/tmp/oms-dup.png", "/h", true, &png_bytes(), &vec![]).unwrap();
    let taken = vec!["oms-dup.png".to_string()];
    let b =
        Hyprlock::import_avatar(&p, "/tmp/oms-dup.png", "/h", true, &png_bytes(), &taken).unwrap();
    assert_ne!(a, b, "an existing avatar must not be overwritten");
    assert_eq!(Hyprlock::avatar_choices(&vec![a, b]).len(), 2);
}

#[test]
fn a_file_that_is_not_an_image_is_refused() {
    let p = paths();
    // Named .png but isn't one — hyprlock would silently draw nothing,
    // which reads as Studio having failed.
    assert!(Hyprlock::import_avatar(
        &p,
        "/tmp/oms-bad.png",
        "/h",
        true,
        b"just some text",
        &vec![]
    )
    .is_err());
    assert!(Hyprlock::avatar_choices(&vec![]).is_empty());
}

#[test]
fn a_missing_file_is_a_clear_error() {
    let err = Hyprlock::import_avatar(&paths(), "/nope/nothing.png", "/h", false, &[], &vec![])
        .unwrap_err();
    assert!(format!("{err:?}").contains("no such file"), "{err:?}");
}

#[test]
fn import_expands_a_leading_tilde() {
    // `~/pic.png` has to resolve, since that's how people type paths.
    let dest =
        Hyprlock::import_avatar(&paths(), "~/pic.png", "/home/me", true, &png_bytes(), &vec![])
            .unwrap();
    assert_eq!(dest, "/r/.config/omarchy/profile_images/pic.png");
}

#[test]
fn images_are_told_by_their_first_bytes() {
    assert_eq!(image_kind(&png_bytes()), Some("png"));
    assert_eq!(image_kind(&[0xFF, 0xD8, 0xFF, 0, 0]), Some("jpg"));
    assert_eq!(image_kind(b"RIFF\0\0\0\0WEBPVP8 "), Some("webp"));
    assert_eq!(image_kind(b"RIFF\0\0\0\0WAVEfmt "), None);
    assert_eq!(image_kind(&[]), None);
}

#[test]
fn only_images_are_offered_in_order() {
    let files = vec![
        "/d/b.png".to_string(),
        "/d/notes.txt".to_string(),
        "/d/a.jpg".to_string(),
    ];
    assert_eq!(
        Hyprlock::avatar_choices(&files),
        vec!["/d/a.jpg".to_string(), "/d/b.png".to_string()]
    );
}

#[test]
fn a_block_that_is_never_closed_is_read_to_its_end() {
    let text = "listener {\n  on-timeout = lock\n  timeout = 150";
    let mut h = Hypridle::load(&paths(), Ok(text)).unwrap();
    let l = h.timeline();
    assert_eq!(l.len(), 1);
    assert_eq!(l[0].timeout, 150);
    h.set_timeout(&l[0], 90).unwrap();
    assert_eq!(h.rendered(), "listener {\n  on-timeout = lock\n  timeout = 90");
}
