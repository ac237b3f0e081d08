use studio_core::engine::CmdOutput;
use studio_core::error::StudioError;
use studio_core::keybinds::overrides::{read_overrides, Override};
use studio_core::nova::{
    bin_path, clone_cmd, cloned, data_dir, install, install_keybind, is_copied, is_installed,
    keybind, known_providers, launch_command, modes, remove_keybind, script_for, uninstall,
    which_cmd, Nova, NovaConfig, BIND_DESC, BIN_NAME, REPO_URL,
};
use studio_core::paths::OmarchyPaths;

fn paths() -> OmarchyPaths {
    OmarchyPaths {
        system: "/r/sys/omarchy".to_string(),
        config: "/r/.config/omarchy".to_string(),
        state: "/r/.local/state/omarchy".to_string(),
    }
}

fn ran(status: i32, stdout: &str, stderr: &str) -> CmdOutput {
    CmdOutput {
        status,
        stdout: stdout.into(),
        stderr: stderr.into(),
    }
}

#[test]
fn missing_file_loads_bundled_defaults() {
    let nova = Nova::load(&paths(), None, None);
    assert!(!nova.existed);
    assert_eq!(nova.cfg.mode, "constellation");
    assert_eq!(nova.cfg.limit, 40);
    assert!(nova.cfg.anim.spring);
    assert_eq!(nova.cfg.providers.len(), 8);
    assert!(modes().contains(&"constellation"));
    assert!(nova
        .cfg
        .providers
        .iter()
        .all(|p| known_providers().contains(&p.as_str())));
}

#[test]
fn what_was_read_is_kept() {
    let mut read = NovaConfig::default();
    read.mode = "grid".into();
    read.extra = vec![("futureKnob".into(), "7".into())];
    let nova = Nova::load(&paths(), Some("{}"), Some(read.clone()));
    assert!(nova.existed);
    assert_eq!(nova.cfg, read);
    // a file that does not parse is there all the same
    let broken = Nova::load(&paths(), Some("nope"), None);
    assert!(broken.existed);
    assert_eq!(broken.cfg, NovaConfig::default());
}

#[test]
fn saved_settings_end_in_a_newline() {
    let nova = Nova::load(&paths(), None, None);
    assert_eq!(nova.config_path(), Nova::file(&paths()));
    assert_eq!(nova.save(Ok("{}")).unwrap(), "{}\n");
    let e = nova.save(Err("no")).unwrap_err();
    assert!(matches!(e, StudioError::ParseFailed { .. }), "{e:?}");
}

#[test]
fn keybind_installs_updates_and_removes() {
    let p = paths();
    assert!(keybind(None).is_none());
    let (bind, plan) = install_keybind(&p, None, "SUPER", "SPACE", "/x/nova", true);
    assert_eq!(
        bind.render_line(),
        "bindd = SUPER, SPACE, Nice Launcher, exec, /x/nova"
    );
    let text = plan.unwrap().edits[0].new_content.clone();

    let found = keybind(Some(&text)).expect("bind installed");
    assert_eq!(found.arg, "/x/nova");

    // reinstall with a new chord replaces, not duplicates
    let (_, plan) = install_keybind(&p, Some(&text), "SUPER SHIFT", "N", "/x/nova", true);
    let text = plan.unwrap().edits[0].new_content.clone();
    let nova_binds = read_overrides(Some(&text))
        .iter()
        .filter(|o| matches!(o, Override::Bind(cb) if cb.description.as_deref() == Some(BIND_DESC)))
        .count();
    assert_eq!(nova_binds, 1);
    assert_eq!(keybind(Some(&text)).unwrap().key, "N");

    let (gone, plan) = remove_keybind(&p, Some(&text), true);
    assert!(gone);
    let text = plan.unwrap().edits[0].new_content.clone();
    assert!(keybind(Some(&text)).is_none());
    assert!(!remove_keybind(&p, Some(&text), true).0);
}

#[test]
fn the_launcher_is_looked_up() {
    assert_eq!(which_cmd().args.last().unwrap(), BIN_NAME);
    assert_eq!(
        launch_command(Some(&ran(0, "/usr/bin/nice-launcher\n", ""))),
        Some("/usr/bin/nice-launcher".to_string())
    );
    assert_eq!(launch_command(Some(&ran(1, "", ""))), None);
    assert_eq!(launch_command(None), None);
}

#[test]
fn a_clone_that_failed_is_an_error() {
    let c = clone_cmd("/tmp/x");
    assert_eq!(c.program, "git");
    assert!(c.args.contains(&REPO_URL.to_string()));
    assert!(cloned(Some(&ran(0, "", ""))).is_ok());
    let e = cloned(Some(&ran(128, "", "no network"))).unwrap_err();
    assert!(format!("{e:?}").contains("no network"), "{e:?}");
    assert!(cloned(None).is_err());
}

#[test]
fn the_script_quotes_where_the_launcher_lies() {
    let i = install("/tmp/x", None, "/home/me");
    assert_eq!(i.data, data_dir(None, "/home/me"));
    assert_eq!(i.script_path, bin_path("/home/me"));
    assert_eq!(i.script, script_for(&format!("\"{}\"", i.data)));
    // quotes and backslashes are written as an escaped literal
    let odd = install("/tmp/x", Some("/d\"q\\"), "/home/me");
    assert!(odd.script.contains("\"/d\\\"q\\\\/"), "{}", odd.script);
    assert!(!is_copied(".git"));
}

#[test]
fn uninstalling_removes_what_is_there() {
    let bin = bin_path("/home/me");
    let data = data_dir(None, "/home/me");
    assert!(is_installed("/home/me", &vec![bin.clone()]));
    assert!(!is_installed("/home/me", &vec![]));
    let (had, gone) = uninstall(None, "/home/me", &vec![bin.clone()], &vec![data.clone()]);
    assert!(had);
    assert_eq!(gone.script, Some(bin));
    assert_eq!(gone.data, Some(data));
    let (had, gone) = uninstall(None, "/home/me", &vec![], &vec![]);
    assert!(!had);
    assert_eq!((gone.script, gone.data), (None, None));
}
