use studio_core::paths::{
    expanded, extension_of, joined_path, name_of, parent_of, part_below, stem_of, within,
    OmarchyPaths,
};

#[test]
fn paths_are_joined_and_taken_apart() {
    assert_eq!(joined_path("/a", "b"), "/a/b");
    assert_eq!(joined_path("/a/", "b"), "/a/b");
    assert_eq!(joined_path("/a", "/b"), "/b");
    assert_eq!(parent_of("/a/b").as_deref(), Some("/a"));
    assert_eq!(parent_of("/a").as_deref(), Some("/"));
    assert_eq!(parent_of("a").as_deref(), Some(""));
    assert_eq!(parent_of("/"), None);
    assert_eq!(name_of("/a/b.png"), "b.png");
    assert_eq!(extension_of("b.tar.gz").as_deref(), Some("gz"));
    assert_eq!(extension_of(".bashrc"), None);
    assert_eq!(stem_of("b.tar.gz"), "b.tar");
}

#[test]
fn a_leading_tilde_is_the_home_directory() {
    assert_eq!(expanded("~/x", "/h"), "/h/x");
    assert_eq!(expanded("~", "/h"), "/h");
    assert_eq!(expanded("~me/x", "/h"), "~me/x");
}

#[test]
fn what_lies_below_a_directory_is_told_by_its_parts() {
    assert!(within("/a/b", "/a"));
    assert!(!within("/ab", "/a"));
    assert_eq!(part_below("/a/b/c", "/a").as_deref(), Some("b/c"));
    assert_eq!(part_below("/x", "/a"), None);
}

#[test]
fn hyprland_files_are_the_users_own() {
    let p = OmarchyPaths {
        system: "/h/.local/share/omarchy".to_string(),
        config: "/h/.config/omarchy".to_string(),
        state: "/h/.local/state/omarchy".to_string(),
    };
    let file = p.hypr_file("bindings.conf");
    assert!(within(&file, "/h/.config"));
    assert!(!within(&file, &p.system));
}
