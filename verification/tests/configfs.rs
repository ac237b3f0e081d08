use studio_core::configfs::hyprlang::HyprDoc;
use studio_core::configfs::jsonc::JsoncDoc;
use studio_core::configfs::managed::{CommentStyle, ManagedBlock};

#[test]
fn a_block_is_written_read_and_removed() {
    let b = ManagedBlock::new("x", CommentStyle::Hash);
    let user = "one\ntwo\n";
    let text = b.upsert(user, "body\nlines");
    assert!(text.starts_with(user));
    assert!(b.contains(&text));
    assert_eq!(b.extract(&text).as_deref(), Some("body\nlines"));
    assert_eq!(b.upsert(&text, "body\nlines"), text);
    assert_eq!(b.remove(&text), user);
    assert!(!b.contains(user));
    assert_eq!(b.extract(user), None);
}

#[test]
fn blocks_of_other_names_stay() {
    let a = ManagedBlock::new("a", CommentStyle::CBlock);
    let b = ManagedBlock::new("b", CommentStyle::CBlock);
    let text = b.upsert(&a.upsert("", "for a"), "for b");
    assert_eq!(a.extract(&text).as_deref(), Some("for a"));
    let text = b.remove(&text);
    assert_eq!(a.extract(&text).as_deref(), Some("for a"));
    assert!(text.contains("/*"));
}

#[test]
fn a_hyprland_config_is_kept_line_for_line() {
    let text = "# note\n$mod = SUPER\ngeneral {\n  gaps_in = 5 # inner\n  col {\n a = 1\n }\n}\n\nbind = $mod, T, exec, foot";
    let mut doc = HyprDoc::parse(text);
    assert_eq!(doc.to_text(), text);
    assert!(doc.get("general.gaps_in").unwrap().starts_with('5'));
    assert_eq!(doc.get("general.col.a").as_deref(), Some("1"));
    assert!(doc.set("general.gaps_in", "7"));
    assert_eq!(doc.get("general.gaps_in").as_deref(), Some("7"));
    assert_eq!(doc.get("general.col.a").as_deref(), Some("1"));
    assert!(!doc.set("general.nope", "7"));
    assert_eq!(doc.binds().len(), 1);
    assert_eq!(doc.entries().iter().filter(|e| e.key == "a").count(), 1);
}

#[test]
fn jsonc_edits_keep_the_comments() {
    let text = "{\n  // left\n  \"l\": [\"a\", \"b\"], /* in */ \"n\": 1\n}\n";
    let mut doc = JsoncDoc::parse(text).unwrap();
    assert_eq!(doc.to_text(), text);
    assert_eq!(doc.array_items("l").unwrap(), vec!["\"a\"", "\"b\""]);
    doc.add_item("l", "\"c\"").unwrap();
    assert_eq!(doc.array_items("l").unwrap(), vec!["\"a\"", "\"b\"", "\"c\""]);
    doc.remove_item("l", "\"a\"");
    doc.reorder("l", &vec!["\"c\"".to_string(), "\"b\"".to_string()])
        .unwrap();
    assert_eq!(doc.array_items("l").unwrap(), vec!["\"c\"", "\"b\""]);
    doc.set_scalar("n", "42").unwrap();
    doc.insert_member("extra", "{\"k\": true}").unwrap();
    let out = doc.to_text();
    assert!(out.contains("// left") && out.contains("/* in */"), "{out}");
    assert!(out.contains("42") && out.contains("\"extra\""), "{out}");
    assert!(JsoncDoc::parse(&out).is_ok());
}

#[test]
fn broken_jsonc_is_refused() {
    for text in ["", "{", "{\"a\" 1}", "[1, 2", "{} trailing", "{\"a\": tru}"] {
        assert!(JsoncDoc::parse(text).is_err(), "{text:?}");
    }
}

#[test]
fn removing_or_rewriting_a_block_leaves_the_others() {
    let a = ManagedBlock::new("a", CommentStyle::Hash);
    let b = ManagedBlock::new("b", CommentStyle::Hash);
    let c = ManagedBlock::new("c", CommentStyle::Hash);
    let text = c.upsert(&b.upsert(&a.upsert("mine\n", "for a"), "for b"), "for c");
    for changed in [b.remove(&text), b.upsert(&text, "longer\nthan before")] {
        assert_eq!(a.extract(&changed).as_deref(), Some("for a"));
        assert_eq!(c.extract(&changed).as_deref(), Some("for c"));
        assert!(changed.starts_with("mine\n"));
    }
}
