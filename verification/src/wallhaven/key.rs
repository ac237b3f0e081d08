//! The key of a wallhaven account, in Studio's own config.

use vstd::prelude::*;

use crate::error::{Failure, StudioError, parse_failed};
use crate::split::lines;
use crate::text::{chars, opt_text, owned, trim, trimmed_str};
use crate::toml::{
    Node, Shape, Step, Toml, by_keys, child, cut, few_quotes, has_few_quotes, has_no_remark,
    is_print_of, is_remark, lemma_cut, lemma_put, lemma_text_is_print, node_at, parsed, put,
    put_text, read_text, remarks_in, remove, row_key, rows, shape, stands_above, step, table_under, text_at, text_under,
    under, value_at, with_rows,
};

verus! {

pub open spec fn key_path() -> Seq<Seq<char>> {
    seq!["wallhaven"@, "api_key"@]
}

/// The key that a config holds, where it holds one that is not blank.
pub open spec fn key_in(config: Node) -> Option<Seq<char>> {
    match text_at(config, key_path()) {
        Some(t) => if trim(t).len() > 0 {
            Some(trim(t))
        } else {
            None
        },
        None => None,
    }
}

/// The key in a config text; a text that is no TOML has none.
pub open spec fn key_of(read: Result<Node, Seq<char>>) -> Option<Seq<char>> {
    match read {
        Ok(config) => key_in(config),
        Err(_) => None,
    }
}

proof fn lemma_key_path(config: Node)
    ensures
        text_at(config, key_path()) == match child(config, "wallhaven"@) {
            Some(t) => text_under(t, "api_key"@),
            None => None,
        },
{
    let path = by_keys(key_path());
    reveal_with_fuel(node_at, 3);
    assert(path.skip(1) =~= seq![Step::Key("api_key"@)]);
    assert(path.skip(1).skip(1) =~= Seq::<Step>::empty());
}

/// The key, by the text of the config where it is there.
pub fn api_key_from(config: Option<&str>) -> (r: Option<String>)
    ensures
        match config {
            Some(text) => opt_text(r) == key_of(parsed(text@)),
            None => r is None,
        },
{
    let text = match config {
        Some(t) => t,
        None => {
            return None;
        },
    };
    let doc = match Toml::parse(text) {
        Ok(d) => d,
        Err(_) => {
            return None;
        },
    };
    proof {
        lemma_key_path(doc@);
    }
    read_key(&doc)
}

/// The key in a config that has been read.
fn read_key(doc: &Toml) -> (r: Option<String>)
    ensures
        opt_text(r) == key_in(doc@),
{
    proof {
        lemma_key_path(doc@);
    }
    match under(doc.top(), "wallhaven") {
        Some(section) => match read_text(section, "api_key") {
            Some(raw) => {
                let key = trimmed_str(raw.as_str());
                if chars(key.as_str()).len() == 0 {
                    None
                } else {
                    Some(key)
                }
            },
            None => None,
        },
        None => None,
    }
}

/// Whether the section, where there is one, is a table of either kind.
pub open spec fn has_section_form(config: Node) -> bool {
    match child(config, "wallhaven"@) {
        Some(t) => t is Table || t is Inline,
        None => true,
    }
}

/// A config with a key put in; a blank one takes out what is there.
pub open spec fn with_key(config: Node, key: Seq<char>) -> Node {
    let name = "wallhaven"@;
    if trim(key).len() == 0 {
        match child(config, name) {
            Some(t) => if t is Table || t is Inline {
                Node::Table(
                    put(rows(config), name, with_rows(t, cut(rows(t), "api_key"@))),
                )
            } else {
                config
            },
            None => config,
        }
    } else {
        let t = match child(config, name) {
            Some(t) => t,
            None => Node::Table(Seq::empty()),
        };
        Node::Table(
            put(
                rows(config),
                name,
                with_rows(t, put(rows(t), "api_key"@, Node::Text(trim(key)))),
            ),
        )
    }
}

/// What stands at the key of a config, whether it is one or not.
pub open spec fn key_row(config: Node) -> Option<Node> {
    match child(config, "wallhaven"@) {
        Some(t) => child(t, "api_key"@),
        None => None,
    }
}

/// Whether a line with a comment on it stays when the key is put in: it is not the
/// key's own line, and not in front of a key that is taken out.
pub open spec fn stays(text: Seq<char>, config: Node, key: Seq<char>, line: Seq<char>) -> bool {
    key_row(config) is Some ==> {
        &&& row_key(line) != Some("api_key"@)
        &&& trim(key).len() == 0 ==> !stands_above(lines(text), "api_key"@, line)
    }
}

pub open spec fn broken(config_toml: Seq<char>, why: Seq<char>) -> Failure {
    Failure::ParseFailed {
        file: config_toml,
        line: None,
        hint: "Studio's own config.toml isn't valid TOML: "@ + why,
    }
}

/// Whether a path leads to the section or to the key in it.
pub open spec fn is_key_path(path: Seq<Step>) -> bool {
    path.len() >= 1 && path[0] == Step::Key("wallhaven"@) && (path.len() == 1 || path[1]
        == Step::Key("api_key"@))
}

/// What is elsewhere in a config stays when the key is put in.
pub proof fn lemma_key_alone(config: Node, key: Seq<char>, path: Seq<Step>)
    requires
        config is Table,
        trim(key).len() > 0 ==> has_section_form(config),
        !is_key_path(path),
    ensures
        value_at(with_key(config, key), path) == value_at(config, path),
        with_key(config, key) is Table,
{
    let now = with_key(config, key);
    let name = "wallhaven"@;
    if now != config && path.len() > 0 {
        let had = child(config, name);
        let v = child(now, name);
        let was = match had {
            Some(t) => t,
            None => Node::Table(Seq::empty()),
        };
        let section = if trim(key).len() == 0 {
            with_rows(was, cut(rows(was), "api_key"@))
        } else {
            with_rows(was, put(rows(was), "api_key"@, Node::Text(trim(key))))
        };
        assert(now == Node::Table(put(rows(config), name, section)));
        if let Step::Key(first) = path[0] {
            lemma_put(rows(config), name, section, first);
        }
        if path[0] == Step::Key(name) {
            let tail = path.skip(1);
            assert(tail[0] == path[1]);
            if let Step::Key(second) = tail[0] {
                lemma_cut(rows(was), "api_key"@, second);
                lemma_put(rows(was), "api_key"@, Node::Text(trim(key)), second);
            }
            assert(rows(section) == if trim(key).len() == 0 {
                cut(rows(was), "api_key"@)
            } else {
                put(rows(was), "api_key"@, Node::Text(trim(key)))
            });
            assert(step(section, tail[0]) == step(was, tail[0]));
            assert(node_at(section, tail) == node_at(was, tail)) by {
                reveal_with_fuel(node_at, 1);
            }
            if had is None {
                assert(step(was, tail[0]) is None);
            }
        }
    }
}

/// What was put in is the key.
pub proof fn lemma_key_there(config: Node, key: Seq<char>)
    requires
        config is Table,
        has_section_form(config),
    ensures
        key_in(with_key(config, key)) == if trim(key).len() == 0 {
            None::<Seq<char>>
        } else {
            Some(trim(key))
        },
{
    let now = with_key(config, key);
    let name = "wallhaven"@;
    lemma_key_path(now);
    lemma_key_path(config);
    let was = match child(config, name) {
        Some(t) => t,
        None => Node::Table(Seq::empty()),
    };
    if trim(key).len() == 0 {
        if child(config, name) is Some {
            let section = with_rows(was, cut(rows(was), "api_key"@));
            lemma_put(rows(config), name, section, name);
            lemma_cut(rows(was), "api_key"@, "api_key"@);
        }
    } else {
        let section = with_rows(was, put(rows(was), "api_key"@, Node::Text(trim(key))));
        lemma_put(rows(config), name, section, name);
        lemma_put(rows(was), "api_key"@, Node::Text(trim(key)), "api_key"@);
        crate::split::lemma_trim_result(key);
        crate::split::lemma_trim_id(trim(key));
    }
}

/// Whether `now` is a config text with a key put in: it is a print of the config
/// with the key, has the values of that, and so all the old ones elsewhere. The
/// key reads back, and the lines with comments are there, but for the key's own and
/// those in front of a key that was taken out. A key that is no plain value can
/// hold comments itself: then nothing is said of them.
pub open spec fn is_saved(text: Seq<char>, key: Seq<char>, now: Seq<char>) -> bool {
    &&& parsed(text) is Ok
    &&& is_print_of(now, with_key(parsed(text)->Ok_0, key))
    &&& parsed(now) is Ok
    &&& forall|path: Seq<Step>| #[trigger]
        value_at(parsed(now)->Ok_0, path) == value_at(with_key(parsed(text)->Ok_0, key), path)
    &&& forall|path: Seq<Step>|
        !is_key_path(path) ==> #[trigger] value_at(parsed(now)->Ok_0, path) == value_at(
            parsed(text)->Ok_0,
            path,
        )
    &&& has_section_form(parsed(text)->Ok_0) ==> key_of(parsed(now)) == if trim(key).len() == 0 {
        None::<Seq<char>>
    } else {
        Some(trim(key))
    }
    &&& has_no_remark(key_row(parsed(text)->Ok_0)) ==> forall|l: Seq<char>|
        is_remark(l) && #[trigger] lines(text).contains(l) && stays(
            text,
            parsed(text)->Ok_0,
            key,
            l,
        ) ==> lines(now).contains(l)
}

/// Writes the key into a config: the text to keep, or why the config cannot be
/// edited. The rest of the config stays. A section that is no table of either
/// kind cannot take a key, and one with hundreds of quotes in a row cannot be
/// written.
pub fn save_api_key_to(config_toml: &str, text: &str, key: &str) -> (r: Result<
    String,
    StudioError,
>)
    requires
        few_quotes(trim(key@)),
        trim(key@).len() > 0 ==> match parsed(text@) {
            Ok(config) => has_section_form(config),
            Err(_) => true,
        },
    ensures
        match r {
            Ok(now) => is_saved(text@, key@, now@),
            Err(e) => parsed(text@) is Err && e@ == broken(config_toml@, parsed(text@)->Err_0),
        },
{
    let mut doc = match Toml::parse(text) {
        Ok(d) => d,
        Err(why) => {
            let mut hint = owned("Studio's own config.toml isn't valid TOML: ");
            hint.append(why.as_str());
            return Err(parse_failed(config_toml, hint.as_str()));
        },
    };
    let ghost config = doc@;
    let ghost was = remarks_in(doc.doc);
    let clean = trimmed_str(key);
    if chars(clean.as_str()).len() == 0 {
        let is_table = match under(doc.top(), "wallhaven") {
            Some(section) => match shape(section) {
                Shape::Table => true,
                Shape::Inline => true,
                _ => false,
            },
            None => false,
        };
        if is_table {
            let top = doc.top_mut();
            let section = table_under(top, "wallhaven");
            let _ = remove(section, "api_key");
        }
    } else {
        let top = doc.top_mut();
        let section = table_under(top, "wallhaven");
        put_text(section, "api_key", clean.as_str());
    }
    assert(doc@ == with_key(config, key@));
    proof {
        assert forall|path: Seq<Step>| !is_key_path(path) implies #[trigger] value_at(
            doc@,
            path,
        ) == value_at(config, path) by {
            lemma_key_alone(config, key@, path);
        }
        lemma_key_alone(config, key@, Seq::empty());
        if has_section_form(config) {
            lemma_key_there(config, key@);
        }
    }
    let now = doc.print();
    proof {
        lemma_text_is_print(doc);
        assert forall|l: Seq<char>|
            has_no_remark(key_row(config)) && is_remark(l) && #[trigger] lines(text@).contains(l)
                && stays(text@, config, key@, l) implies lines(now@).contains(l) by {
            assert(was.contains(l));
            assert(remarks_in(doc.doc).contains(l));
        }
    }
    assert(value_at(parsed(now@)->Ok_0, by_keys(key_path())) == value_at(
        doc@,
        by_keys(key_path()),
    ));
    Ok(now)
}

/// Writes the key where it can be written, and nothing where the section is no
/// table of either kind, or the key has hundreds of quotes in a row.
pub fn try_save_api_key(config_toml: &str, text: &str, key: &str) -> (r: Option<
    Result<String, StudioError>,
>)
    ensures
        r is None <==> !few_quotes(trim(key@)) || trim(key@).len() > 0 && parsed(text@) is Ok
            && !has_section_form(parsed(text@)->Ok_0),
        r matches Some(Ok(now)) ==> is_saved(text@, key@, now@),
        r matches Some(Err(e)) ==> parsed(text@) is Err && e@ == broken(
            config_toml@,
            parsed(text@)->Err_0,
        ),
{
    let clean = trimmed_str(key);
    if !has_few_quotes(clean.as_str()) {
        return None;
    }
    if chars(clean.as_str()).len() > 0 {
        if let Ok(doc) = Toml::parse(text) {
            if let Some(section) = under(doc.top(), "wallhaven") {
                match shape(section) {
                    Shape::Table => {},
                    Shape::Inline => {},
                    _ => {
                        return None;
                    },
                }
            }
        }
    }
    Some(save_api_key_to(config_toml, text, key))
}

} // verus!
