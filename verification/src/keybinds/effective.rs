//! The keymap as it is in effect: the compositor's binds, each with the config
//! layer that it comes from.

use vstd::prelude::*;

use crate::configfs::hyprlang::{HyprDoc, Layer};
use crate::engine::CmdOutput;
use crate::error::{external, Failure, StudioError};
use crate::keybinds::{
    attribute, attributed_views, binds_in_text, parse_runtime_binds_text, runtime_views,
    source_docs, source_of, AttributedBind, RuntimeBind, RuntimeView, SourceFile,
};
use crate::order::{positions, text_order, text_order_of};
use crate::paths::{extension, extension_of, file_name, name_of};
use crate::split::split;
use crate::text::{chars, opt_str, opt_text, owned, same_str, texts, trim, trimmed_str};

verus! {

/// What reading the compositor's JSON has given.
pub open spec fn parsed_view(r: Result<Vec<RuntimeBind>, StudioError>) -> Result<
    Seq<RuntimeView>,
    Failure,
> {
    match r {
        Ok(v) => Ok(runtime_views(v@)),
        Err(e) => Err(e@),
    }
}

/// The binds that `hyprctl` reports. Where its JSON cannot be read, the plain
/// listing counts, if there is one and it holds a bind; else the JSON's error
/// stands.
pub open spec fn reported(
    out: CmdOutput,
    parsed: Result<Seq<RuntimeView>, Failure>,
    plain: Option<CmdOutput>,
) -> Result<Seq<RuntimeView>, Failure> {
    if !out.succeeded() {
        Err(
            Failure::External {
                cmd: "hyprctl binds -j"@,
                detail: if trim(out.stderr@).len() == 0 {
                    "is Hyprland running?"@
                } else {
                    trim(out.stderr@)
                },
            },
        )
    } else {
        match parsed {
            Ok(v) => Ok(v),
            Err(e) => match plain {
                Some(p) => if p.succeeded() && binds_in_text(p.stdout@).len() > 0 {
                    Ok(binds_in_text(p.stdout@))
                } else {
                    Err(e)
                },
                None => Err(e),
            },
        }
    }
}

/// Whether the plain listing is worth asking for: the JSON came and could not
/// be read.
pub fn wants_plain(out: &CmdOutput, parsed: &Result<Vec<RuntimeBind>, StudioError>) -> (r: bool)
    ensures
        r == (out.succeeded() && *parsed is Err),
{
    match parsed {
        Ok(_) => false,
        Err(_) => out.ok(),
    }
}

/// Decides on the compositor's binds from what its two listings gave.
pub fn runtime_from(
    out: &CmdOutput,
    parsed: Result<Vec<RuntimeBind>, StudioError>,
    plain: Option<&CmdOutput>,
) -> (r: Result<Vec<RuntimeBind>, StudioError>)
    ensures
        parsed_view(r) == reported(
            *out,
            parsed_view(parsed),
            match plain {
                Some(p) => Some(*p),
                None => None,
            },
        ),
{
    if !out.ok() {
        let said = trimmed_str(out.stderr.as_str());
        let s = chars(said.as_str());
        let detail = if s.len() == 0 {
            "is Hyprland running?"
        } else {
            said.as_str()
        };
        return Err(external("hyprctl binds -j", detail));
    }
    match parsed {
        Ok(v) => Ok(v),
        Err(e) => {
            if let Some(p) = plain {
                if p.ok() {
                    let v = parse_runtime_binds_text(p.stdout.as_str());
                    assert(runtime_views(v@).len() == v@.len());
                    if v.len() > 0 {
                        return Ok(v);
                    }
                }
            }
            Err(e)
        },
    }
}

/// A file of Omarchy's bindings directory, with its text where it can be read.
#[derive(Debug, Clone, PartialEq, Eq)]
pub struct BindingsFile {
    pub path: String,
    pub text: Option<String>,
}

impl View for BindingsFile {
    type V = (Seq<char>, Option<Seq<char>>);

    open spec fn view(&self) -> (Seq<char>, Option<Seq<char>>) {
        (self.path@, opt_text(self.text))
    }
}

pub open spec fn file_views(v: Seq<BindingsFile>) -> Seq<(Seq<char>, Option<Seq<char>>)> {
    v.map_values(|f: BindingsFile| f@)
}

/// Whether a file takes part: a `.conf` that can be read.
pub open spec fn takes_part(f: (Seq<char>, Option<Seq<char>>)) -> bool {
    extension(file_name(f.0)) == Some("conf"@) && f.1 is Some
}

/// The files that take part.
pub open spec fn confs(files: Seq<(Seq<char>, Option<Seq<char>>)>) -> Seq<(
    Seq<char>,
    Option<Seq<char>>,
)> {
    files.filter(|f: (Seq<char>, Option<Seq<char>>)| takes_part(f))
}

/// The paths of some files.
pub open spec fn paths_of(files: Seq<(Seq<char>, Option<Seq<char>>)>) -> Seq<Seq<char>> {
    files.map_values(|f: (Seq<char>, Option<Seq<char>>)| f.0)
}

/// The documents in the order in which Hyprland reads them: Omarchy's own, by
/// path, then the user's.
pub open spec fn layered(
    files: Seq<(Seq<char>, Option<Seq<char>>)>,
    user: Option<Seq<char>>,
) -> Seq<(Layer, Seq<Seq<char>>)> {
    let part = confs(files);
    text_order_of(paths_of(part)).map_values(
        |i: int| (Layer::Default, split(part[i].1->0, '\n')),
    ) + match user {
        Some(t) => seq![(Layer::User, split(t, '\n'))],
        None => seq![],
    }
}

/// Reads and orders the documents.
fn read_docs(files: &Vec<BindingsFile>, user: Option<&str>) -> (r: Vec<(Layer, HyprDoc)>)
    ensures
        r@.map_values(|d: (Layer, HyprDoc)| (d.0, d.1.lines())) == layered(
            file_views(files@),
            opt_str(user),
        ),
{
    let ghost views = file_views(files@);
    let ghost f = |f: (Seq<char>, Option<Seq<char>>)| takes_part(f);
    let mut kept: Vec<&str> = Vec::new();
    let mut names: Vec<String> = Vec::new();
    let mut i: usize = 0;
    proof {
        reveal(Seq::filter);
    }
    assert(views.take(0).filter(f) == Seq::<(Seq<char>, Option<Seq<char>>)>::empty());
    while i < files.len()
        invariant
            i <= files@.len(),
            views == file_views(files@),
            f == (|f: (Seq<char>, Option<Seq<char>>)| takes_part(f)),
            kept@.len() == names@.len(),
            kept@.len() == views.take(i as int).filter(f).len(),
            forall|j: int|
                0 <= j < kept@.len() ==> (#[trigger] views.take(i as int).filter(f)[j]) == (
                    names@[j]@,
                    Some(kept@[j]@),
                ),
        decreases files.len() - i,
    {
        let ghost before = views.take(i as int).filter(f);
        assert(views.take(i + 1).drop_last() == views.take(i as int));
        assert(views.take(i + 1).last() == files@[i as int]@);
        proof {
            reveal(Seq::filter);
        }
        let name = name_of(files[i].path.as_str());
        let is_conf = match extension_of(name.as_str()) {
            Some(e) => same_str(e.as_str(), "conf"),
            None => false,
        };
        if is_conf {
            if let Some(t) = &files[i].text {
                kept.push(t.as_str());
                names.push(owned(files[i].path.as_str()));
                assert(views.take(i + 1).filter(f) == before.push(files@[i as int]@));
            }
        }
        i = i + 1;
    }
    assert(views.take(files@.len() as int) == views);
    let ghost all = confs(views);
    assert(all == views.filter(f));
    let order = text_order(&names);
    assert(texts(names@) == paths_of(all));
    let mut docs: Vec<(Layer, HyprDoc)> = Vec::new();
    let mut i: usize = 0;
    while i < order.len()
        invariant
            i <= order@.len(),
            docs@.len() == i,
            kept@.len() == order@.len(),
            kept@.len() == all.len(),
            forall|j: int| 0 <= j < order@.len() ==> #[trigger] order@[j] < kept@.len(),
            forall|j: int| 0 <= j < kept@.len() ==> (#[trigger] all[j]).1 == Some(kept@[j]@),
            forall|j: int|
                0 <= j < i ==> (#[trigger] docs@[j]).0 == Layer::Default && docs@[j].1.lines()
                    == split(kept@[order@[j] as int]@, '\n'),
        decreases order.len() - i,
    {
        docs.push((Layer::Default, HyprDoc::parse(kept[order[i]])));
        i = i + 1;
    }
    let ghost lines = |d: (Layer, HyprDoc)| (d.0, d.1.lines());
    let ghost o = positions(order@);
    assert(docs@.map_values(lines) == o.map_values(
        |i: int| (Layer::Default, split(all[i].1->0, '\n')),
    ));
    let ghost before = docs@;
    if let Some(t) = user {
        docs.push((Layer::User, HyprDoc::parse(t)));
        assert(docs@.map_values(lines) == before.map_values(lines).push(
            (Layer::User, split(t@, '\n')),
        ));
    }
    assert(docs@.map_values(lines) == layered(views, opt_str(user)));
    docs
}

/// The keymap in effect. `files` is Omarchy's bindings directory and `user`
/// the user's bindings file; the compositor's error stands where it has none
/// to attribute.
pub fn load_effective(
    out: &CmdOutput,
    parsed: Result<Vec<RuntimeBind>, StudioError>,
    plain: Option<&CmdOutput>,
    files: &Vec<BindingsFile>,
    user: Option<&str>,
) -> (r: Result<Vec<AttributedBind>, StudioError>)
    ensures
        ({
            let binds = reported(
                *out,
                parsed_view(parsed),
                match plain {
                    Some(p) => Some(*p),
                    None => None,
                },
            );
            match r {
                Ok(v) => binds is Ok && attributed_views(v@) == binds->Ok_0.map_values(
                    |rt: RuntimeView|
                        (rt, source_of(layered(file_views(files@), opt_str(user)), rt)),
                ),
                Err(e) => binds == Err::<Seq<RuntimeView>, Failure>(e@),
            }
        }),
{
    let binds = match runtime_from(out, parsed, plain) {
        Ok(v) => v,
        Err(e) => return Err(e),
    };
    let docs = read_docs(files, user);
    let mut sources: Vec<SourceFile> = Vec::new();
    let mut i: usize = 0;
    while i < docs.len()
        invariant
            i <= docs@.len(),
            sources@.len() == i,
            forall|j: int|
                0 <= j < i ==> (#[trigger] sources@[j]).layer == docs@[j].0 && sources@[j].doc.lines()
                    == docs@[j].1.lines(),
        decreases docs.len() - i,
    {
        let d = &docs[i];
        sources.push(SourceFile { layer: d.0, doc: &d.1 });
        i = i + 1;
    }
    assert(source_docs(sources@) == docs@.map_values(|d: (Layer, HyprDoc)| (d.0, d.1.lines())));
    Ok(attribute(binds.as_slice(), sources.as_slice()))
}

} // verus!
