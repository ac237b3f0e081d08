//! Theme coverage: which of the files that a theme is expected to have it ships,
//! which a template renders, and which are missing.

use vstd::prelude::*;

use crate::paths::{OmarchyPaths, join as path_join, joined_path};
use crate::text::{is_among, opt_text, owned, texts};

verus! {

/// A file that a complete theme has.
#[derive(Debug, Clone, Copy, PartialEq, Eq)]
pub struct Expected {
    pub file: &'static str,
    pub app: &'static str,
    /// What is seen when it is missing.
    pub consequence: &'static str,
    /// Whether the theme cannot be used without it.
    pub required: bool,
}

#[verifier::ext_equal]
pub struct ExpectedView {
    pub file: Seq<char>,
    pub app: Seq<char>,
    pub consequence: Seq<char>,
    pub required: bool,
}

impl View for Expected {
    type V = ExpectedView;

    open spec fn view(&self) -> ExpectedView {
        ExpectedView {
            file: self.file@,
            app: self.app@,
            consequence: self.consequence@,
            required: self.required,
        }
    }
}

pub open spec fn expected_views(v: Seq<Expected>) -> Seq<ExpectedView> {
    v.map_values(|e: Expected| e@)
}

/// The files that Omarchy's own themes have in common and that no template
/// renders.
pub open spec fn all_expected() -> Seq<ExpectedView> {
    seq![
        ExpectedView {
            file: "colors.toml"@,
            app: "everything"@,
            consequence: "no palette — Omarchy can't render any themed config"@,
            required: true,
        },
        ExpectedView {
            file: "neovim.lua"@,
            app: "Neovim"@,
            consequence: "nvim errors on every launch (Omarchy symlinks this file)"@,
            required: false,
        },
        ExpectedView {
            file: "vscode.json"@,
            app: "VS Code"@,
            consequence: "the editor keeps its previous colours"@,
            required: false,
        },
        ExpectedView {
            file: "icons.theme"@,
            app: "icons"@,
            consequence: "icons stay on the previous theme's set"@,
            required: false,
        },
        ExpectedView {
            file: "backgrounds"@,
            app: "wallpapers"@,
            consequence: "no wallpapers ship with the theme"@,
            required: false,
        },
        ExpectedView {
            file: "preview.png"@,
            app: "theme picker"@,
            consequence: "no thumbnail in the theme browser"@,
            required: false,
        },
        ExpectedView {
            file: "unlock.png"@,
            app: "lock screen"@,
            consequence: "hyprlock falls back to its default art"@,
            required: false,
        },
    ]
}

pub fn catalog() -> (r: Vec<Expected>)
    ensures
        expected_views(r@) == all_expected(),
{
    let r = vec![
        Expected {
            file: "colors.toml",
            app: "everything",
            consequence: "no palette — Omarchy can't render any themed config",
            required: true,
        },
        Expected {
            file: "neovim.lua",
            app: "Neovim",
            consequence: "nvim errors on every launch (Omarchy symlinks this file)",
            required: false,
        },
        Expected {
            file: "vscode.json",
            app: "VS Code",
            consequence: "the editor keeps its previous colours",
            required: false,
        },
        Expected {
            file: "icons.theme",
            app: "icons",
            consequence: "icons stay on the previous theme's set",
            required: false,
        },
        Expected {
            file: "backgrounds",
            app: "wallpapers",
            consequence: "no wallpapers ship with the theme",
            required: false,
        },
        Expected {
            file: "preview.png",
            app: "theme picker",
            consequence: "no thumbnail in the theme browser",
            required: false,
        },
        Expected {
            file: "unlock.png",
            app: "lock screen",
            consequence: "hyprlock falls back to its default art",
            required: false,
        },
    ];
    assert(expected_views(r@) =~= all_expected());
    r
}

/// How a file is provided.
#[derive(Debug, Clone, Copy, PartialEq, Eq, Structural)]
pub enum Status {
    /// By the theme, whether or not a template would render it too.
    Shipped,
    /// By a template.
    Templated,
    /// By nothing.
    Missing,
}

/// What is said of one file.
#[derive(Debug, Clone, Copy, PartialEq, Eq)]
pub struct Row {
    pub file: &'static str,
    pub app: &'static str,
    pub consequence: &'static str,
    pub required: bool,
    pub status: Status,
}

#[verifier::ext_equal]
pub struct RowView {
    pub expected: ExpectedView,
    pub status: Status,
}

impl View for Row {
    type V = RowView;

    open spec fn view(&self) -> RowView {
        RowView {
            expected: ExpectedView {
                file: self.file@,
                app: self.app@,
                consequence: self.consequence@,
                required: self.required,
            },
            status: self.status,
        }
    }
}

pub open spec fn row_views(v: Seq<Row>) -> Seq<RowView> {
    v.map_values(|r: Row| r@)
}

impl Row {
    pub fn is_breakage(&self) -> (r: bool)
        ensures
            r == (self.status == Status::Missing),
    {
        match self.status {
            Status::Missing => true,
            _ => false,
        }
    }
}

/// The paths at which something would provide a file: the theme's, the user's
/// template and Omarchy's.
pub open spec fn providers(paths: &OmarchyPaths, theme_dir: Seq<char>, file: Seq<char>) -> (
    Seq<char>,
    Seq<char>,
    Seq<char>,
) {
    (
        path_join(theme_dir, file),
        path_join(path_join(paths.config@, "themed"@), file + ".tpl"@),
        path_join(path_join(paths.system@, "default/themed"@), file + ".tpl"@),
    )
}

/// How a file is provided, by which paths there are.
pub open spec fn status_of(
    paths: &OmarchyPaths,
    theme_dir: Seq<char>,
    file: Seq<char>,
    existing: Seq<Seq<char>>,
) -> Status {
    let (own, user, stock) = providers(paths, theme_dir, file);
    if existing.contains(own) {
        Status::Shipped
    } else if existing.contains(user) || existing.contains(stock) {
        Status::Templated
    } else {
        Status::Missing
    }
}

fn template_paths(paths: &OmarchyPaths, file: &str) -> (r: (String, String))
    ensures
        r.0@ == path_join(path_join(paths.config@, "themed"@), file@ + ".tpl"@),
        r.1@ == path_join(path_join(paths.system@, "default/themed"@), file@ + ".tpl"@),
{
    let mut name = owned(file);
    name.append(".tpl");
    let user = paths.user_templates();
    let stock = paths.default_templates();
    (joined_path(user.as_str(), name.as_str()), joined_path(stock.as_str(), name.as_str()))
}

/// Whether a template renders a file.
pub fn templated(paths: &OmarchyPaths, file: &str, existing: &Vec<String>) -> (r: bool)
    ensures
        r == (texts(existing@).contains(
            path_join(path_join(paths.config@, "themed"@), file@ + ".tpl"@),
        ) || texts(existing@).contains(
            path_join(path_join(paths.system@, "default/themed"@), file@ + ".tpl"@),
        )),
{
    let (user, stock) = template_paths(paths, file);
    is_among(existing, user.as_str()) || is_among(existing, stock.as_str())
}

/// Every path that the report asks about, three for each file.
pub open spec fn probes_of(
    paths: &OmarchyPaths,
    theme_dir: Seq<char>,
    all: Seq<ExpectedView>,
) -> Seq<Seq<char>>
    decreases all.len(),
{
    if all.len() == 0 {
        Seq::empty()
    } else {
        let (own, user, stock) = providers(paths, theme_dir, all.last().file);
        probes_of(paths, theme_dir, all.drop_last()) + seq![own, user, stock]
    }
}

/// The paths that [`report`] has to be told of.
pub fn probes(paths: &OmarchyPaths, theme_dir: &str) -> (r: Vec<String>)
    ensures
        texts(r@) == probes_of(paths, theme_dir@, all_expected()),
{
    let all = catalog();
    let ghost table = all_expected();
    let mut out: Vec<String> = Vec::new();
    let mut i: usize = 0;
    assert(texts(out@) == probes_of(paths, theme_dir@, table.take(0)));
    while i < all.len()
        invariant
            i <= all@.len(),
            table == expected_views(all@),
            texts(out@) == probes_of(paths, theme_dir@, table.take(i as int)),
        decreases all.len() - i,
    {
        assert(table.take(i + 1).drop_last() == table.take(i as int));
        assert(table.take(i + 1).last() == all@[i as int]@);
        let ghost was = texts(out@);
        let own = joined_path(theme_dir, all[i].file);
        let (user, stock) = template_paths(paths, all[i].file);
        let ghost three = seq![own@, user@, stock@];
        out.push(own);
        out.push(user);
        out.push(stock);
        assert(texts(out@) == was + three);
        i = i + 1;
    }
    assert(table.take(table.len() as int) == table);
    out
}

/// The rows of a report.
pub open spec fn rows_of(
    paths: &OmarchyPaths,
    theme_dir: Seq<char>,
    existing: Seq<Seq<char>>,
) -> Seq<RowView> {
    all_expected().map_values(
        |e: ExpectedView|
            RowView { expected: e, status: status_of(paths, theme_dir, e.file, existing) },
    )
}

/// How each expected file is provided, by which of the [`probes`] are there.
pub fn report(paths: &OmarchyPaths, theme_dir: &str, existing: &Vec<String>) -> (r: Vec<Row>)
    ensures
        row_views(r@) == rows_of(paths, theme_dir@, texts(existing@)),
{
    let all = catalog();
    let ghost table = all_expected();
    let ghost want = rows_of(paths, theme_dir@, texts(existing@));
    let mut out: Vec<Row> = Vec::new();
    let mut i: usize = 0;
    assert(row_views(out@) == want.take(0));
    while i < all.len()
        invariant
            i <= all@.len(),
            table == expected_views(all@),
            table == all_expected(),
            want == rows_of(paths, theme_dir@, texts(existing@)),
            row_views(out@) == want.take(i as int),
        decreases all.len() - i,
    {
        assert(table[i as int] == all@[i as int]@);
        let e = all[i];
        let own = joined_path(theme_dir, e.file);
        let status = if is_among(existing, own.as_str()) {
            Status::Shipped
        } else if templated(paths, e.file, existing) {
            Status::Templated
        } else {
            Status::Missing
        };
        let row = Row {
            file: e.file,
            app: e.app,
            consequence: e.consequence,
            required: e.required,
            status,
        };
        let ghost was = row_views(out@);
        out.push(row);
        assert(row_views(out@) == was.push(row@));
        assert(want[i as int] == row@);
        assert(want.take(i + 1) == want.take(i as int).push(want[i as int]));
        i = i + 1;
    }
    assert(want.take(want.len() as int) == want);
    out
}

/// Where a theme is, by which directories there are: the user's own wins.
pub open spec fn theme_at(paths: &OmarchyPaths, slug: Seq<char>, dirs: Seq<Seq<char>>) -> Option<
    Seq<char>,
> {
    let user = path_join(path_join(paths.config@, "themes"@), slug);
    let stock = path_join(path_join(paths.system@, "themes"@), slug);
    if dirs.contains(user) {
        Some(user)
    } else if dirs.contains(stock) {
        Some(stock)
    } else {
        None
    }
}

/// The directories that a theme may be in, the user's first.
pub fn theme_candidates(paths: &OmarchyPaths, slug: &str) -> (r: Vec<String>)
    ensures
        texts(r@) == seq![
            path_join(path_join(paths.config@, "themes"@), slug@),
            path_join(path_join(paths.system@, "themes"@), slug@),
        ],
{
    let dirs = paths.theme_dirs();
    let r = vec![
        joined_path(dirs[1].as_str(), slug),
        joined_path(dirs[0].as_str(), slug),
    ];
    assert(texts(r@) =~= seq![
        path_join(path_join(paths.config@, "themes"@), slug@),
        path_join(path_join(paths.system@, "themes"@), slug@),
    ]);
    r
}

/// The directory of a theme, by which of the [`theme_candidates`] are there.
pub fn theme_dir(paths: &OmarchyPaths, slug: &str, dirs: &Vec<String>) -> (r: Option<String>)
    ensures
        opt_text(r) == theme_at(paths, slug@, texts(dirs@)),
{
    let all = theme_candidates(paths, slug);
    let ghost views = texts(all@);
    assert(views.len() == 2 && views.len() == all@.len());
    assert(views[0] == all@[0]@ && views[1] == all@[1]@);
    if is_among(dirs, all[0].as_str()) {
        return Some(owned(all[0].as_str()));
    }
    if is_among(dirs, all[1].as_str()) {
        return Some(owned(all[1].as_str()));
    }
    None
}

// --------------------------------------------------------------------------- laws

/// No file is listed twice, and the palette alone is required.
pub proof fn law_only_the_palette_is_required(i: int, j: int)
    requires
        0 <= i < all_expected().len(),
        0 <= j < all_expected().len(),
    ensures
        all_expected()[i].file == all_expected()[j].file ==> i == j,
        all_expected()[i].required <==> all_expected()[i].file == "colors.toml"@,
{
    reveal_strlit("colors.toml");
    reveal_strlit("neovim.lua");
    reveal_strlit("vscode.json");
    reveal_strlit("icons.theme");
    reveal_strlit("backgrounds");
    reveal_strlit("preview.png");
    reveal_strlit("unlock.png");
    assert(all_expected()[i].file[0] == all_expected()[j].file[0] ==> i == j);
}

/// A file is a breakage if and only if neither the theme nor a template has it;
/// what the theme ships counts before any template.
pub proof fn law_only_what_nothing_provides_breaks(
    paths: &OmarchyPaths,
    theme_dir: Seq<char>,
    existing: Seq<Seq<char>>,
    i: int,
)
    requires
        0 <= i < all_expected().len(),
    ensures
        ({
            let row = rows_of(paths, theme_dir, existing)[i];
            let (own, user, stock) = providers(paths, theme_dir, all_expected()[i].file);
            &&& row.expected == all_expected()[i]
            &&& row.status == Status::Missing <==> !existing.contains(own) && !existing.contains(
                user,
            ) && !existing.contains(stock)
            &&& existing.contains(own) ==> row.status == Status::Shipped
        }),
{
}

/// Every path that decides about a file is one that is asked about.
pub proof fn law_probes_cover_the_report(
    paths: &OmarchyPaths,
    theme_dir: Seq<char>,
    all: Seq<ExpectedView>,
    i: int,
)
    requires
        0 <= i < all.len(),
    ensures
        ({
            let (own, user, stock) = providers(paths, theme_dir, all[i].file);
            let asked = probes_of(paths, theme_dir, all);
            asked.contains(own) && asked.contains(user) && asked.contains(stock)
        }),
    decreases all.len(),
{
    let (own, user, stock) = providers(paths, theme_dir, all[i].file);
    let before = probes_of(paths, theme_dir, all.drop_last());
    let asked = probes_of(paths, theme_dir, all);
    let n = before.len() as int;
    if i == all.len() - 1 {
        assert(asked[n] == own && asked[n + 1] == user && asked[n + 2] == stock);
    } else {
        law_probes_cover_the_report(paths, theme_dir, all.drop_last(), i);
        let a = choose|a: int| 0 <= a < before.len() && before[a] == own;
        let b = choose|b: int| 0 <= b < before.len() && before[b] == user;
        let c = choose|c: int| 0 <= c < before.len() && before[c] == stock;
        assert(asked[a] == own && asked[b] == user && asked[c] == stock);
    }
}

/// A file that the theme does not ship is rendered where the user or Omarchy has
/// its template, and is then no breakage; a template alone never makes a file
/// count as shipped.
pub proof fn law_templates_stand_in(
    paths: &OmarchyPaths,
    theme_dir: Seq<char>,
    file: Seq<char>,
    existing: Seq<Seq<char>>,
)
    ensures
        ({
            let status = status_of(paths, theme_dir, file, existing);
            let user = path_join(path_join(paths.config@, "themed"@), file + ".tpl"@);
            let stock = path_join(path_join(paths.system@, "default/themed"@), file + ".tpl"@);
            &&& status == Status::Shipped <==> existing.contains(path_join(theme_dir, file))
            &&& status == Status::Templated ==> existing.contains(user) || existing.contains(stock)
            &&& existing.contains(user) ==> status != Status::Missing
            &&& existing.contains(stock) ==> status != Status::Missing
        }),
{
}

/// The user's theme is the one that is looked at wherever there is one of that
/// name, and Omarchy's only where there is not.
pub proof fn law_users_theme_wins(paths: &OmarchyPaths, slug: Seq<char>, dirs: Seq<Seq<char>>)
    ensures
        ({
            let user = path_join(path_join(paths.config@, "themes"@), slug);
            let stock = path_join(path_join(paths.system@, "themes"@), slug);
            &&& theme_at(paths, slug, dirs) is None <==> !dirs.contains(user) && !dirs.contains(
                stock,
            )
            &&& theme_at(paths, slug, dirs) matches Some(dir) ==> dirs.contains(dir) && (dir == user
                || dir == stock)
            &&& dirs.contains(user) ==> theme_at(paths, slug, dirs) == Some(user)
        }),
{
}

} // verus!
