use studio_core::coverage::{
    catalog, probes, report, templated, theme_candidates, theme_dir, Row, Status,
};
use studio_core::paths::OmarchyPaths;

fn paths() -> OmarchyPaths {
    OmarchyPaths {
        system: "/r/sys/omarchy".to_string(),
        config: "/r/config/omarchy".to_string(),
        state: "/r/state/omarchy".to_string(),
    }
}

const THEME: &str = "/r/config/omarchy/themes/mine";

fn template(name: &str) -> String {
    format!("/r/sys/omarchy/default/themed/{name}.tpl")
}

fn shipped(name: &str) -> String {
    format!("{THEME}/{name}")
}

fn row<'a>(rows: &'a [Row], file: &str) -> &'a Row {
    rows.iter().find(|r| r.file == file).expect("row exists")
}

#[test]
fn a_shipped_file_is_shipped_even_when_a_template_also_exists() {
    let there = vec![template("neovim.lua"), shipped("neovim.lua")];
    // Verbatim beats the template.
    assert_eq!(
        row(&report(&paths(), THEME, &there), "neovim.lua").status,
        Status::Shipped
    );
}

#[test]
fn a_missing_but_templated_file_is_not_a_breakage() {
    let there = vec![template("neovim.lua"), shipped("colors.toml")];
    let rows = report(&paths(), THEME, &there);
    assert_eq!(row(&rows, "neovim.lua").status, Status::Templated);
    assert!(!row(&rows, "neovim.lua").is_breakage());
}

#[test]
fn a_missing_untemplated_file_is_a_breakage() {
    // No templates at all — exactly a stock Omarchy, which has no
    // neovim.lua.tpl, which is why this is the real-world case.
    let rows = report(&paths(), THEME, &vec![shipped("colors.toml")]);
    assert_eq!(row(&rows, "neovim.lua").status, Status::Missing);
    assert!(row(&rows, "neovim.lua").is_breakage());
    assert_eq!(row(&rows, "colors.toml").status, Status::Shipped);
}

#[test]
fn a_colours_only_community_theme_reports_every_verbatim_file() {
    let there = vec![shipped("colors.toml"), shipped("preview.png")];
    let broken: Vec<_> = report(&paths(), THEME, &there)
        .into_iter()
        .filter(Row::is_breakage)
        .map(|r| r.file)
        .collect();
    assert!(broken.contains(&"neovim.lua"), "{broken:?}");
    assert!(broken.contains(&"icons.theme"), "{broken:?}");
    assert!(!broken.contains(&"preview.png"), "{broken:?}");
}

#[test]
fn a_missing_palette_is_the_only_required_gap() {
    let rows = report(&paths(), THEME, &vec![]);
    let required: Vec<_> = rows
        .iter()
        .filter(|r| r.required && r.is_breakage())
        .map(|r| r.file)
        .collect();
    assert_eq!(required, vec!["colors.toml"]);
}

#[test]
fn a_user_template_also_counts_as_covered() {
    let p = paths();
    let there = vec![
        format!("{}/neovim.lua.tpl", p.user_templates()),
        shipped("colors.toml"),
    ];
    assert!(templated(&p, "neovim.lua", &there));
    assert_eq!(
        row(&report(&p, THEME, &there), "neovim.lua").status,
        Status::Templated
    );
}

#[test]
fn theme_dir_prefers_the_users_overlay_over_the_stock_theme() {
    let p = paths();
    let user = "/r/config/omarchy/themes/nord".to_string();
    let dirs = vec!["/r/sys/omarchy/themes/nord".to_string(), user.clone()];
    assert_eq!(theme_dir(&p, "nord", &dirs).unwrap(), user);
    assert!(theme_dir(&p, "nope", &dirs).is_none());
    assert_eq!(theme_candidates(&p, "nord").len(), 2);
}

#[test]
fn the_report_asks_about_no_other_path() {
    let p = paths();
    let asked = probes(&p, THEME);
    let rows = report(&p, THEME, &asked);
    assert_eq!(rows.len(), catalog().len());
    assert!(rows.iter().all(|r| r.status == Status::Shipped));
}
