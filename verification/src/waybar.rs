//! The Waybar modules there are, and the user's own bar: its lanes, its custom
//! modules and its geometry.

use vstd::prelude::*;

use crate::configfs::jsonc::{
    DocView, JsoncDoc, add_item_to, doc_of, doc_text, doc_wf, elements, insert_member_into,
    remove_item_from, reorder_in, set_scalar_in,
};
use crate::configfs::managed::{
    CommentStyle, ManagedBlock, close_marker, extracted, open_marker, removed, upserted,
};
use crate::engine::{
    ApplyPlan, CmdOutput, Component, EditView, FileEdit, PlanView, ReloadStep, Risk, Verification,
    content, content_of, plain_plan,
};
use crate::error::{Failure, StudioError, external};
use crate::number::{append_u64, int_text, parse_u32, read_u32};
use crate::paths::{OmarchyPaths, beside};
use crate::split::{join, joined};
use crate::targets::{
    Overrides, Resolved, WaybarInstance, first_named, override_path, resolution,
    resolve_waybar_config, resolve_waybar_style,
};
use crate::text::{
    alpha, chars, digit, ends_str, ends_with, find, found, is_alpha, is_digit, lower, lower_char,
    opt_str, opt_text, owned, rest, same_str, starts_str, starts_with, string, strip_leading,
    strip_trailing, texts, trim, trim_start, trimmed, trimmed_start, without_leading,
    without_trailing,
};

pub mod custom;
pub mod laws;
pub mod modules;
pub mod spelling;

verus! {

/// A grouping of the modules.
#[derive(Debug, Clone, Copy, PartialEq, Eq, Structural)]
pub enum Group {
    Workspaces,
    System,
    Hardware,
    Audio,
    Network,
    Clock,
    Tray,
    Custom,
}

impl Group {
    pub open spec fn name(self) -> Seq<char> {
        match self {
            Group::Workspaces => "Workspaces & window"@,
            Group::System => "System"@,
            Group::Hardware => "Hardware"@,
            Group::Audio => "Audio"@,
            Group::Network => "Network"@,
            Group::Clock => "Clock"@,
            Group::Tray => "Tray"@,
            Group::Custom => "Custom"@,
        }
    }

    pub fn label(self) -> (r: &'static str)
        ensures
            r@ == self.name(),
    {
        match self {
            Group::Workspaces => "Workspaces & window",
            Group::System => "System",
            Group::Hardware => "Hardware",
            Group::Audio => "Audio",
            Group::Network => "Network",
            Group::Clock => "Clock",
            Group::Tray => "Tray",
            Group::Custom => "Custom",
        }
    }
}

/// A module that Waybar can show.
#[derive(Debug, Clone, PartialEq, Eq)]
pub struct Module {
    pub id: &'static str,
    pub label: &'static str,
    pub group: Group,
    pub summary: &'static str,
    /// The packages that it needs.
    pub needs: Vec<&'static str>,
    /// The config object to put in with it; empty where it needs none.
    pub default_config: &'static str,
}

#[verifier::ext_equal]
pub struct ModuleView {
    pub id: Seq<char>,
    pub label: Seq<char>,
    pub group: Group,
    pub summary: Seq<char>,
    pub needs: Seq<Seq<char>>,
    pub default_config: Seq<char>,
}

impl View for Module {
    type V = ModuleView;

    open spec fn view(&self) -> ModuleView {
        ModuleView {
            id: self.id@,
            label: self.label@,
            group: self.group,
            summary: self.summary@,
            needs: self.needs@.map_values(|s: &'static str| s@),
            default_config: self.default_config@,
        }
    }
}

pub open spec fn module_views(v: Seq<Module>) -> Seq<ModuleView> {
    v.map_values(|m: Module| m@)
}

/// The modules there are.
pub open spec fn catalog() -> Seq<ModuleView> {
    seq![
        ModuleView {
            id: "hyprland/workspaces"@,
            label: "Workspaces"@,
            group: Group::Workspaces,
            summary: "The Hyprland workspace pills"@,
            needs: Seq::empty(),
            default_config: ""@,
        },
        ModuleView {
            id: "hyprland/window"@,
            label: "Focused window"@,
            group: Group::Workspaces,
            summary: "Title of the active window"@,
            needs: Seq::empty(),
            default_config: ""@,
        },
        ModuleView {
            id: "hyprland/submap"@,
            label: "Active submap"@,
            group: Group::Workspaces,
            summary: "Shows the current keybind submap"@,
            needs: Seq::empty(),
            default_config: ""@,
        },
        ModuleView {
            id: "clock"@,
            label: "Clock"@,
            group: Group::Clock,
            summary: "Date and time"@,
            needs: Seq::empty(),
            default_config: "{\n  \"format\": \"{:%H:%M}\",\n  \"tooltip-format\": \"<big>{:%Y %B}</big>\\n<tt><small>{calendar}</small></tt>\"\n}"@,
        },
        ModuleView {
            id: "battery"@,
            label: "Battery"@,
            group: Group::Hardware,
            summary: "Charge level and state"@,
            needs: Seq::empty(),
            default_config: "{\n  \"format\": \"{icon} {capacity}%\",\n  \"format-icons\": [\"\", \"\", \"\", \"\", \"\"]\n}"@,
        },
        ModuleView {
            id: "cpu"@,
            label: "CPU"@,
            group: Group::Hardware,
            summary: "Processor load"@,
            needs: Seq::empty(),
            default_config: "{\n  \"format\": \" {usage}%\"\n}"@,
        },
        ModuleView {
            id: "memory"@,
            label: "Memory"@,
            group: Group::Hardware,
            summary: "RAM usage"@,
            needs: Seq::empty(),
            default_config: "{\n  \"format\": \" {}%\"\n}"@,
        },
        ModuleView {
            id: "temperature"@,
            label: "Temperature"@,
            group: Group::Hardware,
            summary: "CPU/GPU temperature"@,
            needs: seq!["lm_sensors"@],
            default_config: "{\n  \"critical-threshold\": 80,\n  \"format\": \" {temperatureC}°C\"\n}"@,
        },
        ModuleView {
            id: "disk"@,
            label: "Disk"@,
            group: Group::Hardware,
            summary: "Filesystem usage"@,
            needs: Seq::empty(),
            default_config: "{\n  \"format\": \" {percentage_used}%\"\n}"@,
        },
        ModuleView {
            id: "backlight"@,
            label: "Brightness"@,
            group: Group::Hardware,
            summary: "Screen backlight level"@,
            needs: Seq::empty(),
            default_config: "{\n  \"format\": \"{icon} {percent}%\",\n  \"format-icons\": [\"\", \"\"]\n}"@,
        },
        ModuleView {
            id: "idle_inhibitor"@,
            label: "Keep awake"@,
            group: Group::System,
            summary: "Toggle to stop the screen sleeping"@,
            needs: Seq::empty(),
            default_config: "{\n  \"format\": \"{icon}\",\n  \"format-icons\": { \"activated\": \"\", \"deactivated\": \"\" }\n}"@,
        },
        ModuleView {
            id: "power-profiles-daemon"@,
            label: "Power profile"@,
            group: Group::System,
            summary: "Balanced / performance / saver"@,
            needs: seq!["power-profiles-daemon"@],
            default_config: ""@,
        },
        ModuleView {
            id: "pulseaudio"@,
            label: "Volume"@,
            group: Group::Audio,
            summary: "Output volume and device"@,
            needs: Seq::empty(),
            default_config: "{\n  \"format\": \"{icon} {volume}%\",\n  \"format-muted\": \" muted\",\n  \"on-click\": \"pavucontrol\"\n}"@,
        },
        ModuleView {
            id: "wireplumber"@,
            label: "Volume (WirePlumber)"@,
            group: Group::Audio,
            summary: "Volume via WirePlumber"@,
            needs: seq!["wireplumber"@],
            default_config: "{\n  \"format\": \"{icon} {volume}%\"\n}"@,
        },
        ModuleView {
            id: "mpris"@,
            label: "Now playing"@,
            group: Group::Audio,
            summary: "Current media track"@,
            needs: seq!["playerctl"@],
            default_config: "{\n  \"format\": \"{player_icon} {title}\"\n}"@,
        },
        ModuleView {
            id: "network"@,
            label: "Network"@,
            group: Group::Network,
            summary: "Wi-Fi / ethernet status"@,
            needs: Seq::empty(),
            default_config: "{\n  \"format-wifi\": \" {signalStrength}%\",\n  \"format-ethernet\": \" wired\",\n  \"format-disconnected\": \"⚠ offline\"\n}"@,
        },
        ModuleView {
            id: "bluetooth"@,
            label: "Bluetooth"@,
            group: Group::Network,
            summary: "Bluetooth status and devices"@,
            needs: Seq::empty(),
            default_config: "{\n  \"format\": \" {status}\"\n}"@,
        },
        ModuleView {
            id: "tray"@,
            label: "System tray"@,
            group: Group::Tray,
            summary: "Status icons from running apps"@,
            needs: Seq::empty(),
            default_config: "{\n  \"spacing\": 10\n}"@,
        },
        ModuleView {
            id: "custom/*"@,
            label: "Custom command"@,
            group: Group::Custom,
            summary: "A script-driven module you define"@,
            needs: Seq::empty(),
            default_config: "{\n  \"exec\": \"your-command\",\n  \"interval\": 5,\n  \"format\": \"{}\"\n}"@,
        },
        ModuleView {
            id: "group/*"@,
            label: "Module group"@,
            group: Group::Custom,
            summary: "A collapsible group of modules"@,
            needs: Seq::empty(),
            default_config: "{\n  \"orientation\": \"horizontal\",\n  \"modules\": []\n}"@,
        },
    ]
}

fn entry(
    id: &'static str,
    label: &'static str,
    group: Group,
    summary: &'static str,
    needs: Vec<&'static str>,
    default_config: &'static str,
) -> (r: Module)
    ensures
        r@ == (ModuleView {
            id: id@,
            label: label@,
            group,
            summary: summary@,
            needs: needs@.map_values(|s: &'static str| s@),
            default_config: default_config@,
        }),
{
    Module { id, label, group, summary, needs, default_config }
}

pub fn modules() -> (r: Vec<Module>)
    ensures
        module_views(r@) == catalog(),
{
    let all = vec![
        entry(
            "hyprland/workspaces",
            "Workspaces",
            Group::Workspaces,
            "The Hyprland workspace pills",
            Vec::new(),
            "",
        ),
        entry(
            "hyprland/window",
            "Focused window",
            Group::Workspaces,
            "Title of the active window",
            Vec::new(),
            "",
        ),
        entry(
            "hyprland/submap",
            "Active submap",
            Group::Workspaces,
            "Shows the current keybind submap",
            Vec::new(),
            "",
        ),
        entry(
            "clock",
            "Clock",
            Group::Clock,
            "Date and time",
            Vec::new(),
            "{\n  \"format\": \"{:%H:%M}\",\n  \"tooltip-format\": \"<big>{:%Y %B}</big>\\n<tt><small>{calendar}</small></tt>\"\n}",
        ),
        entry(
            "battery",
            "Battery",
            Group::Hardware,
            "Charge level and state",
            Vec::new(),
            "{\n  \"format\": \"{icon} {capacity}%\",\n  \"format-icons\": [\"\", \"\", \"\", \"\", \"\"]\n}",
        ),
        entry(
            "cpu",
            "CPU",
            Group::Hardware,
            "Processor load",
            Vec::new(),
            "{\n  \"format\": \" {usage}%\"\n}",
        ),
        entry(
            "memory",
            "Memory",
            Group::Hardware,
            "RAM usage",
            Vec::new(),
            "{\n  \"format\": \" {}%\"\n}",
        ),
        entry(
            "temperature",
            "Temperature",
            Group::Hardware,
            "CPU/GPU temperature",
            vec!["lm_sensors"],
            "{\n  \"critical-threshold\": 80,\n  \"format\": \" {temperatureC}°C\"\n}",
        ),
        entry(
            "disk",
            "Disk",
            Group::Hardware,
            "Filesystem usage",
            Vec::new(),
            "{\n  \"format\": \" {percentage_used}%\"\n}",
        ),
        entry(
            "backlight",
            "Brightness",
            Group::Hardware,
            "Screen backlight level",
            Vec::new(),
            "{\n  \"format\": \"{icon} {percent}%\",\n  \"format-icons\": [\"\", \"\"]\n}",
        ),
        entry(
            "idle_inhibitor",
            "Keep awake",
            Group::System,
            "Toggle to stop the screen sleeping",
            Vec::new(),
            "{\n  \"format\": \"{icon}\",\n  \"format-icons\": { \"activated\": \"\", \"deactivated\": \"\" }\n}",
        ),
        entry(
            "power-profiles-daemon",
            "Power profile",
            Group::System,
            "Balanced / performance / saver",
            vec!["power-profiles-daemon"],
            "",
        ),
        entry(
            "pulseaudio",
            "Volume",
            Group::Audio,
            "Output volume and device",
            Vec::new(),
            "{\n  \"format\": \"{icon} {volume}%\",\n  \"format-muted\": \" muted\",\n  \"on-click\": \"pavucontrol\"\n}",
        ),
        entry(
            "wireplumber",
            "Volume (WirePlumber)",
            Group::Audio,
            "Volume via WirePlumber",
            vec!["wireplumber"],
            "{\n  \"format\": \"{icon} {volume}%\"\n}",
        ),
        entry(
            "mpris",
            "Now playing",
            Group::Audio,
            "Current media track",
            vec!["playerctl"],
            "{\n  \"format\": \"{player_icon} {title}\"\n}",
        ),
        entry(
            "network",
            "Network",
            Group::Network,
            "Wi-Fi / ethernet status",
            Vec::new(),
            "{\n  \"format-wifi\": \" {signalStrength}%\",\n  \"format-ethernet\": \" wired\",\n  \"format-disconnected\": \"⚠ offline\"\n}",
        ),
        entry(
            "bluetooth",
            "Bluetooth",
            Group::Network,
            "Bluetooth status and devices",
            Vec::new(),
            "{\n  \"format\": \" {status}\"\n}",
        ),
        entry(
            "tray",
            "System tray",
            Group::Tray,
            "Status icons from running apps",
            Vec::new(),
            "{\n  \"spacing\": 10\n}",
        ),
        entry(
            "custom/*",
            "Custom command",
            Group::Custom,
            "A script-driven module you define",
            Vec::new(),
            "{\n  \"exec\": \"your-command\",\n  \"interval\": 5,\n  \"format\": \"{}\"\n}",
        ),
        entry(
            "group/*",
            "Module group",
            Group::Custom,
            "A collapsible group of modules",
            Vec::new(),
            "{\n  \"orientation\": \"horizontal\",\n  \"modules\": []\n}",
        ),
    ];
    proof {
        assert(Seq::<&'static str>::empty().map_values(|s: &'static str| s@) =~= Seq::empty());
        assert(module_views(all@) =~~= catalog());
    }
    all
}

/// The first module with an id.
pub open spec fn module_of(all: Seq<ModuleView>, id: Seq<char>) -> Option<ModuleView>
    decreases all.len(),
{
    if all.len() == 0 {
        None
    } else if all[0].id == id {
        Some(all[0])
    } else {
        module_of(all.skip(1), id)
    }
}

/// The module with an id; an id of the user's own under `custom/` or `group/`
/// stands for the catalog's entry for those.
pub open spec fn found_module(id: Seq<char>) -> Option<ModuleView> {
    match module_of(catalog(), id) {
        Some(m) => Some(m),
        None => if starts_with(id, "custom/"@) {
            module_of(catalog(), "custom/*"@)
        } else if starts_with(id, "group/"@) {
            module_of(catalog(), "group/*"@)
        } else {
            None
        },
    }
}

pub open spec fn opt_module(m: Option<Module>) -> Option<ModuleView> {
    match m {
        Some(m) => Some(m@),
        None => None,
    }
}

fn exact(id: &str) -> (r: Option<Module>)
    ensures
        opt_module(r) == module_of(catalog(), id@),
{
    let mut all = modules();
    let ghost views = catalog();
    let mut i: usize = 0;
    assert(views.skip(0) == views);
    while i < all.len()
        invariant
            i <= all@.len(),
            views == catalog(),
            module_views(all@) == views,
            module_of(views, id@) == module_of(views.skip(i as int), id@),
        decreases all.len() - i,
    {
        assert(views.skip(i as int)[0] == all@[i as int]@);
        assert(views.skip(i as int).skip(1) == views.skip(i + 1));
        if same_str(all[i].id, id) {
            return Some(all.remove(i));
        }
        i = i + 1;
    }
    None
}

pub fn lookup(id: &str) -> (r: Option<Module>)
    ensures
        opt_module(r) == found_module(id@),
{
    if let Some(m) = exact(id) {
        return Some(m);
    }
    if starts_str(id, "custom/") {
        return exact("custom/*");
    }
    if starts_str(id, "group/") {
        return exact("group/*");
    }
    None
}

/// What a module is called. The user's own go by their id.
pub open spec fn module_label(id: Seq<char>) -> Seq<char> {
    match found_module(id) {
        Some(m) => if ends_with(m.id, "/*"@) {
            id
        } else {
            m.label
        },
        None => id,
    }
}

pub fn label_for(id: &str) -> (r: String)
    ensures
        r@ == module_label(id@),
{
    match lookup(id) {
        Some(m) => {
            if ends_str(m.id, "/*") {
                owned(id)
            } else {
                owned(m.label)
            }
        },
        None => owned(id),
    }
}

/// The modules of a group.
pub open spec fn group_of(all: Seq<ModuleView>, g: Group) -> Seq<ModuleView>
    decreases all.len(),
{
    if all.len() == 0 {
        Seq::empty()
    } else {
        let front = group_of(all.drop_last(), g);
        if all.last().group == g {
            front.push(all.last())
        } else {
            front
        }
    }
}

pub fn in_group(g: Group) -> (r: Vec<Module>)
    ensures
        module_views(r@) == group_of(catalog(), g),
{
    let all = modules();
    let ghost views = catalog();
    let mut out: Vec<Module> = Vec::new();
    let mut i: usize = 0;
    assert(views.take(0).len() == 0);
    assert(module_views(out@) == Seq::<ModuleView>::empty());
    while i < all.len()
        invariant
            i <= all@.len(),
            views == module_views(all@),
            module_views(out@) == group_of(views.take(i as int), g),
        decreases all.len() - i,
    {
        let m = &all[i];
        assert(views.take(i + 1).drop_last() == views.take(i as int));
        assert(views.take(i + 1).last() == m@);
        if m.group == g {
            let ghost was = module_views(out@);
            let one = Module {
                id: m.id,
                label: m.label,
                group: m.group,
                summary: m.summary,
                needs: copied_names(&m.needs),
                default_config: m.default_config,
            };
            assert(one@ =~= m@);
            out.push(one);
            assert(module_views(out@) == was.push(m@));
        }
        i = i + 1;
    }
    assert(views.take(views.len() as int) == views);
    out
}

fn copied_names(names: &Vec<&'static str>) -> (r: Vec<&'static str>)
    ensures
        r@ == names@,
{
    let mut out: Vec<&'static str> = Vec::new();
    let mut i: usize = 0;
    while i < names.len()
        invariant
            i <= names@.len(),
            out@ == names@.take(i as int),
        decreases names.len() - i,
    {
        out.push(names[i]);
        i = i + 1;
        assert(out@ == names@.take(i as int));
    }
    assert(names@.take(names@.len() as int) == names@);
    out
}

// ---------------------------------------------------------------------- config

/// The three lanes of a bar, from left to right.
pub open spec fn lane_names() -> Seq<Seq<char>> {
    seq!["modules-left"@, "modules-center"@, "modules-right"@]
}

pub fn config_path(paths: &OmarchyPaths) -> (r: String)
    ensures
        r@ == beside(paths.config@, "waybar/config.jsonc"@),
{
    paths.beside_config("waybar/config.jsonc")
}

/// The config file to edit.
pub fn resolve_config(
    paths: &OmarchyPaths,
    overrides: &Overrides,
    home: &str,
    instances: &Vec<WaybarInstance>,
) -> (r: Resolved)
    ensures
        (r.path@, r.source) == resolution(
            override_path(overrides@, "waybar.config"@, home@),
            first_named(instances@, false),
            beside(paths.config@, "waybar/config.jsonc"@),
        ),
{
    resolve_waybar_config(config_path(paths), overrides, home, instances)
}

/// Why an edit failed.
pub open spec fn edit_failure(detail: Seq<char>) -> Failure {
    Failure::External { cmd: "edit waybar config"@, detail }
}

fn edit_err(detail: &str) -> (r: StudioError)
    ensures
        r@ == edit_failure(detail@),
{
    external("edit waybar config", detail)
}

/// A text without the quotes at its two ends.
pub open spec fn unquoted(s: Seq<char>) -> Seq<char> {
    strip_trailing(strip_leading(s, '"'), '"')
}

/// An id between quotes.
pub open spec fn in_quotes(id: Seq<char>) -> Seq<char> {
    "\""@ + id + "\""@
}

fn quote(id: &str) -> (r: String)
    ensures
        r@ == in_quotes(id@),
{
    let mut out = owned("\"");
    out.append(id);
    out.append("\"");
    out
}

/// The module ids in a lane.
pub open spec fn lane_of(d: DocView, lane: Seq<char>) -> Seq<Seq<char>> {
    match elements(d.root, lane) {
        Some(items) => items.map_values(|t: Seq<char>| unquoted(t)),
        None => Seq::empty(),
    }
}

/// What an edit gives, with its error as the library's own.
pub open spec fn edited(r: Result<DocView, Seq<char>>) -> Result<DocView, Failure> {
    match r {
        Ok(d) => Ok(d),
        Err(e) => Err(edit_failure(e)),
    }
}

/// The plan that writes a config. A bar that runs is started again and has to be
/// there once it has settled; one that does not run is left alone.
pub open spec fn watched_plan(edit: EditView, was_alive: bool, settle_ms: u64) -> PlanView {
    PlanView {
        summary: "waybar config"@,
        module: "waybar"@,
        edits: seq![edit],
        reload: if was_alive {
            seq![ReloadStep::Restart(Component::Waybar)]
        } else {
            seq![]
        },
        verify: if was_alive {
            seq![
                Verification::ProcessAlive { component: Component::Waybar, grace_ms: settle_ms },
            ]
        } else {
            seq![]
        },
        risk: Risk::Restarty,
        trailers: seq![],
    }
}

/// The document without a module in any of some lanes.
pub open spec fn without_module(d: DocView, lanes: Seq<Seq<char>>, id: Seq<char>) -> DocView
    decreases lanes.len(),
{
    if lanes.len() == 0 {
        d
    } else {
        remove_item_from(without_module(d, lanes.drop_last(), id), lanes.last(), in_quotes(id))
    }
}

/// The user's `config.jsonc`.
#[derive(Debug)]
pub struct WaybarConfig {
    doc: JsoncDoc,
    path: String,
}

impl View for WaybarConfig {
    type V = DocView;

    closed spec fn view(&self) -> DocView {
        self.doc@
    }
}

impl WaybarConfig {
    pub open spec fn wf(&self) -> bool {
        doc_wf(self@)
    }

    pub closed spec fn file(&self) -> Seq<char> {
        self.path@
    }

    /// Reads the config; `src` is what its file holds, or why it could not be
    /// read.
    pub fn load(path: &str, src: Result<&str, &str>) -> (r: Result<Self, StudioError>)
        ensures
            match src {
                Err(why) => r matches Err(e) && e@ == (Failure::External {
                    cmd: "read "@ + path@,
                    detail: why@,
                }),
                Ok(text) => match r {
                    Ok(c) => doc_of(text@) == Some(c@) && c.wf() && c.file() == path@,
                    Err(e) => doc_of(text@) is None && e@ == (Failure::ParseFailed {
                        file: path@,
                        line: None,
                        hint: "not valid JSON with comments"@,
                    }),
                },
            },
    {
        match src {
            Err(why) => {
                let mut cmd = owned("read ");
                cmd.append(path);
                Err(external(cmd.as_str(), why))
            },
            Ok(text) => match JsoncDoc::parse(text) {
                Ok(doc) => Ok(WaybarConfig { doc, path: owned(path) }),
                Err(hint) => Err(StudioError::ParseFailed { file: owned(path), line: None, hint }),
            },
        }
    }

    /// The module ids in a lane.
    pub fn lane(&self, lane: &str) -> (r: Vec<String>)
        ensures
            texts(r@) == lane_of(self@, lane@),
    {
        let mut out: Vec<String> = Vec::new();
        assert(texts(out@) == Seq::<Seq<char>>::empty());
        if let Some(items) = self.doc.array_items(lane) {
            let ghost want = lane_of(self@, lane@);
            let mut i: usize = 0;
            assert(texts(out@) == want.take(0));
            while i < items.len()
                invariant
                    i <= items@.len(),
                    want == texts(items@).map_values(|t: Seq<char>| unquoted(t)),
                    texts(out@) == want.take(i as int),
                decreases items.len() - i,
            {
                let t = chars(items[i].as_str());
                let id = string(without_trailing(without_leading(t.as_slice(), '"'), '"'));
                let ghost was = texts(out@);
                out.push(id);
                assert(texts(out@) == was.push(id@));
                assert(texts(items@)[i as int] == items@[i as int]@);
                assert(want[i as int] == id@);
                assert(want.take(i + 1) == want.take(i as int).push(id@));
                i = i + 1;
            }
            assert(want.take(want.len() as int) == want);
        }
        out
    }

    /// The three lanes in bar order.
    pub fn lanes(&self) -> (r: Vec<(&'static str, Vec<String>)>)
        ensures
            r@.len() == 3,
            forall|i: int|
                0 <= i < 3 ==> (#[trigger] r@[i]).0@ == lane_names()[i] && texts(r@[i].1@)
                    == lane_of(self@, lane_names()[i]),
    {
        vec![
            ("modules-left", self.lane("modules-left")),
            ("modules-center", self.lane("modules-center")),
            ("modules-right", self.lane("modules-right")),
        ]
    }

    pub fn reorder(&mut self, lane: &str, ids: &Vec<String>) -> (r: Result<(), StudioError>)
        requires
            old(self).wf(),
        ensures
            final(self).wf(),
            final(self).file() == old(self).file(),
            ({
                let raws = texts(ids@).map_values(|id: Seq<char>| in_quotes(id));
                match r {
                    Ok(_) => edited(reorder_in(old(self)@, lane@, raws)) == Ok::<DocView, Failure>(
                        final(self)@,
                    ),
                    Err(e) => edited(reorder_in(old(self)@, lane@, raws)) == Err::<
                        DocView,
                        Failure,
                    >(e@) && final(self)@ == old(self)@,
                }
            }),
    {
        let ghost raws = texts(ids@).map_values(|id: Seq<char>| in_quotes(id));
        let mut quoted_ids: Vec<String> = Vec::new();
        let mut i: usize = 0;
        assert(texts(quoted_ids@) == raws.take(0));
        while i < ids.len()
            invariant
                i <= ids@.len(),
                raws == texts(ids@).map_values(|id: Seq<char>| in_quotes(id)),
                texts(quoted_ids@) == raws.take(i as int),
            decreases ids.len() - i,
        {
            let ghost was = texts(quoted_ids@);
            let q = quote(ids[i].as_str());
            quoted_ids.push(q);
            assert(texts(quoted_ids@) == was.push(q@));
            assert(texts(ids@)[i as int] == ids@[i as int]@);
            assert(raws[i as int] == q@);
            assert(raws.take(i + 1) == raws.take(i as int).push(q@));
            i = i + 1;
        }
        assert(raws.take(raws.len() as int) == raws);
        match self.doc.reorder(lane, &quoted_ids) {
            Ok(_) => Ok(()),
            Err(e) => Err(edit_err(e.as_str())),
        }
    }

    pub fn add(&mut self, lane: &str, id: &str) -> (r: Result<(), StudioError>)
        requires
            old(self).wf(),
        ensures
            final(self).wf(),
            final(self).file() == old(self).file(),
            match r {
                Ok(_) => edited(add_item_to(old(self)@, lane@, in_quotes(id@))) == Ok::<
                    DocView,
                    Failure,
                >(final(self)@),
                Err(e) => edited(add_item_to(old(self)@, lane@, in_quotes(id@))) == Err::<
                    DocView,
                    Failure,
                >(e@) && final(self)@ == old(self)@,
            },
    {
        let raw = quote(id);
        match self.doc.add_item(lane, raw.as_str()) {
            Ok(_) => Ok(()),
            Err(e) => Err(edit_err(e.as_str())),
        }
    }

    /// Takes a module out of a lane; one that is not there is out of it.
    pub fn remove(&mut self, lane: &str, id: &str) -> (r: Result<(), StudioError>)
        requires
            old(self).wf(),
        ensures
            r is Ok,
            final(self).wf(),
            final(self).file() == old(self).file(),
            final(self)@ == remove_item_from(old(self)@, lane@, in_quotes(id@)),
    {
        let raw = quote(id);
        self.doc.remove_item(lane, raw.as_str());
        Ok(())
    }

    /// Moves a module to a lane, out of whichever has it.
    pub fn move_to(&mut self, id: &str, lane: &str) -> (r: Result<(), StudioError>)
        requires
            old(self).wf(),
        ensures
            final(self).wf(),
            final(self).file() == old(self).file(),
            ({
                let bare = without_module(old(self)@, lane_names(), id@);
                match r {
                    Ok(_) => edited(add_item_to(bare, lane@, in_quotes(id@))) == Ok::<
                        DocView,
                        Failure,
                    >(final(self)@),
                    Err(e) => edited(add_item_to(bare, lane@, in_quotes(id@))) == Err::<
                        DocView,
                        Failure,
                    >(e@) && final(self)@ == bare,
                }
            }),
    {
        let ghost start = self@;
        let _ = self.remove("modules-left", id);
        let _ = self.remove("modules-center", id);
        let _ = self.remove("modules-right", id);
        proof {
            let l = lane_names();
            reveal_with_fuel(without_module, 4);
            assert(l.drop_last().drop_last().drop_last().len() == 0);
            assert(l.drop_last().drop_last().last() == "modules-left"@);
            assert(l.drop_last().last() == "modules-center"@);
            assert(l.last() == "modules-right"@);
            assert(self@ == without_module(start, l, id@));
        }
        self.add(lane, id)
    }

    /// Sets a value in place; `raw` is JSON.
    pub fn set_scalar(&mut self, path: &str, raw: &str) -> (r: Result<(), StudioError>)
        requires
            old(self).wf(),
        ensures
            final(self).wf(),
            final(self).file() == old(self).file(),
            match r {
                Ok(_) => edited(set_scalar_in(old(self)@, path@, raw@)) == Ok::<DocView, Failure>(
                    final(self)@,
                ),
                Err(e) => edited(set_scalar_in(old(self)@, path@, raw@)) == Err::<
                    DocView,
                    Failure,
                >(e@) && final(self)@ == old(self)@,
            },
    {
        match self.doc.set_scalar(path, raw) {
            Ok(_) => Ok(()),
            Err(e) => Err(edit_err(e.as_str())),
        }
    }

    pub fn path(&self) -> (r: &str)
        ensures
            r@ == self.file(),
    {
        self.path.as_str()
    }

    /// The text to write.
    pub fn save(&self) -> (r: String)
        ensures
            r@ == doc_text(self@),
    {
        self.doc.to_text()
    }

    /// The edit that writes the config; `on_disk` is what its file holds.
    pub fn plan(&self, on_disk: Option<&str>) -> (r: FileEdit)
        ensures
            r@ == (EditView {
                file: self.file(),
                old: opt_str(on_disk),
                new_content: doc_text(self@),
            }),
    {
        FileEdit::new(owned(self.path.as_str()), on_disk, self.doc.to_text())
    }
}

// -------------------------------------------------------------- custom modules

/// A module that shows what a command prints.
#[derive(Debug, Clone, PartialEq, Eq, Default)]
pub struct CustomSpec {
    /// The name, which the id is made of.
    pub name: String,
    /// The command.
    pub command: String,
    /// How often it runs, in seconds.
    pub interval: Option<u32>,
    pub format: String,
    /// The command to run on a click.
    pub on_click: Option<String>,
}

/// The letters and digits of a name in lower case, with one dash for each run
/// of anything else between them.
pub open spec fn dashed(s: Seq<char>) -> Seq<char>
    decreases s.len(),
{
    if s.len() == 0 {
        Seq::empty()
    } else {
        let front = dashed(s.drop_last());
        let c = s.last();
        if is_alpha(c) || is_digit(c) {
            front.push(lower(c))
        } else if front.len() > 0 && front.last() != '-' {
            front.push('-')
        } else {
            front
        }
    }
}

pub open spec fn slug_of(name: Seq<char>) -> Seq<char> {
    strip_trailing(dashed(trim(name)), '-')
}

impl CustomSpec {
    pub fn slug(&self) -> (r: String)
        ensures
            r@ == slug_of(self.name@),
    {
        let all = chars(self.name.as_str());
        let s = trimmed(all.as_slice());
        let mut out: Vec<char> = Vec::new();
        let mut i: usize = 0;
        assert(s@.take(0).len() == 0);
        while i < s.len()
            invariant
                i <= s@.len(),
                out@ == dashed(s@.take(i as int)),
            decreases s.len() - i,
        {
            assert(s@.take(i + 1).drop_last() == s@.take(i as int));
            assert(s@.take(i + 1).last() == s@[i as int]);
            let c = s[i];
            let n = out.len();
            if alpha(c) || digit(c) {
                out.push(lower_char(c));
            } else if n > 0 && out[n - 1] != '-' {
                out.push('-');
            }
            i = i + 1;
        }
        assert(s@.take(s@.len() as int) == s@);
        string(without_trailing(out.as_slice(), '-'))
    }
}

/// A hexadecimal digit in lower case.
pub open spec fn hex_char(n: int) -> char {
    if n < 10 {
        (48 + n) as u8 as char
    } else {
        (87 + n) as u8 as char
    }
}

/// A character that may not stand in a JSON string as it is.
pub open spec fn is_control(c: char) -> bool {
    c <= '\u{1f}'
}

/// What a character is written as inside a JSON string.
pub open spec fn escape_of(c: char) -> Seq<char> {
    if c == '"' {
        "\\\""@
    } else if c == '\\' {
        "\\\\"@
    } else if c == '\n' {
        "\\n"@
    } else if c == '\t' {
        "\\t"@
    } else if is_control(c) {
        seq!['\\', 'u', '0', '0', hex_char(c as int / 16), hex_char(c as int % 16)]
    } else {
        seq![c]
    }
}

pub open spec fn escaped(s: Seq<char>) -> Seq<char>
    decreases s.len(),
{
    if s.len() == 0 {
        Seq::empty()
    } else {
        escaped(s.drop_last()) + escape_of(s.last())
    }
}

fn hex_digit(n: u8) -> (r: char)
    requires
        n < 16,
    ensures
        r == hex_char(n as int),
{
    if n < 10 {
        (48u8 + n) as char
    } else {
        (87u8 + n) as char
    }
}

fn append_control(out: &mut String, c: char)
    requires
        is_control(c),
    ensures
        final(out)@ == old(out)@ + seq![
            '\\',
            'u',
            '0',
            '0',
            hex_char(c as int / 16),
            hex_char(c as int % 16),
        ],
{
    let n: u8 = c as u8;
    out.push('\\');
    out.push('u');
    out.push('0');
    out.push('0');
    out.push(hex_digit(n / 16));
    out.push(hex_digit(n % 16));
    assert(out@ == old(out)@ + seq![
        '\\',
        'u',
        '0',
        '0',
        hex_char(c as int / 16),
        hex_char(c as int % 16),
    ]);
}

/// The text between the quotes of a JSON string that says `s`.
pub fn json_escape(s: &str) -> (r: String)
    ensures
        r@ == escaped(s@),
{
    let t = chars(s);
    let mut out = String::new();
    let mut i: usize = 0;
    assert(t@.take(0).len() == 0);
    while i < t.len()
        invariant
            i <= t@.len(),
            out@ == escaped(t@.take(i as int)),
        decreases t.len() - i,
    {
        assert(t@.take(i + 1).drop_last() == t@.take(i as int));
        assert(t@.take(i + 1).last() == t@[i as int]);
        let c = t[i];
        let ghost was = out@;
        if c == '"' {
            out.append("\\\"");
        } else if c == '\\' {
            out.append("\\\\");
        } else if c == '\n' {
            out.append("\\n");
        } else if c == '\t' {
            out.append("\\t");
        } else if c <= '\u{1f}' {
            append_control(&mut out, c);
        } else {
            out.push(c);
            assert(out@ == was + seq![c]);
        }
        i = i + 1;
    }
    assert(t@.take(t@.len() as int) == t@);
    out
}

/// A member whose value is a string.
pub open spec fn text_member(key: Seq<char>, value: Seq<char>) -> Seq<char> {
    "\""@ + key + "\": \""@ + escaped(value) + "\""@
}

fn string_member(key: &str, value: &str) -> (r: String)
    ensures
        r@ == text_member(key@, value@),
{
    let mut out = owned("\"");
    out.append(key);
    out.append("\": \"");
    let e = json_escape(value);
    out.append(e.as_str());
    out.append("\"");
    out
}

/// The members of a custom module's config.
pub open spec fn custom_members(
    command: Seq<char>,
    interval: Option<u32>,
    format: Seq<char>,
    on_click: Option<Seq<char>>,
) -> Seq<Seq<char>> {
    seq![text_member("exec"@, command)] + (match interval {
        Some(n) => seq!["\"interval\": "@ + int_text(n as int)],
        None => seq![],
    }) + seq![text_member("format"@, format)] + (match on_click {
        Some(c) => if trim(c).len() > 0 {
            seq![text_member("on-click"@, c)]
        } else {
            seq![]
        },
        None => seq![],
    })
}

/// A custom module's config.
pub open spec fn custom_object(spec_of: CustomSpec) -> Seq<char> {
    "{\n  "@ + join(
        custom_members(
            spec_of.command@,
            spec_of.interval,
            spec_of.format@,
            opt_text(spec_of.on_click),
        ),
        ",\n  "@,
    ) + "\n}"@
}

fn custom_value(wanted: &CustomSpec) -> (r: String)
    ensures
        r@ == custom_object(*wanted),
{
    let mut members: Vec<String> = Vec::new();
    members.push(string_member("exec", wanted.command.as_str()));
    if let Some(n) = wanted.interval {
        let mut line = owned("\"interval\": ");
        append_u64(&mut line, n as u64);
        members.push(line);
    }
    members.push(string_member("format", wanted.format.as_str()));
    if let Some(c) = &wanted.on_click {
        let t = chars(c.as_str());
        if trimmed(t.as_slice()).len() > 0 {
            members.push(string_member("on-click", c.as_str()));
        }
    }
    assert(texts(members@) =~= custom_members(
        wanted.command@,
        wanted.interval,
        wanted.format@,
        opt_text(wanted.on_click),
    ));
    let inner = joined(&members, ",\n  ");
    let mut out = owned("{\n  ");
    out.append(inner.as_str());
    out.append("\n}");
    out
}

pub open spec fn custom_id(name: Seq<char>) -> Seq<char> {
    "custom/"@ + slug_of(name)
}

impl WaybarConfig {
    /// Puts a custom module's config into the bar's and its id into a lane.
    /// Returns the id. Where the lane refuses it the config stays.
    pub fn add_custom_module(&mut self, wanted: &CustomSpec, lane: &str) -> (r: Result<
        String,
        StudioError,
    >)
        requires
            old(self).wf(),
        ensures
            final(self).wf(),
            final(self).file() == old(self).file(),
            ({
                let id = custom_id(wanted.name@);
                let with_config = insert_member_into(old(self)@, id, custom_object(*wanted));
                if slug_of(wanted.name@).len() == 0 {
                    r matches Err(e) && e@ == edit_failure("a custom module needs a name"@)
                        && final(self)@ == old(self)@
                } else {
                    match with_config {
                        Err(why) => r matches Err(e) && e@ == edit_failure(why) && final(self)@
                            == old(self)@,
                        Ok(d) => match (add_item_to(d, lane@, in_quotes(id)), r) {
                            (Ok(after), Ok(given)) => given@ == id && final(self)@ == after,
                            (Err(why), Err(e)) => e@ == edit_failure(why) && final(self)@ == d,
                            _ => false,
                        },
                    }
                }
            }),
    {
        let name = wanted.slug();
        if chars(name.as_str()).len() == 0 {
            return Err(edit_err("a custom module needs a name"));
        }
        let mut id = owned("custom/");
        id.append(name.as_str());
        let value = custom_value(wanted);
        match self.doc.insert_member(id.as_str(), value.as_str()) {
            Ok(_) => {},
            Err(e) => {
                return Err(edit_err(e.as_str()));
            },
        }
        match self.add(lane, id.as_str()) {
            Ok(_) => Ok(id),
            Err(e) => Err(e),
        }
    }

    /// The plan that applies the config. A Waybar that is up is restarted and
    /// watched; one that is not is not started.
    pub fn apply_watched(&self, on_disk: Option<&str>, was_alive: bool, settle_ms: u64) -> (r:
        ApplyPlan)
        ensures
            r@ == watched_plan(
                EditView {
                    file: self.file(),
                    old: opt_str(on_disk),
                    new_content: doc_text(self@),
                },
                was_alive,
                settle_ms,
            ),
    {
        let mut reload: Vec<ReloadStep> = Vec::new();
        let mut verify: Vec<Verification> = Vec::new();
        if was_alive {
            reload.push(ReloadStep::Restart(Component::Waybar));
            verify.push(
                Verification::ProcessAlive { component: Component::Waybar, grace_ms: settle_ms },
            );
        }
        let edits = vec![self.plan(on_disk)];
        let r = plain_plan("waybar config", "waybar", edits, reload, verify, Risk::Restarty);
        assert(r@.edits =~= seq![
            EditView { file: self.file(), old: opt_str(on_disk), new_content: doc_text(self@) },
        ]);
        assert(r@.reload =~= if was_alive {
            seq![ReloadStep::Restart(Component::Waybar)]
        } else {
            seq![]
        });
        assert(r@.verify =~= if was_alive {
            seq![
                Verification::ProcessAlive { component: Component::Waybar, grace_ms: settle_ms },
            ]
        } else {
            seq![]
        });
        r
    }
}

/// What came of a watched change.
#[derive(Debug, Clone, Copy, PartialEq, Eq, Structural)]
pub enum ApplyOutcome {
    /// It was made, and Waybar is running.
    Applied,
    /// It was made while Waybar was not running.
    AppliedUnwatched,
    /// It stopped Waybar and was taken back.
    Reverted,
}

/// What the pipeline's answer means.
pub fn outcome(was_alive: bool, applied: Result<(), StudioError>) -> (r: Result<
    ApplyOutcome,
    StudioError,
>)
    ensures
        match applied {
            Ok(_) => r == Ok::<ApplyOutcome, StudioError>(
                if was_alive {
                    ApplyOutcome::Applied
                } else {
                    ApplyOutcome::AppliedUnwatched
                },
            ),
            Err(e) => if e@ == (Failure::VerifyFailed { rolled_back: true }) {
                r == Ok::<ApplyOutcome, StudioError>(ApplyOutcome::Reverted)
            } else {
                r == Err::<ApplyOutcome, StudioError>(e)
            },
        },
{
    match applied {
        Ok(_) => {
            if was_alive {
                Ok(ApplyOutcome::Applied)
            } else {
                Ok(ApplyOutcome::AppliedUnwatched)
            }
        },
        Err(e) => {
            let taken_back = match &e {
                StudioError::VerifyFailed { rolled_back } => *rolled_back,
                _ => false,
            };
            if taken_back {
                Ok(ApplyOutcome::Reverted)
            } else {
                Err(e)
            }
        },
    }
}

/// Whether Waybar is up, by the check that was run; one that could not be run
/// says no.
pub fn waybar_alive(check: Option<&CmdOutput>) -> (r: bool)
    ensures
        r == (check matches Some(o) && o.succeeded()),
{
    match check {
        Some(o) => o.ok(),
        None => false,
    }
}

// ----------------------------------------------------------------------- style

/// The geometry that is written into the user's `style.css`.
#[derive(Debug, Clone, Copy, PartialEq, Eq, Structural)]
pub struct WaybarStyle {
    pub font_size: Option<u32>,
    pub radius: Option<u32>,
}

impl Default for WaybarStyle {
    fn default() -> (r: Self)
        ensures
            r.font_size is None,
            r.radius is None,
    {
        WaybarStyle { font_size: None, radius: None }
    }
}

pub fn style_path(paths: &OmarchyPaths) -> (r: String)
    ensures
        r@ == beside(paths.config@, "waybar/style.css"@),
{
    paths.beside_config("waybar/style.css")
}

/// The style file to edit.
pub fn resolve_style(
    paths: &OmarchyPaths,
    overrides: &Overrides,
    home: &str,
    instances: &Vec<WaybarInstance>,
) -> (r: Resolved)
    ensures
        (r.path@, r.source) == resolution(
            override_path(overrides@, "waybar.style"@, home@),
            first_named(instances@, true),
            beside(paths.config@, "waybar/style.css"@),
        ),
{
    resolve_waybar_style(style_path(paths), overrides, home, instances)
}

pub open spec fn style_open() -> Seq<char> {
    open_marker("waybar-style"@, CommentStyle::CBlock)
}

pub open spec fn style_close() -> Seq<char> {
    close_marker("waybar-style"@, CommentStyle::CBlock)
}

pub fn style_block() -> (r: ManagedBlock)
    ensures
        r.open() == style_open(),
        r.close() == style_close(),
{
    ManagedBlock::new("waybar-style", CommentStyle::CBlock)
}

/// The digits that a text starts with.
pub open spec fn leading_digits(s: Seq<char>) -> Seq<char>
    decreases s.len(),
{
    if s.len() > 0 && is_digit(s[0]) {
        seq![s[0]] + leading_digits(s.skip(1))
    } else {
        Seq::empty()
    }
}

/// The number behind a CSS property.
pub open spec fn px_of(body: Seq<char>, prop: Seq<char>) -> Option<u32> {
    let needle = prop + ":"@;
    match find(body, needle) {
        Some(k) => parse_u32(leading_digits(trim_start(body.skip(k + needle.len())))),
        None => None,
    }
}

pub fn grab_px(body: &str, prop: &str) -> (r: Option<u32>)
    ensures
        r == px_of(body@, prop@),
{
    let s = chars(body);
    let mut needle = owned(prop);
    needle.append(":");
    let n = chars(needle.as_str()).len();
    let len = s.len();
    match found(s.as_slice(), needle.as_str()) {
        Some(k) => {
            assert(k + n <= len);
            let tail = trimmed_start(rest(s.as_slice(), k + n));
            let mut ds: Vec<char> = Vec::new();
            let mut i: usize = 0;
            assert(tail@.skip(0) == tail@);
            assert(ds@ + leading_digits(tail@) == leading_digits(tail@));
            while i < tail.len() && digit(tail[i])
                invariant
                    i <= tail@.len(),
                    leading_digits(tail@) == ds@ + leading_digits(tail@.skip(i as int)),
                decreases tail.len() - i,
            {
                let ghost t = tail@.skip(i as int);
                assert(t[0] == tail@[i as int]);
                assert(t.skip(1) == tail@.skip(i + 1));
                let ghost was = ds@;
                ds.push(tail[i]);
                assert(was + (seq![t[0]] + leading_digits(t.skip(1))) == ds@ + leading_digits(
                    t.skip(1),
                ));
                i = i + 1;
            }
            assert(i < tail@.len() ==> tail@.skip(i as int)[0] == tail@[i as int]);
            assert(leading_digits(tail@) == ds@);
            read_u32(ds.as_slice())
        },
        None => None,
    }
}

pub open spec fn px_line(prop: Seq<char>, n: Option<u32>) -> Seq<char> {
    match n {
        Some(n) => "  "@ + prop + ": "@ + int_text(n as int) + "px;\n"@,
        None => Seq::empty(),
    }
}

fn append_px(out: &mut String, prop: &str, n: Option<u32>)
    ensures
        final(out)@ == old(out)@ + px_line(prop@, n),
{
    let ghost before = out@;
    if let Some(n) = n {
        out.append("  ");
        out.append(prop);
        out.append(": ");
        append_u64(out, n as u64);
        out.append("px;\n");
    }
    assert(out@ =~= before + px_line(prop@, n));
}

impl WaybarStyle {
    /// The rule that the block holds.
    pub open spec fn rule(self) -> Seq<char> {
        "* {\n"@ + px_line("font-size"@, self.font_size) + px_line("border-radius"@, self.radius)
            + "}"@
    }

    pub open spec fn says_nothing(self) -> bool {
        self.font_size is None && self.radius is None
    }

    /// The style file with this geometry in it.
    pub open spec fn styled(self, css: Seq<char>) -> Seq<char> {
        if self.says_nothing() {
            removed(css, style_open(), style_close())
        } else {
            upserted(css, style_open(), self.rule(), style_close())
        }
    }

    /// The geometry that a style file holds.
    pub open spec fn held(css: Option<Seq<char>>) -> WaybarStyle {
        match css {
            Some(text) => match extracted(text, style_open(), style_close()) {
                Some(body) => WaybarStyle {
                    font_size: px_of(body, "font-size"@),
                    radius: px_of(body, "border-radius"@),
                },
                None => WaybarStyle { font_size: None, radius: None },
            },
            None => WaybarStyle { font_size: None, radius: None },
        }
    }

    pub fn load(css: Option<&str>) -> (r: Self)
        ensures
            r == Self::held(opt_str(css)),
    {
        match css {
            Some(text) => match style_block().extract(text) {
                Some(body) => WaybarStyle {
                    font_size: grab_px(body.as_str(), "font-size"),
                    radius: grab_px(body.as_str(), "border-radius"),
                },
                None => WaybarStyle { font_size: None, radius: None },
            },
            None => WaybarStyle { font_size: None, radius: None },
        }
    }

    pub fn body(&self) -> (r: String)
        ensures
            r@ == self.rule(),
    {
        let mut out = owned("* {\n");
        append_px(&mut out, "font-size", self.font_size);
        append_px(&mut out, "border-radius", self.radius);
        out.append("}");
        out
    }

    pub fn is_empty(&self) -> (r: bool)
        ensures
            r == self.says_nothing(),
    {
        self.font_size.is_none() && self.radius.is_none()
    }

    /// The style file's new text; `on_disk` is what it holds.
    pub fn save(&self, on_disk: Option<&str>) -> (r: String)
        ensures
            r@ == self.styled(content(opt_str(on_disk))),
    {
        let existing = content_of(on_disk);
        if self.is_empty() {
            style_block().remove(existing.as_str())
        } else {
            let body = self.body();
            style_block().upsert(existing.as_str(), body.as_str())
        }
    }
}

} // verus!
