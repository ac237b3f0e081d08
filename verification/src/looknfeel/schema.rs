//! The settings there are, group by group, and the looks made of them.

use vstd::prelude::*;

use crate::looknfeel::{Kind, KindView, Preset, PresetView, Setting, SettingView, Target};

verus! {

pub open spec fn windows_settings() -> Seq<SettingView> {
    seq![
        SettingView {
            key: "general.gaps_in"@,
            label: "Inner gaps"@,
            group: "Windows"@,
            target: Target::Looknfeel,
            kind: KindView::Int { min: 0, max: 60 },
            default: "5"@,
            help: "Space between tiled windows"@,
        },
        SettingView {
            key: "general.gaps_out"@,
            label: "Outer gaps"@,
            group: "Windows"@,
            target: Target::Looknfeel,
            kind: KindView::Int { min: 0, max: 100 },
            default: "10"@,
            help: "Space between windows and the screen edge"@,
        },
        SettingView {
            key: "general.border_size"@,
            label: "Border width"@,
            group: "Windows"@,
            target: Target::Looknfeel,
            kind: KindView::Int { min: 0, max: 12 },
            default: "2"@,
            help: "Thickness of the window border"@,
        },
        SettingView {
            key: "general.extend_border_grab_area"@,
            label: "Border grab area"@,
            group: "Windows"@,
            target: Target::Looknfeel,
            kind: KindView::Int { min: 0, max: 40 },
            default: "15"@,
            help: "Pixels around the border that still grab for resizing"@,
        },
        SettingView {
            key: "general.resize_on_border"@,
            label: "Resize on border"@,
            group: "Windows"@,
            target: Target::Looknfeel,
            kind: KindView::Bool,
            default: "false"@,
            help: "Drag a window's border or gap to resize it"@,
        },
        SettingView {
            key: "general.layout"@,
            label: "Tiling layout"@,
            group: "Windows"@,
            target: Target::Looknfeel,
            kind: KindView::Enum(seq!["dwindle"@, "master"@, "scrolling"@]),
            default: "dwindle"@,
            help: "How new windows are arranged"@,
        },
    ]
}

fn windows() -> (r: Vec<Setting>)
    ensures
        views(r@) == windows_settings(),
{
    let all = vec![
        entry(
            "general.gaps_in",
            "Inner gaps",
            "Windows",
            Target::Looknfeel,
            Kind::Int { min: 0, max: 60 },
            "5",
            "Space between tiled windows",
        ),
        entry(
            "general.gaps_out",
            "Outer gaps",
            "Windows",
            Target::Looknfeel,
            Kind::Int { min: 0, max: 100 },
            "10",
            "Space between windows and the screen edge",
        ),
        entry(
            "general.border_size",
            "Border width",
            "Windows",
            Target::Looknfeel,
            Kind::Int { min: 0, max: 12 },
            "2",
            "Thickness of the window border",
        ),
        entry(
            "general.extend_border_grab_area",
            "Border grab area",
            "Windows",
            Target::Looknfeel,
            Kind::Int { min: 0, max: 40 },
            "15",
            "Pixels around the border that still grab for resizing",
        ),
        entry(
            "general.resize_on_border",
            "Resize on border",
            "Windows",
            Target::Looknfeel,
            Kind::Bool,
            "false",
            "Drag a window's border or gap to resize it",
        ),
        entry(
            "general.layout",
            "Tiling layout",
            "Windows",
            Target::Looknfeel,
            Kind::Enum(&["dwindle", "master", "scrolling"]),
            "dwindle",
            "How new windows are arranged",
        ),
    ];
    proof {
        assert(names(all@[5].kind->Enum_0@) =~= (KindView::Enum(seq!["dwindle"@, "master"@, "scrolling"@]))->Enum_0);
    }
    assert(views(all@) =~= windows_settings());
    all
}

pub open spec fn layout_settings() -> Seq<SettingView> {
    seq![
        SettingView {
            key: "dwindle.force_split"@,
            label: "Split direction"@,
            group: "Layout"@,
            target: Target::Looknfeel,
            kind: KindView::Int { min: 0, max: 2 },
            default: "0"@,
            help: "0 follows the cursor, 1 always left/top, 2 always right/bottom"@,
        },
        SettingView {
            key: "dwindle.preserve_split"@,
            label: "Preserve split"@,
            group: "Layout"@,
            target: Target::Looknfeel,
            kind: KindView::Bool,
            default: "false"@,
            help: "Keep the split direction when windows close"@,
        },
        SettingView {
            key: "dwindle.smart_split"@,
            label: "Smart split"@,
            group: "Layout"@,
            target: Target::Looknfeel,
            kind: KindView::Bool,
            default: "false"@,
            help: "Choose the split by where you click in the window"@,
        },
        SettingView {
            key: "master.new_status"@,
            label: "Master new window"@,
            group: "Layout"@,
            target: Target::Looknfeel,
            kind: KindView::Enum(seq!["master"@, "slave"@, "inherit"@]),
            default: "slave"@,
            help: "Where a new window lands in the master layout"@,
        },
    ]
}

fn layout() -> (r: Vec<Setting>)
    ensures
        views(r@) == layout_settings(),
{
    let all = vec![
        entry(
            "dwindle.force_split",
            "Split direction",
            "Layout",
            Target::Looknfeel,
            Kind::Int { min: 0, max: 2 },
            "0",
            "0 follows the cursor, 1 always left/top, 2 always right/bottom",
        ),
        entry(
            "dwindle.preserve_split",
            "Preserve split",
            "Layout",
            Target::Looknfeel,
            Kind::Bool,
            "false",
            "Keep the split direction when windows close",
        ),
        entry(
            "dwindle.smart_split",
            "Smart split",
            "Layout",
            Target::Looknfeel,
            Kind::Bool,
            "false",
            "Choose the split by where you click in the window",
        ),
        entry(
            "master.new_status",
            "Master new window",
            "Layout",
            Target::Looknfeel,
            Kind::Enum(&["master", "slave", "inherit"]),
            "slave",
            "Where a new window lands in the master layout",
        ),
    ];
    proof {
        assert(names(all@[3].kind->Enum_0@) =~= (KindView::Enum(seq!["master"@, "slave"@, "inherit"@]))->Enum_0);
    }
    assert(views(all@) =~= layout_settings());
    all
}

pub open spec fn behavior_settings() -> Seq<SettingView> {
    seq![
        SettingView {
            key: "general.allow_tearing"@,
            label: "Allow tearing"@,
            group: "Behavior"@,
            target: Target::Looknfeel,
            kind: KindView::Bool,
            default: "false"@,
            help: "Permit screen tearing for lower-latency games (per-window)"@,
        },
        SettingView {
            key: "misc.focus_on_activate"@,
            label: "Focus on activate"@,
            group: "Behavior"@,
            target: Target::Looknfeel,
            kind: KindView::Bool,
            default: "false"@,
            help: "Let apps steal focus when they request activation"@,
        },
        SettingView {
            key: "misc.disable_hyprland_logo"@,
            label: "Hide Hyprland logo"@,
            group: "Behavior"@,
            target: Target::Looknfeel,
            kind: KindView::Bool,
            default: "false"@,
            help: "Remove the default background logo on an empty workspace"@,
        },
        SettingView {
            key: "misc.vrr"@,
            label: "Variable refresh"@,
            group: "Behavior"@,
            target: Target::Looknfeel,
            kind: KindView::Int { min: 0, max: 2 },
            default: "0"@,
            help: "0 off, 1 on, 2 only for fullscreen"@,
        },
        SettingView {
            key: "misc.middle_click_paste"@,
            label: "Middle-click paste"@,
            group: "Behavior"@,
            target: Target::Looknfeel,
            kind: KindView::Bool,
            default: "true"@,
            help: "Paste the primary selection on a middle click"@,
        },
        SettingView {
            key: "misc.enable_swallow"@,
            label: "Window swallowing"@,
            group: "Behavior"@,
            target: Target::Looknfeel,
            kind: KindView::Bool,
            default: "false"@,
            help: "Hide a terminal while the GUI app it launched is open"@,
        },
        SettingView {
            key: "misc.key_press_enables_dpms"@,
            label: "Wake on key"@,
            group: "Behavior"@,
            target: Target::Looknfeel,
            kind: KindView::Bool,
            default: "false"@,
            help: "A key press wakes the displays from DPMS sleep"@,
        },
        SettingView {
            key: "misc.mouse_move_enables_dpms"@,
            label: "Wake on mouse"@,
            group: "Behavior"@,
            target: Target::Looknfeel,
            kind: KindView::Bool,
            default: "false"@,
            help: "Mouse movement wakes the displays from DPMS sleep"@,
        },
        SettingView {
            key: "binds.workspace_back_and_forth"@,
            label: "Workspace back-and-forth"@,
            group: "Behavior"@,
            target: Target::Looknfeel,
            kind: KindView::Bool,
            default: "false"@,
            help: "Switching to the current workspace returns to the previous one"@,
        },
        SettingView {
            key: "binds.allow_workspace_cycles"@,
            label: "Workspace cycles"@,
            group: "Behavior"@,
            target: Target::Looknfeel,
            kind: KindView::Bool,
            default: "false"@,
            help: "Let previous-workspace cycle through history"@,
        },
        SettingView {
            key: "xwayland.force_zero_scaling"@,
            label: "XWayland crisp scaling"@,
            group: "Behavior"@,
            target: Target::Looknfeel,
            kind: KindView::Bool,
            default: "false"@,
            help: "Force scale 1 for XWayland apps to avoid blur (they self-scale)"@,
        },
        SettingView {
            key: "cursor.hide_on_key_press"@,
            label: "Hide cursor on type"@,
            group: "Behavior"@,
            target: Target::Looknfeel,
            kind: KindView::Bool,
            default: "false"@,
            help: "Hide the cursor while you're typing"@,
        },
    ]
}

fn behavior() -> (r: Vec<Setting>)
    ensures
        views(r@) == behavior_settings(),
{
    let all = vec![
        entry(
            "general.allow_tearing",
            "Allow tearing",
            "Behavior",
            Target::Looknfeel,
            Kind::Bool,
            "false",
            "Permit screen tearing for lower-latency games (per-window)",
        ),
        entry(
            "misc.focus_on_activate",
            "Focus on activate",
            "Behavior",
            Target::Looknfeel,
            Kind::Bool,
            "false",
            "Let apps steal focus when they request activation",
        ),
        entry(
            "misc.disable_hyprland_logo",
            "Hide Hyprland logo",
            "Behavior",
            Target::Looknfeel,
            Kind::Bool,
            "false",
            "Remove the default background logo on an empty workspace",
        ),
        entry(
            "misc.vrr",
            "Variable refresh",
            "Behavior",
            Target::Looknfeel,
            Kind::Int { min: 0, max: 2 },
            "0",
            "0 off, 1 on, 2 only for fullscreen",
        ),
        entry(
            "misc.middle_click_paste",
            "Middle-click paste",
            "Behavior",
            Target::Looknfeel,
            Kind::Bool,
            "true",
            "Paste the primary selection on a middle click",
        ),
        entry(
            "misc.enable_swallow",
            "Window swallowing",
            "Behavior",
            Target::Looknfeel,
            Kind::Bool,
            "false",
            "Hide a terminal while the GUI app it launched is open",
        ),
        entry(
            "misc.key_press_enables_dpms",
            "Wake on key",
            "Behavior",
            Target::Looknfeel,
            Kind::Bool,
            "false",
            "A key press wakes the displays from DPMS sleep",
        ),
        entry(
            "misc.mouse_move_enables_dpms",
            "Wake on mouse",
            "Behavior",
            Target::Looknfeel,
            Kind::Bool,
            "false",
            "Mouse movement wakes the displays from DPMS sleep",
        ),
        entry(
            "binds.workspace_back_and_forth",
            "Workspace back-and-forth",
            "Behavior",
            Target::Looknfeel,
            Kind::Bool,
            "false",
            "Switching to the current workspace returns to the previous one",
        ),
        entry(
            "binds.allow_workspace_cycles",
            "Workspace cycles",
            "Behavior",
            Target::Looknfeel,
            Kind::Bool,
            "false",
            "Let previous-workspace cycle through history",
        ),
        entry(
            "xwayland.force_zero_scaling",
            "XWayland crisp scaling",
            "Behavior",
            Target::Looknfeel,
            Kind::Bool,
            "false",
            "Force scale 1 for XWayland apps to avoid blur (they self-scale)",
        ),
        entry(
            "cursor.hide_on_key_press",
            "Hide cursor on type",
            "Behavior",
            Target::Looknfeel,
            Kind::Bool,
            "false",
            "Hide the cursor while you're typing",
        ),
    ];
    assert(views(all@) =~= behavior_settings());
    all
}

pub open spec fn decoration_settings() -> Seq<SettingView> {
    seq![
        SettingView {
            key: "decoration.rounding"@,
            label: "Corner rounding"@,
            group: "Decoration"@,
            target: Target::Looknfeel,
            kind: KindView::Int { min: 0, max: 30 },
            default: "0"@,
            help: "Radius of rounded window corners"@,
        },
        SettingView {
            key: "decoration.active_opacity"@,
            label: "Active opacity"@,
            group: "Decoration"@,
            target: Target::Looknfeel,
            kind: KindView::Float { min: 0, max: 1000000 },
            default: "1.0"@,
            help: "Opacity of the focused window"@,
        },
        SettingView {
            key: "decoration.inactive_opacity"@,
            label: "Inactive opacity"@,
            group: "Decoration"@,
            target: Target::Looknfeel,
            kind: KindView::Float { min: 0, max: 1000000 },
            default: "1.0"@,
            help: "Opacity of unfocused windows"@,
        },
        SettingView {
            key: "decoration.fullscreen_opacity"@,
            label: "Fullscreen opacity"@,
            group: "Decoration"@,
            target: Target::Looknfeel,
            kind: KindView::Float { min: 0, max: 1000000 },
            default: "1.0"@,
            help: "Opacity of a fullscreen window"@,
        },
        SettingView {
            key: "decoration.dim_inactive"@,
            label: "Dim inactive"@,
            group: "Decoration"@,
            target: Target::Looknfeel,
            kind: KindView::Bool,
            default: "false"@,
            help: "Darken windows that aren't focused"@,
        },
        SettingView {
            key: "decoration.dim_strength"@,
            label: "Dim strength"@,
            group: "Decoration"@,
            target: Target::Looknfeel,
            kind: KindView::Float { min: 0, max: 1000000 },
            default: "0.5"@,
            help: "How strongly inactive windows are dimmed"@,
        },
        SettingView {
            key: "decoration.dim_special"@,
            label: "Dim special"@,
            group: "Decoration"@,
            target: Target::Looknfeel,
            kind: KindView::Float { min: 0, max: 1000000 },
            default: "0.2"@,
            help: "How strongly the special workspace dims what's behind it"@,
        },
    ]
}

fn decoration() -> (r: Vec<Setting>)
    ensures
        views(r@) == decoration_settings(),
{
    let all = vec![
        entry(
            "decoration.rounding",
            "Corner rounding",
            "Decoration",
            Target::Looknfeel,
            Kind::Int { min: 0, max: 30 },
            "0",
            "Radius of rounded window corners",
        ),
        entry(
            "decoration.active_opacity",
            "Active opacity",
            "Decoration",
            Target::Looknfeel,
            Kind::Float { min: 0, max: 1000000 },
            "1.0",
            "Opacity of the focused window",
        ),
        entry(
            "decoration.inactive_opacity",
            "Inactive opacity",
            "Decoration",
            Target::Looknfeel,
            Kind::Float { min: 0, max: 1000000 },
            "1.0",
            "Opacity of unfocused windows",
        ),
        entry(
            "decoration.fullscreen_opacity",
            "Fullscreen opacity",
            "Decoration",
            Target::Looknfeel,
            Kind::Float { min: 0, max: 1000000 },
            "1.0",
            "Opacity of a fullscreen window",
        ),
        entry(
            "decoration.dim_inactive",
            "Dim inactive",
            "Decoration",
            Target::Looknfeel,
            Kind::Bool,
            "false",
            "Darken windows that aren't focused",
        ),
        entry(
            "decoration.dim_strength",
            "Dim strength",
            "Decoration",
            Target::Looknfeel,
            Kind::Float { min: 0, max: 1000000 },
            "0.5",
            "How strongly inactive windows are dimmed",
        ),
        entry(
            "decoration.dim_special",
            "Dim special",
            "Decoration",
            Target::Looknfeel,
            Kind::Float { min: 0, max: 1000000 },
            "0.2",
            "How strongly the special workspace dims what's behind it",
        ),
    ];
    assert(views(all@) =~= decoration_settings());
    all
}

pub open spec fn blur_settings() -> Seq<SettingView> {
    seq![
        SettingView {
            key: "decoration.blur.enabled"@,
            label: "Blur"@,
            group: "Blur"@,
            target: Target::Looknfeel,
            kind: KindView::Bool,
            default: "true"@,
            help: "Blur behind translucent windows"@,
        },
        SettingView {
            key: "decoration.blur.size"@,
            label: "Blur size"@,
            group: "Blur"@,
            target: Target::Looknfeel,
            kind: KindView::Int { min: 1, max: 20 },
            default: "2"@,
            help: "Radius of the background blur"@,
        },
        SettingView {
            key: "decoration.blur.passes"@,
            label: "Blur passes"@,
            group: "Blur"@,
            target: Target::Looknfeel,
            kind: KindView::Int { min: 1, max: 6 },
            default: "2"@,
            help: "More passes = smoother, heavier blur"@,
        },
        SettingView {
            key: "decoration.blur.special"@,
            label: "Blur special"@,
            group: "Blur"@,
            target: Target::Looknfeel,
            kind: KindView::Bool,
            default: "false"@,
            help: "Also blur behind the special workspace"@,
        },
        SettingView {
            key: "decoration.blur.brightness"@,
            label: "Blur brightness"@,
            group: "Blur"@,
            target: Target::Looknfeel,
            kind: KindView::Float { min: 0, max: 2000000 },
            default: "0.8"@,
            help: "Brightness of the blurred background"@,
        },
        SettingView {
            key: "decoration.blur.contrast"@,
            label: "Blur contrast"@,
            group: "Blur"@,
            target: Target::Looknfeel,
            kind: KindView::Float { min: 0, max: 2000000 },
            default: "0.9"@,
            help: "Contrast of the blurred background"@,
        },
        SettingView {
            key: "decoration.blur.noise"@,
            label: "Blur noise"@,
            group: "Blur"@,
            target: Target::Looknfeel,
            kind: KindView::Float { min: 0, max: 1000000 },
            default: "0.02"@,
            help: "Film-grain noise added over the blur"@,
        },
        SettingView {
            key: "decoration.blur.popups"@,
            label: "Blur popups"@,
            group: "Blur"@,
            target: Target::Looknfeel,
            kind: KindView::Bool,
            default: "false"@,
            help: "Blur behind menus and popups too"@,
        },
    ]
}

fn blur() -> (r: Vec<Setting>)
    ensures
        views(r@) == blur_settings(),
{
    let all = vec![
        entry(
            "decoration.blur.enabled",
            "Blur",
            "Blur",
            Target::Looknfeel,
            Kind::Bool,
            "true",
            "Blur behind translucent windows",
        ),
        entry(
            "decoration.blur.size",
            "Blur size",
            "Blur",
            Target::Looknfeel,
            Kind::Int { min: 1, max: 20 },
            "2",
            "Radius of the background blur",
        ),
        entry(
            "decoration.blur.passes",
            "Blur passes",
            "Blur",
            Target::Looknfeel,
            Kind::Int { min: 1, max: 6 },
            "2",
            "More passes = smoother, heavier blur",
        ),
        entry(
            "decoration.blur.special",
            "Blur special",
            "Blur",
            Target::Looknfeel,
            Kind::Bool,
            "false",
            "Also blur behind the special workspace",
        ),
        entry(
            "decoration.blur.brightness",
            "Blur brightness",
            "Blur",
            Target::Looknfeel,
            Kind::Float { min: 0, max: 2000000 },
            "0.8",
            "Brightness of the blurred background",
        ),
        entry(
            "decoration.blur.contrast",
            "Blur contrast",
            "Blur",
            Target::Looknfeel,
            Kind::Float { min: 0, max: 2000000 },
            "0.9",
            "Contrast of the blurred background",
        ),
        entry(
            "decoration.blur.noise",
            "Blur noise",
            "Blur",
            Target::Looknfeel,
            Kind::Float { min: 0, max: 1000000 },
            "0.02",
            "Film-grain noise added over the blur",
        ),
        entry(
            "decoration.blur.popups",
            "Blur popups",
            "Blur",
            Target::Looknfeel,
            Kind::Bool,
            "false",
            "Blur behind menus and popups too",
        ),
    ];
    assert(views(all@) =~= blur_settings());
    all
}

pub open spec fn shadow_settings() -> Seq<SettingView> {
    seq![
        SettingView {
            key: "decoration.shadow.enabled"@,
            label: "Shadow"@,
            group: "Shadow"@,
            target: Target::Looknfeel,
            kind: KindView::Bool,
            default: "true"@,
            help: "Drop shadow under windows"@,
        },
        SettingView {
            key: "decoration.shadow.range"@,
            label: "Shadow size"@,
            group: "Shadow"@,
            target: Target::Looknfeel,
            kind: KindView::Int { min: 0, max: 60 },
            default: "2"@,
            help: "How far the shadow spreads"@,
        },
        SettingView {
            key: "decoration.shadow.render_power"@,
            label: "Shadow softness"@,
            group: "Shadow"@,
            target: Target::Looknfeel,
            kind: KindView::Int { min: 1, max: 4 },
            default: "3"@,
            help: "Falloff curve of the shadow"@,
        },
    ]
}

fn shadow() -> (r: Vec<Setting>)
    ensures
        views(r@) == shadow_settings(),
{
    let all = vec![
        entry(
            "decoration.shadow.enabled",
            "Shadow",
            "Shadow",
            Target::Looknfeel,
            Kind::Bool,
            "true",
            "Drop shadow under windows",
        ),
        entry(
            "decoration.shadow.range",
            "Shadow size",
            "Shadow",
            Target::Looknfeel,
            Kind::Int { min: 0, max: 60 },
            "2",
            "How far the shadow spreads",
        ),
        entry(
            "decoration.shadow.render_power",
            "Shadow softness",
            "Shadow",
            Target::Looknfeel,
            Kind::Int { min: 1, max: 4 },
            "3",
            "Falloff curve of the shadow",
        ),
    ];
    assert(views(all@) =~= shadow_settings());
    all
}

pub open spec fn input_settings() -> Seq<SettingView> {
    seq![
        SettingView {
            key: "input.sensitivity"@,
            label: "Mouse sensitivity"@,
            group: "Input"@,
            target: Target::Input,
            kind: KindView::Float { min: -1000000, max: 1000000 },
            default: "0"@,
            help: "Pointer speed, -1 slowest to 1 fastest (0 = unchanged)"@,
        },
        SettingView {
            key: "input.follow_mouse"@,
            label: "Focus follows mouse"@,
            group: "Input"@,
            target: Target::Input,
            kind: KindView::Int { min: 0, max: 3 },
            default: "1"@,
            help: "0 off, 1 on, 2 loose, 3 full — how focus tracks the pointer"@,
        },
        SettingView {
            key: "input.accel_profile"@,
            label: "Accel profile"@,
            group: "Input"@,
            target: Target::Input,
            kind: KindView::Enum(seq!["adaptive"@, "flat"@]),
            default: "adaptive"@,
            help: "Pointer acceleration curve (flat = 1:1)"@,
        },
        SettingView {
            key: "input.force_no_accel"@,
            label: "Disable acceleration"@,
            group: "Input"@,
            target: Target::Input,
            kind: KindView::Bool,
            default: "false"@,
            help: "Bypass all pointer acceleration (raw input)"@,
        },
        SettingView {
            key: "input.left_handed"@,
            label: "Left-handed"@,
            group: "Input"@,
            target: Target::Input,
            kind: KindView::Bool,
            default: "false"@,
            help: "Swap left and right mouse buttons"@,
        },
        SettingView {
            key: "input.repeat_rate"@,
            label: "Key repeat rate"@,
            group: "Input"@,
            target: Target::Input,
            kind: KindView::Int { min: 1, max: 100 },
            default: "25"@,
            help: "Repeats per second while a key is held"@,
        },
        SettingView {
            key: "input.repeat_delay"@,
            label: "Key repeat delay"@,
            group: "Input"@,
            target: Target::Input,
            kind: KindView::Int { min: 100, max: 2000 },
            default: "600"@,
            help: "Milliseconds before a held key starts repeating"@,
        },
        SettingView {
            key: "input.numlock_by_default"@,
            label: "Numlock on start"@,
            group: "Input"@,
            target: Target::Input,
            kind: KindView::Bool,
            default: "false"@,
            help: "Enable Num Lock when Hyprland starts"@,
        },
        SettingView {
            key: "input.natural_scroll"@,
            label: "Natural scroll (mouse)"@,
            group: "Input"@,
            target: Target::Input,
            kind: KindView::Bool,
            default: "false"@,
            help: "Reverse the mouse scroll direction"@,
        },
        SettingView {
            key: "input.scroll_factor"@,
            label: "Scroll speed"@,
            group: "Input"@,
            target: Target::Input,
            kind: KindView::Float { min: 100000, max: 10000000 },
            default: "1.0"@,
            help: "Multiplier for scroll distance"@,
        },
        SettingView {
            key: "input.scroll_method"@,
            label: "Scroll method"@,
            group: "Input"@,
            target: Target::Input,
            kind: KindView::Enum(seq!["2fg"@, "edge"@, "on_button_down"@, "no_scroll"@]),
            default: "2fg"@,
            help: "How scrolling is detected on the touchpad"@,
        },
    ]
}

fn input() -> (r: Vec<Setting>)
    ensures
        views(r@) == input_settings(),
{
    let all = vec![
        entry(
            "input.sensitivity",
            "Mouse sensitivity",
            "Input",
            Target::Input,
            Kind::Float { min: -1000000, max: 1000000 },
            "0",
            "Pointer speed, -1 slowest to 1 fastest (0 = unchanged)",
        ),
        entry(
            "input.follow_mouse",
            "Focus follows mouse",
            "Input",
            Target::Input,
            Kind::Int { min: 0, max: 3 },
            "1",
            "0 off, 1 on, 2 loose, 3 full — how focus tracks the pointer",
        ),
        entry(
            "input.accel_profile",
            "Accel profile",
            "Input",
            Target::Input,
            Kind::Enum(&["adaptive", "flat"]),
            "adaptive",
            "Pointer acceleration curve (flat = 1:1)",
        ),
        entry(
            "input.force_no_accel",
            "Disable acceleration",
            "Input",
            Target::Input,
            Kind::Bool,
            "false",
            "Bypass all pointer acceleration (raw input)",
        ),
        entry(
            "input.left_handed",
            "Left-handed",
            "Input",
            Target::Input,
            Kind::Bool,
            "false",
            "Swap left and right mouse buttons",
        ),
        entry(
            "input.repeat_rate",
            "Key repeat rate",
            "Input",
            Target::Input,
            Kind::Int { min: 1, max: 100 },
            "25",
            "Repeats per second while a key is held",
        ),
        entry(
            "input.repeat_delay",
            "Key repeat delay",
            "Input",
            Target::Input,
            Kind::Int { min: 100, max: 2000 },
            "600",
            "Milliseconds before a held key starts repeating",
        ),
        entry(
            "input.numlock_by_default",
            "Numlock on start",
            "Input",
            Target::Input,
            Kind::Bool,
            "false",
            "Enable Num Lock when Hyprland starts",
        ),
        entry(
            "input.natural_scroll",
            "Natural scroll (mouse)",
            "Input",
            Target::Input,
            Kind::Bool,
            "false",
            "Reverse the mouse scroll direction",
        ),
        entry(
            "input.scroll_factor",
            "Scroll speed",
            "Input",
            Target::Input,
            Kind::Float { min: 100000, max: 10000000 },
            "1.0",
            "Multiplier for scroll distance",
        ),
        entry(
            "input.scroll_method",
            "Scroll method",
            "Input",
            Target::Input,
            Kind::Enum(&["2fg", "edge", "on_button_down", "no_scroll"]),
            "2fg",
            "How scrolling is detected on the touchpad",
        ),
    ];
    proof {
        assert(names(all@[2].kind->Enum_0@) =~= (KindView::Enum(seq!["adaptive"@, "flat"@]))->Enum_0);
        assert(names(all@[10].kind->Enum_0@) =~= (KindView::Enum(seq!["2fg"@, "edge"@, "on_button_down"@, "no_scroll"@]))->Enum_0);
    }
    assert(views(all@) =~= input_settings());
    all
}

pub open spec fn touchpad_settings() -> Seq<SettingView> {
    seq![
        SettingView {
            key: "input.touchpad.natural_scroll"@,
            label: "Natural scroll"@,
            group: "Touchpad"@,
            target: Target::Input,
            kind: KindView::Bool,
            default: "false"@,
            help: "Reverse the touchpad scroll direction"@,
        },
        SettingView {
            key: "input.touchpad.disable_while_typing"@,
            label: "Disable while typing"@,
            group: "Touchpad"@,
            target: Target::Input,
            kind: KindView::Bool,
            default: "true"@,
            help: "Ignore the touchpad while the keyboard is active"@,
        },
        SettingView {
            key: "input.touchpad.tap-to-click"@,
            label: "Tap to click"@,
            group: "Touchpad"@,
            target: Target::Input,
            kind: KindView::Bool,
            default: "true"@,
            help: "A tap on the touchpad registers as a click"@,
        },
        SettingView {
            key: "input.touchpad.drag_lock"@,
            label: "Drag lock"@,
            group: "Touchpad"@,
            target: Target::Input,
            kind: KindView::Bool,
            default: "false"@,
            help: "Keep dragging after briefly lifting your finger"@,
        },
        SettingView {
            key: "input.touchpad.middle_button_emulation"@,
            label: "Middle-button emulation"@,
            group: "Touchpad"@,
            target: Target::Input,
            kind: KindView::Bool,
            default: "false"@,
            help: "Press left and right together for a middle click"@,
        },
    ]
}

fn touchpad() -> (r: Vec<Setting>)
    ensures
        views(r@) == touchpad_settings(),
{
    let all = vec![
        entry(
            "input.touchpad.natural_scroll",
            "Natural scroll",
            "Touchpad",
            Target::Input,
            Kind::Bool,
            "false",
            "Reverse the touchpad scroll direction",
        ),
        entry(
            "input.touchpad.disable_while_typing",
            "Disable while typing",
            "Touchpad",
            Target::Input,
            Kind::Bool,
            "true",
            "Ignore the touchpad while the keyboard is active",
        ),
        entry(
            "input.touchpad.tap-to-click",
            "Tap to click",
            "Touchpad",
            Target::Input,
            Kind::Bool,
            "true",
            "A tap on the touchpad registers as a click",
        ),
        entry(
            "input.touchpad.drag_lock",
            "Drag lock",
            "Touchpad",
            Target::Input,
            Kind::Bool,
            "false",
            "Keep dragging after briefly lifting your finger",
        ),
        entry(
            "input.touchpad.middle_button_emulation",
            "Middle-button emulation",
            "Touchpad",
            Target::Input,
            Kind::Bool,
            "false",
            "Press left and right together for a middle click",
        ),
    ];
    assert(views(all@) =~= touchpad_settings());
    all
}

/// Every setting, in display order.
#[verifier::opaque]
pub open spec fn all_settings() -> Seq<SettingView> {
    windows_settings() + layout_settings() + behavior_settings() + decoration_settings() + blur_settings() + shadow_settings() + input_settings() + touchpad_settings()
}

pub fn settings() -> (r: Vec<Setting>)
    ensures
        views(r@) == all_settings(),
{
    let mut all: Vec<Setting> = Vec::new();
    assert(views(all@) =~= Seq::<SettingView>::empty());
    take(&mut all, windows());
    take(&mut all, layout());
    take(&mut all, behavior());
    take(&mut all, decoration());
    take(&mut all, blur());
    take(&mut all, shadow());
    take(&mut all, input());
    take(&mut all, touchpad());
    reveal(all_settings);
    assert(views(all@) =~= all_settings());
    all
}

/// Moves the settings of one list behind those of another.
fn take(all: &mut Vec<Setting>, more: Vec<Setting>)
    ensures
        views(final(all)@) == views(old(all)@) + views(more@),
{
    let ghost head = views(all@);
    let mut i: usize = 0;
    assert(views(all@) =~= head + views(more@).take(0));
    while i < more.len()
        invariant
            i <= more@.len(),
            views(all@) == head + views(more@).take(i as int),
        decreases more.len() - i,
    {
        let ghost was = views(all@);
        let s = more[i];
        all.push(s);
        i = i + 1;
        proof {
            assert(views(all@) =~= was.push(s@));
            assert(views(more@).take(i as int) =~= views(more@).take(i - 1).push(s@));
            assert(views(all@) =~= head + views(more@).take(i as int));
        }
    }
    assert(views(more@).take(more@.len() as int) =~= views(more@));
}

/// The texts of a list of names.
pub open spec fn names(v: Seq<&'static str>) -> Seq<Seq<char>> {
    v.map_values(|s: &'static str| s@)
}

pub open spec fn views(v: Seq<Setting>) -> Seq<SettingView> {
    v.map_values(|s: Setting| s@)
}

fn entry(
    key: &'static str,
    label: &'static str,
    group: &'static str,
    target: Target,
    kind: Kind,
    default: &'static str,
    help: &'static str,
) -> (r: Setting)
    ensures
        r@ == (SettingView {
            key: key@,
            label: label@,
            group: group@,
            target,
            kind: kind@,
            default: default@,
            help: help@,
        }),
        r.kind == kind,
{
    Setting { key, label, group, target, kind, default, help }
}

/// The looks there are.
#[verifier::opaque]
pub open spec fn all_presets() -> Seq<PresetView> {
    seq![
        PresetView {
            name: "Omarchy default"@,
            blurb: "The stock Omarchy look — no Studio overrides"@,
            values: seq![],
        },
        PresetView {
            name: "Minimal"@,
            blurb: "No gaps, no rounding, no effects — pure tiling"@,
            values: seq![
                ("general.gaps_in"@, "0"@),
                ("general.gaps_out"@, "0"@),
                ("general.border_size"@, "1"@),
                ("decoration.rounding"@, "0"@),
                ("decoration.blur.enabled"@, "false"@),
                ("decoration.shadow.enabled"@, "false"@),
                ("decoration.active_opacity"@, "1.0"@),
                ("decoration.inactive_opacity"@, "1.0"@),
            ],
        },
        PresetView {
            name: "Cozy"@,
            blurb: "Generous gaps, rounded corners, soft blur & shadow"@,
            values: seq![
                ("general.gaps_in"@, "8"@),
                ("general.gaps_out"@, "16"@),
                ("general.border_size"@, "2"@),
                ("decoration.rounding"@, "12"@),
                ("decoration.blur.enabled"@, "true"@),
                ("decoration.blur.size"@, "6"@),
                ("decoration.blur.passes"@, "3"@),
                ("decoration.shadow.enabled"@, "true"@),
                ("decoration.shadow.range"@, "12"@),
            ],
        },
        PresetView {
            name: "Frosted glass"@,
            blurb: "Translucent windows over a heavy background blur"@,
            values: seq![
                ("general.gaps_in"@, "6"@),
                ("general.gaps_out"@, "12"@),
                ("decoration.rounding"@, "10"@),
                ("decoration.active_opacity"@, "0.92"@),
                ("decoration.inactive_opacity"@, "0.80"@),
                ("decoration.blur.enabled"@, "true"@),
                ("decoration.blur.size"@, "8"@),
                ("decoration.blur.passes"@, "4"@),
            ],
        },
        PresetView {
            name: "Performance"@,
            blurb: "Effects off for the lightest possible compositing"@,
            values: seq![
                ("general.gaps_in"@, "4"@),
                ("general.gaps_out"@, "8"@),
                ("decoration.rounding"@, "0"@),
                ("decoration.blur.enabled"@, "false"@),
                ("decoration.shadow.enabled"@, "false"@),
                ("decoration.active_opacity"@, "1.0"@),
                ("decoration.inactive_opacity"@, "1.0"@),
                ("decoration.dim_inactive"@, "false"@),
            ],
        },
        PresetView {
            name: "Focus"@,
            blurb: "Dim and fade unfocused windows to spotlight the active one"@,
            values: seq![
                ("general.gaps_in"@, "6"@),
                ("general.gaps_out"@, "12"@),
                ("decoration.rounding"@, "8"@),
                ("decoration.dim_inactive"@, "true"@),
                ("decoration.dim_strength"@, "0.25"@),
                ("decoration.inactive_opacity"@, "0.90"@),
                ("decoration.active_opacity"@, "1.0"@),
            ],
        },
    ]
}

pub open spec fn preset_views(v: Seq<Preset>) -> Seq<PresetView> {
    v.map_values(|p: Preset| p@)
}

pub fn presets() -> (r: Vec<Preset>)
    ensures
        preset_views(r@) == all_presets(),
{
    let all = vec![
        Preset {
            name: "Omarchy default",
            blurb: "The stock Omarchy look — no Studio overrides",
            values: &[],
        },
        Preset {
            name: "Minimal",
            blurb: "No gaps, no rounding, no effects — pure tiling",
            values: &[
                ("general.gaps_in", "0"),
                ("general.gaps_out", "0"),
                ("general.border_size", "1"),
                ("decoration.rounding", "0"),
                ("decoration.blur.enabled", "false"),
                ("decoration.shadow.enabled", "false"),
                ("decoration.active_opacity", "1.0"),
                ("decoration.inactive_opacity", "1.0"),
            ],
        },
        Preset {
            name: "Cozy",
            blurb: "Generous gaps, rounded corners, soft blur & shadow",
            values: &[
                ("general.gaps_in", "8"),
                ("general.gaps_out", "16"),
                ("general.border_size", "2"),
                ("decoration.rounding", "12"),
                ("decoration.blur.enabled", "true"),
                ("decoration.blur.size", "6"),
                ("decoration.blur.passes", "3"),
                ("decoration.shadow.enabled", "true"),
                ("decoration.shadow.range", "12"),
            ],
        },
        Preset {
            name: "Frosted glass",
            blurb: "Translucent windows over a heavy background blur",
            values: &[
                ("general.gaps_in", "6"),
                ("general.gaps_out", "12"),
                ("decoration.rounding", "10"),
                ("decoration.active_opacity", "0.92"),
                ("decoration.inactive_opacity", "0.80"),
                ("decoration.blur.enabled", "true"),
                ("decoration.blur.size", "8"),
                ("decoration.blur.passes", "4"),
            ],
        },
        Preset {
            name: "Performance",
            blurb: "Effects off for the lightest possible compositing",
            values: &[
                ("general.gaps_in", "4"),
                ("general.gaps_out", "8"),
                ("decoration.rounding", "0"),
                ("decoration.blur.enabled", "false"),
                ("decoration.shadow.enabled", "false"),
                ("decoration.active_opacity", "1.0"),
                ("decoration.inactive_opacity", "1.0"),
                ("decoration.dim_inactive", "false"),
            ],
        },
        Preset {
            name: "Focus",
            blurb: "Dim and fade unfocused windows to spotlight the active one",
            values: &[
                ("general.gaps_in", "6"),
                ("general.gaps_out", "12"),
                ("decoration.rounding", "8"),
                ("decoration.dim_inactive", "true"),
                ("decoration.dim_strength", "0.25"),
                ("decoration.inactive_opacity", "0.90"),
                ("decoration.active_opacity", "1.0"),
            ],
        },
    ];
    proof {
        reveal(all_presets);
        let want = all_presets();
        assert(all@[0]@.values =~= want[0].values);
        assert(all@[1]@.values =~= want[1].values);
        assert(all@[2]@.values =~= want[2].values);
        assert(all@[3]@.values =~= want[3].values);
        assert(all@[4]@.values =~= want[4].values);
        assert(all@[5]@.values =~= want[5].values);
        assert(preset_views(all@) =~= want);
    }
    all
}

} // verus!
