use studio_core::engine::{CmdOutput, Risk};
use studio_core::monitors::{
    apply, conf_path, effective_size, fmt_scale, identify_cmd, load, place, plan, render_conf,
    row_positions, Layout, Mode, ModeRequest, Monitor, MonitorSetting, Side, UNIT,
};
use studio_core::paths::OmarchyPaths;

fn monitor(name: &str, model: &str, refresh: i64, x: i32, focused: bool) -> Monitor {
    Monitor {
        name: name.into(),
        description: format!("Lenovo {model}"),
        make: "Lenovo".into(),
        model: model.into(),
        width: 1920,
        height: 1080,
        refresh_rate: refresh,
        x,
        y: 0,
        scale: UNIT,
        transform: 0,
        focused,
        disabled: false,
        dpms: false,
        available_modes: vec![],
    }
}

fn two() -> Vec<Monitor> {
    vec![
        monitor("eDP-1", "0x9059", 120_213_000, 0, true),
        monitor("HDMI-A-1", "D22-20", 60_000_000, 1920, false),
    ]
}

/// An Acer ED340CUR as Hyprland reports it: a 100Hz ultrawide.
fn acer() -> Monitor {
    Monitor {
        name: "HDMI-A-1".into(),
        description: "Acer ED340CUR".into(),
        make: "Acer".into(),
        model: "ED340CUR".into(),
        width: 3440,
        height: 1440,
        refresh_rate: 59_999_000,
        x: 0,
        y: 0,
        scale: UNIT,
        transform: 0,
        focused: true,
        disabled: false,
        dpms: true,
        available_modes: [
            "3440x1440@60.00Hz",
            "3840x2160@60.00Hz",
            "3440x1440@100.00Hz",
            "1920x1080@120.00Hz",
            "1920x1080@60.00Hz",
            "1920x1080@60.00Hz",
        ]
        .iter()
        .map(|s| s.to_string())
        .collect(),
    }
}

#[test]
fn a_monitor_says_what_it_is() {
    let mons = two();
    assert!(mons[0].is_laptop());
    assert!(!mons[1].is_laptop());
    assert_eq!(mons[0].mode(), "1920x1080@120.21");
}

#[test]
fn mode_parses_every_shape() {
    assert_eq!(
        Mode::parse("3440x1440@100.00Hz"),
        Some(Mode {
            width: 3440,
            height: 1440,
            refresh: 100 * UNIT
        })
    );
    assert_eq!(Mode::parse("3440x1440@100").unwrap().refresh, 100 * UNIT);
    assert_eq!(Mode::parse("1920x1080").unwrap().refresh, 0);
    assert_eq!(Mode::parse("garbage"), None);
    assert_eq!(Mode::parse("100"), None);
}

#[test]
fn modes_are_sorted_and_deduped() {
    let m = acer();
    let modes = m.modes();
    // 3840x2160 is the largest area, then the ultrawide's two rates.
    assert_eq!(modes[0].label(), "3840x2160 @ 60Hz");
    assert_eq!(modes[1].label(), "3440x1440 @ 100Hz");
    assert_eq!(modes[2].label(), "3440x1440 @ 60Hz");
    // The duplicate 1920x1080@60 collapsed.
    assert_eq!(modes.len(), 5);
    assert_eq!(
        m.resolutions(),
        vec![(3840, 2160), (3440, 1440), (1920, 1080)]
    );
    assert_eq!(m.refresh_rates(3440, 1440), vec![100 * UNIT, 60 * UNIT]);
}

#[test]
fn mode_request_parses_user_specs() {
    assert_eq!(
        ModeRequest::parse("preferred"),
        Some(ModeRequest::Preferred)
    );
    assert_eq!(
        ModeRequest::parse("3440x1440"),
        Some(ModeRequest::Resolution(3440, 1440))
    );
    assert!(matches!(
        ModeRequest::parse("3440x1440@100"),
        Some(ModeRequest::Exact(_))
    ));
    assert_eq!(
        ModeRequest::parse("100"),
        Some(ModeRequest::Refresh(100 * UNIT))
    );
    assert_eq!(
        ModeRequest::parse("100Hz"),
        Some(ModeRequest::Refresh(100 * UNIT))
    );
    assert_eq!(ModeRequest::parse("nonsense"), None);
}

#[test]
fn resolve_picks_fastest_rate_for_a_resolution() {
    let m = acer();
    let got = m
        .resolve_mode(ModeRequest::Resolution(3440, 1440))
        .unwrap()
        .unwrap();
    assert_eq!(got.refresh, 100 * UNIT);
    assert_eq!(got.to_spec(), "3440x1440@100.00");
}

#[test]
fn resolve_preferred_yields_none() {
    assert_eq!(acer().resolve_mode(ModeRequest::Preferred).unwrap(), None);
}

#[test]
fn resolve_tolerates_rounding_between_hyprctl_and_the_kernel() {
    // Live refreshRate is 59.999; asking for 60 must still match.
    let got = acer()
        .resolve_mode(ModeRequest::Refresh(60 * UNIT))
        .unwrap();
    assert_eq!(got.unwrap().refresh, 60 * UNIT);
}

#[test]
fn resolve_rejects_a_rate_the_panel_lacks() {
    // The whole point: a 100Hz panel asked for 200Hz says so.
    let err = acer()
        .resolve_mode(ModeRequest::Refresh(200 * UNIT))
        .unwrap_err();
    assert!(err.contains("can't do 200Hz"), "{err}");
    assert!(err.contains("100Hz"), "{err}");
    assert!(err.contains("60Hz"), "{err}");
}

#[test]
fn resolve_rejects_an_unknown_resolution() {
    let err = acer()
        .resolve_mode(ModeRequest::Resolution(5120, 1440))
        .unwrap_err();
    assert!(err.contains("can't do 5120x1440"), "{err}");
    assert!(err.contains("3440x1440"), "{err}");
}

#[test]
fn resolve_rejects_a_rate_wrong_for_that_resolution() {
    let err = acer()
        .resolve_mode(ModeRequest::Exact(Mode {
            width: 3440,
            height: 1440,
            refresh: 120 * UNIT,
        }))
        .unwrap_err();
    assert!(err.contains("at 120Hz"), "{err}");
    assert!(err.contains("100Hz, 60Hz"), "{err}");
}

#[test]
fn resolve_explains_a_hyprland_that_lists_no_modes() {
    let mut m = acer();
    m.available_modes.clear();
    let err = m
        .resolve_mode(ModeRequest::Refresh(100 * UNIT))
        .unwrap_err();
    assert!(err.contains("reports no modes"), "{err}");
}

#[test]
fn preferred_needs_no_list_of_modes() {
    let mut m = acer();
    m.available_modes.clear();
    assert_eq!(m.resolve_mode(ModeRequest::Preferred), Ok(None));
    assert!(m.resolve_mode(ModeRequest::Resolution(1920, 1080)).is_err());
}

#[test]
fn a_file_without_a_last_line_break_keeps_its_lines() {
    let layout = Layout::from_monitors(&[acer()]);
    let out = render_conf("# one\n\n# two", &layout);
    let lines: Vec<&str> = out.split('\n').collect();
    assert_eq!(&lines[..3], ["# one", "", "# two"]);
    assert!(lines[3].starts_with("# >>> omarchy-studio:monitors"));
    assert_eq!(out.matches("omarchy-studio:monitors").count(), 2);
    assert_eq!(render_conf(&out, &layout), out);
}

#[test]
fn set_mode_rewrites_only_the_named_display() {
    let mons = two();
    let mut layout = Layout::from_monitors(&mons);
    assert!(layout.set_mode(
        "HDMI-A-1",
        Some(Mode {
            width: 1920,
            height: 1080,
            refresh: 100 * UNIT
        })
    ));
    assert_eq!(layout.monitors[0].mode, "1920x1080@120.21"); // untouched
    assert_eq!(layout.monitors[1].mode, "1920x1080@100.00");
    assert!(layout.set_mode("HDMI-A-1", None));
    assert_eq!(
        layout.monitors[1].line(),
        "monitor = HDMI-A-1, preferred, 1920x0, 1, transform, 0"
    );
    assert!(!layout.set_mode("DP-99", None));
}

#[test]
fn effective_size_scales_and_rotates() {
    assert_eq!(effective_size(3840, 2160, 2 * UNIT, 0), (1920, 1080));
    assert_eq!(effective_size(1920, 1080, UNIT, 0), (1920, 1080));
    // 90° rotation swaps axes.
    assert_eq!(effective_size(1920, 1080, UNIT, 1), (1080, 1920));
    assert_eq!(effective_size(1920, 1080, UNIT, 3), (1080, 1920));
    // fractional scale rounds.
    assert_eq!(effective_size(2560, 1440, 1_250_000, 0), (2048, 1152));
}

#[test]
fn place_computes_touching_coords() {
    let base = (0, 0, 1920, 1080);
    assert_eq!(place(base, (1080, 1920), Side::RightOf), (1920, 0));
    assert_eq!(place(base, (1080, 1920), Side::LeftOf), (-1080, 0));
    assert_eq!(place(base, (1920, 1080), Side::Below), (0, 1080));
    assert_eq!(place(base, (1920, 1080), Side::Above), (0, -1080));
}

#[test]
fn row_positions_lay_out_left_to_right() {
    let pos = row_positions(&[(1920, 1080), (2560, 1440), (1080, 1920)]);
    assert_eq!(pos, vec![(0, 0), (1920, 0), (4480, 0)]);
}

#[test]
fn fmt_scale_trims() {
    assert_eq!(fmt_scale(UNIT), "1");
    assert_eq!(fmt_scale(1_500_000), "1.5");
    assert_eq!(fmt_scale(1_250_000), "1.25");
}

#[test]
fn halves_of_a_hundredth_go_the_way_of_the_float() {
    // exact in binary: to the even hundredth
    assert_eq!(fmt_scale(1_125_000), "1.12");
    assert_eq!(fmt_scale(1_375_000), "1.38");
    // not exact: the way of the nearest double
    assert_eq!(fmt_scale(1_005_000), "1");
    assert_eq!(fmt_scale(645_000), "0.65");
    assert_eq!(fmt_scale(615_000), "0.61");
}

#[test]
fn setting_line_and_disable() {
    let mons = two();
    let s = MonitorSetting::from_monitor(&mons[0]);
    assert_eq!(
        s.line(),
        "monitor = eDP-1, 1920x1080@120.21, 0x0, 1, transform, 0"
    );
    let mut off = s.clone();
    off.disabled = true;
    assert_eq!(off.line(), "monitor = eDP-1, disable");
}

#[test]
fn render_body_includes_hotplug_fallback() {
    let mons = two();
    let layout = Layout::from_monitors(&mons);
    let body = layout.render_body();
    assert!(body.contains("monitor = eDP-1,"));
    assert!(body.contains("monitor = HDMI-A-1,"));
    assert!(body.trim_end().ends_with("monitor = , preferred, auto, 1"));
}

#[test]
fn render_conf_preserves_user_lines() {
    let mons = two();
    let layout = Layout::from_monitors(&mons);
    let existing = "# my own note\nmonitor = DP-9, disable\n";
    let out = render_conf(existing, &layout);
    assert!(out.contains("# my own note"));
    assert!(out.contains("monitor = DP-9, disable"));
    assert!(out.contains("omarchy-studio:monitors"));
    assert!(out.contains("monitor = eDP-1,"));
    // Re-rendering is idempotent (managed block replaced, not duplicated).
    let again = render_conf(&out, &layout);
    assert_eq!(again.matches("omarchy-studio:monitors").count(), 2); // open+close
}

#[test]
fn a_layout_is_planned_once() {
    let p = OmarchyPaths {
        system: "/s".into(),
        config: "/c/omarchy".into(),
        state: "/t".into(),
    };
    let layout = Layout::from_monitors(&two());
    assert_eq!(conf_path(&p), "/c/hypr/monitors.conf");
    let edit = plan(&p, None, &layout).unwrap();
    assert_eq!(edit.file, "/c/hypr/monitors.conf");
    assert!(plan(&p, Some(&edit.new_content), &layout).is_none());
    let planned = apply(&p, None, &layout, "arrange", true).unwrap();
    assert_eq!(planned.module, "monitors");
    assert_eq!(planned.risk, Risk::Risky);
    assert!(apply(&p, Some(&edit.new_content), &layout, "arrange", true).is_none());
}

#[test]
fn a_failing_hyprctl_has_no_monitors() {
    let out = CmdOutput {
        status: 1,
        stdout: String::new(),
        stderr: " no socket ".into(),
    };
    assert!(load(&out).is_err());
    let out = CmdOutput {
        status: 0,
        stdout: "[]".into(),
        stderr: String::new(),
    };
    assert_eq!(load(&out).unwrap(), "[]");
}

#[test]
fn identify_names_the_display() {
    let c = identify_cmd(1, "DP-1");
    assert_eq!(c.program, "hyprctl");
    assert_eq!(c.args, vec!["notify", "1", "2000", "0", "Studio: DP-1"]);
}

#[test]
fn every_advertised_mode_can_be_had() {
    let m = acer();
    for text in &m.available_modes {
        let want = Mode::parse(text).unwrap();
        let got = m.resolve_mode(ModeRequest::Exact(want)).unwrap().unwrap();
        assert!(got.matches(&want), "{text}");
    }
}
