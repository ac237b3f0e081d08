//! The models behind a Hyprland desktop's configuration: parsing, editing and
//! rendering of its files, and the plans that a frontend carries out.

pub mod animations;
pub mod configfs;
pub mod coverage;
pub mod decimal;
pub mod engine;
pub mod error;
pub mod keybinds;
pub mod lockidle;
pub mod looknfeel;
pub mod monitors;
pub mod nova;
pub mod number;
pub mod order;
pub mod paths;
pub mod rice;
pub mod scrolloverview;
pub mod split;
pub mod targets;
pub mod text;
pub mod toml;
pub mod tweaks;
pub mod wallhaven;
pub mod waybar;
