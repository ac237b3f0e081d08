//! The bits of a Hyprland modifier mask.

use vstd::prelude::*;

verus! {

pub const SHIFT: u16 = 1;

pub const CAPS: u16 = 2;

pub const CTRL: u16 = 4;

pub const ALT: u16 = 8;

pub const MOD2: u16 = 16;

pub const MOD3: u16 = 32;

pub const SUPER: u16 = 64;

pub const MOD5: u16 = 128;

} // verus!
