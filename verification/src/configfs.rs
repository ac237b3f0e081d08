//! The file formats that settings are kept in.

pub mod hyprlang;
pub mod jsonc;
pub mod managed;
