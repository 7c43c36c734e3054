//! Shell shortcut rendering: one configuration of command shortcuts,
//! rendered as aliases or functions for several shells.

pub mod config;
pub mod entries;
pub mod render;
mod text;
pub mod utils;
