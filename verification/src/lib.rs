//! Verified core of a stdin-driven status bar: the attribute grammar of its
//! input lines, the pixel buffer it renders into, and the layout decisions
//! between them.

pub mod bar;
pub mod config;
pub mod draw_state;
pub mod input;
pub mod number;
pub mod parser;
pub mod pixels;
pub mod state;
pub mod token;
