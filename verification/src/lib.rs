//! Read-only per-process Linux state, taken from the text of `/proc/<pid>/*`.

pub mod args;
pub mod collector;
pub mod error;
pub mod mcp;
pub mod text;
