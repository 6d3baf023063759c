//! Source-line counting: the verified core of a `sloccount`-style tool.
//!
//! The library decides which language a file is written in, counts its
//! physical lines, accumulates per-language totals and orders the report.
//! Walking directories, reading files and printing stay with the caller.

pub mod lines;
pub mod text;
pub mod cli;
pub mod language;
pub mod project;
