//! Parser and renderers for the kernel's per-CPU softnet statistics table.
//!
//! The input is a line-oriented text table of lowercase hexadecimal fields:
//! nine mandatory fields per line, followed by up to four optional trailing
//! fields that newer kernels append. `parse` turns the raw bytes into a
//! sequence of [`softnet::SoftnetStat`] records; the `table`, `json` and
//! `prometheus` modules render such a sequence as text.

pub mod softnet;
pub mod grammar;
pub mod parse;
pub mod digits;
pub mod table;
pub mod prometheus;
pub mod json;
pub mod laws;
pub mod read;
