//! Verified maintenance of localization string tables.
//!
//! The crate parses a line-oriented tagged text format into an ordered list
//! of labelled sections, serializes sections back to text, merges a newer
//! translation snapshot onto a current one, and runs validation passes
//! (completeness, duplicate detection, argument-count parity, diversity).

pub mod cmd;
pub mod convert;
pub mod find;
pub mod laws;
pub mod parse;
pub mod section;
pub mod text;
