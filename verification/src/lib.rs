//! A language-server core for delimiter-separated files (CSV, TSV, SSV,
//! PSV): an error-tolerant parser, a renderer for align / compact /
//! dialect conversion, minimal text edits, position conversion and the
//! diagnostics and code actions built on top of them.

pub mod dialect;
pub mod text;
pub mod grammar;
pub mod parse;
pub mod edits;
pub mod wellformed;
pub mod render;
pub mod position;
pub mod document;
pub mod features;
pub mod session;
pub mod reparse;
pub mod repair;
pub mod insertion;
pub mod deletion;
pub mod cleanliness;
pub mod quoting;
pub mod round_trip;
