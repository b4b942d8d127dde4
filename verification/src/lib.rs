//! A line-reflow text formatter for C-style source text.
//!
//! The formatter merges lines that hold nothing but "junk" punctuation
//! (braces and semicolons) into their predecessor, and right-aligns each
//! line's trailing junk run at a configurable column.

pub mod formatter;
pub mod laws;
pub mod model;
