//! Folding ranges for brace-delimited stylesheet source.
//!
//! The library turns a source text into the set of line spans an editor can
//! collapse: one span per matched `{` ... `}` pair whose opening and closing
//! braces stand on different lines.

pub mod folding;
pub mod line_index;
