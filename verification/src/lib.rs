//! A verified toolkit for searching SubRip (`.srt`) subtitle text.
//!
//! The crate parses a subtitle stream into entries (position, start and end
//! timecode, text lines), recovering per entry when a block is malformed,
//! and computes the matched/unmatched span alternation needed to highlight
//! pattern matches inside an entry's joined text.

pub mod entry;
pub mod error;
pub mod laws;
pub mod lines;
pub mod matcher;
pub mod parser;
pub mod search;
pub mod text;
pub mod timecode;
