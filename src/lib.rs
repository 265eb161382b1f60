//! Highlights the parts of a line of program output that match user-defined
//! patterns, wrapping each in a terminal color.
//!
//! `config` turns the text of a rule file into an ordered rule list, `overlap`
//! decides which of the matches found in a line are shown, and `colorize`
//! finds the matches and renders the line. `color` maps color names to colors
//! and `text` holds the character-level helpers the parser uses.

pub mod color;
pub mod colorize;
pub mod config;
pub mod overlap;
pub mod text;
