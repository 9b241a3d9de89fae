//! The logic of a single-document note editor.
//!
//! One plain-text buffer holds every note. Lines are split on `\n`, notes are
//! separated by thematic breaks, and markdown is highlighted one line at a
//! time. Offsets are byte offsets into UTF-8 text throughout.

pub mod app;
pub mod ascii;
pub mod decimal;
pub mod fences;
pub mod index;
pub mod labels;
pub mod lines;
pub mod lists;
pub mod markdown;
pub mod moment;
pub mod note;
pub mod palette;
pub mod reports;
pub mod runs;
pub mod session;
pub mod shortcuts;
pub mod text;
pub mod utf16;
pub mod web;
