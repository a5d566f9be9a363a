//! Editing core of a terminal text journal: a gap buffer holding the text,
//! and the mapping of that text onto a wrapped, scrolled, tab-aware grid.

pub mod gap_buffer;
pub mod layout;
pub mod editor;
