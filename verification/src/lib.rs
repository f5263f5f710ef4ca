//! Verified core of the Lilo note widget: Markdown editing rules, note file
//! naming, vault path validation and the note collection model.

pub mod arrangement;
pub mod autosave;
pub mod collation;
pub mod document;
pub mod folders;
pub mod icons;
pub mod interop;
pub mod listing;
pub mod markdown;
pub mod naming;
pub mod navigation;
pub mod notes;
pub mod paths;
pub mod shortcuts;
pub mod text;
