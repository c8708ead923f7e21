//! Backend file-management core of a desktop file explorer.
//!
//! The heart of the crate is a clipboard coordinator: a single mutable slot
//! holding a pending filesystem intent (copy vs. cut, one item vs. many,
//! path vs. raw content) that is applied exactly once to a destination
//! directory.  The filesystem itself is modelled as an explicit value, so
//! every operation's effect is stated and proved as a map transformation;
//! the embedding application mirrors those effects onto the real disk and
//! platform clipboard.

pub mod clipboard;
pub mod commands;
pub mod errors;
pub mod fs_model;
pub mod laws;
