//! A library that flattens a directory tree into one labelled text dump.
//!
//! The tree is modelled as a value (`flatten::Entry`); the library decides
//! which entries are kept (`policy`), excludes the dump's own destination,
//! and renders one three-line record per kept file (`flatten`).

pub mod flatten;
pub mod laws;
pub mod policy;
