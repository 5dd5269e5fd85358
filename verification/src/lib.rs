//! A filesystem indexer: a flat name-to-path lookup table for a directory
//! tree, substring search over it, and the schedule that keeps it fresh.

pub mod index;
pub mod lifecycle;
pub mod search;
pub mod text;
pub mod walker;
