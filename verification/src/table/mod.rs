//! A table that owns its records: every entry keeps its record in a buffer
//! of its own.

pub mod entry;
pub mod memtable;
