//! Converts the statements of a SQL dump into one tab-separated file per
//! table. The library decides, event by event, what each table's file
//! receives: a header line when a table is created, and an escaped,
//! tab-terminated line per row of each `INSERT`. Reading the dump and writing
//! the files is left to the caller.

pub mod engine;
pub mod escape;
pub mod literal;
