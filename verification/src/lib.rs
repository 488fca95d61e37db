//! Compare two delimited text files keyed on a chosen column: build a
//! key-to-record index per input, reconcile the key sets, and project the
//! matched rows into three outputs (records only in the first input, records
//! only in the second, and records present in both).

use vstd::prelude::*;

pub mod fields;
pub mod index;
pub mod pipeline;
pub mod project;
pub mod reconcile;
pub mod strutil;

verus! {

/// A malformed field-spec string: wrong segment count, an empty segment,
/// or a piece that is not a positive integer.
#[derive(Debug, PartialEq)]
pub struct ConfigError {
    /// The raw text that failed to parse.
    pub raw: String,
}

/// A record too short for a column the configuration asks for.
#[derive(Debug, PartialEq)]
pub enum RecordError {
    /// A line whose record lacks the key column; carries the 0-based line number.
    KeyColumnMissing { line: usize },
    /// An intersecting record too short for a requested output column;
    /// carries the offending key.
    FieldOutOfRange { key: String },
}

} // verus!
