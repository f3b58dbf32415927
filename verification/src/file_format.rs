//! Source file formats recognized by the engine.

use vstd::prelude::*;

verus! {

/// The format of an input file, together with the options each format takes.
#[derive(Clone, Debug, PartialEq, Eq)]
pub enum FileFormat {
    /// A single JSON document, optionally unwrapped from the given key.
    Json { wrap_key: Option<String> },
    /// Newline-delimited JSON records, optionally unwrapped from the given key.
    JsonLines { wrap_key: Option<String> },
    /// Comma-separated values in the named character encoding.
    Csv { encoding: String, has_headers: bool },
    /// Apache Parquet.
    Parquet,
}

} // verus!
