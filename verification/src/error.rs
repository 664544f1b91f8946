//! What can go wrong when a store is loaded or changed.

use vstd::prelude::*;

verus! {

/// Why the text of a store could not be had from where it is kept.
#[derive(Debug, Clone, Copy, PartialEq, Eq, Structural)]
pub enum ReadFailure {
    /// Nothing is kept there.
    NotFound,
    /// Reading it is not permitted.
    PermissionDenied,
    /// What is kept there is not text.
    InvalidEncoding,
    /// Reading failed for another reason.
    Other,
}

/// Why a store could not be loaded.
#[derive(Debug, Clone, Copy, PartialEq, Eq, Structural)]
pub enum LoadError {
    /// The text could not be read.
    Read(ReadFailure),
    /// A line of the text is not empty and has no tab. Lines count from 1.
    MalformedLine { line: usize },
}

/// Why a record was not taken into a store: it holds a tab or a line
/// terminator, which would be read back as the end of a key or of a record.
#[derive(Debug, Clone, Copy, PartialEq, Eq, Structural)]
pub enum InvalidRecordError {
    /// The key holds one.
    Key,
    /// The key holds none, the value holds one.
    Value,
}

} // verus!
