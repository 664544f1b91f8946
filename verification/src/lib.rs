//! A small persistent key-value store: a mapping from string keys to string
//! values that is read from a text of one record per line and written back
//! as such a text.

pub mod database;
pub mod error;
pub mod format;
pub mod laws;
pub mod model;

pub use crate::database::Database;
pub use crate::error::{InvalidRecordError, LoadError, ReadFailure};
pub use crate::format::Record;
