//! Errors of the scans.
use vstd::prelude::*;

verus! {

/// What can go wrong while scanning.
#[derive(Debug)]
pub enum Error {
    /// The store failed to read.
    RedbStorageError(redb::StorageError),
    /// The store failed to open a table.
    TableError(redb::TableError),
    /// The key handed to a scan is of a type that the secondary key was not
    /// defined with.
    MismatchedKeyType { key_name: String, expected_types: Vec<String>, got_types: Vec<String> },
    /// A stored item could not be decoded.
    ModelError(String),
}

/// What a scan returns.
pub type Result<T> = core::result::Result<T, Error>;

} // verus!
