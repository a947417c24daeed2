//! Scans of a table by a secondary index.

pub mod entries;
pub mod error;
pub mod input;
pub mod iterator;
pub mod key_definition;
pub mod keys;
pub mod secondary_scan;
mod store;
