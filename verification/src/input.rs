//! Items that a scan hands out.
use vstd::prelude::*;
use crate::error::Result;

verus! {

/// A type whose values are stored in the primary table, encoded. The scans
/// decode what they find with it.
pub trait ToInput: Sized {
    /// Decodes an item from the bytes stored for it.
    fn native_db_bincode_decode_from_slice(slice: &[u8]) -> Result<Self>;
}

} // verus!
