//! Writing metadata back to a metadata file.

use vstd::prelude::*;
use crate::schema::Metadata;

verus! {

/// Why a metadata file could not be written.
pub enum WriterError {
    /// The file at `path` could not be written.
    Unwritable { path: String },
}

/// Writes `metadata` to the metadata file at `file_path`. Nothing is written
/// yet: the call always succeeds.
pub fn write(file_path: &str, metadata: Metadata) -> (r: Result<(), WriterError>)
    ensures
        r is Ok,
{
    Ok(())
}

} // verus!
