//! Copying files.
use vstd::prelude::*;

verus! {

/// A file system that can copy a file.
pub trait FS {
    type Error;

    /// Copies the file at `from` to `to` and gives the number of bytes copied.
    fn copy(from: &str, to: &str) -> Result<u64, Self::Error>;
}

} // verus!
