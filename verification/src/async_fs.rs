use vstd::prelude::*;

verus! {

/// The kind of a directory entry.
#[derive(Clone, Copy, Debug, PartialEq, Eq, Structural, PartialOrd, Ord, Hash)]
pub enum FileType {
    File,
    Dir,
}

impl FileType {
    /// Classifies an entry from the two questions a platform file type answers:
    /// whether it is a regular file and whether it is a directory.
    /// A file wins over a directory; an entry that is neither is not supported.
    pub fn from_flags(is_file: bool, is_dir: bool) -> (res: FileType)
        requires
            is_file || is_dir,
        ensures
            res == (if is_file { FileType::File } else { FileType::Dir }),
    {
        if is_file {
            FileType::File
        } else {
            FileType::Dir
        }
    }
}

} // verus!

verus! {

/// A point in time, as nanoseconds after the Unix epoch (negative before it).
#[derive(Clone, Copy, Debug, PartialEq, Eq, Structural, PartialOrd, Ord, Hash)]
pub struct Timestamp {
    pub nanos_since_epoch: i128,
}

impl Timestamp {
    /// The Unix epoch itself.
    pub fn unix_epoch() -> (res: Timestamp)
        ensures
            res.nanos_since_epoch == 0,
    {
        Timestamp { nanos_since_epoch: 0 }
    }
}

/// What the copier reads of an entry's metadata.
pub trait Metadata {
    /// The size of the entry in bytes.
    fn len(&self) -> u64;

    /// When the entry was last modified.
    fn modified(&self) -> Result<Timestamp, String>;
}

/// An entry that a directory listing yields.
pub trait DirEntry {
    type Meta: Metadata;

    type Error;

    /// Whether the entry is a file or a directory.
    fn file_type(&self) -> Result<FileType, Self::Error>;

    /// The entry's name inside its directory.
    fn file_name(&self) -> String;

    /// The entry's metadata.
    fn metadata(&self) -> Result<Self::Meta, Self::Error>;
}

} // verus!
