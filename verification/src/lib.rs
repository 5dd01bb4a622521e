//! Copy folders while avoiding duplicates.
//!
//! The library holds the decisions of the copier: the in-memory file system
//! used to exercise it, the recursive listing of a folder, which folders are
//! searched for files that already exist, which existing files are candidate
//! duplicates of each source file, which files are copied where, and where the
//! metadata files are saved.

pub mod async_fs;
pub mod file_comparer;
pub mod fs;
pub mod paths;
pub mod paths_view;
pub mod read_dir_recursive;
pub mod recursive_stream;
pub mod smart_copy;
pub mod mock_fs;
pub mod tokio_async_fs;
