//! Remembers where the hashes of compared files are stored.
use vstd::prelude::*;

verus! {

/// Compares files, keeping their hashes in files under its root folders.
pub struct FileComparer {
    /// The root folders which contain a file storing the hashes for future use
    root_folders: Vec<String>,
}

impl View for FileComparer {
    type V = Seq<Seq<char>>;

    closed spec fn view(&self) -> Seq<Seq<char>> {
        self.root_folders@.map_values(|s: String| s@)
    }
}

impl FileComparer {
    /// A comparer whose root folders are `root_folders`.
    pub fn new(root_folders: Vec<String>) -> (res: FileComparer)
        ensures
            res@ == root_folders@.map_values(|s: String| s@),
    {
        FileComparer { root_folders }
    }
}

} // verus!
