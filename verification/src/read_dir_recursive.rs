//! The steps of reading a folder and every folder below it.
use crate::async_fs::FileType;
use crate::paths::{join_path, std_join};
use vstd::prelude::*;

verus! {

/// The folder that a walk reads next after an entry of the folder at `dir`: for a folder,
/// its path joined from `dir` and its name; nothing otherwise.
pub open spec fn next_dir(dir: Seq<char>, entry: Result<(String, FileType), String>) -> Option<
    Seq<char>,
> {
    match entry {
        Ok((name, FileType::Dir)) => Some(std_join(dir, name@)),
        _ => None,
    }
}

/// One step of the recursive walk: for what reading one entry of the folder at `dir` gave,
/// the pair to yield and, for a folder, the path of the folder to read next.
pub fn walk_step(dir: &String, entry: Result<(String, FileType), String>) -> (res: (
    (String, Result<(String, FileType), String>),
    Option<String>,
))
    ensures
        res.0.0@ == dir@,
        res.0.1 == entry,
        res.1 is Some <==> (entry is Ok && entry->Ok_0.1 == FileType::Dir),
        res.1 is Some ==> res.1->Some_0@ == std_join(dir@, entry->Ok_0.0@),
        match res.1 {
            Some(next) => next_dir(dir@, entry) == Some(next@),
            None => next_dir(dir@, entry) is None,
        },
{
    let next = match &entry {
        Ok((name, FileType::Dir)) => Some(join_path(dir.as_str(), name.as_str())),
        _ => None,
    };
    ((dir.clone(), entry), next)
}

} // verus!
