//! What the window shows of the selected folders.
use vstd::prelude::*;

verus! {

/// The lines shown for a list of selected paths: the paths themselves, or one line
/// saying that none is selected.
pub fn paths_view(paths: &Vec<String>) -> (res: Vec<String>)
    ensures
        paths@.len() == 0 ==> res@.len() == 1 && res@[0]@ == "<none selected>"@,
        paths@.len() > 0 ==> res@.len() == paths@.len() && forall|i: int|
            0 <= i < paths@.len() ==> #[trigger] res@[i]@ == paths@[i]@,
{
    if paths.len() == 0 {
        return vec!["<none selected>".to_owned()];
    }
    let mut res: Vec<String> = Vec::new();
    let n = paths.len();
    let mut i: usize = 0;
    while i < n
        invariant
            n == paths@.len(),
            0 <= i <= n,
            res@.len() == i,
            forall|j: int| 0 <= j < i ==> #[trigger] res@[j]@ == paths@[j]@,
        decreases n - i,
    {
        res.push(paths[i].clone());
        i = i + 1;
    }
    res
}

/// The line shown for the selected destination, or that none is selected.
pub fn destination_view(destination: &Option<String>) -> (res: String)
    ensures
        match destination {
            Some(d) => res@ == d@,
            None => res@ == "<not selected>"@,
        },
{
    match destination {
        Some(d) => d.clone(),
        None => "<not selected>".to_owned(),
    }
}

} // verus!
