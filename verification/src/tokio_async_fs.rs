//! The file system of the operating system, read through tokio.
use vstd::prelude::*;

verus! {

/// The real file system; its reading is done where input and output are.
#[derive(Clone, Copy, Debug)]
pub struct TokioAsyncFs {}

} // verus!
