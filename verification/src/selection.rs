//! The candidate paths one invocation works on.

use vstd::prelude::*;

verus! {

/// A user's selection: the candidate paths to process, in order, and
/// whether directories were to be expanded recursively. Expansion of
/// directories into files happens at the boundary; the engines consume
/// the expanded path list and process each entry independently.
pub struct Selection {
    /// The candidate paths, each an absolute path in bytes.
    pub paths: Vec<Vec<u8>>,
    /// Whether directory arguments were expanded recursively.
    pub recursive: bool,
}

impl Selection {
    /// A selection over the given paths.
    pub fn new(paths: Vec<Vec<u8>>, recursive: bool) -> (r: Selection)
        ensures
            r.paths@ == paths@,
            r.recursive == recursive,
    {
        Selection { paths, recursive }
    }
}

} // verus!
