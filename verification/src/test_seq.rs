//! The description of an edit-and-measure run.

use vstd::prelude::*;

verus! {

/// One run: build the data with `init`, compute over it with `comp`, then
/// `changes` times edit the data with `edit` and compute again.
pub struct EditComputeSequence<C, E, U> {
    pub init: C,
    pub edit: E,
    pub comp: U,
    pub changes: usize,
}

} // verus!
