use vstd::prelude::*;

verus! {

/// Alignment information for messages of a single variable: the position of the variable.
pub struct Alignment1D {
    pub index: usize,
}

} // verus!
