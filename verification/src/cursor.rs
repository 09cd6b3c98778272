//! A cursor is a position inside the table: a leaf page, a cell index within
//! that leaf, and an end-of-table flag.

use vstd::prelude::*;

verus! {

/// Positional iterator over the table's rows; created by key lookup or at the
/// first leaf, advanced one cell at a time.
pub struct Cursor {
    pub leaf_idx: usize,
    pub cell_idx: usize,
    pub at_end: bool,
}

impl Cursor {
    pub fn new(leaf_idx: usize, cell_idx: usize, at_end: bool) -> (r: Self)
        ensures
            r.leaf_idx == leaf_idx,
            r.cell_idx == cell_idx,
            r.at_end == at_end,
    {
        Self { leaf_idx, cell_idx, at_end }
    }
}

} // verus!
