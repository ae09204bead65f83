use vstd::prelude::*;

use crate::basic::finite_index::FiniteIndex;

verus! {

/// The number of rows on a Connect Four board
pub const COUNT: usize = 6;

/// Index of a row, from bottom (0) to top (5).
pub type Idx = FiniteIndex<6>;

impl FiniteIndex<6> {
    /// The bottom row
    pub fn bottom() -> (r: Self)
        ensures
            r@ == 0,
    {
        Self::raw(0)
    }

    /// The top row
    pub fn top() -> (r: Self)
        ensures
            r@ == 5,
    {
        Self::raw(5)
    }
}

} // verus!
