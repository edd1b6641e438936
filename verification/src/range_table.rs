//! The Range table: the fixed column `{0, 1, ..., R-1}` that memory values
//! are looked up in. Confining `mv` to `[0, R)` is what turns the quadratic
//! increment/decrement gates into exact wrapping arithmetic.
use vstd::prelude::*;
use crate::field::Fe;
use crate::utils::R;

verus! {

/// The range lookup: its one parameter is the size of the table.
#[derive(Clone, Copy, Debug, PartialEq, Eq, Structural)]
pub struct RangeTableConfig {
    pub range: u64,
}

/// A value lies in the range column.
pub open spec fn in_range(v: int) -> bool {
    0 <= v < R
}

impl RangeTableConfig {
    /// Declares the table.
    pub fn configure() -> (r: RangeTableConfig)
        ensures
            r.range == R,
    {
        RangeTableConfig { range: R }
    }

    /// The lookup itself: does `v` appear in the column?
    pub fn lookup(&self, v: Fe) -> (r: bool)
        requires
            self.range == R,
        ensures
            r == in_range(v.val()),
    {
        v.v < self.range
    }
}

} // verus!
