pub mod annotator;
pub mod extractor;
pub mod resolver;
pub mod scan;

use vstd::prelude::*;

verus! {

/// Saturating subtraction on machine-word offsets: the distance from `b` to
/// `a`, clamped at zero when `a` lies before `b`.
pub open spec fn sat_sub(a: int, b: int) -> int {
    if a >= b {
        a - b
    } else {
        0
    }
}

pub fn usize_sat_sub(a: usize, b: usize) -> (r: usize)
    ensures
        r == sat_sub(a as int, b as int),
{
    if a >= b {
        a - b
    } else {
        0
    }
}

} // verus!
