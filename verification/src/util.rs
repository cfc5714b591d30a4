//! Small helpers shared by the collectors.

use vstd::prelude::*;

verus! {

/// Validate that `i` and `j` name two independent (distinct, in-bounds)
/// elements of a collection of length `len`, and hand the pair back.
///
/// The collectors use this to justify working on an active and an inactive
/// semi-space at the same time: the two indices are independent exactly when
/// the result is `Some`.
pub fn independent_elements_from(i: usize, j: usize, len: usize) -> (r: Option<(usize, usize)>)
    ensures
        r == if i != j && i < len && j < len {
            Some((i, j))
        } else {
            None::<(usize, usize)>
        },
{
    if i != j && i < len && j < len {
        Some((i, j))
    } else {
        None
    }
}

} // verus!
