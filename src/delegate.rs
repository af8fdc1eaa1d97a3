//! The sort of the standard library, behind the same interface.
use vstd::prelude::*;
use crate::Sorter;
use crate::order::{sorted, same_elements, total_order};
use crate::stable::stable;

verus! {

/// Hands the slice to the standard library's sort; a baseline for the
/// other strategies.
pub struct StdSorter;

/// Relies on `slice::sort`: under a total order it orders the slice
/// ascending, only rearranges its elements, and is stable (equal elements
/// keep their order).
#[verifier::external_body]
fn std_sort<T: Ord>(slice: &mut [T])
    requires
        total_order::<T>(),
    ensures
        sorted(final(slice)@),
        same_elements(final(slice)@, old(slice)@),
        stable(final(slice)@, old(slice)@),
{
    slice.sort()
}

impl Sorter for StdSorter {
    fn sort<T: Ord>(&self, slice: &mut [T])
        ensures
            stable(final(slice)@, old(slice)@),
    {
        std_sort(slice)
    }
}

} // verus!
