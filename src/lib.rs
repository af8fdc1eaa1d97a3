//! In-place comparison sorts over slices of totally ordered elements.
//!
//! Each strategy implements one `Sorter` interface, whose contract is that
//! the slice ends up in ascending order and holds the same elements as
//! before. Bubble, insertion and merge sort are proved stable as well
//! (`stable`), and `laws` states what follows for every strategy.
use vstd::prelude::*;

pub mod order;
pub mod moves;
pub mod perm;
pub mod bubble;
pub mod insertion;
pub mod selection;
pub mod quick;
pub mod heap;
pub mod merge;
pub mod delegate;
pub mod stable;
pub mod laws;

pub use order::{sorted, same_elements, total_order};
pub use bubble::BubbleSort;
pub use insertion::InsertionSort;
pub use selection::SelectionSort;
pub use quick::QuickSort;
pub use heap::HeapSort;
pub use merge::MergeSort;
pub use delegate::StdSorter;

verus! {

/// A sorting strategy: rearranges a slice in place into ascending order,
/// for element types whose comparisons form a total order.
pub trait Sorter {
    fn sort<T: Ord>(&self, slice: &mut [T])
        requires
            total_order::<T>(),
        ensures
            sorted(final(slice)@),
            same_elements(final(slice)@, old(slice)@),
    ;
}

/// Sorts `slice` in place with the strategy `sorter`. An empty or
/// one-element slice comes back unchanged.
pub fn sort<T: Ord, S: Sorter>(slice: &mut [T], sorter: S)
    requires
        total_order::<T>(),
    ensures
        sorted(final(slice)@),
        same_elements(final(slice)@, old(slice)@),
        old(slice).len() <= 1 ==> final(slice)@ == old(slice)@,
{
    sorter.sort(slice);
    proof {
        if old(slice).len() <= 1 {
            laws::lemma_sort_short(old(slice)@, slice@);
        }
    }
}

} // verus!
