//! Bubble sort.
use vstd::prelude::*;
use crate::Sorter;
use crate::moves::swap;
use crate::order::{le, lemma_total, sorted, sorted_range, settled, same_elements, total_order};
use crate::stable::{identity, lemma_stable_exchange, lemma_stable_identity, stable, stable_by};

verus! {

/// Bubble sort: repeated passes over the slice that exchange each
/// neighbouring pair found out of order, until a pass exchanges nothing.
pub struct BubbleSort;

impl Sorter for BubbleSort {
    fn sort<T: Ord>(&self, slice: &mut [T])
        ensures
            stable(final(slice)@, old(slice)@),
    {
        let n = slice.len();
        let ghost mut perm = identity(n as nat);
        proof {
            lemma_stable_identity(slice@);
        }
        let mut swapped = true;
        // Each pass carries the largest element of the unsettled head to the
        // end of that head, so the settled tail grows by one per pass.
        let ghost mut bound: int = n as int;
        while swapped
            invariant
                total_order::<T>(),
                slice.len() == n,
                0 <= bound <= n,
                same_elements(slice@, old(slice)@),
                settled(slice@, bound),
                !swapped ==> sorted(slice@),
                stable_by(slice@, old(slice)@, perm),
            decreases bound + if swapped { 1int } else { 0int },
        {
            swapped = false;
            let mut i: usize = 1;
            while i < n
                invariant
                    total_order::<T>(),
                    slice.len() == n,
                    1 <= i,
                    i <= n || n == 0,
                    0 <= bound <= n,
                    same_elements(slice@, old(slice)@),
                    settled(slice@, bound),
                    bound >= 1 ==> forall|k: int|
                        0 <= k < (if i < bound { i as int } else { bound }) ==> le(
                            #[trigger] slice@[k],
                            slice@[(if i < bound { i as int } else { bound }) - 1],
                        ),
                    !swapped ==> sorted_range(slice@, 0, i as int),
                    bound == 0 ==> !swapped,
                    stable_by(slice@, old(slice)@, perm),
                decreases n - i,
            {
                proof {
                    lemma_total(slice@[i as int - 1], slice@[i as int]);
                }
                if slice[i] < slice[i - 1] {
                    proof {
                        lemma_stable_exchange(slice@, old(slice)@, perm, i as int);
                        perm = perm.update(i - 1, perm[i as int]).update(i as int, perm[i - 1]);
                    }
                    swap(slice, i - 1, i);
                    swapped = true;
                }
                i += 1;
            }
            proof {
                if bound >= 1 {
                    bound = bound - 1;
                }
            }
        }
    }
}

} // verus!
