//! Insertion sort, by neighbour exchanges or by binary search and rotation.
use vstd::prelude::*;
use crate::Sorter;
use crate::moves::{swap, rotate_right};
use crate::order::{le, lt, lemma_total, lemma_lt_le, sorted_range, same_elements, total_order};
use crate::stable::{
    identity, lemma_stable_exchange, lemma_stable_identity, lemma_stable_rotate, rotated, stable,
    stable_by,
};

verus! {

/// Insertion sort: grows a sorted head one element at a time. With `smart`
/// unset the new element walks left by neighbour exchanges; with `smart` set
/// its place is found by binary search and the range up to it is rotated.
pub struct InsertionSort {
    pub smart: bool,
}

/// The first position in `slice[..hi]` whose element comes strictly after
/// `slice[hi]`; `hi` if there is none. Equal elements thus stay ahead of it.
fn upper_bound<T: Ord>(slice: &[T], hi: usize) -> (r: usize)
    requires
        total_order::<T>(),
        hi < slice.len(),
        sorted_range(slice@, 0, hi as int),
    ensures
        r <= hi,
        forall|k: int| 0 <= k < r ==> le(#[trigger] slice@[k], slice@[hi as int]),
        forall|k: int| r <= k < hi ==> lt(slice@[hi as int], #[trigger] slice@[k]),
{
    let mut lo: usize = 0;
    let mut up: usize = hi;
    while lo < up
        invariant
            total_order::<T>(),
            lo <= up <= hi < slice.len(),
            sorted_range(slice@, 0, hi as int),
            forall|k: int| 0 <= k < lo ==> le(#[trigger] slice@[k], slice@[hi as int]),
            forall|k: int| up <= k < hi ==> lt(slice@[hi as int], #[trigger] slice@[k]),
        decreases up - lo,
    {
        let mid = lo + (up - lo) / 2;
        proof {
            lemma_total(slice@[mid as int], slice@[hi as int]);
        }
        if slice[mid] <= slice[hi] {
            proof {
                assert forall|k: int| 0 <= k < mid + 1 implies le(
                    #[trigger] slice@[k],
                    slice@[hi as int],
                ) by {
                    if k < mid {
                        assert(le(slice@[k], slice@[mid as int]));
                    }
                }
            }
            lo = mid + 1;
        } else {
            proof {
                assert forall|k: int| mid <= k < hi implies lt(
                    slice@[hi as int],
                    #[trigger] slice@[k],
                ) by {
                    if k > mid {
                        assert(le(slice@[mid as int], slice@[k]));
                        lemma_lt_le(slice@[hi as int], slice@[mid as int], slice@[k]);
                    }
                }
            }
            up = mid;
        }
    }
    lo
}

impl Sorter for InsertionSort {
    fn sort<T: Ord>(&self, slice: &mut [T])
        ensures
            stable(final(slice)@, old(slice)@),
    {
        let n = slice.len();
        let ghost mut perm = identity(n as nat);
        proof {
            lemma_stable_identity(slice@);
        }
        let mut unsorted: usize = 1;
        while unsorted < n
            invariant
                total_order::<T>(),
                slice.len() == n,
                1 <= unsorted,
                unsorted <= n || n == 0,
                sorted_range(slice@, 0, unsorted as int),
                same_elements(slice@, old(slice)@),
                stable_by(slice@, old(slice)@, perm),
            decreases n - unsorted,
        {
            if !self.smart {
                let mut i = unsorted;
                while i > 0 && slice[i - 1] > slice[i]
                    invariant
                        total_order::<T>(),
                        slice.len() == n,
                        i <= unsorted < n,
                        sorted_range(slice@, 0, i as int),
                        sorted_range(slice@, i as int + 1, unsorted as int + 1),
                        forall|x: int, y: int|
                            0 <= x < i < y <= unsorted ==> #[trigger] le(slice@[x], slice@[y]),
                        forall|y: int| i < y <= unsorted ==> lt(slice@[i as int], #[trigger] slice@[y]),
                        same_elements(slice@, old(slice)@),
                        stable_by(slice@, old(slice)@, perm),
                    decreases i,
                {
                    proof {
                        lemma_total(slice@[i - 1], slice@[i as int]);
                        lemma_stable_exchange(slice@, old(slice)@, perm, i as int);
                        perm = perm.update(i - 1, perm[i as int]).update(i as int, perm[i - 1]);
                    }
                    swap(slice, i - 1, i);
                    i -= 1;
                }
                proof {
                    if i > 0 {
                        lemma_total(slice@[i - 1], slice@[i as int]);
                    }
                    assert forall|x: int, y: int| 0 <= x < y < unsorted + 1 implies #[trigger] le(
                        slice@[x],
                        slice@[y],
                    ) by {
                        if y == i && x < i {
                            assert(le(slice@[x], slice@[i - 1]));
                        }
                    }
                }
            } else {
                let i = upper_bound(slice, unsorted);
                let ghost before = slice@;
                proof {
                    lemma_stable_rotate(before, old(slice)@, perm, i as int, unsorted as int);
                    perm = rotated(perm, i as int, unsorted as int);
                }
                rotate_right(slice, i, unsorted);
                proof {
                    assert(slice@ =~= rotated(before, i as int, unsorted as int));
                }
            }
            unsorted += 1;
        }
    }
}

} // verus!
