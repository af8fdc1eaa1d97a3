//! Quick sort with the first element of each range as pivot.
use vstd::prelude::*;
use crate::Sorter;
use crate::moves::swap;
use crate::order::{le, lt, lemma_total, sorted_range, perm_range, total_order};
use crate::perm::{
    lemma_exchange_in_range, lemma_perm_trans, lemma_perm_widen, lemma_perm_whole,
    lemma_perm_upper, lemma_perm_lower,
};

verus! {

/// Quick sort: partitions each range around its first element, then sorts
/// the two sides. The fixed choice of pivot makes sorted and reverse-sorted
/// input its quadratic worst case.
pub struct QuickSort;

/// Exchanges positions `i` and `j`, both inside `lo..hi`; this only
/// rearranges that range.
fn exchange<T>(slice: &mut [T], i: usize, j: usize, lo: usize, hi: usize)
    requires
        lo <= i < hi <= old(slice).len(),
        lo <= j < hi,
    ensures
        final(slice)@ == old(slice)@.update(i as int, old(slice)@[j as int]).update(
            j as int,
            old(slice)@[i as int],
        ),
        perm_range(final(slice)@, old(slice)@, lo as int, hi as int),
{
    proof {
        lemma_exchange_in_range(slice@, i as int, j as int, lo as int, hi as int);
    }
    swap(slice, i, j);
}

/// Sorts `slice[lo..hi]` in place, leaving the rest untouched.
pub fn quicksort<T: Ord>(slice: &mut [T], lo: usize, hi: usize)
    requires
        total_order::<T>(),
        lo <= hi <= old(slice).len(),
    ensures
        perm_range(final(slice)@, old(slice)@, lo as int, hi as int),
        sorted_range(final(slice)@, lo as int, hi as int),
    decreases hi - lo,
{
    let len = hi - lo;
    if len <= 1 {
        return;
    }
    if len == 2 {
        proof {
            lemma_total(slice@[lo as int], slice@[lo + 1]);
        }
        if slice[lo] > slice[lo + 1] {
            exchange(slice, lo, lo + 1, lo, hi);
        }
        return;
    }
    let ghost s0 = slice@;
    let ghost pivot = slice@[lo as int];
    // The rest of the range follows the pivot, from `rest` on; `left` and
    // `right` are cursors into it.
    let rest = lo + 1;
    let mut left: usize = 0;
    let mut right: usize = hi - rest - 1;
    while left <= right
        invariant
            total_order::<T>(),
            slice.len() == s0.len(),
            hi <= s0.len(),
            rest == lo + 1,
            rest + right < hi,
            left <= right + 1,
            slice@[lo as int] == pivot,
            perm_range(slice@, s0, lo as int, hi as int),
            forall|k: int| rest <= k < rest + left ==> le(#[trigger] slice@[k], pivot),
            forall|k: int| rest + right < k < hi ==> lt(pivot, #[trigger] slice@[k]),
        ensures
            total_order::<T>(),
            slice.len() == s0.len(),
            hi <= s0.len(),
            rest == lo + 1,
            rest + left <= hi,
            slice@[lo as int] == pivot,
            perm_range(slice@, s0, lo as int, hi as int),
            forall|k: int| rest <= k < rest + left ==> le(#[trigger] slice@[k], pivot),
            forall|k: int| rest + left <= k < hi ==> lt(pivot, #[trigger] slice@[k]),
        decreases right + 1 - left,
    {
        proof {
            lemma_total(slice@[rest + left], pivot);
            lemma_total(slice@[rest + right], pivot);
        }
        if slice[rest + left] <= slice[lo] {
            left += 1;
        } else if slice[rest + right] > slice[lo] {
            if right == 0 {
                break;
            }
            right -= 1;
        } else {
            // move the element to the right side
            let ghost before = slice@;
            exchange(slice, rest + left, rest + right, lo, hi);
            proof {
                lemma_perm_trans(slice@, before, s0, lo as int, hi as int);
            }
            left += 1;
            if right == 0 {
                break;
            }
            right -= 1;
        }
    }
    // place the pivot in its final position
    let mid = lo + left;
    let ghost before = slice@;
    exchange(slice, lo, mid, lo, hi);
    let ghost s1 = slice@;
    proof {
        lemma_perm_trans(s1, before, s0, lo as int, hi as int);
        // the two sides meet in order at the pivot
        assert(forall|k: int| lo <= k < mid ==> #[trigger] le(s1[k], pivot));
        assert(forall|k: int| mid < k < hi ==> #[trigger] le(pivot, s1[k]));
    }
    quicksort(slice, lo, mid);
    let ghost s2 = slice@;
    quicksort(slice, mid + 1, hi);
    let ghost s3 = slice@;
    proof {
        lemma_perm_upper(s2, s1, lo as int, mid as int, pivot);
        assert(forall|k: int| mid < k < hi ==> #[trigger] le(pivot, s2[k]));
        lemma_perm_lower(s3, s2, mid + 1, hi as int, pivot);
        assert(s3[mid as int] == pivot);
        assert forall|i: int, j: int| lo <= i < j < hi implies #[trigger] le(s3[i], s3[j]) by {
            if j < mid {
                assert(s3[i] == s2[i] && s3[j] == s2[j]);
            } else if i == mid {
                assert(le(pivot, s3[j]));
            } else if i > mid {
            } else {
                assert(s3[i] == s2[i]);
                assert(le(s3[i], pivot));
                if j > mid {
                    assert(le(pivot, s3[j]));
                } else {
                    lemma_total(pivot, pivot);
                }
            }
        }
        lemma_perm_widen(s2, s1, lo as int, mid as int, lo as int, hi as int);
        lemma_perm_widen(s3, s2, mid + 1, hi as int, lo as int, hi as int);
        lemma_perm_trans(s2, s1, s0, lo as int, hi as int);
        lemma_perm_trans(s3, s2, s0, lo as int, hi as int);
    }
}

impl Sorter for QuickSort {
    fn sort<T: Ord>(&self, slice: &mut [T]) {
        quicksort(slice, 0, slice.len());
        proof {
            lemma_perm_whole(slice@, old(slice)@, 0, old(slice)@.len() as int);
        }
    }
}

} // verus!
