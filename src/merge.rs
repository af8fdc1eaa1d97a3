//! Merge sort that merges in place by rotations instead of a buffer.
use vstd::prelude::*;
use crate::Sorter;
use crate::moves::rotate_right;
use crate::order::{le, lemma_total, sorted_range, perm_range, total_order};
use crate::order::{lt, lemma_lt_le};
use crate::perm::{lemma_perm_trans, lemma_perm_widen, lemma_perm_whole};
use crate::stable::{
    identity, lemma_stable_compose, lemma_stable_identity, lemma_stable_rotate, rotated, stable,
    stable_by,
};

verus! {

/// Merge sort: sorts both halves of a range, then merges them in place,
/// moving each element of the right half that belongs earlier into place by
/// a rotation. Equal elements keep their order.
pub struct MergeSort;

impl MergeSort {
    /// Sorts `slice[left..=right]` in place, leaving the rest untouched; a
    /// range of at most one element is left as it is.
    pub fn merge_sort<T: Ord>(slice: &mut [T], left: usize, right: usize)
        requires
            total_order::<T>(),
            left > right || right < old(slice).len(),
        ensures
            left >= right ==> final(slice)@ == old(slice)@,
            left <= right ==> perm_range(final(slice)@, old(slice)@, left as int, right + 1),
            left <= right ==> sorted_range(final(slice)@, left as int, right + 1),
            stable(final(slice)@, old(slice)@),
        decreases right + 1 - left,
    {
        proof {
            lemma_stable_identity(slice@);
        }
        if left < right {
            let mid = left + (right - left) / 2;
            MergeSort::merge_sort(slice, left, mid);
            let ghost s1 = slice@;
            MergeSort::merge_sort(slice, mid + 1, right);
            let ghost s2 = slice@;
            proof {
                assert(forall|k: int| left <= k <= mid ==> #[trigger] s2[k] == s1[k]);
            }
            MergeSort::merge(slice, left, mid, right);
            proof {
                lemma_perm_widen(s1, old(slice)@, left as int, mid + 1, left as int, right + 1);
                lemma_perm_widen(s2, s1, mid + 1, right + 1, left as int, right + 1);
                lemma_perm_trans(s2, s1, old(slice)@, left as int, right + 1);
                lemma_perm_trans(slice@, s2, old(slice)@, left as int, right + 1);
                let p1 = choose|p: Seq<int>| stable_by(s1, old(slice)@, p);
                let p2 = choose|p: Seq<int>| stable_by(s2, s1, p);
                let p3 = choose|p: Seq<int>| stable_by(slice@, s2, p);
                lemma_stable_compose(s2, s1, old(slice)@, p2, p1);
                let p21 = Seq::new(s2.len(), |k: int| p1[p2[k]]);
                lemma_stable_compose(slice@, s2, old(slice)@, p3, p21);
            }
        }
    }

    /// Merges the sorted ranges `slice[start..=mid]` and `slice[mid + 1..=end]`
    /// into one sorted range.
    pub fn merge<T: Ord>(slice: &mut [T], start: usize, mid: usize, end: usize)
        requires
            total_order::<T>(),
            start <= mid < end < old(slice).len(),
            sorted_range(old(slice)@, start as int, mid + 1),
            sorted_range(old(slice)@, mid + 1, end + 1),
        ensures
            perm_range(final(slice)@, old(slice)@, start as int, end + 1),
            sorted_range(final(slice)@, start as int, end + 1),
            stable(final(slice)@, old(slice)@),
    {
        let ghost mut perm = identity(old(slice)@.len());
        proof {
            lemma_stable_identity(slice@);
        }
        let mut start2 = mid + 1;
        if slice[mid] <= slice[start2] {
            proof {
                assert forall|x: int, y: int| start <= x < y < end + 1 implies #[trigger] le(
                    slice@[x],
                    slice@[y],
                ) by {
                    if x <= mid && mid < y {
                        lemma_total(slice@[mid as int], slice@[mid as int]);
                        lemma_total(slice@[start2 as int], slice@[start2 as int]);
                        assert(le(slice@[x], slice@[mid as int]));
                        assert(le(slice@[start2 as int], slice@[y]));
                        assert(le(slice@[mid as int], slice@[start2 as int]));
                        assert(le(slice@[x], slice@[start2 as int]));
                    }
                }
            }
            return;
        }
        let mut first = start;
        let mut last = mid;
        // [start..first) is merged; [first..=last] and [start2..=end] remain.
        while first <= last && start2 <= end
            invariant
                total_order::<T>(),
                slice.len() == old(slice).len(),
                start <= first <= start2,
                start2 == last + 1,
                start2 <= end + 1,
                end < slice.len(),
                perm_range(slice@, old(slice)@, start as int, end + 1),
                sorted_range(slice@, start as int, first as int),
                sorted_range(slice@, first as int, start2 as int),
                sorted_range(slice@, start2 as int, end + 1),
                forall|x: int, y: int|
                    start <= x < first <= y <= end ==> #[trigger] le(slice@[x], slice@[y]),
                stable_by(slice@, old(slice)@, perm),
            decreases end + 1 - first,
        {
            proof {
                lemma_total(slice@[first as int], slice@[start2 as int]);
                lemma_total(slice@[first as int], slice@[first as int]);
            }
            if slice[first] <= slice[start2] {
                proof {
                    assert forall|y: int| first <= y <= end implies #[trigger] le(
                        slice@[first as int],
                        slice@[y],
                    ) by {
                        if y > first && y <= last {
                        } else if y >= start2 {
                            lemma_total(slice@[start2 as int], slice@[start2 as int]);
                            assert(le(slice@[start2 as int], slice@[y]));
                        }
                    }
                }
                first += 1;
            } else {
                // shift elements by one
                let ghost before = slice@;
                rotate_right(slice, first, start2);
                proof {
                    assert forall|y: int| first <= y <= end implies #[trigger] le(
                        before[start2 as int],
                        before[y],
                    ) by {
                        if y <= last {
                            lemma_total(before[first as int], before[first as int]);
                            assert(le(before[first as int], before[y]));
                            assert(le(before[start2 as int], before[first as int]));
                        } else if y == start2 {
                            lemma_total(before[y], before[y]);
                        }
                    }
                    assert forall|k: int| first <= k < start2 implies lt(
                        before[start2 as int],
                        #[trigger] before[k],
                    ) by {
                        if k > first {
                            assert(le(before[first as int], before[k]));
                            lemma_lt_le(before[start2 as int], before[first as int], before[k]);
                        }
                    }
                    assert(slice@ =~= rotated(before, first as int, start2 as int));
                    lemma_stable_rotate(before, old(slice)@, perm, first as int, start2 as int);
                    perm = rotated(perm, first as int, start2 as int);
                    lemma_perm_widen(slice@, before, first as int, start2 + 1, start as int, end + 1);
                    lemma_perm_trans(slice@, before, old(slice)@, start as int, end + 1);
                }
                first += 1;
                last += 1;
                start2 += 1;
            }
        }
    }
}

impl Sorter for MergeSort {
    fn sort<T: Ord>(&self, slice: &mut [T])
        ensures
            stable(final(slice)@, old(slice)@),
    {
        proof {
            lemma_stable_identity(slice@);
        }
        if slice.len() == 0 || slice.len() == 1 {
            return;
        }
        MergeSort::merge_sort(slice, 0, slice.len() - 1);
        proof {
            lemma_perm_whole(slice@, old(slice)@, 0, old(slice)@.len() as int);
        }
    }
}

} // verus!
