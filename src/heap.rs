//! Heap sort over a max-heap laid out in the slice itself.
use vstd::prelude::*;
use crate::Sorter;
use crate::moves::swap;
use crate::order::{le, lemma_total, settled, perm_range, total_order};
use crate::perm::{
    lemma_exchange, lemma_exchange_in_range, lemma_perm_trans, lemma_perm_widen, lemma_perm_whole,
    lemma_perm_upper,
};

verus! {

/// Heap sort: arranges the slice as a max-heap, then repeatedly moves the
/// top of the heap behind it and restores the heap on what is left.
pub struct HeapSort;

/// Node `i` is at least each of its children (`2i + 1`, `2i + 2`) that lie at
/// or before `end`.
pub open spec fn heap_node<T: PartialOrd>(s: Seq<T>, i: int, end: int) -> bool {
    &&& (2 * i + 1 <= end ==> le(s[2 * i + 1], s[i]))
    &&& (2 * i + 2 <= end ==> le(s[2 * i + 2], s[i]))
}

/// Every node from `start` to `end` is at least its children up to `end`.
pub open spec fn heap_from<T: PartialOrd>(s: Seq<T>, start: int, end: int) -> bool {
    forall|i: int| start <= i <= end ==> #[trigger] heap_node(s, i, end)
}

/// The top of a heap is at least every element in it.
pub proof fn lemma_heap_top<T: PartialOrd>(s: Seq<T>, end: int, k: int)
    requires
        total_order::<T>(),
        0 <= k <= end < s.len(),
        heap_from(s, 0, end),
    ensures
        le(s[k], s[0]),
    decreases k,
{
    if k == 0 {
        lemma_total(s[0], s[0]);
    } else {
        let p = (k - 1) / 2;
        assert(heap_node(s, p, end));
        lemma_heap_top(s, end, p);
    }
}

/// Node `k` lies in the subtree rooted at node `r`.
pub open spec fn in_subtree(r: int, k: int) -> bool
    decreases k,
{
    if k <= r || k <= 0 {
        k == r
    } else {
        in_subtree(r, (k - 1) / 2)
    }
}

/// The elements of `s` from `start` to `end`, each position of the subtree
/// rooted at `start` marked with its element and every other position blank.
pub open spec fn subtree_marks<T>(s: Seq<T>, start: int, end: int) -> Seq<Option<T>> {
    Seq::new(
        (end + 1 - start) as nat,
        |j: int|
            if in_subtree(start, start + j) {
                Some(s[start + j])
            } else {
                None
            },
    )
}

/// The nodes of a subtree lie at or after its root.
pub proof fn lemma_subtree_after_root(r: int, k: int)
    requires
        0 <= r,
        in_subtree(r, k),
    ensures
        r <= k,
    decreases k,
{
    if k > r && k > 0 {
        lemma_subtree_after_root(r, (k - 1) / 2);
    }
}

/// Every node lies in the subtree of the root.
pub proof fn lemma_subtree_of_top(k: int)
    requires
        0 <= k,
    ensures
        in_subtree(0, k),
    decreases k,
{
    if k > 0 {
        lemma_subtree_of_top((k - 1) / 2);
    }
}

impl HeapSort {
    /// Arranges `slice` as a max-heap.
    pub fn heapify<T: Ord>(slice: &mut [T])
        requires
            total_order::<T>(),
            old(slice).len() >= 2,
        ensures
            perm_range(final(slice)@, old(slice)@, 0, old(slice).len() as int),
            heap_from(final(slice)@, 0, old(slice).len() - 1),
    {
        let n = slice.len();
        // start from the parent of the last index
        let mut next: usize = (n - 2) / 2 + 1;
        while next > 0
            invariant
                total_order::<T>(),
                slice.len() == n,
                n >= 2,
                next <= (n - 2) / 2 + 1,
                perm_range(slice@, old(slice)@, 0, n as int),
                heap_from(slice@, next as int, n - 1),
            decreases next,
        {
            next -= 1;
            let ghost before = slice@;
            HeapSort::sift_down(slice, next, n - 1);
            proof {
                assert forall|i: int| next <= i <= n - 1 implies #[trigger] heap_node(
                    slice@,
                    i,
                    n - 1,
                ) by {
                    if !in_subtree(next as int, i) {
                        assert(heap_node(before, i, n - 1));
                        assert(!in_subtree(next as int, 2 * i + 1));
                        assert(!in_subtree(next as int, 2 * i + 2));
                    }
                }
                lemma_perm_widen(slice@, before, next as int, n as int, 0, n as int);
                lemma_perm_trans(slice@, before, old(slice)@, 0, n as int);
            }
        }
    }

    /// Moves the element at `start` down until the heap rooted there holds,
    /// looking no further than `end`. Only positions of that subtree change,
    /// and only among themselves; a `start` without children up to `end`
    /// changes nothing.
    #[verifier::rlimit(60)]
    #[verifier::spinoff_prover]
    pub fn sift_down<T: Ord>(slice: &mut [T], start: usize, end: usize)
        requires
            total_order::<T>(),
            start <= end < old(slice).len(),
            forall|i: int|
                in_subtree(start as int, i) && start < i <= end ==> #[trigger] heap_node(
                    old(slice)@,
                    i,
                    end as int,
                ),
        ensures
            perm_range(final(slice)@, old(slice)@, start as int, end + 1),
            subtree_marks(final(slice)@, start as int, end as int).to_multiset()
                == subtree_marks(old(slice)@, start as int, end as int).to_multiset(),
            forall|k: int|
                0 <= k < old(slice).len() && !(in_subtree(start as int, k) && k <= end) ==> (
                #[trigger] final(slice)@[k]) == old(slice)@[k],
            2 * start + 1 > end ==> final(slice)@ == old(slice)@,
            forall|i: int|
                in_subtree(start as int, i) && i <= end ==> #[trigger] heap_node(
                    final(slice)@,
                    i,
                    end as int,
                ),
    {
        let mut root = start;
        while end > 0 && root <= (end - 1) / 2
            invariant
                total_order::<T>(),
                start <= root <= end < slice.len(),
                slice.len() == old(slice).len(),
                perm_range(slice@, old(slice)@, start as int, end + 1),
                subtree_marks(slice@, start as int, end as int).to_multiset() == subtree_marks(
                    old(slice)@,
                    start as int,
                    end as int,
                ).to_multiset(),
                forall|k: int|
                    0 <= k < old(slice).len() && !(in_subtree(start as int, k) && k <= end) ==> (
                    #[trigger] slice@[k]) == old(slice)@[k],
                2 * start + 1 > end ==> slice@ == old(slice)@,
                in_subtree(start as int, root as int),
                forall|i: int|
                    in_subtree(start as int, i) && i <= end && i != root ==> #[trigger] heap_node(
                        slice@,
                        i,
                        end as int,
                    ),
                root > start ==> (root - 1) / 2 >= start,
                root > start ==> in_subtree(start as int, (root - 1) / 2),
                root > start ==> (2 * root + 1 <= end ==> le(
                    slice@[2 * root + 1],
                    slice@[(root - 1) / 2],
                )),
                root > start ==> (2 * root + 2 <= end ==> le(
                    slice@[2 * root + 2],
                    slice@[(root - 1) / 2],
                )),
            decreases end - root,
        {
            let child = 2 * root + 1;
            let mut swap_at = root;
            proof {
                lemma_total(slice@[child as int], slice@[root as int]);
            }
            if slice[swap_at] < slice[child] {
                swap_at = child;
            }
            proof {
                if child < end {
                    lemma_total(slice@[child + 1], slice@[swap_at as int]);
                }
            }
            if child < end && slice[swap_at] < slice[child + 1] {
                swap_at = child + 1;
            }
            if swap_at == root {
                return;
            }
            let ghost before = slice@;
            proof {
                lemma_exchange_in_range(slice@, root as int, swap_at as int, start as int, end + 1);
            }
            swap(slice, root, swap_at);
            proof {
                lemma_perm_trans(slice@, before, old(slice)@, start as int, end + 1);
                let r = root as int;
                let c = swap_at as int;
                lemma_subtree_after_root(start as int, r);
                assert(in_subtree(start as int, c));
                let m = subtree_marks(before, start as int, end as int);
                assert(subtree_marks(slice@, start as int, end as int) =~= m.update(
                    r - start,
                    m[c - start],
                ).update(c - start, m[r - start]));
                lemma_exchange(m, r - start, c - start);
                assert(heap_node(before, c, end as int));
                assert forall|i: int| in_subtree(start as int, i) && i <= end && i != c implies #[trigger] heap_node(
                    slice@,
                    i,
                    end as int,
                ) by {
                    if i != r && i != (r - 1) / 2 {
                        assert(heap_node(before, i, end as int));
                        assert(2 * i + 1 != r && 2 * i + 1 != c);
                        assert(2 * i + 2 != r && 2 * i + 2 != c);
                    } else if i == (r - 1) / 2 && i != r {
                        assert(heap_node(before, i, end as int));
                    }
                }
            }
            root = swap_at;
        }
    }
}

impl Sorter for HeapSort {
    fn sort<T: Ord>(&self, slice: &mut [T]) {
        if slice.len() == 0 || slice.len() == 1 {
            return;
        }
        let n = slice.len();
        HeapSort::heapify(slice);
        let mut end = n - 1;
        while end > 0
            invariant
                total_order::<T>(),
                slice.len() == n,
                end < n,
                perm_range(slice@, old(slice)@, 0, n as int),
                heap_from(slice@, 0, end as int),
                settled(slice@, end + 1),
            decreases end,
        {
            let ghost before = slice@;
            proof {
                lemma_exchange_in_range(slice@, 0, end as int, 0, n as int);
                assert forall|k: int| 0 <= k <= end implies le(#[trigger] slice@[k], slice@[0]) by {
                    lemma_heap_top(slice@, end as int, k);
                }
            }
            swap(slice, 0, end);
            end -= 1;
            let ghost mid = slice@;
            proof {
                lemma_perm_trans(mid, before, old(slice)@, 0, n as int);
                assert forall|i: int| 0 < i <= end implies #[trigger] heap_node(mid, i, end as int) by {
                    assert(heap_node(before, i, end + 1));
                }
                assert(settled(mid, end + 1));
            }
            HeapSort::sift_down(slice, 0, end);
            proof {
                assert forall|i: int| 0 <= i <= end implies #[trigger] heap_node(
                    slice@,
                    i,
                    end as int,
                ) by {
                    lemma_subtree_of_top(i);
                }
                assert forall|x: int, y: int| 0 <= x <= end < y < n implies #[trigger] le(
                    slice@[x],
                    slice@[y],
                ) by {
                    assert(forall|j: int| 0 <= j < end + 1 ==> #[trigger] le(mid[j], mid[y]));
                    lemma_perm_upper(slice@, mid, 0, end + 1, mid[y]);
                }
                lemma_perm_widen(slice@, mid, 0, end + 1, 0, n as int);
                lemma_perm_trans(slice@, mid, old(slice)@, 0, n as int);
            }
        }
        proof {
            lemma_perm_whole(slice@, old(slice)@, 0, n as int);
        }
    }
}

} // verus!
