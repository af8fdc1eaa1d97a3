//! Selection sort.
use vstd::prelude::*;
use crate::Sorter;
use crate::moves::swap;
use crate::order::{le, lt, lemma_total, lemma_lt_le, sorted, sorted_range, same_elements, total_order};

verus! {

/// Selection sort: for each position from the left, finds the smallest
/// element of the rest and exchanges it into that position.
pub struct SelectionSort;

/// `r` is the first position from `from` on whose element comes no later
/// than any element from `from` on.
pub open spec fn first_min<T: PartialOrd>(s: Seq<T>, from: int, r: int) -> bool {
    &&& from <= r < s.len()
    &&& forall|k: int| from <= k < s.len() ==> le(s[r], #[trigger] s[k])
    &&& forall|k: int| from <= k < r ==> lt(s[r], #[trigger] s[k])
}

/// What selection sort makes of `s` once positions before `i` are done:
/// each further position in turn exchanges with the first smallest element
/// of the rest.
pub open spec fn selection_from<T: PartialOrd>(s: Seq<T>, i: int) -> Seq<T>
    decreases s.len() - i,
{
    if 0 <= i < s.len() {
        let r = choose|r: int| first_min(s, i, r);
        if i <= r < s.len() {
            selection_from(s.update(i, s[r]).update(r, s[i]), i + 1)
        } else {
            s
        }
    } else {
        s
    }
}

/// There is only one first smallest element.
pub proof fn lemma_first_min_unique<T: PartialOrd>(s: Seq<T>, from: int, r1: int, r2: int)
    requires
        total_order::<T>(),
        first_min(s, from, r1),
        first_min(s, from, r2),
    ensures
        r1 == r2,
{
    lemma_total(s[r1], s[r2]);
    lemma_total(s[r2], s[r1]);
    if r1 < r2 {
        assert(lt(s[r2], s[r1]));
    } else if r2 < r1 {
        assert(lt(s[r1], s[r2]));
    }
}

/// The position of the smallest element of `slice[from..]`, the first one
/// where several are equal.
fn min_index<T: Ord>(slice: &[T], from: usize) -> (r: usize)
    requires
        total_order::<T>(),
        from < slice.len(),
    ensures
        first_min(slice@, from as int, r as int),
{
    let mut best = from;
    let mut k = from + 1;
    while k < slice.len()
        invariant
            total_order::<T>(),
            from <= best < k <= slice.len(),
            forall|j: int| from <= j < k ==> le(slice@[best as int], #[trigger] slice@[j]),
            forall|j: int| from <= j < best ==> lt(slice@[best as int], #[trigger] slice@[j]),
        decreases slice.len() - k,
    {
        proof {
            lemma_total(slice@[best as int], slice@[k as int]);
        }
        if slice[k] < slice[best] {
            proof {
                assert forall|j: int| from <= j < k implies lt(slice@[k as int], #[trigger] slice@[j]) by {
                    assert(le(slice@[best as int], slice@[j]));
                    lemma_lt_le(slice@[k as int], slice@[best as int], slice@[j]);
                }
            }
            best = k;
        }
        k += 1;
    }
    best
}

impl Sorter for SelectionSort {
    fn sort<T: Ord>(&self, slice: &mut [T])
        ensures
            final(slice)@ == selection_from(old(slice)@, 0),
            sorted(old(slice)@) ==> final(slice)@ == old(slice)@,
    {
        let n = slice.len();
        let mut unsorted: usize = 0;
        while unsorted < n
            invariant
                total_order::<T>(),
                slice.len() == n,
                unsorted <= n,
                sorted_range(slice@, 0, unsorted as int),
                forall|x: int, y: int| 0 <= x < unsorted <= y < n ==> #[trigger] le(slice@[x], slice@[y]),
                same_elements(slice@, old(slice)@),
                selection_from(slice@, unsorted as int) == selection_from(old(slice)@, 0),
                sorted(old(slice)@) ==> slice@ == old(slice)@,
            decreases n - unsorted,
        {
            let smallest_in_rest = min_index(slice, unsorted);
            let ghost before = slice@;
            proof {
                let u = unsorted as int;
                let r = smallest_in_rest as int;
                assert(first_min(before, u, r));
                let chosen = choose|r: int| first_min(before, u, r);
                lemma_first_min_unique(before, u, chosen, r);
                if sorted(old(slice)@) && r > u {
                    lemma_total(before[u], before[r]);
                    assert(le(before[u], before[r]));
                    assert(lt(before[r], before[u]));
                }
                if r == u {
                    assert(before.update(u, before[r]).update(r, before[u]) =~= before);
                }
            }
            if unsorted != smallest_in_rest {
                swap(slice, unsorted, smallest_in_rest);
            }
            unsorted += 1;
        }
        proof {
            assert(selection_from(slice@, n as int) == slice@);
        }
    }
}

} // verus!
