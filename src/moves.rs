//! The two element moves the sorts are built from: exchanging two positions
//! and rotating a range one step to the right.
use vstd::prelude::*;
use crate::order::{perm_range, same_elements};
use crate::perm::{lemma_exchange, lemma_exchange_in_range, lemma_perm_trans};

verus! {

broadcast use vstd::seq_lib::group_to_multiset_ensures;

/// Relies on `slice::swap`: exchanges the elements at two in-bounds
/// positions.
#[verifier::external_body]
fn slice_swap<T>(v: &mut [T], i: usize, j: usize)
    requires
        i < old(v).len(),
        j < old(v).len(),
    ensures
        final(v)@ == old(v)@.update(i as int, old(v)@[j as int]).update(j as int, old(v)@[i as int]),
{
    v.swap(i, j)
}

/// Exchanges the elements at positions `i` and `j`.
pub fn swap<T>(v: &mut [T], i: usize, j: usize)
    requires
        i < old(v).len(),
        j < old(v).len(),
    ensures
        final(v)@ == old(v)@.update(i as int, old(v)@[j as int]).update(j as int, old(v)@[i as int]),
        same_elements(final(v)@, old(v)@),
{
    proof {
        lemma_exchange(v@, i as int, j as int);
    }
    slice_swap(v, i, j);
}

/// Rotates the range `lo..=hi` one step to the right: the element at `hi`
/// moves to `lo`, and those from `lo` up to `hi - 1` move up by one.
pub fn rotate_right<T>(v: &mut [T], lo: usize, hi: usize)
    requires
        lo <= hi < old(v).len(),
    ensures
        final(v).len() == old(v).len(),
        final(v)@[lo as int] == old(v)@[hi as int],
        forall|k: int| lo < k <= hi ==> #[trigger] final(v)@[k] == old(v)@[k - 1],
        forall|k: int|
            0 <= k < final(v).len() && (k < lo || hi < k) ==> #[trigger] final(v)@[k] == old(v)@[k],
        same_elements(final(v)@, old(v)@),
        perm_range(final(v)@, old(v)@, lo as int, hi as int + 1),
{
    let mut k = hi;
    while k > lo
        invariant
            lo <= k <= hi < v.len(),
            v.len() == old(v).len(),
            v@[k as int] == old(v)@[hi as int],
            forall|j: int| lo <= j < k ==> #[trigger] v@[j] == old(v)@[j],
            forall|j: int| k < j <= hi ==> #[trigger] v@[j] == old(v)@[j - 1],
            forall|j: int| 0 <= j < v.len() && (j < lo || hi < j) ==> #[trigger] v@[j] == old(v)@[j],
            same_elements(v@, old(v)@),
            perm_range(v@, old(v)@, lo as int, hi as int + 1),
        decreases k,
    {
        proof {
            lemma_exchange_in_range(v@, k - 1, k as int, lo as int, hi as int + 1);
            lemma_perm_trans(
                v@.update(k - 1, v@[k as int]).update(k as int, v@[k - 1]),
                v@,
                old(v)@,
                lo as int,
                hi as int + 1,
            );
        }
        swap(v, k - 1, k);
        k -= 1;
    }
}

} // verus!
