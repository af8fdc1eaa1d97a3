//! Facts about rearrangements: exchanges and rotations keep the elements,
//! rearrangements compose and widen, and bounds survive them.
use vstd::prelude::*;
use crate::order::{le, perm_range, same_elements};

verus! {

broadcast use vstd::seq_lib::group_to_multiset_ensures;

/// Exchanging two positions keeps the elements.
pub proof fn lemma_exchange<T>(s: Seq<T>, i: int, j: int)
    requires
        0 <= i < s.len(),
        0 <= j < s.len(),
    ensures
        s.update(i, s[j]).update(j, s[i]).to_multiset() =~= s.to_multiset(),
{
    let t = s.update(i, s[j]);
    assert(t.to_multiset() == s.to_multiset().insert(s[j]).remove(s[i]));
    assert(t.update(j, s[i]).to_multiset() == t.to_multiset().insert(s[i]).remove(t[j]));
    if i == j {
        assert(t.update(j, s[i]) =~= s);
    } else {
        assert(s.to_multiset().count(s[j]) > 0);
    }
}

/// Exchanging two positions inside `lo..hi` rearranges that range only.
pub proof fn lemma_exchange_in_range<T>(s: Seq<T>, i: int, j: int, lo: int, hi: int)
    requires
        0 <= lo <= i < hi <= s.len(),
        lo <= j < hi,
    ensures
        perm_range(s.update(i, s[j]).update(j, s[i]), s, lo, hi),
{
    let t = s.update(i, s[j]).update(j, s[i]);
    let u = s.subrange(lo, hi);
    assert(t.subrange(lo, hi) =~= u.update(i - lo, u[j - lo]).update(j - lo, u[i - lo]));
    lemma_exchange(u, i - lo, j - lo);
}

/// Rearrangements of one range compose.
pub proof fn lemma_perm_trans<T>(a: Seq<T>, b: Seq<T>, c: Seq<T>, lo: int, hi: int)
    requires
        perm_range(a, b, lo, hi),
        perm_range(b, c, lo, hi),
    ensures
        perm_range(a, c, lo, hi),
{
}

/// A rearrangement of `l2..h2` is one of any range around it.
pub proof fn lemma_perm_widen<T>(a: Seq<T>, b: Seq<T>, l2: int, h2: int, lo: int, hi: int)
    requires
        perm_range(a, b, l2, h2),
        0 <= lo <= l2,
        h2 <= hi <= a.len(),
    ensures
        perm_range(a, b, lo, hi),
{
    assert(a.subrange(lo, l2) =~= b.subrange(lo, l2));
    assert(a.subrange(h2, hi) =~= b.subrange(h2, hi));
    assert(a.subrange(lo, hi) =~= a.subrange(lo, l2) + a.subrange(l2, h2) + a.subrange(h2, hi));
    assert(b.subrange(lo, hi) =~= b.subrange(lo, l2) + b.subrange(l2, h2) + b.subrange(h2, hi));
    vstd::seq_lib::lemma_multiset_commutative(a.subrange(lo, l2), a.subrange(l2, h2));
    vstd::seq_lib::lemma_multiset_commutative(b.subrange(lo, l2), b.subrange(l2, h2));
    vstd::seq_lib::lemma_multiset_commutative(
        a.subrange(lo, l2) + a.subrange(l2, h2),
        a.subrange(h2, hi),
    );
    vstd::seq_lib::lemma_multiset_commutative(
        b.subrange(lo, l2) + b.subrange(l2, h2),
        b.subrange(h2, hi),
    );
}

/// A rearrangement of a range keeps the elements of the whole sequence.
pub proof fn lemma_perm_whole<T>(a: Seq<T>, b: Seq<T>, lo: int, hi: int)
    requires
        perm_range(a, b, lo, hi),
    ensures
        same_elements(a, b),
{
    lemma_perm_widen(a, b, lo, hi, 0, a.len() as int);
    assert(a.subrange(0, a.len() as int) =~= a);
    assert(b.subrange(0, b.len() as int) =~= b);
}

/// Each element of a rearranged range was an element of that range before.
pub proof fn lemma_perm_source<T>(a: Seq<T>, b: Seq<T>, lo: int, hi: int, k: int) -> (j: int)
    requires
        perm_range(a, b, lo, hi),
        lo <= k < hi,
    ensures
        lo <= j < hi,
        b[j] == a[k],
{
    let sa = a.subrange(lo, hi);
    let sb = b.subrange(lo, hi);
    assert(sa[k - lo] == a[k]);
    assert(sa.contains(a[k]));
    assert(sb.to_multiset().count(a[k]) > 0);
    assert(sb.contains(a[k]));
    let i = choose|i: int| 0 <= i < sb.len() && sb[i] == a[k];
    lo + i
}

/// A bound above every element of a range still holds after it is rearranged.
pub proof fn lemma_perm_upper<T: PartialOrd>(a: Seq<T>, b: Seq<T>, lo: int, hi: int, p: T)
    requires
        perm_range(a, b, lo, hi),
        forall|k: int| lo <= k < hi ==> #[trigger] le(b[k], p),
    ensures
        forall|k: int| lo <= k < hi ==> #[trigger] le(a[k], p),
{
    assert forall|k: int| lo <= k < hi implies #[trigger] le(a[k], p) by {
        let j = lemma_perm_source(a, b, lo, hi, k);
        assert(le(b[j], p));
    }
}

/// A bound below every element of a range still holds after it is rearranged.
pub proof fn lemma_perm_lower<T: PartialOrd>(a: Seq<T>, b: Seq<T>, lo: int, hi: int, p: T)
    requires
        perm_range(a, b, lo, hi),
        forall|k: int| lo <= k < hi ==> #[trigger] le(p, b[k]),
    ensures
        forall|k: int| lo <= k < hi ==> #[trigger] le(p, a[k]),
{
    assert forall|k: int| lo <= k < hi implies #[trigger] le(p, a[k]) by {
        let j = lemma_perm_source(a, b, lo, hi, k);
        assert(le(p, b[j]));
    }
}

} // verus!
