//! The order the sorts establish, the laws they rely on, and what it means
//! for a sequence to be sorted or rearranged.
use vstd::prelude::*;
use vstd::std_specs::cmp::PartialOrdSpec;
use core::cmp::Ordering;

verus! {

/// `a` comes no later than `b`.
pub open spec fn le<T: PartialOrd>(a: T, b: T) -> bool {
    a.partial_cmp_spec(&b) matches Some(Ordering::Less | Ordering::Equal)
}

/// `a` comes strictly before `b`.
pub open spec fn lt<T: PartialOrd>(a: T, b: T) -> bool {
    a.partial_cmp_spec(&b) == Some(Ordering::Less)
}

/// The comparisons of `T` form a total order: each pair compares, `a < b`
/// exactly when `b > a`, and `<=` is transitive.
pub open spec fn total_order<T: PartialOrd>() -> bool {
    &&& T::obeys_partial_cmp_spec()
    &&& forall|a: T, b: T| #[trigger] a.partial_cmp_spec(&b) is Some
    &&& forall|a: T, b: T|
        #![trigger a.partial_cmp_spec(&b), b.partial_cmp_spec(&a)]
        a.partial_cmp_spec(&b) == Some(Ordering::Less) <==> b.partial_cmp_spec(&a) == Some(
            Ordering::Greater,
        )
    &&& forall|a: T, b: T, c: T| #[trigger] le(a, b) && #[trigger] le(b, c) ==> le(a, c)
}

/// Under a total order, `a` does not come after `b` exactly when `b` does not
/// come strictly before `a`, and any two elements are ordered one way.
pub proof fn lemma_total<T: PartialOrd>(a: T, b: T)
    requires
        total_order::<T>(),
    ensures
        le(a, b) <==> !lt(b, a),
        le(a, b) || le(b, a),
        a.partial_cmp_spec(&b) == Some(Ordering::Greater) <==> !le(a, b),
{
    assert(a.partial_cmp_spec(&b) is Some);
    assert(b.partial_cmp_spec(&a) is Some);
}

/// A strict step followed by a weak one is strict.
pub proof fn lemma_lt_le<T: PartialOrd>(a: T, b: T, c: T)
    requires
        total_order::<T>(),
        lt(a, b),
        le(b, c),
    ensures
        lt(a, c),
{
    lemma_total(b, a);
    lemma_total(c, a);
    if le(c, a) {
        assert(le(b, a));
    }
}

/// Every element comes no later than every later one.
pub open spec fn sorted<T: PartialOrd>(s: Seq<T>) -> bool {
    forall|i: int, j: int| 0 <= i < j < s.len() ==> #[trigger] le(s[i], s[j])
}

/// The elements of `s` in the range `lo..hi` are in order.
pub open spec fn sorted_range<T: PartialOrd>(s: Seq<T>, lo: int, hi: int) -> bool {
    forall|i: int, j: int| lo <= i < j < hi ==> #[trigger] le(s[i], s[j])
}

/// From `b` on the elements are in order, and none before `b` comes after
/// any from `b` on: the tail from `b` already holds its final values.
pub open spec fn settled<T: PartialOrd>(s: Seq<T>, b: int) -> bool {
    &&& sorted_range(s, b, s.len() as int)
    &&& forall|x: int, y: int| 0 <= x < b <= y < s.len() ==> #[trigger] le(s[x], s[y])
}

/// `a` is a rearrangement of `b`: each value occurs equally often in both.
pub open spec fn same_elements<T>(a: Seq<T>, b: Seq<T>) -> bool {
    a.to_multiset() =~= b.to_multiset()
}

/// `a` differs from `b` only by a rearrangement inside the range `lo..hi`.
pub open spec fn perm_range<T>(a: Seq<T>, b: Seq<T>, lo: int, hi: int) -> bool {
    &&& a.len() == b.len()
    &&& 0 <= lo <= hi <= a.len()
    &&& a.subrange(lo, hi).to_multiset() =~= b.subrange(lo, hi).to_multiset()
    &&& forall|k: int| 0 <= k < a.len() && !(lo <= k < hi) ==> #[trigger] a[k] == b[k]
}

} // verus!
