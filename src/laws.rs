//! What follows for every strategy from its contract.
use vstd::prelude::*;
use vstd::relations::{sorted_by, total_ordering};
use crate::order::{le, lemma_total, sorted, same_elements, total_order};

verus! {

broadcast use vstd::seq_lib::group_to_multiset_ensures;

/// Elements that the order ranks equal are the same value, as for integers.
pub open spec fn equal_means_identical<T: PartialOrd>() -> bool {
    forall|a: T, b: T| #[trigger] le(a, b) && #[trigger] le(b, a) ==> a == b
}

/// The integer types compare as the integers do: a total order in which
/// equally ranked values are identical.
pub proof fn lemma_integer_orders()
    ensures
        total_order::<i32>(),
        equal_means_identical::<i32>(),
        total_order::<i64>(),
        equal_means_identical::<i64>(),
        total_order::<u32>(),
        equal_means_identical::<u32>(),
        total_order::<u64>(),
        equal_means_identical::<u64>(),
        total_order::<usize>(),
        equal_means_identical::<usize>(),
{
}

/// A rearrangement of an empty or one-element sequence is that sequence.
pub proof fn lemma_sort_short<T>(before: Seq<T>, after: Seq<T>)
    requires
        before.len() <= 1,
        same_elements(after, before),
    ensures
        after == before,
{
    after.to_multiset_ensures();
    before.to_multiset_ensures();
    assert(after.to_multiset().len() == before.to_multiset().len());
    if before.len() == 1 {
        assert(before.contains(before[0]));
        assert(after.to_multiset().count(before[0]) > 0);
        assert(after.contains(before[0]));
    }
    assert(after =~= before);
}

/// Two sorted rearrangements of one sequence are equal, where equally ranked
/// elements are identical.
pub proof fn lemma_sorted_unique<T: PartialOrd>(a: Seq<T>, b: Seq<T>)
    requires
        total_order::<T>(),
        equal_means_identical::<T>(),
        sorted(a),
        sorted(b),
        same_elements(a, b),
    ensures
        a == b,
{
    let leq = |x: T, y: T| le(x, y);
    assert forall|x: T| #[trigger] leq(x, x) by {
        lemma_total(x, x);
    }
    assert forall|x: T, y: T| #[trigger] leq(x, y) || leq(y, x) by {
        lemma_total(x, y);
    }
    assert(total_ordering(leq));
    assert(sorted_by(a, leq));
    assert(sorted_by(b, leq));
    vstd::seq_lib::lemma_sorted_unique(a, b, leq);
}

/// Sorting a sequence that is already sorted leaves it unchanged, where
/// equally ranked elements are identical.
pub proof fn lemma_sort_idempotent<T: PartialOrd>(before: Seq<T>, after: Seq<T>)
    requires
        total_order::<T>(),
        equal_means_identical::<T>(),
        sorted(before),
        sorted(after),
        same_elements(after, before),
    ensures
        after == before,
{
    lemma_sorted_unique(after, before);
}

/// Any two strategies give the same output on the same input, where equally
/// ranked elements are identical.
pub proof fn lemma_strategies_agree<T: PartialOrd>(input: Seq<T>, first: Seq<T>, second: Seq<T>)
    requires
        total_order::<T>(),
        equal_means_identical::<T>(),
        sorted(first),
        same_elements(first, input),
        sorted(second),
        same_elements(second, input),
    ensures
        first == second,
{
    lemma_sorted_unique(first, second);
}

} // verus!
