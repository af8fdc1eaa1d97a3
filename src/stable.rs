//! Stability: elements that rank equal keep their relative order. A
//! rearrangement is described by the map from each output position to the
//! input position its element came from.
use vstd::prelude::*;
use crate::order::{le, lt, lemma_total, sorted, total_order};

verus! {

/// `a` and `b` rank equal.
pub open spec fn equivalent<T: PartialOrd>(a: T, b: T) -> bool {
    le(a, b) && le(b, a)
}

/// `out` is `inp` rearranged by `p` (each output position to the input
/// position of its element, no input position used twice), and elements that
/// rank equal appear in `out` in their input order.
pub open spec fn stable_by<T: PartialOrd>(out: Seq<T>, inp: Seq<T>, p: Seq<int>) -> bool {
    &&& out.len() == inp.len()
    &&& p.len() == out.len()
    &&& forall|k: int| 0 <= k < out.len() ==> 0 <= #[trigger] p[k] < out.len() && out[k] == inp[p[k]]
    &&& forall|i: int, j: int| 0 <= i < j < out.len() ==> #[trigger] p[i] != #[trigger] p[j]
    &&& forall|i: int, j: int|
        0 <= i < j < out.len() && #[trigger] equivalent(out[i], out[j]) ==> p[i] < p[j]
}

/// `out` is a rearrangement of `inp` that keeps equally ranked elements in
/// their input order.
pub open spec fn stable<T: PartialOrd>(out: Seq<T>, inp: Seq<T>) -> bool {
    exists|p: Seq<int>| stable_by(out, inp, p)
}

/// The positions `0..n` in order.
pub open spec fn identity(n: nat) -> Seq<int> {
    Seq::new(n, |k: int| k)
}

/// `s` with the range `lo..=hi` rotated one step to the right.
pub open spec fn rotated<A>(s: Seq<A>, lo: int, hi: int) -> Seq<A> {
    Seq::new(
        s.len(),
        |k: int|
            if k == lo {
                s[hi]
            } else if lo < k <= hi {
                s[k - 1]
            } else {
                s[k]
            },
    )
}

/// Leaving a sequence as it is keeps it stable.
pub proof fn lemma_stable_identity<T: PartialOrd>(s: Seq<T>)
    ensures
        stable_by(s, s, identity(s.len())),
{
}

/// Exchanging two neighbours that are strictly out of order keeps a
/// rearrangement stable.
pub proof fn lemma_stable_exchange<T: PartialOrd>(out: Seq<T>, inp: Seq<T>, p: Seq<int>, i: int)
    requires
        total_order::<T>(),
        stable_by(out, inp, p),
        1 <= i < out.len(),
        lt(out[i], out[i - 1]),
    ensures
        stable_by(
            out.update(i - 1, out[i]).update(i, out[i - 1]),
            inp,
            p.update(i - 1, p[i]).update(i, p[i - 1]),
        ),
{
    let o2 = out.update(i - 1, out[i]).update(i, out[i - 1]);
    let p2 = p.update(i - 1, p[i]).update(i, p[i - 1]);
    lemma_total(out[i - 1], out[i]);
    assert forall|a: int, b: int| 0 <= a < b < o2.len() && #[trigger] equivalent(
        o2[a],
        o2[b],
    ) implies p2[a] < p2[b] by {
        let a0 = if a == i - 1 { i } else if a == i { i - 1 } else { a };
        let b0 = if b == i - 1 { i } else if b == i { i - 1 } else { b };
        assert(o2[a] == out[a0] && o2[b] == out[b0]);
        assert(p2[a] == p[a0] && p2[b] == p[b0]);
        if a0 < b0 {
            assert(equivalent(out[a0], out[b0]));
        } else {
            assert(a == i - 1 && b == i);
        }
    }
    assert forall|a: int, b: int| 0 <= a < b < o2.len() implies #[trigger] p2[a] != #[trigger] p2[b] by {
        let a0 = if a == i - 1 { i } else if a == i { i - 1 } else { a };
        let b0 = if b == i - 1 { i } else if b == i { i - 1 } else { b };
        assert(p2[a] == p[a0] && p2[b] == p[b0]);
        if a0 > b0 {
            assert(p[b0] != p[a0]);
        }
    }
    assert forall|k: int| 0 <= k < o2.len() implies 0 <= #[trigger] p2[k] < o2.len() && o2[k]
        == inp[p2[k]] by {
        let k0 = if k == i - 1 { i } else if k == i { i - 1 } else { k };
        assert(p2[k] == p[k0]);
    }
}

/// Rotating `lo..=hi` one step right keeps a rearrangement stable when the
/// element moved to `lo` comes strictly before every element it passes.
pub proof fn lemma_stable_rotate<T: PartialOrd>(
    out: Seq<T>,
    inp: Seq<T>,
    p: Seq<int>,
    lo: int,
    hi: int,
)
    requires
        total_order::<T>(),
        stable_by(out, inp, p),
        0 <= lo <= hi < out.len(),
        forall|k: int| lo <= k < hi ==> lt(out[hi], #[trigger] out[k]),
    ensures
        stable_by(rotated(out, lo, hi), inp, rotated(p, lo, hi)),
{
    let o2 = rotated(out, lo, hi);
    let p2 = rotated(p, lo, hi);
    assert forall|a: int, b: int| 0 <= a < b < o2.len() && #[trigger] equivalent(
        o2[a],
        o2[b],
    ) implies p2[a] < p2[b] by {
        let a0 = if a == lo { hi } else if lo < a <= hi { a - 1 } else { a };
        let b0 = if b == lo { hi } else if lo < b <= hi { b - 1 } else { b };
        assert(o2[a] == out[a0] && o2[b] == out[b0]);
        assert(p2[a] == p[a0] && p2[b] == p[b0]);
        if a0 < b0 {
            assert(equivalent(out[a0], out[b0]));
        } else {
            assert(a == lo && lo < b <= hi);
            lemma_total(out[b0], out[hi]);
        }
    }
    assert forall|a: int, b: int| 0 <= a < b < o2.len() implies #[trigger] p2[a] != #[trigger] p2[b] by {
        let a0 = if a == lo { hi } else if lo < a <= hi { a - 1 } else { a };
        let b0 = if b == lo { hi } else if lo < b <= hi { b - 1 } else { b };
        assert(p2[a] == p[a0] && p2[b] == p[b0]);
        if a0 > b0 {
            assert(p[b0] != p[a0]);
        }
    }
    assert forall|k: int| 0 <= k < o2.len() implies 0 <= #[trigger] p2[k] < o2.len() && o2[k]
        == inp[p2[k]] by {
        let k0 = if k == lo { hi } else if lo < k <= hi { k - 1 } else { k };
        assert(p2[k] == p[k0]);
    }
}

/// Two stable rearrangements in a row make a stable rearrangement.
pub proof fn lemma_stable_compose<T: PartialOrd>(
    a: Seq<T>,
    b: Seq<T>,
    c: Seq<T>,
    q: Seq<int>,
    p: Seq<int>,
)
    requires
        stable_by(a, b, q),
        stable_by(b, c, p),
    ensures
        stable_by(a, c, Seq::new(a.len(), |k: int| p[q[k]])),
{
    let r = Seq::new(a.len(), |k: int| p[q[k]]);
    assert forall|i: int, j: int| 0 <= i < j < a.len() && #[trigger] equivalent(
        a[i],
        a[j],
    ) implies r[i] < r[j] by {
        assert(q[i] < q[j]);
        assert(b[q[i]] == a[i] && b[q[j]] == a[j]);
        assert(equivalent(b[q[i]], b[q[j]]));
    }
    assert forall|i: int, j: int| 0 <= i < j < a.len() implies #[trigger] r[i] != #[trigger] r[j] by {
        assert(q[i] != q[j]);
        if q[i] < q[j] {
            assert(p[q[i]] != p[q[j]]);
        } else {
            assert(p[q[j]] != p[q[i]]);
        }
    }
    assert forall|k: int| 0 <= k < a.len() implies 0 <= #[trigger] r[k] < a.len() && a[k] == c[r[k]] by {
        assert(0 <= q[k] < b.len());
    }
}

/// A strictly increasing map of `0..n` into `0..n` is at least the identity.
proof fn lemma_increasing_above(p: Seq<int>, k: int)
    requires
        0 <= k < p.len(),
        forall|k: int| 0 <= k < p.len() ==> 0 <= #[trigger] p[k] < p.len(),
        forall|i: int, j: int| 0 <= i < j < p.len() ==> #[trigger] p[i] < #[trigger] p[j],
    ensures
        p[k] >= k,
    decreases k,
{
    if k > 0 {
        lemma_increasing_above(p, k - 1);
        assert(p[k - 1] < p[k]);
    }
}

/// A strictly increasing map of `0..n` into `0..n` is at most the identity.
proof fn lemma_increasing_below(p: Seq<int>, k: int)
    requires
        0 <= k < p.len(),
        forall|k: int| 0 <= k < p.len() ==> 0 <= #[trigger] p[k] < p.len(),
        forall|i: int, j: int| 0 <= i < j < p.len() ==> #[trigger] p[i] < #[trigger] p[j],
    ensures
        p[k] <= k,
    decreases p.len() - k,
{
    if k + 1 < p.len() {
        lemma_increasing_below(p, k + 1);
        assert(p[k] < p[k + 1]);
    } else {
        assert(p[k] < p.len());
    }
}

/// A stable sort leaves sorted input unchanged, whatever elements rank
/// equal.
pub proof fn lemma_stable_sort_idempotent<T: PartialOrd>(before: Seq<T>, after: Seq<T>)
    requires
        total_order::<T>(),
        sorted(before),
        sorted(after),
        stable(after, before),
    ensures
        after == before,
{
    let p = choose|p: Seq<int>| stable_by(after, before, p);
    let n = after.len() as int;
    assert forall|i: int, j: int| 0 <= i < j < n implies #[trigger] p[i] < #[trigger] p[j] by {
        assert(le(after[i], after[j]));
        if !equivalent(after[i], after[j]) && p[j] < p[i] {
            assert(le(before[p[j]], before[p[i]]));
            assert(p[i] != p[j]);
        }
    }
    assert forall|k: int| 0 <= k < n implies after[k] == before[k] by {
        lemma_increasing_above(p, k);
        lemma_increasing_below(p, k);
    }
    assert(after =~= before);
}

} // verus!
