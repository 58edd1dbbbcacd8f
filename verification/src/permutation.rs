//! Rearrangements of a range of a sequence, stated over multisets.

use vstd::prelude::*;
use vstd::seq_lib::{group_to_multiset_ensures, lemma_multiset_commutative};
use vstd::multiset::group_multiset_axioms;

verus! {

/// `s` with the elements at `a` and `b` exchanged.
pub open spec fn swapped<T>(s: Seq<T>, a: usize, b: usize) -> Seq<T> {
    s.update(a as int, s[b as int]).update(b as int, s[a as int])
}

/// `s` with `v` at the machine index `i`.
#[verifier::inline]
pub open spec fn with_at<T>(s: Seq<T>, i: usize, v: T) -> Seq<T> {
    s.update(i as int, v)
}

/// `s1` is `s0` with the elements of `lo..=hi` put in another order: same
/// length, nothing changed outside the range, the same elements inside it.
#[verifier::opaque]
pub open spec fn rearranged<T>(s0: Seq<T>, s1: Seq<T>, lo: usize, hi: usize) -> bool {
    &&& s1.len() == s0.len()
    &&& forall|p: int| 0 <= p < s0.len() && (p < lo || hi < p) ==> s1[p] == s0[p]
    &&& s1.subrange(lo as int, hi + 1).to_multiset() == s0.subrange(
        lo as int,
        hi + 1,
    ).to_multiset()
}

/// Sequences of the same elements have the same length.
pub proof fn lemma_same_elements_same_len<T>(s0: Seq<T>, s1: Seq<T>)
    requires
        s1.to_multiset() == s0.to_multiset(),
    ensures
        s1.len() == s0.len(),
{
    broadcast use group_to_multiset_ensures;

    assert(s1.to_multiset().len() == s1.len());
    assert(s0.to_multiset().len() == s0.len());
}

/// Exchanging two elements of a range rearranges that range.
pub proof fn lemma_swap_rearranges<T>(s: Seq<T>, a: usize, b: usize, lo: usize, hi: usize)
    requires
        lo <= a <= hi,
        lo <= b <= hi,
        hi < s.len(),
    ensures
        rearranged(s, swapped(s, a, b), lo, hi),
{
    broadcast use group_to_multiset_ensures, group_multiset_axioms;

    reveal(rearranged);
    let sub0 = s.subrange(lo as int, hi + 1);
    let sub1 = swapped(s, a, b).subrange(lo as int, hi + 1);
    let x = a - lo;
    let y = b - lo;
    let mid = sub0.update(x, sub0[y]);
    assert(sub1 =~= mid.update(y, sub0[x]));
    assert(sub0.contains(sub0[x]));
    assert(sub0.contains(sub0[y]));
    assert(mid.to_multiset() == sub0.to_multiset().insert(sub0[y]).remove(sub0[x]));
    assert(mid[y] == sub0[y]);
    assert(sub1.to_multiset() == mid.to_multiset().insert(sub0[x]).remove(sub0[y]));
    assert(sub1.to_multiset() =~= sub0.to_multiset());
}

/// A rearrangement of a range is one of every range that holds it.
pub proof fn lemma_rearranged_widen<T>(
    s0: Seq<T>,
    s1: Seq<T>,
    lo: usize,
    hi: usize,
    wide_lo: usize,
    wide_hi: usize,
)
    requires
        rearranged(s0, s1, lo, hi),
        wide_lo <= lo <= hi <= wide_hi < s0.len(),
    ensures
        rearranged(s0, s1, wide_lo, wide_hi),
{
    broadcast use group_multiset_axioms;

    reveal(rearranged);
    let (l, h, wl, wh) = (lo as int, hi as int, wide_lo as int, wide_hi as int);
    let head0 = s0.subrange(wl, l);
    let head1 = s1.subrange(wl, l);
    let tail0 = s0.subrange(h + 1, wh + 1);
    let tail1 = s1.subrange(h + 1, wh + 1);
    assert(head0 =~= head1);
    assert(tail0 =~= tail1);
    let mid0 = s0.subrange(l, h + 1);
    let mid1 = s1.subrange(l, h + 1);
    assert(s0.subrange(wl, wh + 1) =~= (head0 + mid0) + tail0);
    assert(s1.subrange(wl, wh + 1) =~= (head1 + mid1) + tail1);
    lemma_multiset_commutative(head0, mid0);
    lemma_multiset_commutative(head1, mid1);
    lemma_multiset_commutative(head0 + mid0, tail0);
    lemma_multiset_commutative(head1 + mid1, tail1);
}

/// One rearrangement after another is a rearrangement.
pub proof fn lemma_rearranged_twice<T>(s0: Seq<T>, s1: Seq<T>, s2: Seq<T>, lo: usize, hi: usize)
    requires
        rearranged(s0, s1, lo, hi),
        rearranged(s1, s2, lo, hi),
    ensures
        rearranged(s0, s2, lo, hi),
{
    reveal(rearranged);
}

/// A rearrangement keeps the length and everything outside the range.
pub proof fn lemma_rearranged_outside<T>(s0: Seq<T>, s1: Seq<T>, lo: usize, hi: usize)
    requires
        rearranged(s0, s1, lo, hi),
    ensures
        s1.len() == s0.len(),
        forall|p: int| 0 <= p < s0.len() && (p < lo || hi < p) ==> s1[p] == s0[p],
{
    reveal(rearranged);
}

/// A sequence is a rearrangement of itself.
pub proof fn lemma_rearranged_same<T>(s: Seq<T>, lo: usize, hi: usize)
    ensures
        rearranged(s, s, lo, hi),
{
    reveal(rearranged);
}

/// A rearrangement of the whole sequence keeps its multiset.
pub proof fn lemma_rearranged_whole<T>(s0: Seq<T>, s1: Seq<T>, lo: usize, hi: usize)
    requires
        rearranged(s0, s1, lo, hi),
        lo <= hi < s0.len() <= usize::MAX,
    ensures
        s1.to_multiset() == s0.to_multiset(),
{
    reveal(rearranged);
    lemma_rearranged_widen(s0, s1, lo, hi, 0, (s0.len() - 1) as usize);
    assert(s0.subrange(0, s0.len() as int) =~= s0);
    assert(s1.subrange(0, s1.len() as int) =~= s1);
}

/// Every element of a rearranged range stood somewhere in that range before.
pub proof fn lemma_rearranged_source<T>(s0: Seq<T>, s1: Seq<T>, lo: usize, hi: usize, q: int) -> (p:
    int)
    requires
        rearranged(s0, s1, lo, hi),
        lo <= q <= hi < s0.len(),
    ensures
        lo <= p <= hi,
        s0[p] == s1[q],
{
    broadcast use group_to_multiset_ensures;

    reveal(rearranged);
    let sub0 = s0.subrange(lo as int, hi + 1);
    let sub1 = s1.subrange(lo as int, hi + 1);
    let v = s1[q];
    assert(sub1[q - lo] == v);
    assert(sub1.contains(v));
    assert(sub1.to_multiset().count(v) > 0);
    assert(sub0.to_multiset().count(v) > 0);
    assert(sub0.contains(v));
    let i = choose|i: int| 0 <= i < sub0.len() && sub0[i] == v;
    lo + i
}

} // verus!
