//! Order relations on the elements of a sequence, and what it means for a
//! sequence to be arranged around one of its positions.
//!
//! A relation is a `spec_fn(T, T) -> bool` read as "not greater than".
//! Positions are machine indices, as the executable code has them.

use vstd::prelude::*;
use vstd::relations::{pre_ordering, strongly_connected, transitive};
use vstd::seq_lib::{group_to_multiset_ensures, lemma_multiset_commutative};
use crate::permutation::{
    lemma_rearranged_outside,
    lemma_rearranged_source,
    lemma_same_elements_same_len,
    rearranged,
};

verus! {

/// `le` is transitive and relates every two elements one way or the other.
/// Ties are allowed: `le(a, b) && le(b, a)` need not make `a` and `b` equal.
pub open spec fn total_preorder<T>(le: spec_fn(T, T) -> bool) -> bool {
    transitive(le) && strongly_connected(le)
}

/// The element of `s` at the machine index `i`.
#[verifier::inline]
pub open spec fn at<T>(s: Seq<T>, i: usize) -> T {
    s[i as int]
}

/// Within `lo..=hi`, nothing at or before `k` is greater than anything at or
/// after `k`.
pub open spec fn split_at<T>(
    s: Seq<T>,
    lo: usize,
    hi: usize,
    k: usize,
    le: spec_fn(T, T) -> bool,
) -> bool {
    forall|i: int, j: int| lo <= i <= k && k <= j <= hi ==> #[trigger] le(s[i], s[j])
}

/// `s` has its `k`-th order statistic at position `k`: nothing before `k` is
/// greater than `s[k]`, and nothing after `k` is less.
pub open spec fn selected<T>(s: Seq<T>, k: usize, le: spec_fn(T, T) -> bool) -> bool {
    forall|i: int, j: int| 0 <= i <= k && k <= j < s.len() ==> #[trigger] le(s[i], s[j])
}

/// Within `lo..=hi`, nothing before `mid` is greater than anything at or
/// after `mid`.
pub open spec fn fenced_before<T>(
    s: Seq<T>,
    lo: usize,
    mid: usize,
    hi: usize,
    le: spec_fn(T, T) -> bool,
) -> bool {
    forall|p: int, q: int| lo <= p < mid && mid <= q <= hi ==> #[trigger] le(s[p], s[q])
}

/// Within `lo..=hi`, nothing at or before `mid` is greater than anything
/// after `mid`.
pub open spec fn fenced_after<T>(
    s: Seq<T>,
    lo: usize,
    mid: usize,
    hi: usize,
    le: spec_fn(T, T) -> bool,
) -> bool {
    forall|p: int, q: int| lo <= p <= mid && mid < q <= hi ==> #[trigger] le(s[p], s[q])
}

/// A total preorder is reflexive.
pub proof fn lemma_total_preorder_is_preorder<T>(le: spec_fn(T, T) -> bool)
    requires
        total_preorder(le),
    ensures
        pre_ordering(le),
{
    assert forall|x: T| #[trigger] le(x, x) by {
        assert(le(x, x) || le(x, x));
    }
}

/// Fences around `lo..=hi` hold of every rearrangement of that range.
pub proof fn lemma_fences_survive<T>(
    s0: Seq<T>,
    s1: Seq<T>,
    left: usize,
    lo: usize,
    hi: usize,
    right: usize,
    le: spec_fn(T, T) -> bool,
)
    requires
        rearranged(s0, s1, lo, hi),
        left <= lo <= hi <= right < s0.len(),
        fenced_before(s0, left, lo, right, le),
        fenced_after(s0, left, hi, right, le),
    ensures
        fenced_before(s1, left, lo, right, le),
        fenced_after(s1, left, hi, right, le),
{
    lemma_rearranged_outside(s0, s1, lo, hi);
    assert forall|p: int, q: int| left <= p < lo && lo <= q <= right implies #[trigger] le(
        s1[p],
        s1[q],
    ) by {
        if q <= hi {
            let src = lemma_rearranged_source(s0, s1, lo, hi, q);
            assert(le(s0[p], s0[src]));
        } else {
            assert(le(s0[p], s0[q]));
        }
    }
    assert forall|p: int, q: int| left <= p <= hi && hi < q <= right implies #[trigger] le(
        s1[p],
        s1[q],
    ) by {
        if lo <= p {
            let src = lemma_rearranged_source(s0, s1, lo, hi, p);
            assert(le(s0[src], s0[q]));
        } else {
            assert(le(s0[p], s0[q]));
        }
    }
}

/// Where `lo..=hi` is partitioned around the element at `j`, and fenced off
/// from the rest of `left..=right`, the whole of `left..=right` is split at
/// `j`, and so fenced on either side of `j`.
pub proof fn lemma_fences_meet<T>(
    s: Seq<T>,
    left: usize,
    lo: usize,
    j: usize,
    hi: usize,
    right: usize,
    le: spec_fn(T, T) -> bool,
)
    requires
        left <= lo <= j <= hi <= right < s.len(),
        right < usize::MAX,
        transitive(le),
        fenced_before(s, left, lo, right, le),
        fenced_after(s, left, hi, right, le),
        forall|p: int| lo <= p <= j ==> le(s[p], s[j as int]),
        forall|p: int| j <= p <= hi ==> le(s[j as int], s[p]),
    ensures
        split_at(s, left, right, j, le),
        fenced_before(s, left, (j + 1) as usize, right, le),
        j > 0 ==> fenced_after(s, left, (j - 1) as usize, right, le),
{
    assert forall|p: int, q: int| left <= p <= j && j <= q <= right implies #[trigger] le(
        s[p],
        s[q],
    ) by {
        if p < lo {
            assert(le(s[p], s[q]));
        } else if q > hi {
            assert(le(s[p], s[q]));
        } else {
            assert(le(s[p], s[j as int]) && le(s[j as int], s[q]));
        }
    }
}

/// Where `whole` is selected at `pivot`, and what stands before `pivot` is
/// put in an order `front` that is selected at `k`, the whole is then
/// selected at `k`.
pub proof fn lemma_selected_in_front<T>(
    whole: Seq<T>,
    front: Seq<T>,
    pivot: usize,
    k: usize,
    le: spec_fn(T, T) -> bool,
)
    requires
        k < pivot < whole.len(),
        selected(whole, pivot, le),
        front.to_multiset() == whole.subrange(0, pivot as int).to_multiset(),
        selected(front, k, le),
    ensures
        (front + whole.subrange(pivot as int, whole.len() as int)).to_multiset()
            == whole.to_multiset(),
        selected(front + whole.subrange(pivot as int, whole.len() as int), k, le),
{
    broadcast use group_to_multiset_ensures;

    let before = whole.subrange(0, pivot as int);
    let rest = whole.subrange(pivot as int, whole.len() as int);
    let joined = front + rest;
    lemma_same_elements_same_len(before, front);
    assert(whole =~= before + rest);
    lemma_multiset_commutative(before, rest);
    lemma_multiset_commutative(front, rest);
    assert forall|i: int, j: int| 0 <= i <= k && k <= j < joined.len() implies #[trigger] le(
        joined[i],
        joined[j],
    ) by {
        if j < pivot {
            assert(le(front[i], front[j]));
        } else {
            assert(front.contains(front[i]));
            assert(before.to_multiset().count(front[i]) > 0);
            assert(before.contains(front[i]));
            let src = choose|src: int| 0 <= src < before.len() && before[src] == front[i];
            assert(le(whole[src], whole[j]));
        }
    }
}

/// Where `whole` is selected at `pivot`, and what stands after `pivot` is put
/// in an order `back` that is selected at `k - pivot - 1`, the whole is then
/// selected at `k`.
pub proof fn lemma_selected_in_back<T>(
    whole: Seq<T>,
    back: Seq<T>,
    pivot: usize,
    k: usize,
    le: spec_fn(T, T) -> bool,
)
    requires
        pivot < k < whole.len(),
        selected(whole, pivot, le),
        back.to_multiset() == whole.subrange(pivot + 1, whole.len() as int).to_multiset(),
        selected(back, (k - pivot - 1) as usize, le),
    ensures
        selected(whole.subrange(0, pivot + 1) + back, k, le),
{
    broadcast use group_to_multiset_ensures;

    let start = whole.subrange(0, pivot + 1);
    let after = whole.subrange(pivot + 1, whole.len() as int);
    let joined = start + back;
    lemma_same_elements_same_len(after, back);
    assert forall|i: int, j: int| 0 <= i <= k && k <= j < joined.len() implies #[trigger] le(
        joined[i],
        joined[j],
    ) by {
        if i > pivot {
            assert(le(back[i - pivot - 1], back[j - pivot - 1]));
        } else {
            let v = back[j - pivot - 1];
            assert(back.contains(v));
            assert(after.to_multiset().count(v) > 0);
            assert(after.contains(v));
            let src = choose|src: int| 0 <= src < after.len() && after[src] == v;
            assert(le(whole[i], whole[pivot + 1 + src]));
        }
    }
}

/// Putting what stands after a position in another order keeps the elements
/// of the whole.
pub proof fn lemma_back_rearranged<T>(whole: Seq<T>, back: Seq<T>, from: usize)
    requires
        from <= whole.len(),
        back.to_multiset() == whole.subrange(from as int, whole.len() as int).to_multiset(),
    ensures
        (whole.subrange(0, from as int) + back).to_multiset() == whole.to_multiset(),
{
    let start = whole.subrange(0, from as int);
    let after = whole.subrange(from as int, whole.len() as int);
    assert(whole =~= start + after);
    lemma_multiset_commutative(start, after);
    lemma_multiset_commutative(start, back);
}

/// A sequence split at `k` over its whole length is `k`-selected.
pub proof fn lemma_split_whole_is_selected<T>(s: Seq<T>, k: usize, le: spec_fn(T, T) -> bool)
    requires
        0 < s.len() <= usize::MAX,
        split_at(s, 0, (s.len() - 1) as usize, k, le),
    ensures
        selected(s, k, le),
{
}

} // verus!
