//! Selection by the algorithm SELECT of Floyd and Rivest: the range that
//! holds position `k` is partitioned around the element at `k` and narrowed
//! until that position is settled.

use core::cmp::Ordering;
use vstd::prelude::*;
use vstd::relations::pre_ordering;
use crate::order::{common_order, consistent, decides, lemma_common_order};
use crate::permutation::{
    lemma_rearranged_outside,
    lemma_rearranged_same,
    lemma_rearranged_twice,
    lemma_rearranged_whole,
    lemma_rearranged_widen,
    lemma_swap_rearranges,
    rearranged,
};
use crate::laws::{kth_smallest, lemma_selected_kth_smallest};
use crate::relation::{
    at,
    fenced_after,
    fenced_before,
    lemma_fences_survive,
    lemma_fences_meet,
    lemma_split_whole_is_selected,
    lemma_total_preorder_is_preorder,
    selected,
    split_at,
    total_preorder,
};

verus! {

/// A range longer than this is first narrowed by selecting within an
/// estimated sub-range.
pub const SAMPLING_THRESHOLD: usize = 600;

/// `estimate` may be asked about any position of any range of more than
/// `SAMPLING_THRESHOLD` elements.
pub open spec fn estimates<S>(estimate: S) -> bool where
    S: FnMut(usize, usize, usize) -> (usize, usize),
 {
    forall|left: usize, right: usize, k: usize|
        left <= k <= right && right - left > SAMPLING_THRESHOLD ==> #[trigger] call_requires(
            estimate,
            (left, right, k),
        )
}

/// Puts the `k`-th smallest element of `array`, in the order that `f`
/// decides, at position `k`, nothing greater before it and nothing less
/// after it. Ranges are never narrowed by an estimate.
pub fn select<T, F>(array: &mut [T], k: usize, f: F) where F: FnMut(&T, &T) -> Ordering
    requires
        k < old(array)@.len(),
        consistent(f),
    ensures
        final(array)@.len() == old(array)@.len(),
        final(array)@.to_multiset() == old(array)@.to_multiset(),
        forall|le: spec_fn(T, T) -> bool|
            pre_ordering(le) && #[trigger] decides(f, le) ==> selected(final(array)@, k, le),
        forall|le: spec_fn(T, T) -> bool|
            total_preorder(le) && #[trigger] decides(f, le) ==> kth_smallest(
                old(array)@,
                at(final(array)@, k),
                k,
                le,
            ),
{
    let whole = |l: usize, r: usize, i: usize| -> (b: (usize, usize)) { (l, r) };
    select_with(array, k, f, whole)
}

/// As `select`, with the sub-sampling step of the algorithm: for a range
/// `left..=right` of more than `SAMPLING_THRESHOLD` elements,
/// `estimate(left, right, k)` proposes a sub-range expected to hold the
/// element sought. The proposal is cut to the range; where what is left holds
/// `k` and is shorter than the range, selection runs there first. What
/// `estimate` answers changes the work done, never the result stated here.
pub fn select_with<T, F, S>(array: &mut [T], k: usize, mut f: F, mut estimate: S) where
    F: FnMut(&T, &T) -> Ordering,
    S: FnMut(usize, usize, usize) -> (usize, usize),

    requires
        k < old(array)@.len(),
        consistent(f),
        estimates(estimate),
    ensures
        final(array)@.len() == old(array)@.len(),
        final(array)@.to_multiset() == old(array)@.to_multiset(),
        forall|le: spec_fn(T, T) -> bool|
            pre_ordering(le) && #[trigger] decides(f, le) ==> selected(final(array)@, k, le),
        forall|le: spec_fn(T, T) -> bool|
            total_preorder(le) && #[trigger] decides(f, le) ==> kth_smallest(
                old(array)@,
                at(final(array)@, k),
                k,
                le,
            ),
{
    let ghost le = common_order(f);
    let ghost g = f;
    proof {
        lemma_common_order(f);
    }
    let r = array.len() - 1;
    select_(array, &mut f, &mut estimate, 0, r, k, Ghost(le));
    proof {
        lemma_rearranged_outside(old(array)@, array@, 0, r);
        lemma_rearranged_whole(old(array)@, array@, 0, r);
        lemma_split_whole_is_selected(array@, k, le);
        assert forall|wide: spec_fn(T, T) -> bool|
            total_preorder(wide) && #[trigger] decides(g, wide) implies kth_smallest(
            old(array)@,
            at(array@, k),
            k,
            wide,
        ) by {
            lemma_total_preorder_is_preorder(wide);
            lemma_selected_kth_smallest(old(array)@, array@, k, wide);
        }
    }
}

/// Selection within `left..=right`: rearranges that range alone, so that
/// nothing in it at or before `k` is greater than anything in it at or
/// after `k`.
pub(crate) fn select_<T, F, S>(
    array: &mut [T],
    cmp: &mut F,
    estimate: &mut S,
    left: usize,
    right: usize,
    k: usize,
    Ghost(le): Ghost<spec_fn(T, T) -> bool>,
) where F: FnMut(&T, &T) -> Ordering, S: FnMut(usize, usize, usize) -> (usize, usize)
    requires
        left <= k <= right < old(array)@.len(),
        pre_ordering(le),
        decides(*old(cmp), le),
        estimates(*old(estimate)),
    ensures
        *final(cmp) == *old(cmp),
        *final(estimate) == *old(estimate),
        rearranged(old(array)@, final(array)@, left, right),
        split_at(final(array)@, left, right, k, le),
    decreases right - left,
{
    let mut lo = left;
    let mut hi = right;
    proof {
        lemma_rearranged_same(array@, left, right);
    }
    while hi > lo
        invariant
            left <= lo,
            hi <= right < array@.len(),
            left <= k <= right,
            array@.len() == old(array)@.len(),
            *cmp == *old(cmp),
            *estimate == *old(estimate),
            pre_ordering(le),
            decides(*cmp, le),
            estimates(*estimate),
            rearranged(old(array)@, array@, left, right),
            (hi < lo && split_at(array@, left, right, k, le)) || (lo <= k <= hi && fenced_before(
                array@,
                left,
                lo,
                right,
                le,
            ) && fenced_after(array@, left, hi, right, le)),
        decreases (if hi > lo { hi - lo } else { 0 }),
    {
        let ghost entry = array@;
        proof {
            lemma_rearranged_same(entry, lo, hi);
        }
        // A long range is narrowed first: select within the sub-range that
        // the estimate expects to hold the element. The partition below runs
        // whatever came of it.
        if hi - lo > SAMPLING_THRESHOLD {
            let (a, b) = estimate(lo, hi, k);
            let new_lo = if a > lo { a } else { lo };
            let new_hi = if b < hi { b } else { hi };
            if new_lo <= k && k <= new_hi && new_hi - new_lo < hi - lo {
                select_(array, cmp, estimate, new_lo, new_hi, k, Ghost(le));
                proof {
                    lemma_rearranged_outside(entry, array@, new_lo, new_hi);
                    lemma_rearranged_widen(entry, array@, new_lo, new_hi, lo, hi);
                }
            }
        }
        let ghost s0 = array@;

        // The element at `k` is the pivot. It goes to the front, and then to
        // whichever end leaves the smaller of the two end elements in front:
        // both ends then stop the scans below.
        let mut i = lo + 1;
        let mut j = hi - 1;
        array.swap(lo, k);
        proof {
            lemma_swap_rearranges(s0, lo, k, lo, hi);
            lemma_rearranged_twice(entry, s0, array@, lo, hi);
        }
        let ghost s1 = array@;
        let t_idx = match cmp(&array[lo], &array[hi]) {
            Ordering::Less => lo,
            _ => {
                array.swap(lo, hi);
                proof {
                    lemma_swap_rearranges(s1, lo, hi, lo, hi);
                    lemma_rearranged_twice(entry, s1, array@, lo, hi);
                }
                hi
            },
        };
        let ghost pv = at(array@, t_idx);
        let ghost s2 = array@;
        assert(le(at(s2, lo), pv) && le(pv, at(s2, hi)));

        // The pivot is read where it lies for each comparison: neither scan
        // nor exchange touches either end of the range.

        while matches!(cmp(&array[i], &array[t_idx]), Ordering::Less)
            invariant
                lo < i <= hi < array@.len(),
                t_idx == lo || t_idx == hi,
                array@ == s2,
                at(s2, t_idx) == pv,
                le(pv, at(s2, hi)),
                forall|p: int| lo < p < i ==> le(s2[p], pv),
                *cmp == *old(cmp),
                decides(*cmp, le),
            decreases hi - i,
        {
            i += 1;
        }
        while matches!(cmp(&array[j], &array[t_idx]), Ordering::Greater)
            invariant
                lo <= j < hi < array@.len(),
                t_idx == lo || t_idx == hi,
                array@ == s2,
                at(s2, t_idx) == pv,
                le(at(s2, lo), pv),
                forall|p: int| j < p < hi ==> le(pv, s2[p]),
                *cmp == *old(cmp),
                decides(*cmp, le),
            decreases j,
        {
            j -= 1;
        }

        if i < j {
            while i < j
                invariant
                    lo < i <= hi < array@.len(),
                    lo <= j < hi,
                    array@.len() == entry.len(),
                    t_idx == lo || t_idx == hi,
                    at(array@, t_idx) == pv,
                    le(at(array@, lo), pv),
                    le(pv, at(array@, hi)),
                    forall|p: int| lo <= p < i ==> le(array@[p], pv),
                    forall|p: int| j < p <= hi ==> le(pv, array@[p]),
                    le(pv, at(array@, i)),
                    le(at(array@, j), pv),
                    rearranged(entry, array@, lo, hi),
                    *cmp == *old(cmp),
                    decides(*cmp, le),
                decreases (if j > i { j - i } else { 0 }),
            {
                let ghost s3 = array@;
                array.swap(i, j);
                proof {
                    lemma_swap_rearranges(s3, i, j, lo, hi);
                    lemma_rearranged_twice(entry, s3, array@, lo, hi);
                }
                i += 1;
                j -= 1;
                let ghost s4 = array@;
                let ghost (i0, j0) = (i, j);
                while matches!(cmp(&array[i], &array[t_idx]), Ordering::Less)
                    invariant
                        i0 <= i,
                        lo < i <= hi < array@.len(),
                        t_idx == lo || t_idx == hi,
                        array@ == s4,
                        at(s4, t_idx) == pv,
                        le(pv, at(s4, hi)),
                        forall|p: int| lo <= p < i ==> le(s4[p], pv),
                        *cmp == *old(cmp),
                        decides(*cmp, le),
                    decreases hi - i,
                {
                    i += 1;
                }
                while matches!(cmp(&array[j], &array[t_idx]), Ordering::Greater)
                    invariant
                        j <= j0,
                        lo <= j < hi < array@.len(),
                        t_idx == lo || t_idx == hi,
                        array@ == s4,
                        at(s4, t_idx) == pv,
                        le(at(s4, lo), pv),
                        forall|p: int| j < p <= hi ==> le(pv, s4[p]),
                        *cmp == *old(cmp),
                        decides(*cmp, le),
                    decreases j,
                {
                    j -= 1;
                }
            }
        }
        let ghost s5 = array@;
        assert(forall|p: int| lo <= p <= j ==> le(s5[p], pv));
        assert(forall|p: int| j < p <= hi ==> le(pv, s5[p]));

        // The pivot moves from its end to the boundary between the two
        // sides, and the range shrinks to the side that holds `k`.

        if lo == t_idx {
            array.swap(lo, j);
            proof {
                lemma_swap_rearranges(s5, lo, j, lo, hi);
            }
        } else {
            j += 1;
            array.swap(hi, j);
            proof {
                lemma_swap_rearranges(s5, hi, j, lo, hi);
            }
        }
        proof {
            lemma_rearranged_twice(entry, s5, array@, lo, hi);
            lemma_fences_survive(entry, array@, left, lo, hi, right, le);
            lemma_rearranged_widen(entry, array@, lo, hi, left, right);
            lemma_rearranged_twice(old(array)@, entry, array@, left, right);
            assert(at(array@, j) == pv);
            assert(forall|p: int| lo <= p <= j ==> le(array@[p], pv));
            assert(forall|p: int| j <= p <= hi ==> le(pv, array@[p]));
            lemma_fences_meet(array@, left, lo, j, hi, right, le);
        }
        if j <= k {
            lo = j + 1;
        }
        if k <= j {
            hi = j.saturating_sub(1);
        }
    }
    proof {
        if !(hi < lo) {
            assert forall|p: int, q: int| left <= p <= k && k <= q <= right implies #[trigger] le(
                array@[p],
                array@[q],
            ) by {
                if p == k && q == k {
                    assert(le(array@[p], array@[p]));
                }
            }
        }
    }
}

} // verus!
