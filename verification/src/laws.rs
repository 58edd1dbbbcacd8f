//! What holds of every selection and of every approximate median, stated
//! over the relations and counts that the functions' contracts use.

use vstd::prelude::*;
use vstd::relations::{antisymmetric, sorted_by, total_ordering, transitive};
use vstd::seq_lib::group_to_multiset_ensures;
use crate::mom::{
    group,
    group_count,
    group_medians,
    guaranteed_above,
    guaranteed_below,
    has_guaranteed_shares,
    is_median,
    is_median_of_medians,
    short_above,
    short_below,
};
use crate::permutation::lemma_same_elements_same_len;
use crate::rank::{
    count_ge,
    count_le,
    lemma_count_at_least,
    lemma_count_at_most,
    lemma_count_concat,
    lemma_count_empty,
    lemma_count_push,
    lemma_count_transitive,
};
use crate::relation::{lemma_total_preorder_is_preorder, selected, total_preorder};

verus! {

/// `v` is a `k`-th smallest of the elements of `s`: it ties with the element
/// at `k` of every sorted arrangement of them.
pub open spec fn kth_smallest<T>(s: Seq<T>, v: T, k: usize, le: spec_fn(T, T) -> bool) -> bool {
    forall|sorted: Seq<T>|
        sorted_by(sorted, le) && #[trigger] sorted.to_multiset() == s.to_multiset() ==> le(
            v,
            sorted[k as int],
        ) && le(sorted[k as int], v)
}

/// `m` lies between the thirtieth and the seventieth percentile of the
/// elements of `s`: in every sorted arrangement of them it is not less than
/// the element at `percentile_30` and not greater than that at
/// `percentile_70`.
pub open spec fn within_percentiles<T>(s: Seq<T>, m: T, le: spec_fn(T, T) -> bool) -> bool {
    forall|sorted: Seq<T>|
        sorted_by(sorted, le) && #[trigger] sorted.to_multiset() == s.to_multiset() ==> le(
            sorted[percentile_30(s.len())],
            m,
        ) && le(m, sorted[percentile_70(s.len())])
}

/// A sorted sequence is selected at each of its positions.
pub proof fn lemma_sorted_is_selected<T>(s: Seq<T>, k: usize, le: spec_fn(T, T) -> bool)
    requires
        total_preorder(le),
        sorted_by(s, le),
    ensures
        selected(s, k, le),
{
    lemma_total_preorder_is_preorder(le);
    assert forall|i: int, j: int| 0 <= i <= k && k <= j < s.len() implies #[trigger] le(
        s[i],
        s[j],
    ) by {
        if i == j {
            assert(le(s[i], s[i]));
        }
    }
}

/// Selecting again changes nothing at `k`: two arrangements of the same
/// elements that are both selected at `k` hold elements at `k` that tie, and
/// so the same element where only equal elements tie.
pub proof fn lemma_selected_again<T>(s1: Seq<T>, s2: Seq<T>, k: usize, le: spec_fn(T, T) -> bool)
    requires
        total_preorder(le),
        k < s1.len(),
        s1.to_multiset() == s2.to_multiset(),
        selected(s1, k, le),
        selected(s2, k, le),
    ensures
        le(s1[k as int], s2[k as int]),
        le(s2[k as int], s1[k as int]),
        antisymmetric(le) ==> s1[k as int] == s2[k as int],
{
    broadcast use group_to_multiset_ensures;

    lemma_same_elements_same_len(s1, s2);
    lemma_tie_one_way(s1, s2, k, le);
    lemma_tie_one_way(s2, s1, k, le);
}

/// One half of `lemma_selected_again`: were the element at `k` of `s2`
/// greater than that of `s1`, more elements of `s1` than of `s2` would be not
/// greater than the latter.
proof fn lemma_tie_one_way<T>(s1: Seq<T>, s2: Seq<T>, k: usize, le: spec_fn(T, T) -> bool)
    requires
        total_preorder(le),
        k < s1.len() == s2.len(),
        s1.to_multiset() == s2.to_multiset(),
        selected(s1, k, le),
        selected(s2, k, le),
    ensures
        le(s2[k as int], s1[k as int]),
{
    let v = s1[k as int];
    let w = s2[k as int];
    if !le(w, v) {
        let below = |x: T| le(x, v);
        assert forall|i: int| 0 <= i < k + 1 implies below(#[trigger] s1[i]) by {
            assert(le(s1[i], s1[k as int]));
        }
        lemma_count_at_least(s1, below, 0, k + 1);
        assert forall|j: int| k <= j < s2.len() implies !below(#[trigger] s2[j]) by {
            assert(le(s2[k as int], s2[j]));
            if le(s2[j], v) {
                assert(le(w, s2[j]) && le(s2[j], v));
            }
        }
        lemma_count_at_most(s2, below, k as int, s2.len() as int);
    }
}

/// Selection is correct: where `after` holds the elements of `before` and is
/// selected at `k`, its element at `k` ties with the element at `k` of any
/// sorted arrangement of `before`.
pub proof fn lemma_selected_is_kth_smallest<T>(
    before: Seq<T>,
    after: Seq<T>,
    sorted: Seq<T>,
    k: usize,
    le: spec_fn(T, T) -> bool,
)
    requires
        total_preorder(le),
        k < before.len(),
        after.to_multiset() == before.to_multiset(),
        selected(after, k, le),
        sorted.to_multiset() == before.to_multiset(),
        sorted_by(sorted, le),
    ensures
        le(after[k as int], sorted[k as int]),
        le(sorted[k as int], after[k as int]),
{
    broadcast use group_to_multiset_ensures;

    lemma_same_elements_same_len(before, after);
    lemma_sorted_is_selected(sorted, k, le);
    lemma_selected_again(after, sorted, k, le);
}

/// Selection is correct, for every sorted arrangement at once.
pub proof fn lemma_selected_kth_smallest<T>(
    before: Seq<T>,
    after: Seq<T>,
    k: usize,
    le: spec_fn(T, T) -> bool,
)
    requires
        total_preorder(le),
        k < before.len(),
        after.to_multiset() == before.to_multiset(),
        selected(after, k, le),
    ensures
        kth_smallest(before, after[k as int], k, le),
{
    assert forall|sorted: Seq<T>|
        sorted_by(sorted, le) && #[trigger] sorted.to_multiset() == before.to_multiset() implies le(
        after[k as int],
        sorted[k as int],
    ) && le(sorted[k as int], after[k as int]) by {
        lemma_selected_is_kth_smallest(before, after, sorted, k, le);
    }
}

/// Under a total order, where ties are equalities, the element at `k` after
/// selection is the element at `k` of the sorted sequence.
pub proof fn lemma_selected_equals_sorted<T>(
    before: Seq<T>,
    after: Seq<T>,
    k: usize,
    le: spec_fn(T, T) -> bool,
)
    requires
        total_ordering(le),
        k < before.len(),
        after.to_multiset() == before.to_multiset(),
        selected(after, k, le),
    ensures
        after[k as int] == before.sort_by(le)[k as int],
{
    before.lemma_sort_by_ensures(le);
    lemma_selected_is_kth_smallest(before, after, before.sort_by(le), k, le);
}

/// Selecting at the first position yields a minimum, at the last position a
/// maximum, of the elements that were there.
pub proof fn lemma_selected_at_ends<T>(before: Seq<T>, after: Seq<T>, le: spec_fn(T, T) -> bool)
    requires
        0 < before.len() <= usize::MAX,
        after.to_multiset() == before.to_multiset(),
    ensures
        selected(after, 0, le) ==> forall|i: int|
            0 <= i < before.len() ==> le(after[0], #[trigger] before[i]),
        selected(after, (before.len() - 1) as usize, le) ==> forall|i: int|
            0 <= i < before.len() ==> le(#[trigger] before[i], after[before.len() - 1]),
{
    broadcast use group_to_multiset_ensures;

    lemma_same_elements_same_len(before, after);
    assert forall|i: int| 0 <= i < before.len() implies exists|j: int|
        0 <= j < after.len() && after[j] == #[trigger] before[i] by {
        assert(before.contains(before[i]));
        assert(after.to_multiset().count(before[i]) > 0);
        assert(after.contains(before[i]));
    }
    if selected(after, 0, le) {
        assert forall|i: int| 0 <= i < before.len() implies le(after[0], #[trigger] before[i]) by {
            let j = choose|j: int| 0 <= j < after.len() && after[j] == before[i];
            assert(le(after[0], after[j]));
        }
    }
    if selected(after, (before.len() - 1) as usize, le) {
        assert forall|i: int| 0 <= i < before.len() implies le(
            #[trigger] before[i],
            after[before.len() - 1],
        ) by {
            let j = choose|j: int| 0 <= j < after.len() && after[j] == before[i];
            assert(le(after[j], after[before.len() - 1]));
        }
    }
}

/// A sequence of one element is left as it is by any rearrangement.
pub proof fn lemma_single_element<T>(before: Seq<T>, after: Seq<T>)
    requires
        before.len() == 1,
        after.to_multiset() == before.to_multiset(),
    ensures
        after =~= before,
{
    broadcast use group_to_multiset_ensures;

    lemma_same_elements_same_len(before, after);
    assert(after.contains(after[0]));
    assert(before.to_multiset().count(after[0]) > 0);
    assert(before.contains(after[0]));
}

/// A value with at least `c` elements not greater than it is not less than
/// the `c`-th element in sorted order; one with at least `c` elements not
/// less than it is not greater than the `c`-th from the end.
pub proof fn lemma_rank_from_counts<T>(
    s: Seq<T>,
    sorted: Seq<T>,
    m: T,
    c: int,
    le: spec_fn(T, T) -> bool,
)
    requires
        total_preorder(le),
        1 <= c <= s.len(),
        sorted.to_multiset() == s.to_multiset(),
        sorted_by(sorted, le),
    ensures
        count_le(s, m, le) >= c ==> le(sorted[c - 1], m),
        count_ge(s, m, le) >= c ==> le(m, sorted[s.len() - c]),
{
    broadcast use group_to_multiset_ensures;

    lemma_total_preorder_is_preorder(le);
    let n = s.len() as int;
    lemma_same_elements_same_len(s, sorted);
    if count_le(s, m, le) >= c && !le(sorted[c - 1], m) {
        let below = |x: T| le(x, m);
        assert forall|j: int| c - 1 <= j < n implies !below(#[trigger] sorted[j]) by {
            if c - 1 < j {
                assert(le(sorted[c - 1], sorted[j]));
            }
            if le(sorted[j], m) {
                assert(le(sorted[c - 1], sorted[j]) && le(sorted[j], m));
            }
        }
        lemma_count_at_most(sorted, below, c - 1, n);
    }
    if count_ge(s, m, le) >= c && !le(m, sorted[n - c]) {
        let above = |x: T| le(m, x);
        assert forall|j: int| 0 <= j < n - c + 1 implies !above(#[trigger] sorted[j]) by {
            if j < n - c {
                assert(le(sorted[j], sorted[n - c]));
            }
            if le(m, sorted[j]) {
                assert(le(m, sorted[j]) && le(sorted[j], sorted[n - c]));
            }
        }
        lemma_count_at_most(sorted, above, 0, n - c + 1);
    }
}

/// After `done` groups: for any value, the elements of those groups that
/// are not greater than it are three times as many as the groups' medians
/// that are not greater than it, but for what a short last group lacks;
/// likewise for not less.
pub open spec fn groups_dominate<T>(
    s: Seq<T>,
    medians: Seq<T>,
    done: int,
    le: spec_fn(T, T) -> bool,
) -> bool {
    let n = s.len();
    let covered = if 5 * done < n { 5 * done } else { n as int };
    let below = if 5 * done > n { short_below(n) } else { 0 };
    let above = if 5 * done > n { short_above(n) } else { 0 };
    forall|v: T|
        #![trigger count_le(medians.subrange(0, done), v, le)]
        #![trigger count_ge(medians.subrange(0, done), v, le)]
        count_le(s.subrange(0, covered), v, le) + below >= 3 * count_le(
            medians.subrange(0, done),
            v,
            le,
        ) && count_ge(s.subrange(0, covered), v, le) + above >= 3 * count_ge(
            medians.subrange(0, done),
            v,
            le,
        )
}

/// Each group adds to either side of a value three elements for its median,
/// or what a short group has, where the median is on that side: those not
/// greater than the median are not greater than whatever it is not greater
/// than.
pub proof fn lemma_groups_dominate<T>(
    s: Seq<T>,
    medians: Seq<T>,
    done: int,
    le: spec_fn(T, T) -> bool,
)
    requires
        transitive(le),
        group_medians(s, medians, le),
        0 <= done <= medians.len(),
    ensures
        groups_dominate(s, medians, done, le),
    decreases done,
{
    let n = s.len();
    if done == 0 {
        assert forall|v: T|
            #![trigger count_le(medians.subrange(0, 0), v, le)]
            #![trigger count_ge(medians.subrange(0, 0), v, le)]
            count_le(medians.subrange(0, 0), v, le) == 0 && count_ge(
                medians.subrange(0, 0),
                v,
                le,
            ) == 0 by {
            assert(medians.subrange(0, 0) =~= Seq::<T>::empty());
            lemma_count_empty(|x: T| le(x, v));
            lemma_count_empty(|x: T| le(v, x));
        }
    } else {
        let i = done - 1;
        lemma_groups_dominate(s, medians, i, le);
        let part = group(s, i);
        let m = medians[i];
        let start = 5 * i;
        let end = if start + 5 <= n { start + 5 } else { n as int };
        assert(start < n);
        assert(is_median(part, m, le));
        assert(s.subrange(0, end) =~= s.subrange(0, start) + part);
        assert(medians.subrange(0, done) =~= medians.subrange(0, i).push(m));
        assert forall|v: T|
            #![trigger count_le(medians.subrange(0, done), v, le)]
            #![trigger count_ge(medians.subrange(0, done), v, le)]
            count_le(s.subrange(0, end), v, le) + (if 5 * done > n { short_below(n) } else { 0 }) >= 3
                * count_le(medians.subrange(0, done), v, le) && count_ge(s.subrange(0, end), v, le)
                + (if 5 * done > n { short_above(n) } else { 0 }) >= 3 * count_ge(
                medians.subrange(0, done),
                v,
                le,
            ) by {
            lemma_count_push(medians.subrange(0, i), m, |x: T| le(x, v));
            lemma_count_push(medians.subrange(0, i), m, |x: T| le(v, x));
            lemma_count_concat(s.subrange(0, start), part, |x: T| le(x, v));
            lemma_count_concat(s.subrange(0, start), part, |x: T| le(v, x));
            lemma_count_transitive(part, m, v, le);
            assert(count_le(s.subrange(0, start), v, le) >= 3 * count_le(
                medians.subrange(0, i),
                v,
                le,
            ));
            assert(count_ge(s.subrange(0, start), v, le) >= 3 * count_ge(
                medians.subrange(0, i),
                v,
                le,
            ));
        }
    }
}

/// A median of medians has its guaranteed share of the elements on either
/// side.
pub proof fn lemma_median_of_medians_shares<T>(s: Seq<T>, m: T, le: spec_fn(T, T) -> bool)
    requires
        transitive(le),
        is_median_of_medians(s, m, le),
    ensures
        has_guaranteed_shares(s, m, le),
{
    let n = s.len();
    if n >= 5 {
        let medians = choose|medians: Seq<T>| #[trigger]
            group_medians(s, medians, le) && is_median(medians, m, le);
        let groups = medians.len() as int;
        lemma_groups_dominate(s, medians, groups, le);
        assert(medians.subrange(0, groups) =~= medians);
        assert(s.subrange(0, n as int) =~= s);
        assert(count_le(s, m, le) + short_below(n) >= 3 * count_le(
            medians.subrange(0, groups),
            m,
            le,
        ));
        assert(count_ge(s, m, le) + short_above(n) >= 3 * count_ge(
            medians.subrange(0, groups),
            m,
            le,
        ));
    }
}

/// The position in sorted order of the thirtieth percentile of `n`
/// elements: three tenths of the way from the first to the last, rounded
/// down.
pub open spec fn percentile_30(n: nat) -> int {
    3 * (n - 1) / 10
}

/// The position in sorted order of the seventieth percentile of `n`
/// elements: seven tenths of the way from the first to the last, rounded up.
pub open spec fn percentile_70(n: nat) -> int {
    (7 * (n - 1) + 9) / 10
}

/// The approximate median lies between the thirtieth and the seventieth
/// percentile: a value with `guaranteed_below(n)` of the `n` elements not
/// greater than it and `guaranteed_above(n)` not less is not less than the
/// element at `percentile_30(n)` of the sorted sequence, and not greater than
/// the element at `percentile_70(n)`. This is for lengths whose last digit is
/// 0 to 5. For the others the upper bound can fail: of 0, 1, 2, 3, 4, 5 in
/// this order the approximate median is 5, above the seventieth percentile 4.
pub proof fn lemma_percentile_bounds<T>(s: Seq<T>, sorted: Seq<T>, m: T, le: spec_fn(T, T) -> bool)
    requires
        total_preorder(le),
        s.len() > 0,
        s.len() % 10 < 6,
        count_le(s, m, le) >= guaranteed_below(s.len()),
        count_ge(s, m, le) >= guaranteed_above(s.len()),
        sorted.to_multiset() == s.to_multiset(),
        sorted_by(sorted, le),
    ensures
        0 <= percentile_30(s.len()) <= percentile_70(s.len()) < s.len(),
        le(sorted[percentile_30(s.len())], m),
        le(m, sorted[percentile_70(s.len())]),
{
    broadcast use group_to_multiset_ensures;

    lemma_total_preorder_is_preorder(le);
    lemma_same_elements_same_len(s, sorted);
    let n = s.len();
    let below = guaranteed_below(n) as int;
    let above = guaranteed_above(n) as int;
    lemma_guaranteed_shares(n);
    lemma_rank_from_counts(s, sorted, m, below, le);
    lemma_rank_from_counts(s, sorted, m, above, le);
    let low = percentile_30(n);
    let high = percentile_70(n);
    if low < below - 1 {
        assert(le(sorted[low], sorted[below - 1]));
    }
    assert(le(sorted[low], sorted[below - 1]) && le(sorted[below - 1], m));
    if n - above < high {
        assert(le(sorted[n - above], sorted[high]));
    }
    assert(le(m, sorted[n - above]) && le(sorted[n - above], sorted[high]));
}

/// The approximate median lies between the percentiles, for every sorted
/// arrangement at once.
pub proof fn lemma_within_percentiles<T>(s: Seq<T>, m: T, le: spec_fn(T, T) -> bool)
    requires
        total_preorder(le),
        s.len() > 0,
        s.len() % 10 < 6,
        count_le(s, m, le) >= guaranteed_below(s.len()),
        count_ge(s, m, le) >= guaranteed_above(s.len()),
    ensures
        within_percentiles(s, m, le),
{
    assert forall|sorted: Seq<T>|
        sorted_by(sorted, le) && #[trigger] sorted.to_multiset() == s.to_multiset() implies le(
        sorted[percentile_30(s.len())],
        m,
    ) && le(m, sorted[percentile_70(s.len())]) by {
        lemma_percentile_bounds(s, sorted, m, le);
    }
}

/// The guaranteed shares reach the percentiles for the lengths whose last
/// digit is 0 to 5, and the lower one for every length.
pub proof fn lemma_guaranteed_shares(n: nat)
    requires
        n > 0,
    ensures
        1 <= guaranteed_below(n) <= n,
        1 <= guaranteed_above(n) <= n,
        percentile_30(n) <= guaranteed_below(n) - 1,
        0 <= percentile_30(n) <= percentile_70(n),
        n % 10 < 6 ==> n - guaranteed_above(n) <= percentile_70(n) < n,
{
    if n >= 5 {
        let g = group_count(n);
        let r = n % 5;
        let q = n / 5;
        assert(n == 5 * q + r);
        assert(g == if r == 0 { q } else { q + 1 });
        let h = g / 2;
        assert(g == 2 * h || g == 2 * h + 1);
    }
}

} // verus!
