//! An approximate median: the median of the medians of groups of five.

use core::cmp::Ordering;
use vstd::prelude::*;
use vstd::relations::pre_ordering;
use vstd::seq_lib::group_to_multiset_ensures;
use crate::floyd_rivest::{estimates, select_};
use crate::laws::{lemma_median_of_medians_shares, lemma_within_percentiles, within_percentiles};
use crate::order::{
    common_order,
    consistent,
    decides,
    lemma_common_order,
    lemma_ord_le_total,
    ord_is_total,
    ord_le,
};
use crate::permutation::{
    lemma_rearranged_outside,
    lemma_rearranged_whole,
    lemma_same_elements_same_len,
    lemma_swap_rearranges,
    rearranged,
    swapped,
    with_at,
};
use crate::rank::{
    count_ge,
    count_le,
    lemma_count_wider_order,
    lemma_middle_of_five,
    lemma_split_counts,
};
use crate::relation::{at, lemma_total_preorder_is_preorder, split_at, total_preorder};

verus! {

/// In how many groups of five `n` elements fall, the last of them short
/// where five does not divide `n`.
pub open spec fn group_count(n: nat) -> nat {
    (n + 4) / 5
}

/// The `i`-th group of five of `s`: five elements from position `5 * i` on,
/// or as many as are left.
pub open spec fn group<T>(s: Seq<T>, i: int) -> Seq<T> {
    s.subrange(
        5 * i,
        if 5 * i + 5 <= s.len() {
            5 * i + 5
        } else {
            s.len() as int
        },
    )
}

/// `v` is a median of `s`: one of its elements, with more than half of them
/// not greater than it and at least half of them not less. Of an even
/// number it is the upper of the two in the middle.
pub open spec fn is_median<T>(s: Seq<T>, v: T, le: spec_fn(T, T) -> bool) -> bool {
    &&& s.contains(v)
    &&& count_le(s, v, le) >= s.len() / 2 + 1
    &&& count_ge(s, v, le) >= s.len() - s.len() / 2
}

/// `m` is a median of medians of `s`: a median of `s` itself where `s` has
/// fewer than five elements, else a median of a sequence that holds a median
/// of each group of five of `s`.
pub open spec fn is_median_of_medians<T>(s: Seq<T>, m: T, le: spec_fn(T, T) -> bool) -> bool {
    if s.len() < 5 {
        is_median(s, m, le)
    } else {
        exists|medians: Seq<T>| #[trigger] group_medians(s, medians, le) && is_median(medians, m, le)
    }
}

/// `medians` holds a median of each group of five of `s`, in the order of
/// the groups.
pub open spec fn group_medians<T>(s: Seq<T>, medians: Seq<T>, le: spec_fn(T, T) -> bool) -> bool {
    &&& medians.len() == group_count(s.len())
    &&& forall|i: int| 0 <= i < medians.len() ==> is_median(group(s, i), #[trigger] medians[i], le)
}

/// By how many the median of the last group falls short of having three
/// elements of its group not greater than it, itself counted: none where
/// the group is full, and of `r < 5` elements all but `r / 2 + 1`.
pub open spec fn short_below(n: nat) -> nat {
    if n % 5 == 0 {
        0
    } else {
        (2 - (n % 5) / 2) as nat
    }
}

/// By how many the median of the last group falls short of having three
/// elements of its group not less than it, itself counted: none where the
/// group is full, and of `r < 5` elements all but `r - r / 2`.
pub open spec fn short_above(n: nat) -> nat {
    if n % 5 == 0 {
        0
    } else {
        (3 - (n % 5 - (n % 5) / 2)) as nat
    }
}

/// How many of `n` elements are certain to be not greater than a median of
/// medians: the median's share of fewer than five, else three for each of
/// the `group_count(n) / 2 + 1` medians not greater than it, less what the
/// last group falls short.
pub open spec fn guaranteed_below(n: nat) -> nat {
    if n < 5 {
        n / 2 + 1
    } else {
        (3 * (group_count(n) / 2 + 1) - short_below(n)) as nat
    }
}

/// How many of `n` elements are certain to be not less than a median of
/// medians.
pub open spec fn guaranteed_above(n: nat) -> nat {
    if n < 5 {
        (n - n / 2) as nat
    } else {
        (3 * (group_count(n) - group_count(n) / 2) - short_above(n)) as nat
    }
}

/// `m` has its guaranteed share of the elements of `s` on either side.
pub open spec fn has_guaranteed_shares<T>(s: Seq<T>, m: T, le: spec_fn(T, T) -> bool) -> bool {
    count_le(s, m, le) >= guaranteed_below(s.len()) && count_ge(s, m, le) >= guaranteed_above(
        s.len(),
    )
}

/// Among how many elements at the front the approximate median of `n`
/// elements is selected: all of fewer than five, else the medians.
pub open spec fn front_len(n: nat) -> nat {
    if n < 5 {
        n
    } else {
        group_count(n)
    }
}

/// Where the approximate median of `n` elements is left: at the middle of
/// the elements among which it is selected.
pub open spec fn middle_position(n: nat) -> nat {
    front_len(n) / 2
}

/// The first `count` elements of `s` are selected at `k`.
pub open spec fn front_selected<T>(
    s: Seq<T>,
    count: nat,
    k: usize,
    le: spec_fn(T, T) -> bool,
) -> bool {
    forall|i: int, j: int| 0 <= i <= k && k <= j < count ==> #[trigger] le(s[i], s[j])
}

/// The first `done` groups of `before` are dealt with in `now`: a median of
/// each stands in front, in the order of the groups, and what lies behind
/// those groups is as it was.
pub open spec fn groups_done<T>(
    before: Seq<T>,
    now: Seq<T>,
    medians: Seq<T>,
    done: usize,
    le: spec_fn(T, T) -> bool,
) -> bool {
    &&& now.len() == before.len()
    &&& medians.len() == done
    &&& forall|j: int| 0 <= j < done ==> now[j] == #[trigger] medians[j]
    &&& forall|j: int| 0 <= j < done ==> is_median(group(before, j), #[trigger] medians[j], le)
    &&& forall|p: int| 5 * done <= p < now.len() ==> #[trigger] now[p] == before[p]
}

/// A median relative to one relation is a median relative to every relation
/// that holds wherever that one does.
pub proof fn lemma_median_wider_order<T>(
    s: Seq<T>,
    v: T,
    narrow: spec_fn(T, T) -> bool,
    wide: spec_fn(T, T) -> bool,
)
    requires
        is_median(s, v, narrow),
        forall|a: T, b: T| #[trigger] narrow(a, b) ==> wide(a, b),
    ensures
        is_median(s, v, wide),
{
    lemma_count_wider_order(s, v, narrow, wide);
}

/// A median of medians relative to one relation is one relative to every
/// relation that holds wherever that one does.
pub proof fn lemma_median_of_medians_wider_order<T>(
    s: Seq<T>,
    m: T,
    narrow: spec_fn(T, T) -> bool,
    wide: spec_fn(T, T) -> bool,
)
    requires
        is_median_of_medians(s, m, narrow),
        forall|a: T, b: T| #[trigger] narrow(a, b) ==> wide(a, b),
    ensures
        is_median_of_medians(s, m, wide),
{
    if s.len() < 5 {
        lemma_median_wider_order(s, m, narrow, wide);
    } else {
        let medians = choose|medians: Seq<T>| #[trigger]
            group_medians(s, medians, narrow) && is_median(medians, m, narrow);
        assert forall|i: int| 0 <= i < medians.len() implies is_median(
            group(s, i),
            #[trigger] medians[i],
            wide,
        ) by {
            lemma_median_wider_order(group(s, i), medians[i], narrow, wide);
        }
        lemma_median_wider_order(medians, m, narrow, wide);
        assert(group_medians(s, medians, wide));
    }
}

/// The element at the middle of a range that is split there is a median of
/// any sequence that holds the elements of the range.
pub proof fn lemma_split_median<T>(
    s: Seq<T>,
    lo: usize,
    hi: usize,
    elements: Seq<T>,
    le: spec_fn(T, T) -> bool,
)
    requires
        lo <= hi < s.len(),
        split_at(s, lo, hi, (lo + (hi - lo + 1) / 2) as usize, le),
        elements.to_multiset() == s.subrange(lo as int, hi + 1).to_multiset(),
    ensures
        is_median(elements, s[lo + (hi - lo + 1) / 2], le),
{
    broadcast use group_to_multiset_ensures;

    let part = s.subrange(lo as int, hi + 1);
    let middle = (lo + (hi - lo + 1) / 2) as usize;
    lemma_same_elements_same_len(part, elements);
    lemma_split_counts(s, lo, hi, middle, le);
    assert(part[middle - lo] == s[middle as int]);
    assert(part.contains(s[middle as int]));
    assert(elements.to_multiset().count(s[middle as int]) > 0);
}

/// A full group is dealt with: the median found in it at `idx` is a median
/// of the group as it was at first, for nothing had touched the group.
pub proof fn lemma_full_group_median<T>(
    before: Seq<T>,
    now: Seq<T>,
    medians: Seq<T>,
    done: usize,
    idx: usize,
    le: spec_fn(T, T) -> bool,
)
    requires
        groups_done(before, now, medians, done, le),
        5 * done + 5 <= now.len(),
        5 * done <= idx < 5 * done + 5,
        is_median(now.subrange(5 * done, 5 * done + 5), now[idx as int], le),
    ensures
        is_median(group(before, done as int), now[idx as int], le),
{
    assert(group(before, done as int) =~= now.subrange(5 * done, 5 * done + 5));
}

/// A short last group is dealt with: once selection has put its middle
/// element in place, that element is a median of the group as it was at
/// first, and the groups before it are as they were.
pub proof fn lemma_short_group_median<T>(
    before: Seq<T>,
    now: Seq<T>,
    then: Seq<T>,
    medians: Seq<T>,
    done: usize,
    le: spec_fn(T, T) -> bool,
)
    requires
        groups_done(before, now, medians, done, le),
        5 * done < now.len() < 5 * done + 5,
        now.len() <= usize::MAX,
        rearranged(now, then, (5 * done) as usize, (now.len() - 1) as usize),
        split_at(
            then,
            (5 * done) as usize,
            (now.len() - 1) as usize,
            (5 * done + (now.len() - 5 * done) / 2) as usize,
            le,
        ),
    ensures
        then.len() == now.len(),
        forall|j: int| 0 <= j < done ==> then[j] == #[trigger] medians[j],
        is_median(group(before, done as int), then[5 * done + (now.len() - 5 * done) / 2], le),
{
    let start = (5 * done) as usize;
    let last = (now.len() - 1) as usize;
    lemma_rearranged_outside(now, then, start, last);
    assert(group(before, done as int) =~= now.subrange(start as int, last + 1));
    assert(then.subrange(start as int, last + 1).to_multiset() == now.subrange(
        start as int,
        last + 1,
    ).to_multiset()) by {
        reveal(rearranged);
    }
    lemma_split_median(then, start, last, group(before, done as int), le);
}

/// The median found at `idx` for the next group moves to the front, and the
/// group is dealt with.
pub proof fn lemma_group_done<T>(
    before: Seq<T>,
    found: Seq<T>,
    medians: Seq<T>,
    done: usize,
    idx: usize,
    le: spec_fn(T, T) -> bool,
)
    requires
        found.len() == before.len(),
        medians.len() == done,
        forall|j: int| 0 <= j < done ==> found[j] == #[trigger] medians[j],
        forall|j: int| 0 <= j < done ==> is_median(group(before, j), #[trigger] medians[j], le),
        forall|p: int| 5 * done + 5 <= p < found.len() ==> #[trigger] found[p] == before[p],
        5 * done <= idx < found.len(),
        idx < 5 * done + 5,
        is_median(group(before, done as int), found[idx as int], le),
    ensures
        groups_done(
            before,
            swapped(found, done, idx),
            medians.push(found[idx as int]),
            (done + 1) as usize,
            le,
        ),
{
    let now = swapped(found, done, idx);
    let more = medians.push(found[idx as int]);
    assert forall|j: int| 0 <= j < done + 1 implies is_median(
        group(before, j),
        #[trigger] more[j],
        le,
    ) by {
        if j < done {
            assert(more[j] == medians[j]);
        }
    }
    assert forall|j: int| 0 <= j < done + 1 implies now[j] == #[trigger] more[j] by {
        if j < done {
            assert(more[j] == medians[j]);
        }
    }
}

/// Once every group is dealt with and selection has put the middle one of
/// the medians in place, the element there is a median of the medians.
pub proof fn lemma_middle_of_medians<T>(
    before: Seq<T>,
    now: Seq<T>,
    then: Seq<T>,
    medians: Seq<T>,
    groups: usize,
    le: spec_fn(T, T) -> bool,
)
    requires
        5 <= before.len(),
        groups == group_count(before.len()),
        groups_done(before, now, medians, groups, le),
        rearranged(now, then, 0, (groups - 1) as usize),
        split_at(then, 0, (groups - 1) as usize, groups / 2, le),
    ensures
        is_median_of_medians(before, then[groups as int / 2], le),
{
    let last = (groups - 1) as usize;
    lemma_rearranged_outside(now, then, 0, last);
    assert(now.subrange(0, last + 1) =~= medians);
    assert(then.subrange(0, last + 1).to_multiset() == now.subrange(0, last + 1).to_multiset()) by {
        reveal(rearranged);
    }
    lemma_split_median(then, 0, last, medians, le);
    assert(group_medians(before, medians, le));
}

/// A range that starts at the front and is split at `k` under one relation
/// is selected at `k` under every relation that holds wherever that one
/// does.
pub proof fn lemma_front_selected<T>(
    s: Seq<T>,
    last: usize,
    k: usize,
    narrow: spec_fn(T, T) -> bool,
    wide: spec_fn(T, T) -> bool,
)
    requires
        split_at(s, 0, last, k, narrow),
        forall|a: T, b: T| #[trigger] narrow(a, b) ==> wide(a, b),
    ensures
        front_selected(s, (last + 1) as nat, k, wide),
{
    assert forall|i: int, j: int| 0 <= i <= k && k <= j < last + 1 implies #[trigger] wide(
        s[i],
        s[j],
    ) by {
        assert(narrow(s[i], s[j]));
    }
}

/// The position of a median of the five elements of `array`: at least three
/// of them are not greater than the element there, and at least three are
/// not less. It is found by nine comparisons that order positions, not
/// elements: `array` is left as it is.
pub fn median5<T, F>(array: &[T], cmp: &mut F) -> (r: usize) where F: FnMut(&T, &T) -> Ordering
    requires
        array@.len() == 5,
        consistent(*old(cmp)),
    ensures
        *final(cmp) == *old(cmp),
        r < 5,
        forall|le: spec_fn(T, T) -> bool|
            pre_ordering(le) && #[trigger] decides(*old(cmp), le) ==> is_median(
                array@,
                at(array@, r),
                le,
            ),
{
    let ghost le = common_order(*cmp);
    proof {
        lemma_common_order(*cmp);
    }
    let mut a4: usize = 4;
    let mut a3: usize = 3;
    let mut a2: usize = 2;
    let mut a1: usize = 1;
    let mut a0: usize = 0;

    if matches!(cmp(&array[a1], &array[a0]), Ordering::Less) {
        core::mem::swap(&mut a1, &mut a0);
    }
    if matches!(cmp(&array[a2], &array[a0]), Ordering::Less) {
        core::mem::swap(&mut a2, &mut a0);
    }
    if matches!(cmp(&array[a3], &array[a0]), Ordering::Less) {
        core::mem::swap(&mut a3, &mut a0);
    }
    if matches!(cmp(&array[a4], &array[a0]), Ordering::Less) {
        core::mem::swap(&mut a4, &mut a0);
    }
    assert(le(at(array@, a0), at(array@, a1)) && le(at(array@, a0), at(array@, a2)) && le(
        at(array@, a0),
        at(array@, a3),
    ) && le(at(array@, a0), at(array@, a4)));
    if matches!(cmp(&array[a2], &array[a1]), Ordering::Less) {
        core::mem::swap(&mut a2, &mut a1);
    }
    if matches!(cmp(&array[a3], &array[a1]), Ordering::Less) {
        core::mem::swap(&mut a3, &mut a1);
    }
    if matches!(cmp(&array[a4], &array[a1]), Ordering::Less) {
        core::mem::swap(&mut a4, &mut a1);
    }
    assert(le(at(array@, a1), at(array@, a2)) && le(at(array@, a1), at(array@, a3)) && le(
        at(array@, a1),
        at(array@, a4),
    ));
    if matches!(cmp(&array[a3], &array[a2]), Ordering::Less) {
        core::mem::swap(&mut a3, &mut a2);
    }
    if matches!(cmp(&array[a4], &array[a2]), Ordering::Less) {
        core::mem::swap(&mut a4, &mut a2);
    }
    proof {
        lemma_middle_of_five(array@, a0, a1, a2, a3, a4, le);
        assert(array@.contains(at(array@, a2)));
        assert forall|wide: spec_fn(T, T) -> bool|
            pre_ordering(wide) && #[trigger] decides(*old(cmp), wide) implies is_median(
            array@,
            at(array@, a2),
            wide,
        ) by {
            lemma_median_wider_order(array@, at(array@, a2), le, wide);
        }
    }
    a2
}

/// An approximate median of `array` by the order of `T`: as
/// `median_of_medians_by` with `Ord::cmp`.
pub fn median_of_medians<T: Ord>(array: &mut [T]) -> (r: (usize, &mut T))
    requires
        old(array)@.len() > 0,
        ord_is_total::<T>(),
    ensures
        final(array)@.len() == old(array)@.len(),
        r.0 == middle_position(old(array)@.len()),
        at(final(array)@, r.0) == *final(r.1),
        with_at(final(array)@, r.0, *r.1).to_multiset() == old(array)@.to_multiset(),
        front_selected(
            with_at(final(array)@, r.0, *r.1),
            front_len(old(array)@.len()),
            r.0,
            ord_le::<T>(),
        ),
        is_median_of_medians(old(array)@, *r.1, ord_le::<T>()),
        has_guaranteed_shares(old(array)@, *r.1, ord_le::<T>()),
        old(array)@.len() % 10 < 6 ==> within_percentiles(old(array)@, *r.1, ord_le::<T>()),
{
    proof {
        lemma_ord_le_total::<T>();
        lemma_total_preorder_is_preorder(ord_le::<T>());
        assert(decides(T::cmp, ord_le::<T>()));
    }
    median_of_medians_by(array, T::cmp)
}

/// An approximate median of `array` in the order that `cmp` decides. The
/// elements are taken in groups of five, the median of each group is moved
/// to the front, and the median of those medians is selected. The pair
/// returned is its position and a reference to it; `array` is rearranged.
/// At least `guaranteed_below` of the elements are not greater than it and
/// at least `guaranteed_above` are not less: about three in ten on either
/// side.
pub fn median_of_medians_by<T, F>(array: &mut [T], cmp: F) -> (r: (usize, &mut T)) where
    F: FnMut(&T, &T) -> Ordering,

    requires
        old(array)@.len() > 0,
        consistent(cmp),
    ensures
        final(array)@.len() == old(array)@.len(),
        r.0 == middle_position(old(array)@.len()),
        at(final(array)@, r.0) == *final(r.1),
        with_at(final(array)@, r.0, *r.1).to_multiset() == old(array)@.to_multiset(),
        forall|le: spec_fn(T, T) -> bool|
            pre_ordering(le) && #[trigger] decides(cmp, le) ==> {
                &&& front_selected(
                    with_at(final(array)@, r.0, *r.1),
                    front_len(old(array)@.len()),
                    r.0,
                    le,
                )
                &&& is_median_of_medians(old(array)@, *r.1, le)
                &&& has_guaranteed_shares(old(array)@, *r.1, le)
            },
        old(array)@.len() % 10 < 6 ==> forall|le: spec_fn(T, T) -> bool|
            total_preorder(le) && #[trigger] decides(cmp, le) ==> within_percentiles(
                old(array)@,
                *r.1,
                le,
            ),
{
    let whole = |l: usize, r: usize, i: usize| -> (b: (usize, usize)) { (l, r) };
    median_of_medians_with(array, cmp, whole)
}

/// As `median_of_medians_by`, with `estimate` proposing sub-ranges to the
/// selections it makes, as in `floyd_rivest::select_with`.
pub fn median_of_medians_with<T, F, S>(array: &mut [T], mut cmp: F, mut estimate: S) -> (r: (
    usize,
    &mut T,
)) where F: FnMut(&T, &T) -> Ordering, S: FnMut(usize, usize, usize) -> (usize, usize)
    requires
        old(array)@.len() > 0,
        consistent(cmp),
        estimates(estimate),
    ensures
        final(array)@.len() == old(array)@.len(),
        r.0 == middle_position(old(array)@.len()),
        at(final(array)@, r.0) == *final(r.1),
        with_at(final(array)@, r.0, *r.1).to_multiset() == old(array)@.to_multiset(),
        forall|le: spec_fn(T, T) -> bool|
            pre_ordering(le) && #[trigger] decides(cmp, le) ==> {
                &&& front_selected(
                    with_at(final(array)@, r.0, *r.1),
                    front_len(old(array)@.len()),
                    r.0,
                    le,
                )
                &&& is_median_of_medians(old(array)@, *r.1, le)
                &&& has_guaranteed_shares(old(array)@, *r.1, le)
            },
        old(array)@.len() % 10 < 6 ==> forall|le: spec_fn(T, T) -> bool|
            total_preorder(le) && #[trigger] decides(cmp, le) ==> within_percentiles(
                old(array)@,
                *r.1,
                le,
            ),
{
    let ghost le = common_order(cmp);
    let ghost f = cmp;
    proof {
        lemma_common_order(cmp);
    }
    let n = array.len();
    let last = n - 1;
    if n < 5 {
        // Few elements: their median itself.
        let median = n / 2;
        select_(array, &mut cmp, &mut estimate, 0, last, median, Ghost(le));
        let ghost placed = array@;
        proof {
            lemma_rearranged_outside(old(array)@, placed, 0, last);
            lemma_rearranged_whole(old(array)@, placed, 0, last);
            assert(placed.subrange(0, last + 1) =~= placed);
            lemma_split_median(placed, 0, last, old(array)@, le);
        }
        let r = &mut array[median];
        proof {
            assert(with_at(with_at(placed, median, *final(r)), median, *r) =~= placed);
            assert forall|wide: spec_fn(T, T) -> bool|
                pre_ordering(wide) && #[trigger] decides(f, wide) implies {
                &&& front_selected(placed, front_len(old(array)@.len()), median, wide)
                &&& is_median_of_medians(old(array)@, *r, wide)
                &&& has_guaranteed_shares(old(array)@, *r, wide)
            } by {
                lemma_front_selected(placed, last, median, le, wide);
                lemma_median_of_medians_wider_order(old(array)@, *r, le, wide);
                lemma_median_of_medians_shares(old(array)@, *r, wide);
            }
            if n % 10 < 6 {
                assert forall|wide: spec_fn(T, T) -> bool|
                    total_preorder(wide) && #[trigger] decides(f, wide) implies within_percentiles(
                    old(array)@,
                    *r,
                    wide,
                ) by {
                    lemma_total_preorder_is_preorder(wide);
                    lemma_within_percentiles(old(array)@, *r, wide);
                }
            }
        }
        return (median, r);
    }
    let num_medians = n / 5 + if n % 5 == 0 { 0 } else { 1 };
    let ghost mut medians = Seq::<T>::empty();
    for i in 0..num_medians
        invariant
            5 <= n == array@.len(),
            last == n - 1,
            num_medians == group_count(array@.len()),
            array@.to_multiset() == old(array)@.to_multiset(),
            groups_done(old(array)@, array@, medians, i, le),
            cmp == f,
            pre_ordering(le),
            decides(cmp, le),
            consistent(cmp),
            estimates(estimate),
    {
        let start = 5 * i;
        let trailing = n - start;
        let ghost before = array@;
        let idx = if trailing < 5 {
            // The last group is short: its middle element is selected.
            let middle = start + trailing / 2;
            select_(array, &mut cmp, &mut estimate, start, last, middle, Ghost(le));
            proof {
                lemma_rearranged_whole(before, array@, start, last);
                lemma_short_group_median(old(array)@, before, array@, medians, i, le);
            }
            middle
        } else {
            let found = start + median5(&array[start..start + 5], &mut cmp);
            proof {
                lemma_full_group_median(old(array)@, array@, medians, i, found, le);
            }
            found
        };
        let ghost found = array@;
        array.swap(i, idx);
        proof {
            lemma_swap_rearranges(found, i, idx, 0, last);
            lemma_rearranged_whole(found, array@, 0, last);
            lemma_group_done(old(array)@, found, medians, i, idx, le);
            medians = medians.push(at(found, idx));
        }
    }
    // The medians stand in front: the middle one of them is selected.
    let idx = num_medians / 2;
    let last_median = num_medians - 1;
    let ghost grouped = array@;
    select_(array, &mut cmp, &mut estimate, 0, last_median, idx, Ghost(le));
    let ghost placed = array@;
    proof {
        lemma_rearranged_outside(grouped, placed, 0, last_median);
        lemma_rearranged_whole(grouped, placed, 0, last_median);
        lemma_middle_of_medians(old(array)@, grouped, placed, medians, num_medians, le);
    }
    let r = &mut array[idx];
    proof {
        assert(with_at(with_at(placed, idx, *final(r)), idx, *r) =~= placed);
        assert forall|wide: spec_fn(T, T) -> bool|
            pre_ordering(wide) && #[trigger] decides(f, wide) implies {
            &&& front_selected(placed, front_len(old(array)@.len()), idx, wide)
            &&& is_median_of_medians(old(array)@, *r, wide)
            &&& has_guaranteed_shares(old(array)@, *r, wide)
        } by {
            lemma_front_selected(placed, last_median, idx, le, wide);
            lemma_median_of_medians_wider_order(old(array)@, *r, le, wide);
            lemma_median_of_medians_shares(old(array)@, *r, wide);
        }
        if n % 10 < 6 {
            assert forall|wide: spec_fn(T, T) -> bool|
                total_preorder(wide) && #[trigger] decides(f, wide) implies within_percentiles(
                old(array)@,
                *r,
                wide,
            ) by {
                lemma_total_preorder_is_preorder(wide);
                lemma_within_percentiles(old(array)@, *r, wide);
            }
        }
    }
    (idx, r)
}

} // verus!
