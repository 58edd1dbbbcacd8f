//! Counting the elements of a sequence that lie on one side of a value, and
//! what such counts say about ranks.

use vstd::prelude::*;
use vstd::multiset::{group_multiset_axioms, lemma_multiset_empty_len, Multiset};
use vstd::relations::transitive;
use vstd::seq_lib::{group_to_multiset_ensures, lemma_multiset_commutative};
use crate::relation::split_at;

verus! {

/// How many elements of `s` satisfy `p`, each counted as often as it occurs.
pub open spec fn count_where<T>(s: Seq<T>, p: spec_fn(T) -> bool) -> nat {
    s.to_multiset().filter(p).len()
}

/// How many elements of `s` are not greater than `v`.
pub open spec fn count_le<T>(s: Seq<T>, v: T, le: spec_fn(T, T) -> bool) -> nat {
    count_where(s, |x: T| le(x, v))
}

/// How many elements of `s` are not less than `v`.
pub open spec fn count_ge<T>(s: Seq<T>, v: T, le: spec_fn(T, T) -> bool) -> nat {
    count_where(s, |x: T| le(v, x))
}

/// An empty sequence holds nothing to count.
pub proof fn lemma_count_empty<T>(p: spec_fn(T) -> bool)
    ensures
        count_where(Seq::<T>::empty(), p) == 0,
{
    broadcast use group_multiset_axioms, group_to_multiset_ensures;

    let m = Seq::<T>::empty().to_multiset();
    lemma_multiset_empty_len(m);
    assert(m.filter(p) =~= Multiset::empty());
}

/// One more element adds one to the count where it satisfies `p`.
pub proof fn lemma_count_push<T>(s: Seq<T>, x: T, p: spec_fn(T) -> bool)
    ensures
        count_where(s.push(x), p) == count_where(s, p) + (if p(x) {
            1nat
        } else {
            0nat
        }),
{
    broadcast use group_multiset_axioms, group_to_multiset_ensures;

    let m = s.to_multiset();
    assert(s.push(x).to_multiset() =~= m.insert(x));
    if p(x) {
        assert(m.insert(x).filter(p) =~= m.filter(p).insert(x));
    } else {
        assert(m.insert(x).filter(p) =~= m.filter(p));
    }
}

/// The count over a concatenation is the sum of the counts.
pub proof fn lemma_count_concat<T>(a: Seq<T>, b: Seq<T>, p: spec_fn(T) -> bool)
    ensures
        count_where(a + b, p) == count_where(a, p) + count_where(b, p),
{
    broadcast use group_multiset_axioms;

    lemma_multiset_commutative(a, b);
    let (ma, mb) = (a.to_multiset(), b.to_multiset());
    assert(ma.add(mb).filter(p) =~= ma.filter(p).add(mb.filter(p)));
}

/// No more elements are counted than there are; all are where each satisfies
/// `p`, none where none does; and a weaker condition counts no fewer.
pub proof fn lemma_count_bounds<T>(s: Seq<T>, p: spec_fn(T) -> bool, q: spec_fn(T) -> bool)
    ensures
        count_where(s, p) <= s.len(),
        (forall|i: int| 0 <= i < s.len() ==> p(#[trigger] s[i])) ==> count_where(s, p) == s.len(),
        (forall|i: int| 0 <= i < s.len() ==> !p(#[trigger] s[i])) ==> count_where(s, p) == 0,
        (forall|i: int| 0 <= i < s.len() && p(#[trigger] s[i]) ==> q(s[i])) ==> count_where(s, p)
            <= count_where(s, q),
    decreases s.len(),
{
    if s.len() == 0 {
        assert(s =~= Seq::<T>::empty());
        lemma_count_empty(p);
        lemma_count_empty(q);
    } else {
        let front = s.drop_last();
        assert(s =~= front.push(s.last()));
        lemma_count_bounds(front, p, q);
        lemma_count_push(front, s.last(), p);
        lemma_count_push(front, s.last(), q);
        assert(forall|i: int| 0 <= i < front.len() ==> front[i] == s[i]);
    }
}

/// Where every element of `s` in `from..to` satisfies `p`, at least `to -
/// from` elements of `s` do.
pub proof fn lemma_count_at_least<T>(s: Seq<T>, p: spec_fn(T) -> bool, from: int, to: int)
    requires
        0 <= from <= to <= s.len(),
        forall|i: int| from <= i < to ==> p(#[trigger] s[i]),
    ensures
        count_where(s, p) >= to - from,
{
    let head = s.subrange(0, from);
    let mid = s.subrange(from, to);
    let tail = s.subrange(to, s.len() as int);
    assert(s =~= (head + mid) + tail);
    lemma_count_concat(head + mid, tail, p);
    lemma_count_concat(head, mid, p);
    lemma_count_bounds(mid, p, p);
}

/// Where no element of `s` in `from..to` satisfies `p`, at most `len - (to -
/// from)` elements of `s` do.
pub proof fn lemma_count_at_most<T>(s: Seq<T>, p: spec_fn(T) -> bool, from: int, to: int)
    requires
        0 <= from <= to <= s.len(),
        forall|i: int| from <= i < to ==> !p(#[trigger] s[i]),
    ensures
        count_where(s, p) <= s.len() - (to - from),
{
    let head = s.subrange(0, from);
    let mid = s.subrange(from, to);
    let tail = s.subrange(to, s.len() as int);
    assert(s =~= (head + mid) + tail);
    lemma_count_concat(head + mid, tail, p);
    lemma_count_concat(head, mid, p);
    lemma_count_bounds(mid, p, p);
    lemma_count_bounds(head, p, p);
    lemma_count_bounds(tail, p, p);
}

/// A relation that holds wherever another does counts no fewer elements on
/// either side of a value.
pub proof fn lemma_count_wider_order<T>(
    s: Seq<T>,
    v: T,
    narrow: spec_fn(T, T) -> bool,
    wide: spec_fn(T, T) -> bool,
)
    requires
        forall|a: T, b: T| #[trigger] narrow(a, b) ==> wide(a, b),
    ensures
        count_le(s, v, narrow) <= count_le(s, v, wide),
        count_ge(s, v, narrow) <= count_ge(s, v, wide),
{
    lemma_count_bounds(s, |x: T| narrow(x, v), |x: T| wide(x, v));
    lemma_count_bounds(s, |x: T| narrow(v, x), |x: T| wide(v, x));
}

/// Whatever is not greater than `v` is not greater than anything that `v` is
/// not greater than, and likewise on the other side.
pub proof fn lemma_count_transitive<T>(s: Seq<T>, v: T, w: T, le: spec_fn(T, T) -> bool)
    requires
        transitive(le),
    ensures
        le(v, w) ==> count_le(s, v, le) <= count_le(s, w, le),
        le(w, v) ==> count_ge(s, v, le) <= count_ge(s, w, le),
{
    if le(v, w) {
        assert forall|i: int| 0 <= i < s.len() && le(#[trigger] s[i], v) implies le(s[i], w) by {
            assert(le(s[i], v) && le(v, w));
        }
        lemma_count_bounds(s, |x: T| le(x, v), |x: T| le(x, w));
    }
    if le(w, v) {
        assert forall|i: int| 0 <= i < s.len() && le(v, #[trigger] s[i]) implies le(w, s[i]) by {
            assert(le(w, v) && le(v, s[i]));
        }
        lemma_count_bounds(s, |x: T| le(v, x), |x: T| le(w, x));
    }
}

/// In a range split at `k`, the element at `k` has everything from the start
/// of the range to `k` not greater than it, and everything from `k` to the
/// end of the range not less.
pub proof fn lemma_split_counts<T>(s: Seq<T>, lo: usize, hi: usize, k: usize, le: spec_fn(T, T) -> bool)
    requires
        lo <= k <= hi < s.len(),
        split_at(s, lo, hi, k, le),
    ensures
        count_le(s.subrange(lo as int, hi + 1), s[k as int], le) >= k - lo + 1,
        count_ge(s.subrange(lo as int, hi + 1), s[k as int], le) >= hi - k + 1,
{
    let part = s.subrange(lo as int, hi + 1);
    let v = s[k as int];
    assert forall|i: int| 0 <= i < k - lo + 1 implies (|x: T| le(x, v))(#[trigger] part[i]) by {
        assert(le(s[lo + i], s[k as int]));
    }
    lemma_count_at_least(part, |x: T| le(x, v), 0, k - lo + 1);
    assert forall|i: int| k - lo <= i < hi - lo + 1 implies (|x: T| le(v, x))(#[trigger] part[i]) by {
        assert(le(s[k as int], s[lo + i]));
    }
    lemma_count_at_least(part, |x: T| le(v, x), k - lo, hi - lo + 1);
}

/// Of five elements, one that has two others not greater than it and the
/// two remaining not less than it is a median: at least three of the five
/// are not greater than it and at least three are not less.
pub proof fn lemma_middle_of_five<T>(
    s: Seq<T>,
    a0: usize,
    a1: usize,
    a2: usize,
    a3: usize,
    a4: usize,
    le: spec_fn(T, T) -> bool,
)
    requires
        s.len() == 5,
        a0 < 5 && a1 < 5 && a2 < 5 && a3 < 5 && a4 < 5,
        a0 != a1 && a0 != a2 && a0 != a3 && a0 != a4,
        a1 != a2 && a1 != a3 && a1 != a4,
        a2 != a3 && a2 != a4,
        a3 != a4,
        le(s[a0 as int], s[a2 as int]),
        le(s[a1 as int], s[a2 as int]),
        le(s[a2 as int], s[a2 as int]),
        le(s[a2 as int], s[a3 as int]),
        le(s[a2 as int], s[a4 as int]),
    ensures
        count_le(s, s[a2 as int], le) >= 3,
        count_ge(s, s[a2 as int], le) >= 3,
{
    let v = s[a2 as int];
    let s1 = Seq::<T>::empty().push(s[0]);
    let s2 = s1.push(s[1]);
    let s3 = s2.push(s[2]);
    let s4 = s3.push(s[3]);
    assert(s =~= s4.push(s[4]));
    let below = |x: T| le(x, v);
    lemma_count_empty(below);
    lemma_count_push(Seq::<T>::empty(), s[0], below);
    lemma_count_push(s1, s[1], below);
    lemma_count_push(s2, s[2], below);
    lemma_count_push(s3, s[3], below);
    lemma_count_push(s4, s[4], below);
    let above = |x: T| le(v, x);
    lemma_count_empty(above);
    lemma_count_push(Seq::<T>::empty(), s[0], above);
    lemma_count_push(s1, s[1], above);
    lemma_count_push(s2, s[2], above);
    lemma_count_push(s3, s[3], above);
    lemma_count_push(s4, s[4], above);
}

} // verus!
