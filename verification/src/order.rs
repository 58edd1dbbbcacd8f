//! How a comparator, an executable function that answers `Ordering`, stands
//! for an order relation.

use core::cmp::Ordering;
use vstd::prelude::*;
use vstd::relations::pre_ordering;
use vstd::std_specs::cmp::{OrdSpec, PartialOrdSpec};
use crate::relation::total_preorder;

verus! {

/// What the answer `o` to "how does `a` compare with `b`" says under `le`:
/// `Less` is strictly below, `Equal` is a tie, `Greater` is strictly above.
pub open spec fn outcome_agrees<T>(o: Ordering, a: T, b: T, le: spec_fn(T, T) -> bool) -> bool {
    match o {
        Ordering::Less => le(a, b) && !le(b, a),
        Ordering::Equal => le(a, b) && le(b, a),
        Ordering::Greater => le(b, a) && !le(a, b),
    }
}

/// The comparator `f` may be called on any two elements, and whatever it
/// answers agrees with `le`.
pub open spec fn decides<T, F>(f: F, le: spec_fn(T, T) -> bool) -> bool where
    F: FnMut(&T, &T) -> Ordering,
 {
    &&& forall|a: T, b: T| #[trigger] call_requires(f, (&a, &b))
    &&& forall|a: T, b: T, o: Ordering| #[trigger]
        call_ensures(f, (&a, &b), o) ==> outcome_agrees(o, a, b, le)
}

/// `f` is a consistent comparator: there is a preorder that it decides. Any
/// two elements that `f` is asked about are then related by that preorder
/// one way or the other, as its answer says.
pub open spec fn consistent<T, F>(f: F) -> bool where F: FnMut(&T, &T) -> Ordering {
    exists|le: spec_fn(T, T) -> bool| pre_ordering(le) && #[trigger] decides(f, le)
}

/// What every preorder that `f` decides has in common: `a` is related to `b`
/// here when it is in each of them.
pub open spec fn common_order<T, F>(f: F) -> spec_fn(T, T) -> bool where
    F: FnMut(&T, &T) -> Ordering,
 {
    |a: T, b: T|
        forall|le: spec_fn(T, T) -> bool| pre_ordering(le) && #[trigger] decides(f, le) ==> le(a, b)
}

/// For a consistent comparator the common order is a preorder that the
/// comparator decides, and it lies within every preorder that the comparator
/// decides.
pub proof fn lemma_common_order<T, F>(f: F) where F: FnMut(&T, &T) -> Ordering
    requires
        consistent(f),
    ensures
        pre_ordering(common_order(f)),
        decides(f, common_order(f)),
        forall|le: spec_fn(T, T) -> bool, a: T, b: T|
            pre_ordering(le) && #[trigger] decides(f, le) && common_order(f)(a, b) ==> #[trigger] le(
                a,
                b,
            ),
{
    let c = common_order(f);
    let w = choose|le: spec_fn(T, T) -> bool| pre_ordering(le) && #[trigger] decides(f, le);
    assert forall|x: T| #[trigger] c(x, x) by {
        assert forall|le: spec_fn(T, T) -> bool|
            pre_ordering(le) && #[trigger] decides(f, le) implies le(x, x) by {}
    }
    assert forall|x: T, y: T, z: T| #[trigger] c(x, y) && #[trigger] c(y, z) implies c(x, z) by {
        assert forall|le: spec_fn(T, T) -> bool|
            pre_ordering(le) && #[trigger] decides(f, le) implies le(x, z) by {
            assert(le(x, y) && le(y, z));
        }
    }
    assert forall|a: T, b: T| #[trigger] call_requires(f, (&a, &b)) by {
        assert(decides(f, w));
    }
    assert forall|a: T, b: T, o: Ordering| #[trigger]
        call_ensures(f, (&a, &b), o) implies outcome_agrees(o, a, b, c) by {
        assert(outcome_agrees(o, a, b, w));
        assert forall|le: spec_fn(T, T) -> bool|
            pre_ordering(le) && #[trigger] decides(f, le) implies outcome_agrees(
            o,
            a,
            b,
            le,
        ) by {}
        match o {
            Ordering::Less => {
                assert(c(a, b));
                assert(!w(b, a));
            },
            Ordering::Equal => {
                assert(c(a, b));
                assert(c(b, a));
            },
            Ordering::Greater => {
                assert(c(b, a));
                assert(!w(a, b));
            },
        }
    }
}

/// The order of an `Ord` type: `a` is not greater than `b`.
pub open spec fn ord_le<T: Ord>() -> spec_fn(T, T) -> bool {
    |a: T, b: T| a.cmp_spec(&b) != Ordering::Greater
}

/// `Ord` for `T` is specified, answers `Less` one way exactly when it
/// answers `Greater` the other way, and its "not greater" is transitive.
pub open spec fn ord_is_total<T: Ord>() -> bool {
    &&& T::obeys_cmp_spec()
    &&& forall|a: T, b: T|
        #![trigger a.cmp_spec(&b)]
        a.cmp_spec(&b) == Ordering::Less <==> b.cmp_spec(&a) == Ordering::Greater
    &&& forall|a: T, b: T, c: T|
        #![trigger a.cmp_spec(&b), b.cmp_spec(&c)]
        a.cmp_spec(&b) != Ordering::Greater && b.cmp_spec(&c) != Ordering::Greater ==> a.cmp_spec(
            &c,
        ) != Ordering::Greater
}

/// The comparison operators of `T` are specified and answer as `Ord::cmp`
/// does.
pub open spec fn ord_operators_agree<T: Ord>() -> bool {
    &&& T::obeys_partial_cmp_spec()
    &&& forall|a: T, b: T|
        #![trigger a.partial_cmp_spec(&b)]
        a.partial_cmp_spec(&b) == Some(a.cmp_spec(&b))
}

/// Under `ord_is_total`, "not greater" is a total preorder.
pub proof fn lemma_ord_le_total<T: Ord>()
    requires
        ord_is_total::<T>(),
    ensures
        total_preorder(ord_le::<T>()),
{
    let le = ord_le::<T>();
    assert forall|a: T, b: T| #[trigger] le(a, b) || #[trigger] le(b, a) by {
        let _ = a.cmp_spec(&b);
        let _ = b.cmp_spec(&a);
    }
    assert forall|a: T, b: T, c: T| #[trigger] le(a, b) && #[trigger] le(b, c) implies le(a, c) by {
        let _ = a.cmp_spec(&b);
        let _ = b.cmp_spec(&c);
    }
}

} // verus!
