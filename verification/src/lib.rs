//! Order statistics: the `k`-th smallest element of a slice in expected
//! linear time, and an approximate median by the median of medians.
//!
//! `kth` and `kth_by` select by the algorithm of Floyd and Rivest
//! (`floyd_rivest`); `median_of_medians` and `median_of_medians_by` estimate
//! a median from groups of five (`mom`). All of them rearrange the slice
//! they are given. `quickselect` is a plainer selection, and `decode` reads
//! numbers out of raw bytes.
//!
//! The algorithm of Floyd and Rivest narrows a long range by an estimate of
//! where the element sought will lie. The estimate is the caller's to
//! compute: `floyd_rivest::select_with` and `mom::median_of_medians_with`
//! take it as a function, and every other entry point runs without one.
//! Whatever the estimate says, the results are the same.
//!
//! Contracts are stated over an order relation, a `spec_fn(T, T) -> bool`
//! read as "not greater than" (`relation`), which a comparator stands for
//! (`order`); over rearrangements (`permutation`) and counts (`rank`). What
//! holds of every result is proved in `laws`.

use core::cmp::Ordering;
use vstd::prelude::*;
use crate::order::{consistent, decides, lemma_ord_le_total, ord_is_total, ord_le};
use crate::permutation::with_at;
use vstd::relations::pre_ordering;
use crate::laws::kth_smallest;
use crate::relation::{at, lemma_total_preorder_is_preorder, selected, total_preorder};

pub mod decode;
pub mod floyd_rivest;
pub mod laws;
pub mod mom;
pub mod order;
pub mod permutation;
pub mod quickselect;
pub mod rank;
pub mod relation;
pub mod slices;

pub use mom::{median_of_medians, median_of_medians_by};

verus! {

/// The `k`-th smallest element of `array` (`k` counts from zero), by the
/// order of `T`. `array` is rearranged so that this element stands at
/// position `k`, nothing greater before it and nothing less after it; the
/// reference returned is to that position.
pub fn kth<T: Ord>(array: &mut [T], k: usize) -> (r: &mut T)
    requires
        k < old(array)@.len(),
        ord_is_total::<T>(),
    ensures
        final(array)@.len() == old(array)@.len(),
        at(final(array)@, k) == *final(r),
        with_at(final(array)@, k, *r).to_multiset() == old(array)@.to_multiset(),
        selected(with_at(final(array)@, k, *r), k, ord_le::<T>()),
        kth_smallest(old(array)@, *r, k, ord_le::<T>()),
{
    proof {
        lemma_ord_le_total::<T>();
        lemma_total_preorder_is_preorder(ord_le::<T>());
        assert(decides(T::cmp, ord_le::<T>()));
    }
    floyd_rivest::select(array, k, T::cmp);
    let ghost placed = array@;
    let r = &mut array[k];
    proof {
        assert(with_at(with_at(placed, k, *final(r)), k, *r) =~= placed);
    }
    r
}

/// The `k`-th smallest element of `array` in the order that `cmp` decides:
/// as `kth`, for any consistent comparator.
pub fn kth_by<T, F>(array: &mut [T], k: usize, cmp: F) -> (r: &mut T) where
    F: FnMut(&T, &T) -> Ordering,

    requires
        k < old(array)@.len(),
        consistent(cmp),
    ensures
        final(array)@.len() == old(array)@.len(),
        at(final(array)@, k) == *final(r),
        with_at(final(array)@, k, *r).to_multiset() == old(array)@.to_multiset(),
        forall|le: spec_fn(T, T) -> bool|
            pre_ordering(le) && #[trigger] decides(cmp, le) ==> selected(
                with_at(final(array)@, k, *r),
                k,
                le,
            ),
        forall|le: spec_fn(T, T) -> bool|
            total_preorder(le) && #[trigger] decides(cmp, le) ==> kth_smallest(
                old(array)@,
                *r,
                k,
                le,
            ),
{
    floyd_rivest::select(array, k, cmp);
    let ghost placed = array@;
    let r = &mut array[k];
    proof {
        assert(with_at(with_at(placed, k, *final(r)), k, *r) =~= placed);
    }
    r
}

} // verus!
