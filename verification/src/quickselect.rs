//! Selection by quickselect around the first element, with fewer than five
//! elements sorted outright.

use vstd::prelude::*;
use vstd::relations::sorted_by;
use crate::order::{lemma_ord_le_total, ord_is_total, ord_le, ord_operators_agree};
use crate::permutation::{
    lemma_rearranged_outside,
    lemma_rearranged_same,
    lemma_rearranged_twice,
    lemma_rearranged_whole,
    lemma_swap_rearranges,
    rearranged,
};
use crate::relation::{
    at,
    lemma_back_rearranged,
    lemma_selected_in_back,
    lemma_selected_in_front,
    lemma_total_preorder_is_preorder,
    selected,
};

verus! {

/// Rearranges `x` so that, where `k` is a position of `x`, the `k`-th
/// smallest element stands at `k`, nothing greater before it and nothing
/// less after it. Fewer than five elements are left sorted. A `k` beyond the
/// end is accepted: `x` is rearranged all the same.
pub fn select<T: Ord>(x: &mut [T], k: usize)
    requires
        ord_is_total::<T>(),
        ord_operators_agree::<T>(),
    ensures
        final(x)@.len() == old(x)@.len(),
        final(x)@.to_multiset() == old(x)@.to_multiset(),
        k < old(x)@.len() ==> selected(final(x)@, k, ord_le::<T>()),
        old(x)@.len() < 5 ==> sorted_by(final(x)@, ord_le::<T>()),
    decreases old(x)@.len(),
{
    let ghost le = ord_le::<T>();
    proof {
        lemma_ord_le_total::<T>();
        lemma_total_preorder_is_preorder(le);
    }
    let n = x.len();
    if n < 5 {
        let last = n.saturating_sub(1);
        for i in 0..n
            invariant
                n == x@.len() == old(x)@.len(),
                n < 5,
                last == n - 1 || n == 0,
                x@.to_multiset() == old(x)@.to_multiset(),
                forall|p: int, q: int| 0 <= p < i && p < q < n ==> #[trigger] le(x@[p], x@[q]),
                le == ord_le::<T>(),
                ord_is_total::<T>(),
                ord_operators_agree::<T>(),
        {
            for j in (i + 1)..n
                invariant
                    i < n == x@.len(),
                    n == old(x)@.len(),
                    n < 5,
                    last == n - 1,
                    x@.to_multiset() == old(x)@.to_multiset(),
                    forall|p: int, q: int| 0 <= p < i && p < q < n ==> #[trigger] le(x@[p], x@[q]),
                    forall|q: int| i < q < j ==> #[trigger] le(at(x@, i), x@[q]),
                    le == ord_le::<T>(),
                    ord_is_total::<T>(),
                    ord_operators_agree::<T>(),
            {
                if x[j] < x[i] {
                    let ghost before = x@;
                    x.swap(i, j);
                    proof {
                        lemma_swap_rearranges(before, i, j, 0, last);
                        lemma_rearranged_whole(before, x@, 0, last);
                        assert(le(at(x@, i), at(before, i)));
                        assert forall|q: int| i < q < j + 1 implies #[trigger] le(
                            at(x@, i),
                            x@[q],
                        ) by {
                            assert(le(at(before, i), before[q]) || q == j);
                        }
                    }
                }
            }
        }
        return ;
    }
    let pivot = partition(x);
    let ghost parted = x@;
    if k < pivot {
        let (front, _) = x.split_at_mut(pivot);
        select(front, k);
        proof {
            lemma_selected_in_front(parted, front@, pivot, k, le);
        }
    } else if k > pivot {
        let behind = pivot + 1;
        let (_, back) = x.split_at_mut(behind);
        select(back, k - pivot - 1);
        proof {
            lemma_back_rearranged(parted, back@, behind);
            if k < n {
                lemma_selected_in_back(parted, back@, pivot, k, le);
            }
        }
    }
}

/// Partitions `x` around its first element: that element is moved to the
/// position returned, nothing greater stands before it and nothing less
/// after it.
pub fn partition<T: Ord>(x: &mut [T]) -> (pivot: usize)
    requires
        old(x)@.len() > 0,
        ord_is_total::<T>(),
        ord_operators_agree::<T>(),
    ensures
        final(x)@.len() == old(x)@.len(),
        final(x)@.to_multiset() == old(x)@.to_multiset(),
        pivot < old(x)@.len(),
        at(final(x)@, pivot) == old(x)@[0],
        selected(final(x)@, pivot, ord_le::<T>()),
{
    let ghost le = ord_le::<T>();
    let ghost first = x@[0];
    let n = x.len();
    let last = n - 1;
    proof {
        lemma_ord_le_total::<T>();
        lemma_total_preorder_is_preorder(le);
        lemma_rearranged_same(x@, 0, last);
    }
    let mut a: usize = 1;
    let mut b: usize = x.len() - 1;

    'outer: loop
        invariant_except_break
            1 <= a <= b + 1,
        invariant
            b < n == x@.len(),
            1 <= a <= n,
            last == n - 1,
            x@[0] == first,
            rearranged(old(x)@, x@, 0, last),
            forall|p: int| 0 <= p < a ==> le(#[trigger] x@[p], first),
            forall|p: int| b < p < n ==> le(first, #[trigger] x@[p]),
            le == ord_le::<T>(),
            ord_is_total::<T>(),
            ord_operators_agree::<T>(),
        ensures
            forall|p: int| a <= p < n ==> le(first, #[trigger] x@[p]),
        decreases b + 1 - a,
    {
        let ghost (a0, b0) = (a, b);
        loop
            invariant_except_break
                a <= b + 1,
            invariant
                a0 <= a <= n,
                1 <= a,
                b < n == x@.len(),
                last == n - 1,
                rearranged(old(x)@, x@, 0, last),
                x@[0] == first,
                forall|p: int| 0 <= p < a ==> le(#[trigger] x@[p], first),
                forall|p: int| b < p < n ==> le(first, #[trigger] x@[p]),
                le == ord_le::<T>(),
                ord_is_total::<T>(),
                ord_operators_agree::<T>(),
            ensures
                a <= b,
                le(first, at(x@, a)),
            decreases b + 1 - a,
        {
            if a > b {
                break 'outer;
            }
            if x[a] >= x[0] {
                break ;
            }
            a += 1;
        }
        while x[0] < x[b]
            invariant
                1 <= a <= b + 1,
                b <= b0,
                b < n == x@.len(),
                x@[0] == first,
                forall|p: int| 0 <= p < a ==> le(#[trigger] x@[p], first),
                forall|p: int| b < p < n ==> le(first, #[trigger] x@[p]),
                le == ord_le::<T>(),
                ord_is_total::<T>(),
                ord_operators_agree::<T>(),
            decreases b,
        {
            b -= 1;
        }
        if a >= b {
            break ;
        }
        let ghost before = x@;
        x.swap(a, b);
        proof {
            lemma_swap_rearranges(before, a, b, 0, last);
            lemma_rearranged_twice(old(x)@, before, x@, 0, last);
        }
        a += 1;
        b -= 1;
    }
    let ghost before = x@;
    x.swap(0, a - 1);
    proof {
        lemma_swap_rearranges(before, 0, (a - 1) as usize, 0, last);
        lemma_rearranged_twice(old(x)@, before, x@, 0, last);
        lemma_rearranged_outside(old(x)@, x@, 0, last);
        lemma_rearranged_whole(old(x)@, x@, 0, last);
        assert forall|i: int, j: int| 0 <= i <= a - 1 && a - 1 <= j < n implies #[trigger] le(
            x@[i],
            x@[j],
        ) by {
            assert(le(x@[i], first) && le(first, x@[j]));
        }
    }
    a - 1
}

} // verus!
