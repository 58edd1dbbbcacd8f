//! What the library takes from `std` for slices beyond what `vstd` states.

use vstd::prelude::*;

verus! {

/// `<[T]>::swap` exchanges the elements at `a` and `b` and leaves the rest as
/// it was. It panics when an index is out of bounds, so both must be in
/// bounds here.
pub assume_specification<V>[ <[V]>::swap ](slice: &mut [V], a: usize, b: usize)
    requires
        a < old(slice)@.len(),
        b < old(slice)@.len(),
    ensures
        final(slice)@ == old(slice)@.update(a as int, old(slice)@[b as int]).update(
            b as int,
            old(slice)@[a as int],
        ),
;

} // verus!
