//! Calling a closure on every index below a compile-time bound.

use vstd::prelude::*;

verus! {

/// Calls `f(0)`, `f(1)`, ..., `f(N - 1)`, in ascending order.
pub fn forced_unroll<const N: usize, F: FnMut(usize)>(f: F)
    requires
        forall|i: usize| i < N ==> #[trigger] call_requires(f, (i,)),
{
    let mut f = f;
    let mut i: usize = 0;
    while i < N
        invariant
            forall|j: usize| j < N ==> #[trigger] call_requires(f, (j,)),
        decreases N - i,
    {
        f(i);
        i = i + 1;
    }
}

} // verus!
