//! Helpers of the reduced-precision dot kernels.

use vstd::prelude::*;

verus! {

use crate::bits::bit_length;

/// `floor(log2(n))` for `n >= 1`, and 0 for `n <= 1`.
pub open spec fn floor_log2(n: int) -> nat {
    if n <= 1 {
        0
    } else {
        (bit_length(n as nat) - 1) as nat
    }
}

/// `p + floor(log2(n))` (with `floor(log2(n)) = 0` for `n <= 1`), by tail
/// recursion on `n / 2`.
pub fn integer_log2(n: i64, p: i32) -> (r: i32)
    requires
        p + floor_log2(n as int) <= i32::MAX,
    ensures
        r == p + floor_log2(n as int),
    decreases n,
{
    if n <= 1 {
        p
    } else {
        assert(bit_length(n as nat) == 1 + bit_length((n / 2) as nat));
        assert((n / 2) <= 1 ==> bit_length((n / 2) as nat) == 1) by {
            assert(bit_length(0) == 0);
            assert(bit_length(1) == 1 + bit_length(0));
        }
        integer_log2(n / 2, p + 1)
    }
}

} // verus!
