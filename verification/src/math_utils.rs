//! Small integer helpers shared by the kernels: the arithmetic type of an
//! element type, rounding-up division and the ceiling base-2 logarithm.

use vstd::prelude::*;

verus! {

use vstd::arithmetic::power2::{pow2, lemma2_to64, lemma2_to64_rest};
use vstd::std_specs::bits::u64_leading_zeros;
use crate::bits::{bit_length, lemma_bit_length_bound, lemma_bit_length_range};

/// The type an operation on elements of `Self` does its arithmetic in: the
/// type itself, except that 8- and 16-bit integers widen to 32 bits.
pub trait ComputeDTypeTraits {
    type Type;
}

impl ComputeDTypeTraits for i32 {
    type Type = i32;
}

impl ComputeDTypeTraits for i64 {
    type Type = i64;
}

impl ComputeDTypeTraits for u32 {
    type Type = u32;
}

impl ComputeDTypeTraits for u64 {
    type Type = u64;
}

impl ComputeDTypeTraits for u16 {
    type Type = u32;
}

impl ComputeDTypeTraits for i16 {
    type Type = i32;
}

impl ComputeDTypeTraits for u8 {
    type Type = u32;
}

impl ComputeDTypeTraits for i8 {
    type Type = i32;
}

/// The arithmetic type of `T`.
pub type ComputeDtype<T> = <T as ComputeDTypeTraits>::Type;

/// Division of integers rounding toward zero, as machine division does.
pub open spec fn trunc_div(a: int, b: int) -> int {
    if a >= 0 {
        if b > 0 {
            a / b
        } else {
            -(a / (-b))
        }
    } else {
        if b > 0 {
            -((-a) / b)
        } else {
            (-a) / (-b)
        }
    }
}

/// `(x + y - 1) / y`: for a positive divisor and a non-negative dividend,
/// `x / y` rounded up.
pub fn divup(x: i64, y: i64) -> (r: i64)
    requires
        y != 0,
        i64::MIN < x + y <= i64::MAX,
        !(x + y - 1 == i64::MIN && y == -1),
    ensures
        y > 0 ==> r == trunc_div(x + y - 1, y as int),
        y > 0 && x >= 0 ==> r * y >= x && (r - 1) * y < x,
{
    let r = (x + y - 1) / y;
    proof {
        if y > 0 && x >= 0 {
            let t = (x + y - 1) as int;
            vstd::arithmetic::div_mod::lemma_fundamental_div_mod(t, y as int);
            vstd::arithmetic::div_mod::lemma_mod_bound(t, y as int);
            assert(r * y == t - t % (y as int)) by (nonlinear_arith)
                requires
                    t == (y as int) * (r as int) + t % (y as int),
            ;
            assert((r - 1) * y == r * y - y) by (nonlinear_arith);
        }
    }
    r
}

/// The opaque leading-zero count of `u64::leading_zeros` is the word width
/// minus the bit length.
pub proof fn lemma_u64_leading_zeros_bit_length(v: u64)
    ensures
        u64_leading_zeros(v) == 64 - bit_length(v as nat),
    decreases v,
{
    reveal(u64_leading_zeros);
    if v != 0 {
        lemma_u64_leading_zeros_bit_length(v / 2);
    }
}

/// Index of the highest set bit of `val`; `u64::MAX` for 0.
fn find_last_set_u64(val: u64) -> (r: u64)
    ensures
        val == 0 ==> r == u64::MAX,
        val != 0 ==> r == bit_length(val as nat) - 1,
{
    if val == 0 {
        return u64::MAX;
    }
    proof {
        lemma_u64_leading_zeros_bit_length(val);
        lemma2_to64_rest();
        lemma_bit_length_bound(val as nat, 64);
        lemma_bit_length_range(val as nat);
    }
    (u64::BITS - 1 - val.leading_zeros()) as u64
}

/// Ceiling base-2 logarithm, clamped below at 1: the smallest `r >= 1` with
/// `x <= 2^r`.
pub fn ceil_log2(x: i64) -> (r: i64)
    ensures
        x <= 2 ==> r == 1,
        x > 2 ==> r == bit_length((x - 1) as nat),
        x > 2 ==> pow2((r - 1) as nat) < x <= pow2(r as nat),
{
    if x <= 2 {
        return 1;
    }
    proof {
        lemma_bit_length_range((x - 1) as nat);
        lemma2_to64_rest();
        lemma_bit_length_bound((x - 1) as nat, 64);
    }
    // Last set bit is floor(log2(x)), floor + 1 is ceil
    // except when x is an exact powers of 2, so subtract 1 first
    (find_last_set_u64((x as u64) - 1) as i64) + 1
}


/// From 2 up, `ceil_log2(x)` is the number of bits of `x - 1`, which is what
/// `Log2_64_Ceil` gives for `x` as well.
pub proof fn lemma_ceil_log2_matches_log2_ceil(x: int)
    requires
        x >= 2,
    ensures
        (if x <= 2 {
            1
        } else {
            bit_length((x - 1) as nat) as int
        }) == bit_length((x - 1) as nat),
{
    if x == 2 {
        assert(bit_length(1) == 1 + bit_length(0));
    }
}

/// For a non-negative dividend and a positive divisor, `divup` rounds up as
/// `divideCeil` does: both are `(x + y - 1) / y`.
pub proof fn lemma_divup_matches_divide_ceil(x: int, y: int)
    requires
        x >= 0,
        y > 0,
    ensures
        trunc_div(x + y - 1, y) == (x + y - 1) / y,
{
}

} // verus!
