//! Per-operation counters behind the public bit-scan functions.

use vstd::prelude::*;

verus! {

use crate::bits::{trailing_zeros_spec, leading_zeros_spec, popcount_spec, lemma_trailing_zeros_of_zero};
use super::{UnsignedInt, ZeroBehavior};

/// Counts trailing zero bits.
pub struct TrailingZerosCounter;

impl TrailingZerosCounter {
    /// Number of zero bits below the lowest set bit; the bit width for a zero
    /// word, whatever the zero behavior.
    pub fn count<T: UnsignedInt>(val: T, zb: ZeroBehavior) -> (r: usize)
        ensures
            r == trailing_zeros_spec(val.value(), T::width()),
    {
        if zb != ZeroBehavior::ZbUndefined && val.is_zero() {
            proof {
                lemma_trailing_zeros_of_zero(T::width());
            }
            return T::digits();
        }
        val.ctz() as usize
    }
}

/// Counts leading zero bits.
pub struct LeadingZerosCounter;

impl LeadingZerosCounter {
    /// Number of zero bits above the highest set bit; the bit width for a
    /// zero word, whatever the zero behavior.
    pub fn count<T: UnsignedInt>(val: T, zb: ZeroBehavior) -> (r: usize)
        ensures
            r == leading_zeros_spec(val.value(), T::width()),
    {
        if zb != ZeroBehavior::ZbUndefined && val.is_zero() {
            return T::digits();
        }
        val.clz() as usize
    }
}

/// Counts set bits.
pub struct PopulationCounter;

impl PopulationCounter {
    /// Number of set bits.
    pub fn count<T: UnsignedInt>(value: T) -> (r: u32)
        ensures
            r == popcount_spec(value.value()),
    {
        value.popcount()
    }
}

} // verus!
