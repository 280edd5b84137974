//! Bit-manipulation and integer-alignment helpers for fixed-width words:
//! bit scans, masks, range checks, logarithms, alignment, sign extension and
//! saturating arithmetic.

#![allow(non_upper_case_globals)]

use vstd::prelude::*;

pub mod detail;
pub mod identities;

pub use ZeroBehavior::{ZbMax, ZbUndefined, ZbWidth};

verus! {

use vstd::arithmetic::power2::{
    pow2,
    lemma_pow2_unfold,
    lemma_pow2_pos,
    lemma2_to64,
    lemma2_to64_rest,
    lemma_pow2_strictly_increases,
};
use vstd::bits::{
    lemma_u64_shl_is_mul,
    lemma_u64_shr_is_div,
    lemma_u64_low_bits_mask_is_mod,
    lemma_u64_pow2_no_overflow,
};
use crate::bits::{
    trailing_zeros_spec, leading_zeros_spec, popcount_spec, bit_length, word_max,
    trailing_zeros_word, bit_length_word, popcount_word, lemma_bit_length_bound,
    lemma_bit_length_range, lemma_trailing_zeros_bound, lemma_word_max_div,
    reverse_bits_spec, reverse_bits_word, lemma_reverse_bits_bound,
    is_mask_spec, is_shifted_mask_spec, is_power_of_two_spec, lemma_is_mask_step,
    lemma_is_shifted_mask_step, lemma_is_power_of_two_step, lemma_bit_length_unique, divides,
    lowest_set_bit_index, lemma_even_div_pow2,
};

/// The behavior an operation has on an input of 0.
#[derive(Clone, Copy, Debug, PartialEq, Eq, Structural)]
pub enum ZeroBehavior {
    /// The returned value is undefined.
    ZbUndefined,
    /// The returned value is the maximum of the word type.
    ZbMax,
    /// The returned value is the bit width of the word type.
    ZbWidth,
}

/// Unsigned machine words of 8, 16, 32 or 64 bits, seen through their value
/// as a natural number.
pub trait UnsignedInt: Copy + Sized {
    /// Bit width of the word.
    spec fn width() -> nat;

    /// The word's value.
    spec fn value(self) -> nat;

    proof fn lemma_width()
        ensures
            Self::width() == 8 || Self::width() == 16 || Self::width() == 32 || Self::width()
                == 64,
    ;

    proof fn lemma_value_fits(self)
        ensures
            self.value() < pow2(Self::width()),
    ;

    /// Bit width of the word.
    fn digits() -> (r: usize)
        ensures
            r == Self::width(),
    ;

    /// Size of the word in bytes.
    fn size() -> (r: usize)
        ensures
            r * 8 == Self::width(),
    ;

    fn zero() -> (r: Self)
        ensures
            r.value() == 0,
    ;

    /// The largest word: all bits set.
    fn max_value() -> (r: Self)
        ensures
            r.value() == word_max(Self::width()),
    ;

    fn ctz(self) -> (r: u32)
        ensures
            r == trailing_zeros_spec(self.value(), Self::width()),
    ;

    fn clz(self) -> (r: u32)
        ensures
            r == leading_zeros_spec(self.value(), Self::width()),
    ;

    fn popcount(self) -> (r: u32)
        ensures
            r == popcount_spec(self.value()),
    ;

    fn is_zero(self) -> (r: bool)
        ensures
            r == (self.value() == 0),
    ;

    /// Bitwise complement.
    fn not(self) -> (r: Self)
        ensures
            r.value() == word_max(Self::width()) - self.value(),
    ;

    fn to_u64(self) -> (r: u64)
        ensures
            r == self.value(),
    ;

    /// The word made of the low bits of `v` (the narrowing conversion).
    fn from_low_bits(v: u64) -> (r: Self)
        ensures
            r.value() == (v as nat) % pow2(Self::width()),
    ;
}

pub proof fn lemma_word_max_values()
    ensures
        word_max(8) == 0xff,
        word_max(16) == 0xffff,
        word_max(32) == 0xffff_ffff,
        word_max(64) == 0xffff_ffff_ffff_ffff,
        pow2(8) == 0x100,
        pow2(16) == 0x1_0000,
        pow2(32) == 0x1_0000_0000,
        pow2(64) == 0x1_0000_0000_0000_0000,
{
    lemma2_to64();
    lemma2_to64_rest();
}

/// The complement of a `u8`, and the low bits of a 64-bit word as a `u8`.
proof fn lemma_word_bits_u8(x: u8, v: u64)
    by (bit_vector)
    ensures
        !x == 0xffu8 - x,
        (v as u8) as u64 == v % 0x100,
{
}

/// The complement of a `u16`, and the low bits of a 64-bit word as a `u16`.
proof fn lemma_word_bits_u16(x: u16, v: u64)
    by (bit_vector)
    ensures
        !x == 0xffffu16 - x,
        (v as u16) as u64 == v % 0x1_0000,
{
}

/// The complement of a `u32`, and the low bits of a 64-bit word as a `u32`.
proof fn lemma_word_bits_u32(x: u32, v: u64)
    by (bit_vector)
    ensures
        !x == 0xffff_ffffu32 - x,
        (v as u32) as u64 == v % 0x1_0000_0000,
{
}

impl UnsignedInt for u8 {
    open spec fn width() -> nat {
        8
    }

    open spec fn value(self) -> nat {
        self as nat
    }

    proof fn lemma_width() {
    }

    proof fn lemma_value_fits(self) {
        lemma_word_max_values();
    }

    fn digits() -> usize {
        8
    }

    fn size() -> usize {
        1
    }

    fn zero() -> u8 {
        0
    }

    fn max_value() -> u8 {
        proof {
            lemma_word_max_values();
        }
        u8::MAX
    }

    fn ctz(self) -> u32 {
        trailing_zeros_word(self as u64, 8)
    }

    fn clz(self) -> u32 {
        let n = bit_length_word(self as u64);
        proof {
            lemma_word_max_values();
            lemma_bit_length_bound(self as nat, 8);
        }
        8 - n
    }

    fn popcount(self) -> u32 {
        popcount_word(self as u64)
    }

    fn is_zero(self) -> bool {
        self == 0
    }

    fn not(self) -> u8 {
        proof {
            lemma_word_max_values();
        }
        proof {
            lemma_word_bits_u8(self, 0);
        }
        !self
    }

    fn to_u64(self) -> u64 {
        self as u64
    }

    fn from_low_bits(v: u64) -> u8 {
        proof {
            lemma_word_max_values();
        }
        proof {
            lemma_word_bits_u8(0, v);
        }
        v as u8
    }
}

impl UnsignedInt for u16 {
    open spec fn width() -> nat {
        16
    }

    open spec fn value(self) -> nat {
        self as nat
    }

    proof fn lemma_width() {
    }

    proof fn lemma_value_fits(self) {
        lemma_word_max_values();
    }

    fn digits() -> usize {
        16
    }

    fn size() -> usize {
        2
    }

    fn zero() -> u16 {
        0
    }

    fn max_value() -> u16 {
        proof {
            lemma_word_max_values();
        }
        u16::MAX
    }

    fn ctz(self) -> u32 {
        trailing_zeros_word(self as u64, 16)
    }

    fn clz(self) -> u32 {
        let n = bit_length_word(self as u64);
        proof {
            lemma_word_max_values();
            lemma_bit_length_bound(self as nat, 16);
        }
        16 - n
    }

    fn popcount(self) -> u32 {
        popcount_word(self as u64)
    }

    fn is_zero(self) -> bool {
        self == 0
    }

    fn not(self) -> u16 {
        proof {
            lemma_word_max_values();
        }
        proof {
            lemma_word_bits_u16(self, 0);
        }
        !self
    }

    fn to_u64(self) -> u64 {
        self as u64
    }

    fn from_low_bits(v: u64) -> u16 {
        proof {
            lemma_word_max_values();
        }
        proof {
            lemma_word_bits_u16(0, v);
        }
        v as u16
    }
}

impl UnsignedInt for u32 {
    open spec fn width() -> nat {
        32
    }

    open spec fn value(self) -> nat {
        self as nat
    }

    proof fn lemma_width() {
    }

    proof fn lemma_value_fits(self) {
        lemma_word_max_values();
    }

    fn digits() -> usize {
        32
    }

    fn size() -> usize {
        4
    }

    fn zero() -> u32 {
        0
    }

    fn max_value() -> u32 {
        proof {
            lemma_word_max_values();
        }
        u32::MAX
    }

    fn ctz(self) -> u32 {
        trailing_zeros_word(self as u64, 32)
    }

    fn clz(self) -> u32 {
        let n = bit_length_word(self as u64);
        proof {
            lemma_word_max_values();
            lemma_bit_length_bound(self as nat, 32);
        }
        32 - n
    }

    fn popcount(self) -> u32 {
        popcount_word(self as u64)
    }

    fn is_zero(self) -> bool {
        self == 0
    }

    fn not(self) -> u32 {
        proof {
            lemma_word_max_values();
        }
        proof {
            lemma_word_bits_u32(self, 0);
        }
        !self
    }

    fn to_u64(self) -> u64 {
        self as u64
    }

    fn from_low_bits(v: u64) -> u32 {
        proof {
            lemma_word_max_values();
        }
        proof {
            lemma_word_bits_u32(0, v);
        }
        v as u32
    }
}

impl UnsignedInt for u64 {
    open spec fn width() -> nat {
        64
    }

    open spec fn value(self) -> nat {
        self as nat
    }

    proof fn lemma_width() {
    }

    proof fn lemma_value_fits(self) {
        lemma_word_max_values();
    }

    fn digits() -> usize {
        64
    }

    fn size() -> usize {
        8
    }

    fn zero() -> u64 {
        0
    }

    fn max_value() -> u64 {
        proof {
            lemma_word_max_values();
        }
        u64::MAX
    }

    fn ctz(self) -> u32 {
        trailing_zeros_word(self, 64)
    }

    fn clz(self) -> u32 {
        let n = bit_length_word(self);
        64 - n
    }

    fn popcount(self) -> u32 {
        popcount_word(self)
    }

    fn is_zero(self) -> bool {
        self == 0
    }

    fn not(self) -> u64 {
        proof {
            lemma_word_max_values();
        }
        assert(!self == 0xffff_ffff_ffff_ffffu64 - self) by (bit_vector);
        !self
    }

    fn to_u64(self) -> u64 {
        self
    }

    fn from_low_bits(v: u64) -> u64 {
        proof {
            lemma_word_max_values();
            vstd::arithmetic::div_mod::lemma_small_mod(v as nat, pow2(64));
        }
        v
    }
}

impl UnsignedInt for usize {
    open spec fn width() -> nat {
        usize::BITS as nat
    }

    open spec fn value(self) -> nat {
        self as nat
    }

    proof fn lemma_width() {
    }

    proof fn lemma_value_fits(self) {
        lemma_word_max_values();
    }

    fn digits() -> usize {
        usize::BITS as usize
    }

    fn size() -> usize {
        (usize::BITS / 8) as usize
    }

    fn zero() -> usize {
        0
    }

    fn max_value() -> usize {
        proof {
            lemma_word_max_values();
        }
        usize::MAX
    }

    fn ctz(self) -> u32 {
        trailing_zeros_word(self as u64, usize::BITS)
    }

    fn clz(self) -> u32 {
        let n = bit_length_word(self as u64);
        proof {
            lemma_word_max_values();
            lemma_bit_length_bound(self as nat, usize::BITS as nat);
        }
        usize::BITS - n
    }

    fn popcount(self) -> u32 {
        popcount_word(self as u64)
    }

    fn is_zero(self) -> bool {
        self == 0
    }

    fn not(self) -> usize {
        proof {
            lemma_word_max_values();
        }
        if usize::BITS == 64 {
            assert(usize::BITS == 64 ==> (!self) as u64 == 0xffff_ffff_ffff_ffffu64 - self as u64)
                by (bit_vector);
        } else {
            assert(usize::BITS == 32 ==> (!self) as u64 == 0xffff_ffffu64 - self as u64)
                by (bit_vector);
        }
        !self
    }

    fn to_u64(self) -> u64 {
        self as u64
    }

    fn from_low_bits(v: u64) -> usize {
        proof {
            lemma_word_max_values();
        }
        if usize::BITS == 64 {
            assert(usize::BITS == 64 ==> (v as usize) as u64 == v) by (bit_vector);
            proof {
                vstd::arithmetic::div_mod::lemma_small_mod(v as nat, pow2(64));
            }
        } else {
            assert(usize::BITS == 32 ==> (v as usize) as u64 == v % 0x1_0000_0000) by (bit_vector);
        }
        v as usize
    }
}

/// Facts about a word width that the bit-level proofs below lean on.
pub proof fn lemma_width_facts<T: UnsignedInt>()
    ensures
        T::width() == 8 || T::width() == 16 || T::width() == 32 || T::width() == 64,
        8 <= T::width() <= 64,
        T::width() < pow2(T::width()),
        256 <= pow2(T::width()),
        pow2(T::width()) <= pow2(64),
        word_max(T::width()) <= u64::MAX,
{
    T::lemma_width();
    lemma_word_max_values();
}

/// Count number of 0's from the least significant bit to the most, stopping
/// at the first 1. A zero word has as many trailing zeros as it has bits.
pub fn count_trailing_zeros<T: UnsignedInt>(val: T, zb: ZeroBehavior) -> (r: usize)
    ensures
        r == trailing_zeros_spec(val.value(), T::width()),
{
    detail::TrailingZerosCounter::count(val, zb)
}

/// Count number of 0's from the most significant bit to the least, stopping
/// at the first 1. A zero word has as many leading zeros as it has bits.
pub fn count_leading_zeros<T: UnsignedInt>(val: T, zb: ZeroBehavior) -> (r: usize)
    ensures
        r == leading_zeros_spec(val.value(), T::width()),
{
    detail::LeadingZerosCounter::count(val, zb)
}

/// Get the index of the first set bit starting from the least significant
/// bit. A zero word gives the maximum under `ZbMax` and the bit width
/// otherwise.
pub fn find_first_set<T: UnsignedInt>(val: T, zb: ZeroBehavior) -> (r: T)
    ensures
        r.value() == if zb == ZeroBehavior::ZbMax && val.value() == 0 {
            word_max(T::width())
        } else {
            trailing_zeros_spec(val.value(), T::width())
        },
{
    if zb == ZeroBehavior::ZbMax && val.is_zero() {
        return T::max_value();
    }
    let idx = count_trailing_zeros(val, ZeroBehavior::ZbUndefined);
    proof {
        lemma_width_facts::<T>();
        lemma_trailing_zeros_bound(val.value(), T::width());
        vstd::arithmetic::div_mod::lemma_small_mod(idx as nat, pow2(T::width()));
    }
    truncate_to::<T>(idx)
}

/// `x ^ (w - 1)` for a bit count `x <= w`, where `w` is a word width.
proof fn lemma_xor_width_minus_one(x: usize, w: usize)
    by (bit_vector)
    requires
        w == 8 || w == 16 || w == 32 || w == 64,
        x <= w,
    ensures
        x < w ==> x ^ ((w - 1) as usize) == w - 1 - x,
        x == w ==> x ^ ((w - 1) as usize) == 2 * w - 1,
{
}

/// Get the index of the last set bit starting from the least significant
/// bit. A zero word gives the maximum under `ZbMax`, and otherwise
/// `2 * width - 1` (the width xor'ed with `width - 1`).
pub fn find_last_set<T: UnsignedInt>(val: T, zb: ZeroBehavior) -> (r: T)
    ensures
        r.value() == if val.value() == 0 {
            if zb == ZeroBehavior::ZbMax {
                word_max(T::width())
            } else {
                (2 * T::width() - 1) as nat
            }
        } else {
            (bit_length(val.value()) - 1) as nat
        },
{
    if zb == ZeroBehavior::ZbMax && val.is_zero() {
        return T::max_value();
    }
    proof {
        lemma_width_facts::<T>();
        val.lemma_value_fits();
        lemma_bit_length_bound(val.value(), T::width());
        if val.value() > 0 {
            lemma_bit_length_range(val.value());
        }
    }
    let lz = count_leading_zeros(val, ZeroBehavior::ZbUndefined);
    let digits = T::digits();
    let r = lz ^ (digits - 1);
    proof {
        lemma_xor_width_minus_one(lz, digits);
        vstd::arithmetic::div_mod::lemma_small_mod(r as nat, pow2(T::width()));
    }
    truncate_to::<T>(r)
}

pub proof fn lemma_usize_fits(v: usize)
    ensures
        (v as nat) < pow2(usize::BITS as nat),
        usize::BITS == 32 || usize::BITS == 64,
{
    lemma_word_max_values();
    assert(usize::BITS == 32 ==> v <= 0xffff_ffff) by (bit_vector);
}

/// Narrow a bit index or count to the word type, keeping its low bits.
fn truncate_to<T: UnsignedInt>(v: usize) -> (r: T)
    ensures
        r.value() == (v as nat) % pow2(T::width()),
{
    proof {
        lemma_width_facts::<T>();
    }
    let masked = if T::digits() >= usize::BITS as usize {
        proof {
            lemma_usize_fits(v);
            lemma_pow2_pos(usize::BITS as nat);
            if T::width() > usize::BITS {
                lemma_pow2_strictly_increases(usize::BITS as nat, T::width());
            }
            vstd::arithmetic::div_mod::lemma_small_mod(v as nat, pow2(T::width()));
        }
        v as u64
    } else {
        proof {
            lemma_u64_pow2_no_overflow(T::width());
            lemma_u64_shl_is_mul(1, T::width() as u64);
            lemma_u64_low_bits_mask_is_mod(v as u64, T::width());
        }
        (v as u64) & ((1u64 << T::digits()) - 1)
    };
    proof {
        lemma_pow2_pos(T::width());
        vstd::arithmetic::div_mod::lemma_mod_bound(v as int, pow2(T::width()) as int);
        vstd::arithmetic::div_mod::lemma_small_mod(masked as nat, pow2(T::width()));
    }
    from_u64::<T>(masked)
}

/// The word whose value is the low bits of `v`.
fn from_u64<T: UnsignedInt>(v: u64) -> (r: T)
    ensures
        r.value() == (v as nat) % pow2(T::width()),
{
    T::from_low_bits(v)
}

/// Mask of a word's valid width within a `u64` (all ones for 64-bit words).
fn width_mask<T: UnsignedInt>() -> (r: u64)
    ensures
        r == word_max(T::width()),
{
    proof {
        lemma_width_facts::<T>();
    }
    if T::digits() >= 64 {
        proof {
            lemma_word_max_values();
        }
        u64::MAX
    } else {
        proof {
            lemma_u64_pow2_no_overflow(T::width());
            lemma_u64_shl_is_mul(1, T::width() as u64);
        }
        (1u64 << T::digits()) - 1
    }
}

/// `!x & m == m - x` for `x <= m` and `m` an all-ones word mask.
proof fn lemma_not_within_mask(x: u64, m: u64)
    by (bit_vector)
    requires
        m == 0xff || m == 0xffff || m == 0xffff_ffff || m == 0xffff_ffff_ffff_ffff,
        x <= m,
    ensures
        (!x) & m == m - x,
{
}

/// Create a bitmask with the `n` right-most bits set to 1, and all other
/// bits 0.
pub fn mask_trailing_ones<T: UnsignedInt>(n: u32) -> (r: T)
    requires
        n <= T::width(),
    ensures
        r.value() == word_max(n as nat),
{
    proof {
        lemma_width_facts::<T>();
    }
    let bits = (8 * T::size()) as u32;
    if n == 0 {
        proof {
            lemma2_to64();
        }
        T::zero()
    } else {
        let m = T::max_value().to_u64();
        let wm = width_mask::<T>();
        assert(m & wm == m) by (bit_vector)
            requires
                m == wm,
        ;
        proof {
            lemma_u64_shr_is_div(m & wm, (bits - n) as u64);
            lemma_word_max_div(T::width(), n as nat);
            lemma_word_max_bound(n as nat, T::width());
            vstd::arithmetic::div_mod::lemma_small_mod(word_max(n as nat), pow2(T::width()));
        }
        from_u64::<T>((m & wm) >> (bits - n))
    }
}

pub proof fn lemma_word_max_bound(n: nat, w: nat)
    requires
        n <= w,
    ensures
        word_max(n) <= word_max(w),
        word_max(n) < pow2(w),
{
    lemma_pow2_pos(n);
    if n < w {
        lemma_pow2_strictly_increases(n, w);
    }
}

/// Create a bitmask with the `n` left-most bits set to 1, and all other bits
/// 0.
pub fn mask_leading_ones<T: UnsignedInt>(n: u32) -> (r: T)
    requires
        n <= T::width(),
    ensures
        r.value() == word_max(T::width()) - word_max((T::width() - n) as nat),
{
    proof {
        lemma_width_facts::<T>();
    }
    let inner: T = mask_trailing_ones::<T>((8 * T::size()) as u32 - n);
    let x = inner.to_u64();
    let wm = width_mask::<T>();
    proof {
        lemma_word_max_bound((T::width() - n) as nat, T::width());
        lemma_word_max_values();
        lemma_not_within_mask(x, wm);
        vstd::arithmetic::div_mod::lemma_small_mod(((!x) & wm) as nat, pow2(T::width()));
    }
    from_u64::<T>((!x) & wm)
}

/// Create a bitmask with the `n` right-most bits set to 0, and all other bits
/// 1.
pub fn mask_trailing_zeros<T: UnsignedInt>(n: u32) -> (r: T)
    requires
        n <= T::width(),
    ensures
        r.value() == word_max(T::width()) - word_max(n as nat),
{
    proof {
        lemma_width_facts::<T>();
    }
    mask_leading_ones::<T>((8 * T::size()) as u32 - n)
}

/// Create a bitmask with the `n` left-most bits set to 0, and all other bits
/// 1.
pub fn mask_leading_zeros<T: UnsignedInt>(n: u32) -> (r: T)
    requires
        n <= T::width(),
    ensures
        r.value() == word_max((T::width() - n) as nat),
{
    proof {
        lemma_width_facts::<T>();
    }
    mask_trailing_ones::<T>((8 * T::size()) as u32 - n)
}

/// Count the number of ones from the most significant bit to the first zero
/// bit.
pub fn count_leading_ones<T: UnsignedInt>(value: T, zb: ZeroBehavior) -> (r: usize)
    ensures
        r == leading_zeros_spec((word_max(T::width()) - value.value()) as nat, T::width()),
{
    count_leading_zeros(value.not(), zb)
}

/// Count the number of ones from the least significant bit to the first zero
/// bit.
pub fn count_trailing_ones<T: UnsignedInt>(value: T, zb: ZeroBehavior) -> (r: usize)
    ensures
        r == trailing_zeros_spec((word_max(T::width()) - value.value()) as nat, T::width()),
{
    count_trailing_zeros(value.not(), zb)
}

/// Count the number of set bits in a value. Returns 0 if the word is zero.
pub fn count_population<T: UnsignedInt>(value: T) -> (r: u32)
    ensures
        r == popcount_spec(value.value()),
{
    detail::PopulationCounter::count(value)
}


/// A sum of two values below `m` reduced modulo `m` loses at most one `m`.
pub proof fn lemma_wrap_once(v: nat, m: nat)
    requires
        0 < m,
        v < 2 * m,
    ensures
        v % m == if v >= m {
            (v - m) as nat
        } else {
            v
        },
{
    if v >= m {
        vstd::arithmetic::div_mod::lemma_fundamental_div_mod_converse(v as int, m as int, 1, (v - m) as int);
    } else {
        vstd::arithmetic::div_mod::lemma_small_mod(v, m);
    }
}

/// Words whose bits can be reversed.
pub trait ReverseBits: UnsignedInt {
    /// The word with its bits in reverse order.
    fn reverse_bits_impl(self) -> (r: Self)
        ensures
            r.value() == reverse_bits_spec(self.value(), Self::width()),
    ;
}

/// Reverses all `T::width()` bits of a word.
fn reverse_word<T: UnsignedInt>(val: T) -> (r: T)
    ensures
        r.value() == reverse_bits_spec(val.value(), T::width()),
{
    proof {
        lemma_width_facts::<T>();
    }
    let bits = reverse_bits_word(val.to_u64(), T::digits() as u32);
    proof {
        lemma_reverse_bits_bound(val.value(), T::width());
        vstd::arithmetic::div_mod::lemma_small_mod(bits as nat, pow2(T::width()));
    }
    T::from_low_bits(bits)
}

impl ReverseBits for u8 {
    fn reverse_bits_impl(self) -> u8 {
        reverse_word(self)
    }
}

impl ReverseBits for u16 {
    fn reverse_bits_impl(self) -> u16 {
        reverse_word(self)
    }
}

impl ReverseBits for u32 {
    fn reverse_bits_impl(self) -> u32 {
        reverse_word(self)
    }
}

impl ReverseBits for u64 {
    fn reverse_bits_impl(self) -> u64 {
        reverse_word(self)
    }
}

impl ReverseBits for usize {
    fn reverse_bits_impl(self) -> usize {
        reverse_word(self)
    }
}

/// Reverse the bits in `val`: bit `i` moves to bit `width - 1 - i`.
pub fn reverse_bits<T: ReverseBits>(val: T) -> (r: T)
    ensures
        r.value() == reverse_bits_spec(val.value(), T::width()),
{
    val.reverse_bits_impl()
}

/// Return the high 32 bits of a 64 bit value.
pub fn Hi_32(value: u64) -> (r: u32)
    ensures
        r == (value as nat) / pow2(32),
{
    proof {
        lemma_u64_shr_is_div(value, 32);
        lemma_word_max_values();
    }
    (value >> 32) as u32
}

/// Return the low 32 bits of a 64 bit value.
pub fn Lo_32(value: u64) -> (r: u32)
    ensures
        r == (value as nat) % pow2(32),
{
    proof {
        lemma_word_max_values();
    }
    assert((value as u32) as u64 == value % 0x1_0000_0000) by (bit_vector);
    value as u32
}

/// Make a 64-bit integer from a high / low pair of 32-bit integers.
pub fn Make_64(high: u32, low: u32) -> (r: u64)
    ensures
        r == (high as nat) * pow2(32) + (low as nat),
{
    proof {
        lemma_word_max_values();
    }
    assert(((high as u64) << 32u64) | (low as u64) == (high as u64) * 0x1_0000_0000 + (low as u64))
        by (bit_vector);
    ((high as u64) << 32) | (low as u64)
}

/// `x` is representable as a signed `n`-bit integer (`n >= 1`).
pub open spec fn fits_signed(n: nat, x: int) -> bool {
    -pow2((n - 1) as nat) <= x < pow2((n - 1) as nat)
}

/// `x` is representable as an unsigned `n`-bit integer.
pub open spec fn fits_unsigned(n: nat, x: int) -> bool {
    0 <= x < pow2(n)
}

/// `1i64 << k` is `2^k` for shifts that stay clear of the sign bit.
proof fn lemma_i64_shl_one(k: u32)
    requires
        k <= 62,
    ensures
        (1i64 << k) as int == pow2(k as nat),
{
    assert(k <= 62 ==> (1i64 << k) == ((1u64 << k) as i64)) by (bit_vector);
    lemma_u64_pow2_no_overflow(k as nat);
    lemma_u64_shl_is_mul(1, k as u64);
    vstd::arithmetic::power2::lemma_pow2_strictly_increases(k as nat, 63);
    lemma2_to64_rest();
}

/// Checks if an integer fits into the given bit width `n`.
pub fn is_int(n: u32, x: i64) -> (r: bool)
    requires
        n >= 1,
    ensures
        r == (n >= 64 || fits_signed(n as nat, x as int)),
{
    if n >= 64 {
        return true;
    }
    proof {
        lemma_i64_shl_one((n - 1) as u32);
    }
    -(1i64 << (n - 1)) <= x && x < (1i64 << (n - 1))
}

/// A signed 64-bit integer survives a round trip through 8, 16 or 32 bits
/// exactly when it lies in the range of the narrower type.
proof fn lemma_narrow_signed_casts(x: i64)
    by (bit_vector)
    ensures
        ((x as i8) as i64 == x) == (-128 <= x && x < 128),
        ((x as i16) as i64 == x) == (-32768 <= x && x < 32768),
        ((x as i32) as i64 == x) == (-0x8000_0000 <= x && x < 0x8000_0000),
{
}

/// Checks if an integer fits into 8 bits.
pub fn is_int_8(x: i64) -> (r: bool)
    ensures
        r == fits_signed(8, x as int),
{
    proof {
        lemma2_to64();
    }
    proof {
        lemma_narrow_signed_casts(x);
    }
    (x as i8) as i64 == x
}

/// Checks if an integer fits into 16 bits.
pub fn is_int_16(x: i64) -> (r: bool)
    ensures
        r == fits_signed(16, x as int),
{
    proof {
        lemma2_to64();
    }
    proof {
        lemma_narrow_signed_casts(x);
    }
    (x as i16) as i64 == x
}

/// Checks if an integer fits into 32 bits.
pub fn is_int_32(x: i64) -> (r: bool)
    ensures
        r == fits_signed(32, x as int),
{
    proof {
        lemma2_to64();
    }
    proof {
        lemma_narrow_signed_casts(x);
    }
    (x as i32) as i64 == x
}

/// The unsigned reinterpretation of a signed 64-bit integer agrees with it
/// modulo every power of two up to `2^64`.
proof fn lemma_i64_as_u64_mod(x: i64, s: nat)
    requires
        s < 64,
    ensures
        ((x as u64) as int) % (pow2(s) as int) == (x as int) % (pow2(s) as int),
{
    lemma_word_max_values();
    assert(x >= 0 ==> (x as u64) as int == x as int) by (bit_vector);
    assert(x < 0 ==> (x as u64) as int == x as int + 0x1_0000_0000_0000_0000) by (bit_vector);
    if x < 0 {
        lemma_pow2_pos(s);
        vstd::arithmetic::power2::lemma_pow2_adds(s, (64 - s) as nat);
        assert(pow2(64) == pow2(s) * pow2((64 - s) as nat));
        vstd::arithmetic::div_mod::lemma_mod_multiples_vanish(
            pow2((64 - s) as nat) as int,
            x as int,
            pow2(s) as int,
        );
        assert((pow2(s) * pow2((64 - s) as nat)) as int == (pow2(s) as int) * (pow2((64 - s) as nat) as int));
    }
}

/// Checks if a signed integer is an `n` bit number shifted left by `s`.
pub fn is_shifted_int(n: u32, s: u32, x: i64) -> (r: bool)
    requires
        n > 0,
        n + s <= 64,
    ensures
        r == ((n + s >= 64 || fits_signed((n + s) as nat, x as int)) && (x as int) % (pow2(
            s as nat,
        ) as int) == 0),
{
    proof {
        lemma_u64_pow2_no_overflow(s as nat);
        lemma_u64_shl_is_mul(1, s as u64);
        lemma_i64_as_u64_mod(x, s as nat);
    }
    is_int(n + s, x) && ((x as u64) % (1u64 << s) == 0)
}

/// Checks if an unsigned integer fits into the given bit width `n`.
pub fn is_u_int(n: u32, x: u64) -> (r: bool)
    ensures
        r == (n >= 64 || fits_unsigned(n as nat, x as int)),
{
    if n >= 64 {
        true
    } else {
        proof {
            lemma_u64_pow2_no_overflow(n as nat);
            lemma_u64_shl_is_mul(1, n as u64);
        }
        x < (1u64 << n)
    }
}

/// An unsigned 64-bit integer survives a round trip through 8, 16 or 32
/// bits exactly when it lies in the range of the narrower type.
proof fn lemma_narrow_unsigned_casts(x: u64)
    by (bit_vector)
    ensures
        ((x as u8) as u64 == x) == (x < 256),
        ((x as u16) as u64 == x) == (x < 0x1_0000),
        ((x as u32) as u64 == x) == (x < 0x1_0000_0000),
{
}

/// Checks if an unsigned integer fits into 8 bits.
pub fn is_u_int_8(x: u64) -> (r: bool)
    ensures
        r == fits_unsigned(8, x as int),
{
    proof {
        lemma2_to64();
    }
    proof {
        lemma_narrow_unsigned_casts(x);
    }
    (x as u8) as u64 == x
}

/// Checks if an unsigned integer fits into 16 bits.
pub fn is_u_int_16(x: u64) -> (r: bool)
    ensures
        r == fits_unsigned(16, x as int),
{
    proof {
        lemma2_to64();
    }
    proof {
        lemma_narrow_unsigned_casts(x);
    }
    (x as u16) as u64 == x
}

/// Checks if an unsigned integer fits into 32 bits.
pub fn is_u_int_32(x: u64) -> (r: bool)
    ensures
        r == fits_unsigned(32, x as int),
{
    proof {
        lemma2_to64();
    }
    proof {
        lemma_narrow_unsigned_casts(x);
    }
    (x as u32) as u64 == x
}

/// Checks if an unsigned integer is an `n` bit number shifted left by `s`.
pub fn is_shifted_u_int(n: u32, s: u32, x: u64) -> (r: bool)
    requires
        n > 0,
        n + s <= 64,
    ensures
        r == ((n + s >= 64 || fits_unsigned((n + s) as nat, x as int)) && (x as nat) % pow2(
            s as nat,
        ) == 0),
{
    proof {
        lemma_u64_pow2_no_overflow(s as nat);
        lemma_u64_shl_is_mul(1, s as u64);
    }
    is_u_int(n + s, x) && (x % (1u64 << s) == 0)
}

/// Gets the maximum value for an `n`-bit unsigned integer.
pub fn max_u_int_n(n: u64) -> (r: u64)
    requires
        0 < n <= 64,
    ensures
        r == word_max(n as nat),
{
    proof {
        lemma_word_max_values();
        lemma_u64_shr_is_div(u64::MAX, (64 - n) as u64);
        lemma_word_max_div(64, n as nat);
    }
    u64::MAX >> (64 - n)
}

/// Gets the minimum value for an `n`-bit signed integer.
pub fn min_int_n(n: i64) -> (r: i64)
    requires
        0 < n <= 64,
    ensures
        r == -pow2((n - 1) as nat),
{
    proof {
        lemma_u64_pow2_no_overflow((n - 1) as nat);
        lemma_u64_shl_is_mul(1, (n - 1) as u64);
        if n - 1 < 63 {
            vstd::arithmetic::power2::lemma_pow2_strictly_increases((n - 1) as nat, 63);
        }
        lemma2_to64_rest();
    }
    let p: u64 = 1u64 << (n - 1);
    let neg = 0u64.wrapping_sub(p);
    assert((neg as i64) as int == -(p as int)) by (bit_vector)
        requires
            neg as int + p as int == 0x1_0000_0000_0000_0000,
            0 < p <= 0x8000_0000_0000_0000,
    ;
    neg as i64
}

/// Gets the maximum value for an `n`-bit signed integer.
pub fn max_int_n(n: i64) -> (r: i64)
    requires
        0 < n <= 64,
    ensures
        r == pow2((n - 1) as nat) - 1,
{
    proof {
        lemma_u64_pow2_no_overflow((n - 1) as nat);
        lemma_u64_shl_is_mul(1, (n - 1) as u64);
        if n - 1 < 63 {
            vstd::arithmetic::power2::lemma_pow2_strictly_increases((n - 1) as nat, 63);
        }
        lemma2_to64_rest();
    }
    ((1u64 << (n - 1)).wrapping_sub(1)) as i64
}

/// Checks if an unsigned integer fits into the given (dynamic) bit width.
pub fn is_u_int_n(n: u32, x: u64) -> (r: bool)
    requires
        n > 0,
    ensures
        r == (n >= 64 || fits_unsigned(n as nat, x as int)),
{
    proof {
        lemma_pow2_pos(n as nat);
    }
    n >= 64 || x <= max_u_int_n(n as u64)
}

/// Checks if a signed integer fits into the given (dynamic) bit width.
pub fn is_int_n(n: u32, x: i64) -> (r: bool)
    requires
        n > 0,
    ensures
        r == (n >= 64 || fits_signed(n as nat, x as int)),
{
    n >= 64 || (min_int_n(n as i64) <= x && x <= max_int_n(n as i64))
}


/// `v + 1` on 64-bit words, wrapping to 0.
spec fn succ_wrap64(v: u64) -> u64 {
    if v == u64::MAX {
        0
    } else {
        (v + 1) as u64
    }
}

/// `v + 1` on 32-bit words, wrapping to 0.
spec fn succ_wrap32(v: u32) -> u32 {
    if v == u32::MAX {
        0
    } else {
        (v + 1) as u32
    }
}

/// `(v - 1) | v`: fills the trailing zeros of a nonzero word with ones.
spec fn fill_trailing64(v: u64) -> u64 {
    ((v - 1) as u64) | v
}

proof fn lemma_mask_test_step(v: u64)
    by (bit_vector)
    requires
        v != 0,
    ensures
        v % 2 == 0 ==> (succ_wrap64(v) & v) != 0,
        v % 2 == 1 && v / 2 == 0 ==> (succ_wrap64(v) & v) == 0,
        v % 2 == 1 && v / 2 != 0 ==> (((succ_wrap64(v) & v) == 0) == ((succ_wrap64(v / 2) & (v
            / 2)) == 0)),
{
}

/// The `(v + 1) & v == 0` test recognizes exactly the low masks.
proof fn lemma_mask_test(v: u64)
    requires
        v != 0,
    ensures
        ((succ_wrap64(v) & v) == 0) == is_mask_spec(v as nat),
    decreases v,
{
    lemma_mask_test_step(v);
    lemma_is_mask_step(v as nat);
    if v % 2 == 1 && v / 2 != 0 {
        lemma_mask_test(v / 2);
    }
}

proof fn lemma_mask_test_32(v: u32)
    by (bit_vector)
    ensures
        ((succ_wrap32(v) & v) == 0) == ((succ_wrap64(v as u64) & (v as u64)) == 0),
{
}

/// Return true if the argument is a non-empty sequence of ones starting at
/// the least significant bit with the remainder zero (32 bit version).
pub fn is_mask_32(value: u32) -> (r: bool)
    ensures
        r == is_mask_spec(value as nat),
{
    if value == 0 {
        return false;
    }
    let s = value.wrapping_add(1);
    proof {
        assert(s == succ_wrap32(value));
        lemma_mask_test_32(value);
        lemma_mask_test(value as u64);
    }
    (s & value) == 0
}

/// Return true if the argument is a non-empty sequence of ones starting at
/// the least significant bit with the remainder zero (64 bit version).
pub fn is_mask_64(value: u64) -> (r: bool)
    ensures
        r == is_mask_spec(value as nat),
{
    if value == 0 {
        return false;
    }
    let s = value.wrapping_add(1);
    proof {
        assert(s == succ_wrap64(value));
        lemma_mask_test(value);
    }
    (s & value) == 0
}

proof fn lemma_fill_trailing_step(v: u64)
    by (bit_vector)
    requires
        v != 0,
    ensures
        v % 2 == 1 ==> fill_trailing64(v) == v,
        v % 2 == 0 ==> fill_trailing64(v) == 2 * fill_trailing64(v / 2) + 1,
        v % 2 == 0 ==> fill_trailing64(v / 2) != 0,
{
}

/// Filling the trailing zeros turns a shifted mask into a mask, and nothing
/// else into one.
proof fn lemma_fill_trailing_mask(v: u64)
    requires
        v != 0,
    ensures
        is_mask_spec(fill_trailing64(v) as nat) == is_shifted_mask_spec(v as nat),
    decreases v,
{
    lemma_fill_trailing_step(v);
    lemma_is_shifted_mask_step(v as nat);
    if v % 2 == 0 {
        lemma_fill_trailing_mask(v / 2);
        let w = fill_trailing64(v / 2) as nat;
        lemma_is_mask_step(2 * w + 1);
        assert((2 * w + 1) / 2 == w);
    }
}

proof fn lemma_fill_trailing_32(v: u32)
    by (bit_vector)
    requires
        v != 0,
    ensures
        ((((v - 1) as u32) | v) as u64) == fill_trailing64(v as u64),
{
}

/// Return true if the argument contains a non-empty sequence of ones with
/// the remainder zero (32 bit version).
pub fn is_shifted_mask_32(value: u32) -> (r: bool)
    ensures
        r == is_shifted_mask_spec(value as nat),
{
    if value == 0 {
        return false;
    }
    let filled = (value.wrapping_sub(1)) | value;
    proof {
        lemma_fill_trailing_32(value);
        lemma_fill_trailing_mask(value as u64);
    }
    is_mask_32(filled)
}

/// Return true if the argument contains a non-empty sequence of ones with
/// the remainder zero (64 bit version).
pub fn is_shifted_mask_64(value: u64) -> (r: bool)
    ensures
        r == is_shifted_mask_spec(value as nat),
{
    if value == 0 {
        return false;
    }
    let filled = (value.wrapping_sub(1)) | value;
    proof {
        assert(filled == fill_trailing64(value));
        lemma_fill_trailing_mask(value);
    }
    is_mask_64(filled)
}

proof fn lemma_clear_lowest_step(v: u64)
    by (bit_vector)
    requires
        v != 0,
    ensures
        v % 2 == 1 ==> (v & ((v - 1) as u64)) == v - 1,
        v % 2 == 0 ==> (v & ((v - 1) as u64)) == 2 * ((v / 2) & (((v / 2) - 1) as u64)),
        v % 2 == 0 ==> v / 2 != 0,
{
}

/// `v & (v - 1)` clears the lowest set bit, so it is zero exactly for powers
/// of two.
proof fn lemma_clear_lowest(v: u64)
    requires
        v != 0,
    ensures
        ((v & ((v - 1) as u64)) == 0) == is_power_of_two_spec(v as nat),
    decreases v,
{
    lemma_clear_lowest_step(v);
    lemma_is_power_of_two_step(v as nat);
    if v % 2 == 0 {
        lemma_clear_lowest(v / 2);
    }
}

proof fn lemma_clear_lowest_32(v: u32)
    by (bit_vector)
    requires
        v != 0,
    ensures
        ((v & ((v - 1) as u32)) as u64) == ((v as u64) & (((v as u64) - 1) as u64)),
{
}

/// Return true if the argument is a power of two > 0 (32 bit edition).
pub fn is_power_of2_32(value: u32) -> (r: bool)
    ensures
        r == is_power_of_two_spec(value as nat),
{
    if value == 0 {
        return false;
    }
    proof {
        lemma_clear_lowest_32(value);
        lemma_clear_lowest(value as u64);
    }
    (value & (value.wrapping_sub(1))) == 0
}

/// Return true if the argument is a power of two > 0 (64 bit edition).
pub fn is_power_of2_64(value: u64) -> (r: bool)
    ensures
        r == is_power_of_two_spec(value as nat),
{
    if value == 0 {
        return false;
    }
    proof {
        lemma_clear_lowest(value);
    }
    (value & (value.wrapping_sub(1))) == 0
}

/// Return the floor log base 2 of the specified value, `u32::MAX` (-1 as
/// unsigned) if zero (32 bit edition).
pub fn Log2_32(value: u32) -> (r: u32)
    ensures
        value == 0 ==> r == u32::MAX,
        value > 0 ==> r == bit_length(value as nat) - 1,
        value > 0 ==> pow2(r as nat) <= value < pow2(r as nat + 1),
{
    proof {
        lemma_word_max_values();
        lemma_bit_length_bound(value as nat, 32);
        if value > 0 {
            lemma_bit_length_range(value as nat);
        }
    }
    31u32.wrapping_sub(count_leading_zeros(value, ZeroBehavior::ZbWidth) as u32)
}

/// Return the floor log base 2 of the specified value, `u32::MAX` (-1 as
/// unsigned) if zero (64 bit edition).
pub fn Log2_64(value: u64) -> (r: u32)
    ensures
        value == 0 ==> r == u32::MAX,
        value > 0 ==> r == bit_length(value as nat) - 1,
        value > 0 ==> pow2(r as nat) <= value < pow2(r as nat + 1),
{
    proof {
        lemma_word_max_values();
        lemma_bit_length_bound(value as nat, 64);
        if value > 0 {
            lemma_bit_length_range(value as nat);
        }
    }
    63u32.wrapping_sub(count_leading_zeros(value, ZeroBehavior::ZbWidth) as u32)
}

/// Return the ceil log base 2 of the specified value, 32 if zero (32 bit
/// edition).
pub fn Log2_32_Ceil(value: u32) -> (r: u32)
    ensures
        value == 0 ==> r == 32,
        value > 0 ==> r == bit_length((value - 1) as nat),
        value > 0 ==> value <= pow2(r as nat) && (r > 0 ==> pow2((r - 1) as nat) < value),
{
    let m = value.wrapping_sub(1);
    proof {
        lemma_word_max_values();
        lemma_bit_length_bound(m as nat, 32);
        lemma2_to64();
        if m > 0 {
            lemma_bit_length_range(m as nat);
        }
        if value == 0 {
            assert(bit_length(m as nat) == 32) by {
                lemma_bit_length_unique(m as nat, 32);
            }
        }
    }
    32u32.wrapping_sub(count_leading_zeros(m, ZeroBehavior::ZbWidth) as u32)
}

/// Return the ceil log base 2 of the specified value, 64 if zero (64 bit
/// edition).
pub fn Log2_64_Ceil(value: u64) -> (r: u32)
    ensures
        value == 0 ==> r == 64,
        value > 0 ==> r == bit_length((value - 1) as nat),
        value > 0 ==> value <= pow2(r as nat) && (r > 0 ==> pow2((r - 1) as nat) < value),
{
    let m = value.wrapping_sub(1);
    proof {
        lemma_word_max_values();
        lemma_bit_length_bound(m as nat, 64);
        lemma2_to64();
        if m > 0 {
            lemma_bit_length_range(m as nat);
        }
        if value == 0 {
            assert(bit_length(m as nat) == 64) by {
                lemma2_to64_rest();
                lemma_bit_length_unique(m as nat, 64);
            }
        }
    }
    64u32.wrapping_sub(count_leading_zeros(m, ZeroBehavior::ZbWidth) as u32)
}

/// One step of Euclid's algorithm keeps the set of common divisors.
proof fn lemma_euclid_step(a: nat, b: nat, d: nat)
    requires
        b > 0,
    ensures
        (divides(d, a) && divides(d, b)) == (divides(d, b) && divides(d, a % b)),
{
    if d > 0 && b % d == 0 {
        let q = a / b;
        let k = b / d;
        vstd::arithmetic::div_mod::lemma_fundamental_div_mod(a as int, b as int);
        vstd::arithmetic::div_mod::lemma_fundamental_div_mod(b as int, d as int);
        assert(b * q == d * (k * q)) by (nonlinear_arith)
            requires
                b == d * k,
        ;
        vstd::arithmetic::div_mod::lemma_mod_multiples_vanish(
            (k * q) as int,
            (a % b) as int,
            d as int,
        );
        assert(a == d * (k * q) + a % b);
    }
}

/// The greatest common divisor of `a` and `b`: a common divisor that every
/// common divisor divides.
pub open spec fn is_gcd(a: nat, b: nat, g: nat) -> bool {
    &&& divides(g, a)
    &&& divides(g, b)
    &&& forall|d: nat| divides(d, a) && divides(d, b) ==> divides(d, g)
}

/// Return the greatest common divisor of the values using Euclid's
/// algorithm: a common divisor of both that every common divisor divides
/// (0 only for two zeros).
pub fn GreatestCommonDivisor64(a: u64, b: u64) -> (r: u64)
    ensures
        is_gcd(a as nat, b as nat, r as nat),
{
    let mut x = a;
    let mut y = b;
    while y != 0
        invariant
            forall|d: nat|
                (divides(d, a as nat) && divides(d, b as nat)) == (divides(d, x as nat) && divides(
                    d,
                    y as nat,
                )),
        decreases y,
    {
        let t = y;
        proof {
            assert forall|d: nat|
                (divides(d, x as nat) && divides(d, y as nat)) == (divides(d, y as nat) && divides(
                    d,
                    (x % y) as nat,
                )) by {
                lemma_euclid_step(x as nat, y as nat, d);
            }
        }
        y = x % y;
        x = t;
    }
    proof {
        assert(divides(x as nat, x as nat)) by {
            if x > 0 {
                vstd::arithmetic::div_mod::lemma_mod_self_0(x as int);
            }
        }
        assert(divides(x as nat, y as nat));
        assert forall|d: nat| divides(d, a as nat) && divides(d, b as nat) implies divides(
            d,
            x as nat,
        ) by {
            assert(divides(d, x as nat) && divides(d, y as nat));
        }
    }
    x
}


/// `x & -x` keeps only the lowest set bit, for one bit of `x` at a time.
proof fn lemma_isolate_lowest_step(x: u64)
    by (bit_vector)
    requires
        x != 0,
    ensures
        x % 2 == 1 ==> (x & ((!x + 1) as u64)) == 1,
        x % 2 == 0 ==> x / 2 != 0,
        x % 2 == 0 ==> (x & ((!x + 1) as u64)) == 2 * ((x / 2) & ((!(x / 2) + 1) as u64)),
{
}

proof fn lemma_isolate_lowest(x: u64)
    requires
        x != 0,
    ensures
        (x & ((!x + 1) as u64)) == pow2(lowest_set_bit_index(x as nat)),
    decreases x,
{
    lemma_isolate_lowest_step(x);
    lemma2_to64();
    if x % 2 == 0 {
        lemma_isolate_lowest(x / 2);
        lemma_pow2_unfold(lowest_set_bit_index(x as nat));
    }
}

proof fn lemma_or_step(a: u64, b: u64)
    by (bit_vector)
    ensures
        ((a | b) % 2 == 1) == (a % 2 == 1 || b % 2 == 1),
        (a | b) / 2 == (a / 2) | (b / 2),
        ((a | b) == 0) == (a == 0 && b == 0),
{
}

/// The lowest set bit of `a | b` is the largest power of two dividing both
/// `a` and `b`.
proof fn lemma_lowest_bit_of_or(a: u64, b: u64)
    requires
        (a | b) != 0,
    ensures
        ({
            let p = pow2(lowest_set_bit_index((a | b) as nat));
            &&& (a as nat) % p == 0
            &&& (b as nat) % p == 0
            &&& ((a as nat) / p) % 2 == 1 || ((b as nat) / p) % 2 == 1
        }),
    decreases a + b,
{
    lemma_or_step(a, b);
    lemma2_to64();
    let x = (a | b) as nat;
    if x % 2 == 0 {
        lemma_or_step(a / 2, b / 2);
        lemma_lowest_bit_of_or(a / 2, b / 2);
        let t = lowest_set_bit_index(((a / 2) | (b / 2)) as nat);
        assert(lowest_set_bit_index(x) == t + 1);
        let q = pow2(t);
        lemma_pow2_pos(t);
        lemma_pow2_unfold(t + 1);
        lemma_even_div_pow2(a as nat, t);
        lemma_even_div_pow2(b as nat, t);
    } else {
        assert(lowest_set_bit_index(x) == 0);
    }
}

/// A and B are either alignments or offsets. Return the minimum alignment
/// that may be assumed after adding the two together: the largest power of
/// two dividing both (0 when both are 0).
pub fn MinAlign(a: u64, b: u64) -> (r: u64)
    ensures
        (a | b) == 0 ==> r == 0,
        (a | b) != 0 ==> r == pow2(lowest_set_bit_index((a | b) as nat)),
        (a | b) != 0 ==> r > 0 && (a as nat) % (r as nat) == 0 && (b as nat) % (r as nat) == 0 && (
        (a / r) % 2 == 1 || (b / r) % 2 == 1),
{
    let x = a | b;
    let n = 1u64.wrapping_add(!x);
    proof {
        if x == 0 {
            assert(x & n == 0) by (bit_vector)
                requires
                    x == 0,
            ;
        } else {
            assert(x != 0 ==> !x < 0xffff_ffff_ffff_ffffu64) by (bit_vector);
            assert(n == ((!x + 1) as u64));
            lemma_isolate_lowest(x);
            lemma_lowest_bit_of_or(a, b);
            lemma_pow2_pos(lowest_set_bit_index(x as nat));
        }
    }
    x & n
}

/// `x & !(a - 1)` rounds `x` down to a multiple of the power of two `a`.
proof fn lemma_round_down_pow2(x: usize, a: usize)
    requires
        is_power_of_two_spec(a as nat),
    ensures
        (x & !((a - 1) as usize)) as nat == (x as nat / a as nat) * (a as nat),
{
    let k = (bit_length(a as nat) - 1) as nat;
    lemma_usize_fits(a);
    lemma_bit_length_bound(a as nat, usize::BITS as nat);
    lemma_bit_length_range(a as nat);
    vstd::bits::lemma_usize_low_bits_mask_is_mod(x, k);
    let m = (a - 1) as usize;
    assert(vstd::bits::low_bits_mask(k) as usize == m);
    assert(x & !m == x - (x & m)) by (bit_vector);
    assert(pow2(k) == a as nat);
    assert((x & m) as nat == x as nat % a as nat);
    vstd::arithmetic::div_mod::lemma_fundamental_div_mod(x as int, a as int);
    assert((x as nat / a as nat) * (a as nat) == (a as nat) * (x as nat / a as nat)) by (nonlinear_arith);
}

/// Aligns `addr` to `alignment` bytes, rounding up. `alignment` must be a
/// power of two, and the rounding must not overflow.
pub fn alignAddr(addr: usize, alignment: usize) -> (r: usize)
    requires
        is_power_of_two_spec(alignment as nat),
        addr + alignment - 1 <= usize::MAX,
    ensures
        r as nat == ((addr + alignment - 1) as nat / alignment as nat) * alignment as nat,
        r as nat % alignment as nat == 0,
        addr <= r < addr + alignment,
{
    let x = addr.wrapping_add(alignment - 1);
    proof {
        lemma_round_down_pow2(x, alignment);
        let q = x as nat / alignment as nat;
        vstd::arithmetic::div_mod::lemma_fundamental_div_mod(x as int, alignment as int);
        vstd::arithmetic::div_mod::lemma_mod_multiples_basic(q as int, alignment as int);
    }
    x & !(alignment - 1)
}

/// Returns the necessary adjustment for aligning `addr` to `alignment` bytes.
pub fn alignmentAdjustment(addr: usize, alignment: usize) -> (r: usize)
    requires
        is_power_of_two_spec(alignment as nat),
        addr + alignment - 1 <= usize::MAX,
    ensures
        r as nat == ((addr + alignment - 1) as nat / alignment as nat) * alignment as nat
            - addr as nat,
        r < alignment,
        (addr + r) as nat % alignment as nat == 0,
{
    alignAddr(addr, alignment) - addr
}

/// The or-shift cascade of `NextPowerOf2` turns every bit below the highest
/// set bit on.
proof fn lemma_smear(a: u64, a1: u64, a2: u64, a3: u64, a4: u64, a5: u64, s: u64)
    by (bit_vector)
    requires
        a1 == a | (a >> 1u64),
        a2 == a1 | (a1 >> 2u64),
        a3 == a2 | (a2 >> 4u64),
        a4 == a3 | (a3 >> 8u64),
        a5 == a4 | (a4 >> 16u64),
        s == a5 | (a5 >> 32u64),
    ensures
        a <= s,
        a != 0 ==> (s >> 1u64) < a,
        a == 0 ==> s == 0,
        s == 0xffff_ffff_ffff_ffff || (succ_wrap64(s) & s) == 0,
{
}

/// The power of two just above every value of bit length `k` (0 when that
/// does not fit in 64 bits).
pub open spec fn next_pow2_spec(k: nat) -> nat {
    if k >= 64 {
        0
    } else {
        pow2(k)
    }
}

/// Returns the next power of two (in 64-bits) that is strictly greater than
/// `a`. Returns zero on overflow.
pub fn NextPowerOf2(a: u64) -> (r: u64)
    ensures
        r == next_pow2_spec(bit_length(a as nat)),
        r != 0 ==> a < r && r <= 2 * (a as nat) + 1,
{
    let a1 = a | (a >> 1);
    let a2 = a1 | (a1 >> 2);
    let a3 = a2 | (a2 >> 4);
    let a4 = a3 | (a3 >> 8);
    let a5 = a4 | (a4 >> 16);
    let s = a5 | (a5 >> 32);
    proof {
        lemma_smear(a, a1, a2, a3, a4, a5, s);
        lemma_word_max_values();
        lemma2_to64();
        lemma2_to64_rest();
        if a == 0 {
            assert(bit_length(0) == 0);
        } else {
            let k = bit_length(s as nat);
            lemma_bit_length_bound(s as nat, 64);
            if s == u64::MAX {
                lemma_bit_length_unique(s as nat, 64);
            } else {
                lemma_mask_test(s);
            }
            lemma_bit_length_range(s as nat);
            assert(s as nat + 1 == pow2(k));
            lemma_u64_shr_is_div(s, 1);
            lemma_pow2_unfold(k);
            lemma_bit_length_unique(a as nat, k);
        }
    }
    s.wrapping_add(1)
}

/// Returns the power of two which is less than or equal to the given value:
/// the value of the highest set bit (0 for 0).
pub fn PowerOf2Floor(a: u64) -> (r: u64)
    ensures
        a == 0 ==> r == 0,
        a != 0 ==> r == pow2((bit_length(a as nat) - 1) as nat),
        a != 0 ==> r <= a < 2 * r,
{
    if a == 0 {
        return 0;
    }
    let lz = count_leading_zeros(a, ZeroBehavior::ZbUndefined);
    proof {
        lemma_word_max_values();
        lemma_bit_length_bound(a as nat, 64);
        lemma_bit_length_range(a as nat);
        lemma_u64_pow2_no_overflow((bit_length(a as nat) - 1) as nat);
        lemma_u64_shl_is_mul(1, (bit_length(a as nat) - 1) as u64);
        lemma_pow2_unfold(bit_length(a as nat));
    }
    1u64 << (63 - lz)
}

/// Returns the power of two which is greater than or equal to the given
/// value: the smallest power of two not below `a` (0 for 0, and 0 when that
/// does not fit in 64 bits).
pub fn PowerOf2Ceil(a: u64) -> (r: u64)
    ensures
        a == 0 ==> r == 0,
        a != 0 ==> r == next_pow2_spec(bit_length((a - 1) as nat)),
        a != 0 && r != 0 ==> a <= r && r < 2 * (a as nat),
{
    if a == 0 {
        return 0;
    }
    NextPowerOf2(a - 1)
}

/// Number of distinct 64-bit words.
pub open spec fn word_range() -> int {
    0x1_0000_0000_0000_0000
}

/// The result of `alignTo`: `(value + align - 1 - skew) / align * align +
/// skew`, with `skew` reduced modulo `align` and all arithmetic modulo
/// `2^64`.
pub open spec fn align_to_spec(value: u64, align: u64, skew: u64) -> nat
    recommends
        align != 0,
{
    let s = skew % align;
    let t = (value + align - 1 - s) % word_range();
    (((t / align as int) * align + s) % word_range()) as nat
}

/// Returns the next integer (mod 2**64) that is greater than or equal to
/// `value` and is `skew` mod `align`. `align` must be non-zero. When
/// `value + align - 1` fits in 64 bits, the result is the smallest integer
/// `>= value` congruent to `skew` modulo `align`.
pub fn alignTo(value: u64, align: u64, skew: u64) -> (r: u64)
    requires
        align != 0,
    ensures
        r == align_to_spec(value, align, skew),
        value + align - 1 <= u64::MAX ==> r % align == skew % align && value <= r && r < value
            + align,
{
    let skew = skew % align;
    let t = value.wrapping_add(align).wrapping_sub(1).wrapping_sub(skew);
    proof {
        assert(t as int == (value + align - 1 - skew) % word_range());
        vstd::arithmetic::div_mod::lemma_fundamental_div_mod(t as int, align as int);
        vstd::arithmetic::div_mod::lemma_mod_bound(t as int, align as int);
    }
    let q = t / align;
    let p = q.wrapping_mul(align);
    proof {
        assert(q * align <= t) by (nonlinear_arith)
            requires
                t == align * q + t % align,
                t % align >= 0,
        ;
        assert(p == q * align);
        if value + align - 1 <= u64::MAX {
            vstd::arithmetic::div_mod::lemma_small_mod(
                (value + align - 1 - skew) as nat,
                word_range() as nat,
            );
            assert(q * align == align * q) by (nonlinear_arith);
            vstd::arithmetic::div_mod::lemma_mod_multiples_vanish(
                q as int,
                skew as int,
                align as int,
            );
            vstd::arithmetic::div_mod::lemma_small_mod(skew as nat, align as nat);
        }
    }
    p.wrapping_add(skew)
}

/// Compile-time rounding of a value up to a multiple of `ALIGN`.
pub struct AlignTo<const ALIGN: u64>;

impl<const ALIGN: u64> AlignTo<ALIGN> {
    /// `VALUE` rounded up to the next multiple of `ALIGN`.
    pub fn from_value<const VALUE: u64>() -> (r: u64)
        requires
            ALIGN != 0,
            VALUE + ALIGN - 1 <= u64::MAX,
        ensures
            r == ((VALUE + ALIGN - 1) / (ALIGN as int)) * ALIGN,
            r % ALIGN == 0,
            VALUE <= r < VALUE + ALIGN,
    {
        let t = VALUE + (ALIGN - 1);
        proof {
            vstd::arithmetic::div_mod::lemma_fundamental_div_mod(t as int, ALIGN as int);
            vstd::arithmetic::div_mod::lemma_mod_bound(t as int, ALIGN as int);
            let q = t / ALIGN;
            assert(q * ALIGN == t - t % ALIGN) by (nonlinear_arith)
                requires
                    t == ALIGN * q + t % ALIGN,
            ;
            vstd::arithmetic::div_mod::lemma_mod_multiples_basic(q as int, ALIGN as int);
        }
        (VALUE + (ALIGN - 1)) / ALIGN * ALIGN
    }
}

/// Returns the integer `ceil(numerator / denominator)`. When
/// `numerator + denominator - 1` overflows 64 bits the rounding wraps, as in
/// `alignTo`.
pub fn divideCeil(numerator: u64, denominator: u64) -> (r: u64)
    requires
        denominator != 0,
    ensures
        r == align_to_spec(numerator, denominator, 0) / (denominator as nat),
        numerator + denominator - 1 <= u64::MAX ==> r == (numerator + denominator - 1)
            / (denominator as int),
{
    let a = alignTo(numerator, denominator, 0);
    proof {
        if numerator + denominator - 1 <= u64::MAX {
            let t = (numerator + denominator - 1) as int;
            vstd::arithmetic::div_mod::lemma_small_mod(t as nat, word_range() as nat);
            vstd::arithmetic::div_mod::lemma_fundamental_div_mod(t, denominator as int);
            vstd::arithmetic::div_mod::lemma_mod_bound(t, denominator as int);
            let q = t / (denominator as int);
            assert(q * denominator <= t) by (nonlinear_arith)
                requires
                    t == denominator * q + t % (denominator as int),
                    t % (denominator as int) >= 0,
            ;
            vstd::arithmetic::div_mod::lemma_small_mod((q * denominator) as nat, word_range() as nat);
            vstd::arithmetic::div_mod::lemma_div_multiples_vanish(q, denominator as int);
            assert(q * denominator == denominator * q) by (nonlinear_arith);
        }
    }
    a / denominator
}

/// The result of `alignDown`: `(value - skew) / align * align + skew`, with
/// `skew` reduced modulo `align` and all arithmetic modulo `2^64`.
pub open spec fn align_down_spec(value: u64, align: u64, skew: u64) -> nat
    recommends
        align != 0,
{
    let s = skew % align;
    let t = (value - s) % word_range();
    (((t / align as int) * align + s) % word_range()) as nat
}

/// Returns the largest integer less than or equal to `value` that is `skew`
/// mod `align`. `align` must be non-zero. The subtraction wraps when
/// `value < skew % align`.
pub fn alignDown(value: u64, align: u64, skew: u64) -> (r: u64)
    requires
        align != 0,
    ensures
        r == align_down_spec(value, align, skew),
        value >= skew % align ==> r % align == skew % align && r <= value && value < r + align,
{
    let skew = skew % align;
    let t = value.wrapping_sub(skew);
    proof {
        assert(t as int == (value - skew) % word_range());
        vstd::arithmetic::div_mod::lemma_fundamental_div_mod(t as int, align as int);
        vstd::arithmetic::div_mod::lemma_mod_bound(t as int, align as int);
    }
    let q = t / align;
    let p = q.wrapping_mul(align);
    proof {
        assert(q * align <= t) by (nonlinear_arith)
            requires
                t == align * q + t % align,
                t % align >= 0,
        ;
        assert(p == q * align);
        if value >= skew {
            vstd::arithmetic::div_mod::lemma_small_mod((value - skew) as nat, word_range() as nat);
            assert(q * align == align * q) by (nonlinear_arith);
            vstd::arithmetic::div_mod::lemma_mod_multiples_vanish(
                q as int,
                skew as int,
                align as int,
            );
            vstd::arithmetic::div_mod::lemma_small_mod(skew as nat, align as nat);
        }
    }
    p.wrapping_add(skew)
}

/// Returns the offset to the next integer (mod 2**64) that is greater than
/// or equal to `value` and is a multiple of `align`.
pub fn OffsetToAlignment(value: u64, align: u64) -> (r: u64)
    requires
        align != 0,
    ensures
        r as int == (align_to_spec(value, align, 0) - value) % word_range(),
        value + align - 1 <= u64::MAX ==> r < align && (value + r) % (align as int) == 0,
{
    let a = alignTo(value, align, 0);
    proof {
        vstd::arithmetic::div_mod::lemma_small_mod(0, align as nat);
    }
    a.wrapping_sub(value)
}


/// The signed value of the low `b` bits of `x`, read as a two's complement
/// number.
pub open spec fn sign_extend_spec(x: nat, b: nat) -> int {
    let low = x % pow2(b);
    if low >= pow2((b - 1) as nat) {
        low - pow2(b)
    } else {
        low as int
    }
}

proof fn lemma_sign_extend32_bits(x: u32, b: u32)
    by (bit_vector)
    requires
        0 < b <= 32,
    ensures
        ({
            let m = 1u64 << (b as u64);
            let low = (x as u64) & ((m - 1) as u64);
            ((((x << ((32 - b) as u32)) as i32) >> ((32 - b) as u32)) as int) == if low >= (m
                >> 1u64) {
                low as int - m as int
            } else {
                low as int
            }
        }),
{
}

/// The low-bits mask and the halved modulus that sign extension reads.
proof fn lemma_sign_extend_parts(x: u64, b: nat)
    requires
        0 < b < 64,
    ensures
        (1u64 << (b as u64)) as nat == pow2(b),
        ((x & (((1u64 << (b as u64)) - 1) as u64)) as nat) == (x as nat) % pow2(b),
        ((1u64 << (b as u64)) >> 1u64) as nat == pow2((b - 1) as nat),
{
    lemma_u64_pow2_no_overflow(b);
    lemma_u64_shl_is_mul(1, b as u64);
    lemma_u64_low_bits_mask_is_mod(x, b);
    assert(vstd::bits::low_bits_mask(b) as u64 == ((1u64 << (b as u64)) - 1) as u64);
    lemma_u64_shr_is_div(1u64 << (b as u64), 1);
    lemma_pow2_unfold(b);
    lemma2_to64();
}

/// Sign-extend the number in the bottom `b` bits of `x` to a 32-bit integer.
/// Requires `0 < b <= 32`.
pub fn SignExtend32(x: u32, b: u32) -> (r: i32)
    requires
        0 < b <= 32,
    ensures
        r == sign_extend_spec(x as nat, b as nat),
{
    proof {
        lemma_sign_extend32_bits(x, b);
        lemma_sign_extend_parts(x as u64, b as nat);
    }
    ((x << (32 - b)) as i32) >> (32 - b)
}

proof fn lemma_sign_extend64_bits(x: u64, b: u32)
    by (bit_vector)
    requires
        0 < b < 64,
    ensures
        ({
            let m = 1u64 << (b as u64);
            let low = x & ((m - 1) as u64);
            ((((x << ((64 - b) as u32)) as i64) >> ((64 - b) as u32)) as int) == if low >= (m
                >> 1u64) {
                low as int - m as int
            } else {
                low as int
            }
        }),
{
}

proof fn lemma_sign_extend64_full(x: u64)
    by (bit_vector)
    ensures
        ((((x << 0u32) as i64) >> 0u32) as int) == if x >= 0x8000_0000_0000_0000u64 {
            x as int - 0x1_0000_0000_0000_0000
        } else {
            x as int
        },
{
}

/// Sign-extend the number in the bottom `b` bits of `x` to a 64-bit integer.
/// Requires `0 < b <= 64`.
pub fn SignExtend64(x: u64, b: u32) -> (r: i64)
    requires
        0 < b <= 64,
    ensures
        r == sign_extend_spec(x as nat, b as nat),
{
    proof {
        if b == 64 {
            lemma_sign_extend64_full(x);
            lemma_word_max_values();
            lemma2_to64_rest();
            vstd::arithmetic::div_mod::lemma_small_mod(x as nat, pow2(64));
        } else {
            lemma_sign_extend64_bits(x, b);
            lemma_sign_extend_parts(x, b as nat);
        }
    }
    ((x << (64 - b)) as i64) >> (64 - b)
}

/// Subtract two unsigned integers, `x` and `y`, and return `|x - y|`.
pub fn AbsoluteDifference<T: UnsignedInt>(x: T, y: T) -> (r: T)
    ensures
        r.value() == if x.value() >= y.value() {
            x.value() - y.value()
        } else {
            y.value() - x.value()
        },
{
    let a = x.to_u64();
    let b = y.to_u64();
    proof {
        x.lemma_value_fits();
        y.lemma_value_fits();
    }
    let d = if a >= b {
        a - b
    } else {
        b - a
    };
    proof {
        vstd::arithmetic::div_mod::lemma_small_mod(d as nat, pow2(T::width()));
    }
    T::from_low_bits(d)
}

/// Unsigned words with the wrapping and shifting steps that the saturating
/// operations are built from.
pub trait SaturatingInt: UnsignedInt {
    /// Sum modulo `2^width`.
    fn wrapping_add(self, o: Self) -> (r: Self)
        ensures
            r.value() == (self.value() + o.value()) % pow2(Self::width()),
    ;

    /// Product modulo `2^width`.
    fn wrapping_mul(self, o: Self) -> (r: Self)
        ensures
            r.value() == (self.value() * o.value()) % pow2(Self::width()),
    ;

    /// Shift right by one bit.
    fn shr1(self) -> (r: Self)
        ensures
            r.value() == self.value() / 2,
    ;

    /// Shift left by one bit, dropping the top bit.
    fn shl1(self) -> (r: Self)
        ensures
            r.value() == (2 * self.value()) % pow2(Self::width()),
    ;

    /// Bitwise complement.
    fn not_bits(self) -> (r: Self)
        ensures
            r.value() == word_max(Self::width()) - self.value(),
    ;

    /// The lowest bit is set.
    fn bit0(self) -> (r: bool)
        ensures
            r == (self.value() % 2 == 1),
    ;
}

/// Halving, doubling (dropping the carry out of the top bit) and the low bit
/// of a `u8`.
proof fn lemma_shift_bits_u8(x: u8)
    by (bit_vector)
    ensures
        x >> 1u8 == x / 2,
        ((x & 1) != 0) == (x % 2 == 1),
        x < 0x80 ==> x << 1u8 == 2 * x,
        x >= 0x80 ==> x << 1u8 == 2 * x - 0x100,
{
}

/// Halving, doubling (dropping the carry out of the top bit) and the low bit
/// of a `u16`.
proof fn lemma_shift_bits_u16(x: u16)
    by (bit_vector)
    ensures
        x >> 1u16 == x / 2,
        ((x & 1) != 0) == (x % 2 == 1),
        x < 0x8000 ==> x << 1u16 == 2 * x,
        x >= 0x8000 ==> x << 1u16 == 2 * x - 0x1_0000,
{
}

/// Halving, doubling (dropping the carry out of the top bit) and the low bit
/// of a `u32`.
proof fn lemma_shift_bits_u32(x: u32)
    by (bit_vector)
    ensures
        x >> 1u32 == x / 2,
        ((x & 1) != 0) == (x % 2 == 1),
        x < 0x8000_0000 ==> x << 1u32 == 2 * x,
        x >= 0x8000_0000 ==> x << 1u32 == 2 * x - 0x1_0000_0000,
{
}

/// Halving, doubling (dropping the carry out of the top bit) and the low bit
/// of a `u64`.
proof fn lemma_shift_bits_u64(x: u64)
    by (bit_vector)
    ensures
        x >> 1u64 == x / 2,
        ((x & 1) != 0) == (x % 2 == 1),
        x < 0x8000_0000_0000_0000 ==> x << 1u64 == 2 * x,
        x >= 0x8000_0000_0000_0000 ==> x << 1u64 == 2 * x - 0x1_0000_0000_0000_0000,
{
}

/// Halving and the low bit of a `usize`.
proof fn lemma_shift_bits_usize(x: usize)
    by (bit_vector)
    ensures
        x >> 1usize == x / 2,
        ((x & 1) != 0) == (x % 2 == 1),
{
}

impl SaturatingInt for u8 {
    fn wrapping_add(self, o: u8) -> u8 {
        proof {
            lemma_word_max_values();
            lemma_wrap_once(self as nat + o as nat, 0x100);
        }
        self.wrapping_add(o)
    }

    fn wrapping_mul(self, o: u8) -> u8 {
        proof {
            lemma_word_max_values();
        }
        self.wrapping_mul(o)
    }

    fn shr1(self) -> u8 {
        proof {
            lemma_shift_bits_u8(self);
        }
        self >> 1
    }

    fn shl1(self) -> u8 {
        proof {
            lemma_word_max_values();
        }
        proof {
            lemma_shift_bits_u8(self);
            lemma_wrap_once(2 * self as nat, 0x100);
        }
        self << 1
    }

    fn not_bits(self) -> u8 {
        self.not()
    }

    fn bit0(self) -> bool {
        proof {
            lemma_shift_bits_u8(self);
        }
        (self & 1) != 0
    }
}

impl SaturatingInt for u16 {
    fn wrapping_add(self, o: u16) -> u16 {
        proof {
            lemma_word_max_values();
            lemma_wrap_once(self as nat + o as nat, 0x1_0000);
        }
        self.wrapping_add(o)
    }

    fn wrapping_mul(self, o: u16) -> u16 {
        proof {
            lemma_word_max_values();
        }
        self.wrapping_mul(o)
    }

    fn shr1(self) -> u16 {
        proof {
            lemma_shift_bits_u16(self);
        }
        self >> 1
    }

    fn shl1(self) -> u16 {
        proof {
            lemma_word_max_values();
        }
        proof {
            lemma_shift_bits_u16(self);
            lemma_wrap_once(2 * self as nat, 0x1_0000);
        }
        self << 1
    }

    fn not_bits(self) -> u16 {
        self.not()
    }

    fn bit0(self) -> bool {
        proof {
            lemma_shift_bits_u16(self);
        }
        (self & 1) != 0
    }
}

impl SaturatingInt for u32 {
    fn wrapping_add(self, o: u32) -> u32 {
        proof {
            lemma_word_max_values();
            lemma_wrap_once(self as nat + o as nat, 0x1_0000_0000);
        }
        self.wrapping_add(o)
    }

    fn wrapping_mul(self, o: u32) -> u32 {
        proof {
            lemma_word_max_values();
        }
        self.wrapping_mul(o)
    }

    fn shr1(self) -> u32 {
        proof {
            lemma_shift_bits_u32(self);
        }
        self >> 1
    }

    fn shl1(self) -> u32 {
        proof {
            lemma_word_max_values();
        }
        proof {
            lemma_shift_bits_u32(self);
            lemma_wrap_once(2 * self as nat, 0x1_0000_0000);
        }
        self << 1
    }

    fn not_bits(self) -> u32 {
        self.not()
    }

    fn bit0(self) -> bool {
        proof {
            lemma_shift_bits_u32(self);
        }
        (self & 1) != 0
    }
}

impl SaturatingInt for u64 {
    fn wrapping_add(self, o: u64) -> u64 {
        proof {
            lemma_word_max_values();
            lemma_wrap_once(self as nat + o as nat, 0x1_0000_0000_0000_0000);
        }
        self.wrapping_add(o)
    }

    fn wrapping_mul(self, o: u64) -> u64 {
        proof {
            lemma_word_max_values();
        }
        self.wrapping_mul(o)
    }

    fn shr1(self) -> u64 {
        proof {
            lemma_shift_bits_u64(self);
        }
        self >> 1
    }

    fn shl1(self) -> u64 {
        proof {
            lemma_word_max_values();
        }
        proof {
            lemma_shift_bits_u64(self);
            lemma_wrap_once(2 * self as nat, 0x1_0000_0000_0000_0000);
        }
        self << 1
    }

    fn not_bits(self) -> u64 {
        self.not()
    }

    fn bit0(self) -> bool {
        proof {
            lemma_shift_bits_u64(self);
        }
        (self & 1) != 0
    }
}

impl SaturatingInt for usize {
    fn wrapping_add(self, o: usize) -> usize {
        proof {
            lemma_word_max_values();
            lemma_usize_fits(self);
            lemma_usize_fits(o);
            lemma_wrap_once(self as nat + o as nat, pow2(usize::BITS as nat));
        }
        self.wrapping_add(o)
    }

    fn wrapping_mul(self, o: usize) -> usize {
        proof {
            lemma_word_max_values();
            lemma_usize_fits(self);
        }
        self.wrapping_mul(o)
    }

    fn shr1(self) -> usize {
        proof {
            lemma_shift_bits_usize(self);
        }
        self >> 1
    }

    fn shl1(self) -> usize {
        proof {
            lemma_word_max_values();
            lemma_usize_fits(self);
        }
        assert(usize::BITS == 64 ==> (self << 1usize) as int == (2 * self as int)
            % 0x1_0000_0000_0000_0000) by (bit_vector);
        assert(usize::BITS == 32 ==> (self << 1usize) as int == (2 * self as int) % 0x1_0000_0000)
            by (bit_vector);
        self << 1
    }

    fn not_bits(self) -> usize {
        self.not()
    }

    fn bit0(self) -> bool {
        proof {
            lemma_shift_bits_usize(self);
        }
        (self & 1) != 0
    }
}

/// `min(v, m)`.
pub open spec fn saturate(v: nat, m: nat) -> nat {
    if v > m {
        m
    } else {
        v
    }
}

/// Add two unsigned integers, `x` and `y`, of type `T`. Clamp the result to
/// the maximum representable value of `T` on overflow. `result_overflowed`,
/// when given, receives whether the sum overflowed.
pub fn SaturatingAdd<T: SaturatingInt>(x: T, y: T, result_overflowed: Option<&mut bool>) -> (r: T)
    ensures
        r.value() == saturate(x.value() + y.value(), word_max(T::width())),
        match result_overflowed {
            Some(f) => *final(f) == (x.value() + y.value() > word_max(T::width())),
            None => true,
        },
{
    let mut dummy = false;
    let overflowed: &mut bool = match result_overflowed {
        Some(f) => f,
        None => &mut dummy,
    };
    // Hacker's Delight, p. 29
    let z = x.wrapping_add(y);
    proof {
        x.lemma_value_fits();
        y.lemma_value_fits();
        lemma_width_facts::<T>();
        lemma_pow2_pos(T::width());
        if x.value() + y.value() >= pow2(T::width()) {
            vstd::arithmetic::div_mod::lemma_fundamental_div_mod_converse(
                (x.value() + y.value()) as int,
                pow2(T::width()) as int,
                1,
                (x.value() + y.value() - pow2(T::width())) as int,
            );
        } else {
            vstd::arithmetic::div_mod::lemma_small_mod(x.value() + y.value(), pow2(T::width()));
        }
    }
    *overflowed = z.to_u64() < x.to_u64() || z.to_u64() < y.to_u64();
    if *overflowed {
        T::max_value()
    } else {
        z
    }
}

/// `Log2_64` reinterpreted as a signed count: -1 for 0.
proof fn lemma_log2_as_i32(v: u64, l: u32)
    requires
        v == 0 ==> l == u32::MAX,
        v > 0 ==> l == bit_length(v as nat) - 1,
        v > 0 ==> pow2(l as nat) <= v < pow2(l as nat + 1),
    ensures
        v == 0 ==> (l as i32) == -1,
        v > 0 ==> (l as i32) as int == l as int && l < 64,
{
    lemma_word_max_values();
    assert(0xffff_ffffu32 as i32 == -1) by (bit_vector);
    if v > 0 {
        lemma2_to64_rest();
        lemma_bit_length_bound(v as nat, 64);
    }
}

/// `x * y` is below `2^(lx + ly + 2)` and at least `2^(lx + ly)` when `x` and
/// `y` lie in `[2^lx, 2^(lx+1))` and `[2^ly, 2^(ly+1))`.
proof fn lemma_product_range(x: nat, y: nat, lx: nat, ly: nat)
    requires
        pow2(lx) <= x < pow2(lx + 1),
        pow2(ly) <= y < pow2(ly + 1),
    ensures
        pow2(lx + ly) <= x * y,
        x * y < pow2(lx + ly + 2),
        (x / 2) * y < pow2(lx + ly + 1),
        2 * ((x / 2) * y) <= x * y,
{
    lemma_pow2_pos(lx);
    lemma_pow2_pos(ly);
    vstd::arithmetic::power2::lemma_pow2_adds(lx, ly);
    vstd::arithmetic::power2::lemma_pow2_adds(lx + 1, ly + 1);
    vstd::arithmetic::power2::lemma_pow2_adds(lx, ly + 1);
    lemma_pow2_unfold(lx + 1);
    assert(pow2(lx) * pow2(ly) <= x * y) by (nonlinear_arith)
        requires
            pow2(lx) <= x,
            pow2(ly) <= y,
    ;
    assert(x * y < pow2(lx + 1) * pow2(ly + 1)) by (nonlinear_arith)
        requires
            x < pow2(lx + 1),
            y < pow2(ly + 1),
            0 < x,
    ;
    assert((x / 2) * y < pow2(lx) * pow2(ly + 1)) by (nonlinear_arith)
        requires
            x / 2 < pow2(lx),
            y < pow2(ly + 1),
            0 < y,
    ;
    assert(2 * ((x / 2) * y) <= x * y) by (nonlinear_arith)
        requires
            2 * (x / 2) <= x,
    ;
    assert((lx + 1) + (ly + 1) == lx + ly + 2);
    assert(lx + (ly + 1) == lx + ly + 1);
}

/// The top-bit test `z & !(max >> 1)` of `SaturatingMultiply`.
proof fn lemma_top_bit(z: u64, half: u64, top: u64)
    by (bit_vector)
    requires
        (half == 0x7f && top == 0x80 && z < 0x100) || (half == 0x7fff && top == 0x8000 && z
            < 0x1_0000) || (half == 0x7fff_ffff && top == 0x8000_0000 && z < 0x1_0000_0000) || (
        half == 0x7fff_ffff_ffff_ffff && top == 0x8000_0000_0000_0000),
    ensures
        ((z & top) != 0) == (z >= top),
{
}

/// Multiply two unsigned integers, `x` and `y`, of type `T`. Clamp the result
/// to the maximum representable value of `T` on overflow.
/// `result_overflowed`, when given, receives whether the product overflowed.
pub fn SaturatingMultiply<T: SaturatingInt>(
    x: T,
    y: T,
    result_overflowed: Option<&mut bool>,
) -> (r: T)
    ensures
        r.value() == saturate(x.value() * y.value(), word_max(T::width())),
        match result_overflowed {
            Some(f) => *final(f) == (x.value() * y.value() > word_max(T::width())),
            None => true,
        },
{
    let mut dummy = false;
    let overflowed: &mut bool = match result_overflowed {
        Some(f) => f,
        None => &mut dummy,
    };
    *overflowed = false;
    let ghost w = T::width();
    let ghost xv = x.value();
    let ghost yv = y.value();
    proof {
        x.lemma_value_fits();
        y.lemma_value_fits();
        lemma_width_facts::<T>();
        lemma_word_max_values();
        lemma_pow2_pos(w);
    }
    // Log2(Z) would be either Log2Z or Log2Z + 1. Special case: if X or Y is
    // 0, Log2_64 gives -1, and Log2Z will necessarily be less than Log2Max as
    // desired.
    let xu = x.to_u64();
    let yu = y.to_u64();
    let lx = Log2_64(xu);
    let ly = Log2_64(yu);
    proof {
        lemma_log2_as_i32(xu, lx);
        lemma_log2_as_i32(yu, ly);
        lemma_bit_length_bound(xv, w);
        lemma_bit_length_bound(yv, w);
    }
    let log2z: i32 = (lx as i32).wrapping_add(ly as i32);
    let max = T::max_value();
    let mu = max.to_u64();
    let lmax = Log2_64(mu);
    proof {
        lemma_log2_as_i32(mu, lmax);
        lemma_pow2_unfold(w);
        assert(word_max(w) >= pow2((w - 1) as nat)) by {
            lemma_pow2_pos((w - 1) as nat);
        }
        lemma_bit_length_unique(word_max(w), w);
    }
    let log2max: i32 = lmax as i32;
    if log2z < log2max {
        proof {
            if xv > 0 && yv > 0 {
                lemma_product_range(xv, yv, lx as nat, ly as nat);
                if (lx + ly + 2) < w {
                    lemma_pow2_strictly_increases((lx + ly + 2) as nat, w);
                }
            } else {
                assert(xv * yv == 0) by (nonlinear_arith)
                    requires
                        xv == 0 || yv == 0,
                ;
            }
            vstd::arithmetic::div_mod::lemma_small_mod(xv * yv, pow2(w));
        }
        return x.wrapping_mul(y);
    }
    if log2z > log2max {
        proof {
            assert(xv > 0 && yv > 0);
            lemma_product_range(xv, yv, lx as nat, ly as nat);
            if (lx + ly) > w {
                lemma_pow2_strictly_increases(w, (lx + ly) as nat);
            }
        }
        *overflowed = true;
        return max;
    }
    // We're going to use the top bit, and maybe overflow one bit past it.
    // Multiply all but the bottom bit then add that on at the end.
    proof {
        assert(xv > 0 && yv > 0);
        lemma_product_range(xv, yv, lx as nat, ly as nat);
        vstd::arithmetic::div_mod::lemma_small_mod((xv / 2) * yv, pow2(w));
    }
    let mut z = (x.shr1()).wrapping_mul(y);
    let half = max.shr1();
    let top = half.not_bits();
    let zu = z.to_u64();
    let hu = half.to_u64();
    let tu = top.to_u64();
    proof {
        lemma_top_bit(zu, hu, tu);
    }
    if (zu & tu) != 0 {
        *overflowed = true;
        return max;
    }
    proof {
        vstd::arithmetic::div_mod::lemma_small_mod(2 * z.value(), pow2(w));
        vstd::arithmetic::div_mod::lemma_fundamental_div_mod(xv as int, 2);
        assert(xv * yv == 2 * ((xv / 2) * yv) + (xv % 2) * yv) by (nonlinear_arith)
            requires
                xv == 2 * (xv / 2) + xv % 2,
        ;
        assert(xv % 2 == 1 ==> (xv % 2) * yv == yv);
        assert(xv % 2 == 0 ==> (xv % 2) * yv == 0);
        assert(z.value() < pow2((w - 1) as nat));
    }
    z = z.shl1();
    if x.bit0() {
        return SaturatingAdd(z, y, Some(overflowed));
    }
    z
}

/// Multiply two unsigned integers, `x` and `y`, and add the unsigned integer
/// `a` to the product. Clamp the result to the maximum representable value
/// of `T` on overflow. `result_overflowed`, when given, receives whether the
/// result overflowed.
pub fn SaturatingMultiplyAdd<T: SaturatingInt>(
    x: T,
    y: T,
    a: T,
    result_overflowed: Option<&mut bool>,
) -> (r: T)
    ensures
        r.value() == saturate(x.value() * y.value() + a.value(), word_max(T::width())),
        match result_overflowed {
            Some(f) => *final(f) == (x.value() * y.value() + a.value() > word_max(T::width())),
            None => true,
        },
{
    let mut dummy = false;
    let overflowed: &mut bool = match result_overflowed {
        Some(f) => f,
        None => &mut dummy,
    };
    let product = SaturatingMultiply(x, y, Some(&mut *overflowed));
    if *overflowed {
        return product;
    }
    SaturatingAdd(a, product, Some(overflowed))
}


} // verus!
