//! Mathematical model of fixed-width unsigned words, and the word-level
//! primitives (bit scans, population count, bit reversal) that the rest of the
//! library builds on.

use vstd::prelude::*;

verus! {

use vstd::arithmetic::power2::{
    pow2,
    lemma_pow2_unfold,
    lemma_pow2_pos,
    lemma2_to64,
    lemma2_to64_rest,
    lemma_pow2_strictly_increases,
};
use vstd::arithmetic::div_mod::{
    lemma_fundamental_div_mod,
};

/// Number of zero bits below the lowest set bit of `v`, looking at the low
/// `w` bits only (so a zero word has `w` trailing zeros).
pub open spec fn trailing_zeros_spec(v: nat, w: nat) -> nat
    decreases w,
{
    if w == 0 {
        0
    } else if v % 2 == 1 {
        0
    } else {
        1 + trailing_zeros_spec(v / 2, (w - 1) as nat)
    }
}

/// Number of significant bits of `v`: the position of its highest set bit
/// plus one, and 0 for 0.
pub open spec fn bit_length(v: nat) -> nat
    decreases v,
{
    if v == 0 {
        0
    } else {
        1 + bit_length(v / 2)
    }
}

/// Number of zero bits above the highest set bit of a `w`-bit word.
pub open spec fn leading_zeros_spec(v: nat, w: nat) -> nat {
    (w - bit_length(v)) as nat
}

/// Number of set bits of `v`.
pub open spec fn popcount_spec(v: nat) -> nat
    decreases v,
{
    if v == 0 {
        0
    } else {
        v % 2 + popcount_spec(v / 2)
    }
}

/// The low `w` bits of `v`, in reverse order: bit `i` moves to bit `w - 1 - i`.
pub open spec fn reverse_bits_spec(v: nat, w: nat) -> nat
    decreases w,
{
    if w == 0 {
        0
    } else {
        (v % 2) * pow2((w - 1) as nat) + reverse_bits_spec(v / 2, (w - 1) as nat)
    }
}

/// All-ones word of width `w`.
pub open spec fn word_max(w: nat) -> nat {
    (pow2(w) - 1) as nat
}

/// `v` is a non-empty run of ones starting at bit 0, with every other bit 0.
pub open spec fn is_mask_spec(v: nat) -> bool {
    v > 0 && v + 1 == pow2(bit_length(v))
}

/// `v` is a non-empty run of ones, shifted left by any amount.
pub open spec fn is_shifted_mask_spec(v: nat) -> bool {
    v > 0 && is_mask_spec(v / pow2(lowest_set_bit_index(v)))
}

/// `v` is a power of two (and so not zero).
pub open spec fn is_power_of_two_spec(v: nat) -> bool {
    v > 0 && v == pow2((bit_length(v) - 1) as nat)
}


/// Number of zero bits below the lowest set bit of `v` (0 for 0).
pub open spec fn lowest_set_bit_index(v: nat) -> nat
    decreases v,
{
    if v == 0 {
        0
    } else if v % 2 == 1 {
        0
    } else {
        1 + lowest_set_bit_index(v / 2)
    }
}

/// `d` divides `x` (zero divides only zero).
pub open spec fn divides(d: nat, x: nat) -> bool {
    if d == 0 {
        x == 0
    } else {
        x % d == 0
    }
}

pub proof fn lemma_pow2_even(k: nat)
    requires
        k >= 1,
    ensures
        pow2(k) % 2 == 0,
        pow2(k) == 2 * pow2((k - 1) as nat),
{
    lemma_pow2_unfold(k);
}

/// An even number whose half is a multiple of `2^t` is a multiple of
/// `2^(t+1)`, with the same quotient.
pub proof fn lemma_even_div_pow2(y: nat, t: nat)
    requires
        y % 2 == 0,
        (y / 2) % pow2(t) == 0,
    ensures
        y % pow2(t + 1) == 0,
        y / pow2(t + 1) == (y / 2) / pow2(t),
{
    let q = pow2(t);
    lemma_pow2_pos(t);
    lemma_pow2_unfold(t + 1);
    let k = (y / 2) / q;
    lemma_fundamental_div_mod((y / 2) as int, q as int);
    assert(y == k * (2 * q)) by (nonlinear_arith)
        requires
            y == 2 * (y / 2),
            (y / 2) == q * k,
    ;
    vstd::arithmetic::div_mod::lemma_mod_multiples_basic(k as int, (2 * q) as int);
    vstd::arithmetic::div_mod::lemma_div_multiples_vanish(k as int, (2 * q) as int);
}

/// Unfolding `is_mask_spec` one bit at a time.
pub proof fn lemma_is_mask_step(v: nat)
    requires
        v > 0,
    ensures
        v % 2 == 0 ==> !is_mask_spec(v),
        v % 2 == 1 && v / 2 == 0 ==> is_mask_spec(v),
        v % 2 == 1 && v / 2 > 0 ==> (is_mask_spec(v) == is_mask_spec(v / 2)),
{
    let u = v / 2;
    let b = bit_length(v);
    assert(b == 1 + bit_length(u));
    lemma_pow2_even(b);
    if v % 2 == 1 && u == 0 {
        assert(bit_length(0) == 0);
        lemma2_to64();
    }
}

/// Unfolding `is_shifted_mask_spec` one bit at a time.
pub proof fn lemma_is_shifted_mask_step(v: nat)
    requires
        v > 0,
    ensures
        v % 2 == 1 ==> (is_shifted_mask_spec(v) == is_mask_spec(v)),
        v % 2 == 0 ==> (is_shifted_mask_spec(v) == is_shifted_mask_spec(v / 2)),
{
    if v % 2 == 1 {
        lemma2_to64();
        assert(lowest_set_bit_index(v) == 0);
        assert(v / pow2(0) == v);
    } else {
        let u = v / 2;
        let t = lowest_set_bit_index(u);
        assert(lowest_set_bit_index(v) == t + 1);
        lemma_pow2_pos(t);
        lemma_pow2_unfold(t + 1);
        vstd::arithmetic::div_mod::lemma_div_denominator(v as int, 2, pow2(t) as int);
        assert(v / pow2(t + 1) == u / pow2(t));
    }
}

/// Unfolding `is_power_of_two_spec` one bit at a time.
pub proof fn lemma_is_power_of_two_step(v: nat)
    requires
        v > 0,
    ensures
        v % 2 == 1 ==> (is_power_of_two_spec(v) == (v == 1)),
        v % 2 == 0 ==> (is_power_of_two_spec(v) == is_power_of_two_spec(v / 2)),
{
    let u = v / 2;
    let b = bit_length(v);
    assert(b == 1 + bit_length(u));
    lemma2_to64();
    if v % 2 == 1 {
        if v > 1 {
            assert(bit_length(u) >= 1) by {
                lemma_bit_length_range(u);
            }
            lemma_pow2_even((b - 1) as nat);
        } else {
            assert(bit_length(0) == 0);
        }
    } else {
        lemma_bit_length_range(u);
        lemma_pow2_even((b - 1) as nat);
    }
}

pub proof fn lemma_bit_length_bound(v: nat, w: nat)
    requires
        v < pow2(w),
    ensures
        bit_length(v) <= w,
    decreases w,
{
    if w == 0 {
        assert(pow2(0) == 1) by {
            lemma2_to64();
        }
    } else if v > 0 {
        lemma_pow2_unfold(w);
        lemma_bit_length_bound(v / 2, (w - 1) as nat);
    }
}

/// A positive `v` lies between the powers of two that its bit length names.
pub proof fn lemma_bit_length_range(v: nat)
    requires
        v > 0,
    ensures
        bit_length(v) >= 1,
        pow2((bit_length(v) - 1) as nat) <= v,
        v < pow2(bit_length(v)),
    decreases v,
{
    if v == 1 {
        assert(bit_length(0) == 0);
        lemma2_to64();
    } else {
        lemma_bit_length_range(v / 2);
        lemma_pow2_unfold(bit_length(v));
        lemma_pow2_unfold((bit_length(v) - 1) as nat);
    }
}

/// The bit length is the unique `k` with `2^(k-1) <= v < 2^k`.
pub proof fn lemma_bit_length_unique(v: nat, k: nat)
    requires
        k >= 1,
        pow2((k - 1) as nat) <= v,
        v < pow2(k),
    ensures
        bit_length(v) == k,
{
    lemma_pow2_pos((k - 1) as nat);
    lemma_bit_length_range(v);
    let b = bit_length(v);
    if b < k {
        if b < k - 1 {
            lemma_pow2_strictly_increases(b, (k - 1) as nat);
        }
    } else if b > k {
        lemma_pow2_strictly_increases(k, (b - 1) as nat);
    }
}

pub proof fn lemma_popcount_bound(v: nat)
    ensures
        popcount_spec(v) <= bit_length(v),
    decreases v,
{
    if v > 0 {
        lemma_popcount_bound(v / 2);
    }
}

pub proof fn lemma_trailing_zeros_bound(v: nat, w: nat)
    ensures
        trailing_zeros_spec(v, w) <= w,
    decreases w,
{
    if w > 0 && v % 2 != 1 {
        lemma_trailing_zeros_bound(v / 2, (w - 1) as nat);
    }
}

pub proof fn lemma_trailing_zeros_of_zero(w: nat)
    ensures
        trailing_zeros_spec(0, w) == w,
    decreases w,
{
    if w > 0 {
        lemma_trailing_zeros_of_zero((w - 1) as nat);
    }
}

/// For a nonzero word, the trailing zero count names the lowest set bit: `v`
/// is an odd multiple of `2^tz`.
pub proof fn lemma_trailing_zeros_lowest_bit(v: nat, w: nat)
    requires
        0 < v < pow2(w),
    ensures
        trailing_zeros_spec(v, w) < w,
        v % pow2(trailing_zeros_spec(v, w)) == 0,
        (v / pow2(trailing_zeros_spec(v, w))) % 2 == 1,
    decreases w,
{
    lemma2_to64();
    if w == 0 {
    } else if v % 2 == 1 {
        assert(trailing_zeros_spec(v, w) == 0);
        assert(v / 1 == v);
    } else {
        lemma_pow2_unfold(w);
        let u = v / 2;
        lemma_trailing_zeros_lowest_bit(u, (w - 1) as nat);
        let t = trailing_zeros_spec(u, (w - 1) as nat);
        lemma_pow2_pos(t);
        lemma_pow2_unfold(t + 1);
        assert(pow2(t + 1) == 2 * pow2(t));
        assert(v == 2 * u);
        assert(u == pow2(t) * (u / pow2(t))) by {
            lemma_fundamental_div_mod(u as int, pow2(t) as int);
        }
        let q = u / pow2(t);
        assert(v == q * pow2(t + 1)) by (nonlinear_arith)
            requires
                v == 2 * u,
                u == pow2(t) * q,
                pow2(t + 1) == 2 * pow2(t),
        ;
        assert(v % pow2(t + 1) == 0 && v / pow2(t + 1) == q) by {
            vstd::arithmetic::div_mod::lemma_mod_multiples_basic(q as int, pow2(t + 1) as int);
            vstd::arithmetic::div_mod::lemma_div_multiples_vanish(q as int, pow2(t + 1) as int);
        }
        assert(trailing_zeros_spec(v, w) == t + 1);
    }
}

pub proof fn lemma_reverse_bits_bound(v: nat, w: nat)
    ensures
        reverse_bits_spec(v, w) < pow2(w),
    decreases w,
{
    lemma_pow2_pos(w);
    if w > 0 {
        lemma_reverse_bits_bound(v / 2, (w - 1) as nat);
        lemma_pow2_unfold(w);
        let p = pow2((w - 1) as nat);
        assert((v % 2) * p <= p) by (nonlinear_arith)
            requires
                v % 2 <= 1,
                p > 0,
        ;
    }
}

/// `2^n - 1` as a quotient: dropping the low `w - n` bits of a `w`-bit
/// all-ones word leaves an `n`-bit all-ones word.
pub proof fn lemma_word_max_div(w: nat, n: nat)
    requires
        n <= w,
    ensures
        word_max(w) / pow2((w - n) as nat) == word_max(n),
{
    let d = pow2((w - n) as nat);
    lemma_pow2_pos((w - n) as nat);
    lemma_pow2_pos(n);
    lemma_pow2_pos(w);
    vstd::arithmetic::power2::lemma_pow2_adds(n, (w - n) as nat);
    assert(pow2(w) == pow2(n) * d);
    assert(word_max(w) == word_max(n) * d + (d - 1)) by (nonlinear_arith)
        requires
            pow2(w) == pow2(n) * d,
            word_max(w) == pow2(w) - 1,
            word_max(n) == pow2(n) - 1,
    ;
    vstd::arithmetic::div_mod::lemma_fundamental_div_mod_converse(
        word_max(w) as int,
        d as int,
        word_max(n) as int,
        (d - 1) as int,
    );
}

/// Counts the trailing zeros of the low `w` bits of `v`.
pub fn trailing_zeros_word(v: u64, w: u32) -> (r: u32)
    requires
        w <= 64,
    ensures
        r == trailing_zeros_spec(v as nat, w as nat),
{
    let mut x = v;
    let mut i: u32 = 0;
    while i < w && x % 2 == 0
        invariant
            i <= w,
            trailing_zeros_spec(v as nat, w as nat) == i + trailing_zeros_spec(
                x as nat,
                (w - i) as nat,
            ),
        decreases w - i,
    {
        x = x / 2;
        i = i + 1;
    }
    i
}

/// Counts the significant bits of `v`.
pub fn bit_length_word(v: u64) -> (r: u32)
    ensures
        r == bit_length(v as nat),
        r <= 64,
{
    proof {
        lemma2_to64_rest();
        lemma_bit_length_bound(v as nat, 64);
    }
    let mut x = v;
    let mut n: u32 = 0;
    while x != 0
        invariant
            bit_length(v as nat) == n + bit_length(x as nat),
            bit_length(v as nat) <= 64,
        decreases x,
    {
        x = x / 2;
        n = n + 1;
    }
    n
}

/// Counts the set bits of `v`.
pub fn popcount_word(v: u64) -> (r: u32)
    ensures
        r == popcount_spec(v as nat),
{
    proof {
        lemma2_to64_rest();
        lemma_bit_length_bound(v as nat, 64);
        lemma_popcount_bound(v as nat);
    }
    let mut x = v;
    let mut n: u32 = 0;
    while x != 0
        invariant
            popcount_spec(v as nat) == n + popcount_spec(x as nat),
            popcount_spec(v as nat) <= 64,
        decreases x,
    {
        n = n + (x % 2) as u32;
        x = x / 2;
    }
    n
}

/// Reverses the low `w` bits of `v`.
pub fn reverse_bits_word(v: u64, w: u32) -> (r: u64)
    requires
        w <= 64,
    ensures
        r == reverse_bits_spec(v as nat, w as nat),
{
    let mut x = v;
    let mut r: u64 = 0;
    let mut i: u32 = 0;
    proof {
        lemma2_to64();
    }
    while i < w
        invariant
            i <= w <= 64,
            r < pow2(i as nat),
            reverse_bits_spec(v as nat, w as nat) == r * pow2((w - i) as nat)
                + reverse_bits_spec(x as nat, (w - i) as nat),
        decreases w - i,
    {
        proof {
            lemma2_to64_rest();
            if i < 63 {
                lemma_pow2_strictly_increases(i as nat, 63);
            }
            lemma_pow2_unfold((w - i) as nat);
            lemma_pow2_unfold((i + 1) as nat);
            let p = pow2((w - i - 1) as nat);
            let rr = r as nat;
            let b = (x % 2) as nat;
            assert(rr * (2 * p) + b * p == (2 * rr + b) * p) by (nonlinear_arith);
        }
        r = r * 2 + x % 2;
        x = x / 2;
        i = i + 1;
    }
    proof {
        lemma2_to64();
        assert(reverse_bits_spec(x as nat, 0) == 0);
        assert(r * pow2(0) == r);
    }
    r
}

} // verus!
