//! How the bit helpers relate to one another, stated over the values their
//! contracts give.

use vstd::prelude::*;

verus! {

use vstd::arithmetic::power2::{pow2, lemma_pow2_unfold, lemma_pow2_pos, lemma2_to64, lemma_pow2_adds};
use vstd::arithmetic::div_mod::{
    lemma_fundamental_div_mod, lemma_fundamental_div_mod_converse, lemma_mod_breakdown,
    lemma_small_mod, lemma_div_denominator, lemma_mod_mod,
};
use crate::bits::{
    reverse_bits_spec, lemma_reverse_bits_bound, bit_length, word_max, popcount_spec,
    trailing_zeros_spec, is_mask_spec, is_shifted_mask_spec, is_power_of_two_spec,
    lowest_set_bit_index, divides, lemma_bit_length_range, lemma_bit_length_unique,
    lemma_bit_length_bound, lemma_trailing_zeros_lowest_bit,
};
use crate::llvm_math_extras::{sign_extend_spec, fits_signed, fits_unsigned, next_pow2_spec, is_gcd};

/// Splitting a 64-bit word into its high and low halves and joining them
/// again gives the word back (`Make_64(Hi_32(v), Lo_32(v)) == v`), and the
/// halves of a joined word are the halves it was made of.
pub proof fn lemma_hi_lo_make_64(v: u64, high: u32, low: u32)
    ensures
        (v as nat / pow2(32)) * pow2(32) + (v as nat % pow2(32)) == v,
        ((high as nat) * pow2(32) + (low as nat)) / pow2(32) == high,
        ((high as nat) * pow2(32) + (low as nat)) % pow2(32) == low,
{
    lemma2_to64();
    lemma_fundamental_div_mod(v as int, pow2(32) as int);
    vstd::arithmetic::mul::lemma_mul_is_commutative(pow2(32) as int, (v as nat / pow2(32)) as int);
    lemma_fundamental_div_mod_converse(
        ((high as nat) * pow2(32) + (low as nat)) as int,
        pow2(32) as int,
        high as int,
        low as int,
    );
}

/// Reversing `w` bits moves the top bit to the bottom: the reversal of `v`
/// is twice the reversal of its low `w - 1` bits, plus its top bit.
proof fn lemma_reverse_bits_top(v: nat, w: nat)
    requires
        w >= 1,
        v < pow2(w),
    ensures
        reverse_bits_spec(v, w) == 2 * reverse_bits_spec(v % pow2((w - 1) as nat), (w - 1) as nat)
            + v / pow2((w - 1) as nat),
    decreases w,
{
    lemma2_to64();
    if w == 1 {
        assert(reverse_bits_spec(v / 2, 0) == 0);
        assert(reverse_bits_spec(v % 1, 0) == 0);
        assert(v < 2);
        lemma_small_mod(v, 2);
        assert(reverse_bits_spec(v, 1) == (v % 2) * pow2(0) + reverse_bits_spec(v / 2, 0));
        assert(pow2((w - 1) as nat) == 1);
        assert(v % pow2((w - 1) as nat) == 0);
        assert(v / pow2((w - 1) as nat) == v) by {
            vstd::arithmetic::div_mod::lemma_div_basics(v as int);
        }
        assert(reverse_bits_spec(v % pow2((w - 1) as nat), (w - 1) as nat) == 0);
    } else {
        let k = (w - 2) as nat;
        lemma_pow2_unfold(w);
        lemma_pow2_unfold((w - 1) as nat);
        lemma_pow2_pos(k);
        let u = v / 2;
        assert(u < pow2((w - 1) as nat)) by {
            vstd::arithmetic::div_mod::lemma_div_by_multiple_is_strongly_ordered(
                v as int,
                pow2(w) as int,
                pow2((w - 1) as nat) as int,
                2,
            );
        }
        lemma_reverse_bits_top(u, (w - 1) as nat);
        // v mod 2^(w-1) = 2 * ((v / 2) mod 2^(w-2)) + v mod 2
        lemma_mod_breakdown(v as int, 2, pow2(k) as int);
        let lowbits = v % pow2((w - 1) as nat);
        assert(lowbits % 2 == v % 2 && lowbits / 2 == u % pow2(k)) by {
            lemma_fundamental_div_mod_converse(
                lowbits as int,
                2,
                (u % pow2(k)) as int,
                (v % 2) as int,
            );
        }
        lemma_div_denominator(v as int, 2, pow2(k) as int);
        assert(pow2((w - 1) as nat) == 2 * pow2(k));
        assert(v / pow2((w - 1) as nat) == u / pow2(k));
        assert(reverse_bits_spec(v, w) == (v % 2) * pow2((w - 1) as nat) + reverse_bits_spec(
            u,
            (w - 1) as nat,
        ));
        assert(reverse_bits_spec(lowbits, (w - 1) as nat) == (lowbits % 2) * pow2(k)
            + reverse_bits_spec(lowbits / 2, k));
        assert((v % 2) * pow2((w - 1) as nat) == 2 * ((v % 2) * pow2(k))) by (nonlinear_arith)
            requires
                pow2((w - 1) as nat) == 2 * pow2(k),
        ;
    }
}

/// Reversing the bits of a `w`-bit value twice gives the value back.
pub proof fn lemma_reverse_bits_involution(v: nat, w: nat)
    requires
        v < pow2(w),
    ensures
        reverse_bits_spec(reverse_bits_spec(v, w), w) == v,
    decreases w,
{
    lemma2_to64();
    if w == 0 {
        assert(v == 0);
    } else {
        let k = (w - 1) as nat;
        lemma_pow2_unfold(w);
        lemma_pow2_pos(k);
        let u = v / 2;
        assert(u < pow2(k)) by {
            vstd::arithmetic::div_mod::lemma_div_by_multiple_is_strongly_ordered(
                v as int,
                pow2(w) as int,
                pow2(k) as int,
                2,
            );
        }
        let inner = reverse_bits_spec(u, k);
        lemma_reverse_bits_bound(u, k);
        let r = reverse_bits_spec(v, w);
        assert(r == (v % 2) * pow2(k) + inner);
        lemma_reverse_bits_bound(v, w);
        lemma_reverse_bits_top(r, w);
        assert(r % pow2(k) == inner && r / pow2(k) == v % 2) by {
            lemma_fundamental_div_mod_converse(r as int, pow2(k) as int, (v % 2) as int, inner as int);
        }
        lemma_reverse_bits_involution(u, k);
    }
}

/// The trailing-ones mask of `n` bits and the trailing-zeros mask of `n` bits
/// split a `w`-bit word: the first lies below bit `n`, the second is a
/// multiple of `2^n`, and together they are all ones.
pub proof fn lemma_trailing_masks_split(n: nat, w: nat)
    requires
        n <= w,
    ensures
        word_max(n) < pow2(n),
        (word_max(w) - word_max(n)) % (pow2(n) as int) == 0,
        word_max(n) + (word_max(w) - word_max(n)) == word_max(w),
{
    lemma_pow2_pos(n);
    lemma_pow2_pos(w);
    lemma_pow2_adds(n, (w - n) as nat);
    assert(word_max(w) - word_max(n) == pow2(n) * (pow2((w - n) as nat) - 1)) by (nonlinear_arith)
        requires
            pow2(w) == pow2(n) * pow2((w - n) as nat),
            word_max(w) == pow2(w) - 1,
            word_max(n) == pow2(n) - 1,
    ;
    lemma_fundamental_div_mod_converse(
        word_max(w) - word_max(n),
        pow2(n) as int,
        pow2((w - n) as nat) - 1,
        0,
    );
}

/// The number of set bits of a `w`-bit value and of its complement add up
/// to `w`.
pub proof fn lemma_popcount_complement(v: nat, w: nat)
    requires
        v < pow2(w),
    ensures
        popcount_spec(v) + popcount_spec((word_max(w) - v) as nat) == w,
    decreases w,
{
    lemma2_to64();
    if w == 0 {
        assert(v == 0);
        assert(word_max(0) == 0);
    } else {
        let k = (w - 1) as nat;
        lemma_pow2_unfold(w);
        lemma_pow2_pos(k);
        let u = v / 2;
        assert(u < pow2(k)) by {
            vstd::arithmetic::div_mod::lemma_div_by_multiple_is_strongly_ordered(
                v as int,
                pow2(w) as int,
                pow2(k) as int,
                2,
            );
        }
        let c = (word_max(w) - v) as nat;
        let cu = (word_max(k) - u) as nat;
        assert(c == 2 * cu + (1 - v % 2)) by {
            lemma_fundamental_div_mod(v as int, 2);
        }
        assert(c % 2 == 1 - v % 2 && c / 2 == cu) by {
            lemma_fundamental_div_mod_converse(c as int, 2, cu as int, (1 - v % 2) as int);
        }
        lemma_popcount_complement(u, k);
        if v > 0 {
            assert(popcount_spec(v) == v % 2 + popcount_spec(u));
        } else {
            assert(u == 0);
        }
        if c > 0 {
            assert(popcount_spec(c) == c % 2 + popcount_spec(cu));
        } else {
            assert(cu == 0);
        }
    }
}

/// The lowest set bit of a non-zero value lies at or below its highest:
/// `find_first_set(v) <= find_last_set(v)`, and `find_last_set(v)` is
/// `w - 1 - count_leading_zeros(v)`.
pub proof fn lemma_first_set_below_last_set(v: nat, w: nat)
    requires
        0 < v < pow2(w),
    ensures
        trailing_zeros_spec(v, w) <= bit_length(v) - 1,
        bit_length(v) - 1 == w - 1 - (w - bit_length(v)),
{
    lemma_trailing_zeros_lowest_bit(v, w);
    lemma_bit_length_range(v);
    lemma_bit_length_bound(v, w);
    let t = trailing_zeros_spec(v, w);
    let b = bit_length(v);
    if t > b - 1 {
        // Then 2^t divides v while v < 2^b <= 2^t, so v would be 0.
        lemma_pow2_pos(t);
        if b < t {
            vstd::arithmetic::power2::lemma_pow2_strictly_increases(b, t);
        }
        lemma_fundamental_div_mod(v as int, pow2(t) as int);
        assert(v / pow2(t) == 0) by {
            vstd::arithmetic::div_mod::lemma_div_by_multiple_is_strongly_ordered(
                v as int,
                pow2(t) as int,
                pow2(t) as int,
                1,
            );
            lemma_small_mod(v, pow2(t));
            vstd::arithmetic::div_mod::lemma_basic_div(v as int, pow2(t) as int);
        }
    }
}

/// The ceiling logarithm of a positive value is its floor logarithm, plus
/// one unless the value is a power of two.
pub proof fn lemma_log2_ceil_vs_floor(v: nat)
    requires
        v > 0,
    ensures
        bit_length((v - 1) as nat) == (bit_length(v) - 1) + if is_power_of_two_spec(v) {
            0int
        } else {
            1int
        },
{
    lemma_bit_length_range(v);
    let b = bit_length(v);
    lemma2_to64();
    if is_power_of_two_spec(v) {
        if b == 1 {
            assert(v == 1);
            assert(bit_length(0) == 0);
        } else {
            lemma_pow2_unfold((b - 1) as nat);
            lemma_pow2_pos((b - 2) as nat);
            lemma_bit_length_unique((v - 1) as nat, (b - 1) as nat);
        }
    } else {
        assert(pow2((b - 1) as nat) < v);
        lemma_bit_length_unique((v - 1) as nat, b);
    }
}

/// The power of two at or below a value and the one at or above it (when it
/// fits in 64 bits) agree exactly when the value is a power of two.
pub proof fn lemma_power_of2_floor_ceil_meet(a: u64)
    requires
        a > 0,
        next_pow2_spec(bit_length((a - 1) as nat)) != 0,
    ensures
        pow2((bit_length(a as nat) - 1) as nat) <= a <= next_pow2_spec(
            bit_length((a - 1) as nat),
        ),
        (pow2((bit_length(a as nat) - 1) as nat) == next_pow2_spec(bit_length((a - 1) as nat)))
            == is_power_of_two_spec(a as nat),
{
    lemma_log2_ceil_vs_floor(a as nat);
    lemma_bit_length_range(a as nat);
    let b = bit_length(a as nat);
    if is_power_of_two_spec(a as nat) {
    } else {
        assert(pow2((b - 1) as nat) < a);
        assert(bit_length((a - 1) as nat) == b);
        lemma_pow2_unfold(b);
        lemma_pow2_pos((b - 1) as nat);
    }
}

/// A mask (ones from bit 0 up) is exactly one less than a power of two, and
/// is in particular a shifted mask.
pub proof fn lemma_mask_is_power_of_two_minus_one(v: nat)
    requires
        v > 0,
    ensures
        is_mask_spec(v) == is_power_of_two_spec(v + 1),
        is_mask_spec(v) ==> is_shifted_mask_spec(v),
{
    lemma2_to64();
    lemma_bit_length_range(v);
    lemma_bit_length_range(v + 1);
    let b = bit_length(v);
    if is_mask_spec(v) {
        lemma_pow2_unfold(b);
        vstd::arithmetic::power2::lemma_pow2_strictly_increases(b, b + 1);
        vstd::arithmetic::power2::lemma_pow2_strictly_increases((b - 1) as nat, b);
        lemma_bit_length_unique(v + 1, b + 1);
        assert(lowest_set_bit_index(v) == 0) by {
            assert(v % 2 == 1) by {
                lemma_fundamental_div_mod_converse(v as int, 2, (pow2((b - 1) as nat) - 1) as int, 1);
            }
        }
        assert(v / pow2(0) == v);
    }
    if is_power_of_two_spec(v + 1) {
        let c = bit_length(v + 1);
        assert(v + 1 == pow2((c - 1) as nat));
        assert(c >= 2) by {
            if c == 1 {
                assert(v + 1 == 1);
            }
        }
        lemma_pow2_unfold((c - 1) as nat);
        lemma_pow2_pos((c - 2) as nat);
        lemma_bit_length_unique(v, (c - 1) as nat);
    }
}

proof fn lemma_divides_le(d: nat, x: nat)
    requires
        divides(d, x),
        x > 0,
    ensures
        d <= x,
        d > 0,
{
    if d == 0 {
    } else {
        lemma_fundamental_div_mod(x as int, d as int);
        assert(x / d >= 1) by {
            if x / d == 0 {
                assert(x == 0);
            }
        }
        assert(d * (x / d) >= d) by (nonlinear_arith)
            requires
                x / d >= 1,
                d > 0,
        ;
    }
}

/// The greatest common divisor does not depend on the order of its
/// arguments: any gcd of `(a, b)` equals any gcd of `(b, a)`.
pub proof fn lemma_gcd_symmetric(a: nat, b: nat, g1: nat, g2: nat)
    requires
        is_gcd(a, b, g1),
        is_gcd(b, a, g2),
    ensures
        g1 == g2,
{
    assert(divides(g1, g2));
    assert(divides(g2, g1));
    if g1 == 0 {
        assert(g2 == 0 || divides(g2, 0));
        if g2 != 0 {
            assert(divides(0, g2));
        }
    } else if g2 == 0 {
        assert(divides(0, g1));
    } else {
        lemma_divides_le(g1, g2);
        lemma_divides_le(g2, g1);
    }
}

/// Sign-extending a value that is already sign-extended from `b` bits (read
/// back as a 64-bit word) changes nothing.
pub proof fn lemma_sign_extend_idempotent(x: nat, b: nat)
    requires
        0 < b <= 64,
    ensures
        sign_extend_spec((sign_extend_spec(x, b) % (pow2(64) as int)) as nat, b) == sign_extend_spec(x, b),
{
    let p = pow2(b);
    lemma_pow2_pos(b);
    lemma_pow2_adds(b, (64 - b) as nat);
    lemma_pow2_pos((64 - b) as nat);
    let s = sign_extend_spec(x, b);
    let low = x % p;
    // s and low agree modulo 2^b
    assert(s % (p as int) == low) by {
        if s == low {
            lemma_small_mod(low, p);
        } else {
            lemma_fundamental_div_mod_converse(s, p as int, -1, low as int);
        }
    }
    assert((s % (pow2(64) as int)) % (p as int) == s % (p as int)) by {
        vstd::arithmetic::mul::lemma_mul_is_commutative(p as int, pow2((64 - b) as nat) as int);
        lemma_mod_mod(s, p as int, pow2((64 - b) as nat) as int);
    }
    lemma_pow2_pos(64);
    let t = (s % (pow2(64) as int)) as nat;
    assert(t % p == low);
    assert(sign_extend_spec(t, b) == if t % p >= pow2((b - 1) as nat) {
        (t % p) - p
    } else {
        (t % p) as int
    });
}

/// A signed `n`-bit range check (`is_int_n`) accepts exactly the values
/// between `min_int_n(n)` and `max_int_n(n)`, and an unsigned one
/// (`is_u_int_n`) exactly those up to `max_u_int_n(n)`.
pub proof fn lemma_int_n_ranges(n: nat, x: i64, y: u64)
    requires
        1 <= n <= 64,
    ensures
        (n >= 64 || fits_signed(n, x as int)) == (-pow2((n - 1) as nat) <= x && x <= pow2(
            (n - 1) as nat,
        ) - 1),
        (n >= 64 || fits_unsigned(n, y as int)) == (y <= word_max(n)),
{
    lemma2_to64();
    vstd::arithmetic::power2::lemma2_to64_rest();
    lemma_pow2_pos(n);
}


/// Bit `i` of `x`.
pub open spec fn bit_at(x: nat, i: nat) -> nat {
    (x / pow2(i)) % 2
}

/// Reversing the bits of a `w`-bit value moves bit `w - 1 - i` to bit `i`.
pub proof fn lemma_reverse_bits_bit(v: nat, w: nat, i: nat)
    requires
        i < w,
    ensures
        bit_at(reverse_bits_spec(v, w), i) == bit_at(v, (w - 1 - i) as nat),
    decreases w,
{
    let k = (w - 1) as nat;
    let u = v / 2;
    let inner = reverse_bits_spec(u, k);
    let r = reverse_bits_spec(v, w);
    lemma_reverse_bits_bound(u, k);
    lemma_pow2_pos(k);
    lemma_pow2_pos(i);
    assert(r == (v % 2) * pow2(k) + inner);
    if i == k {
        vstd::arithmetic::div_mod::lemma_fundamental_div_mod_converse(
            r as int,
            pow2(k) as int,
            (v % 2) as int,
            inner as int,
        );
        assert(pow2(0) == 1) by {
            lemma2_to64();
        }
        assert(v / pow2(0) == v);
    } else {
        let e = (k - i) as nat;
        vstd::arithmetic::power2::lemma_pow2_adds(i, e);
        assert(i + e == k);
        lemma_pow2_unfold(e);
        let c = (v % 2) * pow2((e - 1) as nat);
        assert((v % 2) * pow2(k) == (2 * c) * pow2(i)) by (nonlinear_arith)
            requires
                pow2(k) == pow2(i) * pow2(e),
                pow2(e) == 2 * pow2((e - 1) as nat),
                c == (v % 2) * pow2((e - 1) as nat),
        ;
        vstd::arithmetic::div_mod::lemma_hoist_over_denominator(inner as int, (2 * c) as int, pow2(i));
        assert(r / pow2(i) == inner / pow2(i) + 2 * c);
        vstd::arithmetic::div_mod::lemma_mod_multiples_vanish(c as int, (inner / pow2(i)) as int, 2);
        assert(bit_at(r, i) == bit_at(inner, i));
        lemma_reverse_bits_bit(u, k, i);
        let j = (k - 1 - i) as nat;
        lemma_pow2_pos(j);
        vstd::arithmetic::div_mod::lemma_div_denominator(v as int, 2, pow2(j) as int);
        lemma_pow2_unfold(j + 1);
        assert(j + 1 == w - 1 - i);
        assert(2 * pow2(j) == pow2(j + 1));
    }
}

} // verus!
