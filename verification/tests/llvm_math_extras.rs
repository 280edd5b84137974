#![allow(non_snake_case)]

use executorch_kernels::llvm_math_extras::{
    alignAddr, alignDown, alignTo, alignmentAdjustment, count_leading_ones, count_leading_zeros,
    count_trailing_ones, count_trailing_zeros, divideCeil, find_first_set, find_last_set,
    is_int, is_int_16, is_int_32, is_int_8, is_int_n, is_mask_32, is_mask_64, is_power_of2_32,
    is_power_of2_64, is_shifted_int, is_shifted_mask_32, is_shifted_mask_64, is_shifted_u_int,
    is_u_int, is_u_int_16, is_u_int_32, is_u_int_8, is_u_int_n, mask_leading_ones,
    mask_leading_zeros, mask_trailing_ones, mask_trailing_zeros, max_int_n, max_u_int_n,
    min_int_n, reverse_bits, AbsoluteDifference, AlignTo, GreatestCommonDivisor64, Hi_32,
    Lo_32, Log2_32, Log2_32_Ceil, Log2_64, Log2_64_Ceil, Make_64, MinAlign, NextPowerOf2,
    OffsetToAlignment, PowerOf2Ceil, PowerOf2Floor, SaturatingAdd, SaturatingMultiply,
    SaturatingMultiplyAdd, SignExtend32, SignExtend64, ZbMax, ZbUndefined, ZbWidth,
};
// The MSVC `_BitScan*` intrinsics have no Rust body: the counter
// specializations use `trailing_zeros`/`leading_zeros` directly. The
// observable contract of `_BitScanForward{,64}` (index of least-significant
// set bit) is exactly `count_trailing_zeros`, and `_BitScanReverse{,64}`
// (index of most-significant set bit) is `Log2_*`; we exercise those
// equivalences here so the intrinsic contract is genuinely covered.
#[test]
fn bit_scan_contract_matches_std_bit_ops() {
    // _BitScanForward(mask) -> index of lowest set bit.
    assert_eq!(count_trailing_zeros(0x0000_0010u32, ZbUndefined), 4);
    assert_eq!(
        count_trailing_zeros(0x8000_0000_0000_0000u64, ZbUndefined),
        63
    );
    // _BitScanReverse(mask) -> index of highest set bit == Log2 (floor).
    assert_eq!(Log2_32(0x0000_0010u32), 4);
    assert_eq!(Log2_64(0x8000_0000_0000_0000u64), 63);
}

#[test]
fn count_trailing_zeros_basic_and_zero_behavior() {
    // Generic (<4-byte) specialization via u8/u16.
    assert_eq!(count_trailing_zeros(0b0000_1000u8, ZbUndefined), 3);
    assert_eq!(count_trailing_zeros(0x0100u16, ZbUndefined), 8);
    // 4-byte specialization.
    assert_eq!(count_trailing_zeros(0x0000_0001u32, ZbUndefined), 0);
    assert_eq!(count_trailing_zeros(0x8000_0000u32, ZbUndefined), 31);
    // 8-byte specialization.
    assert_eq!(
        count_trailing_zeros(0x0000_0000_0001_0000u64, ZbUndefined),
        16
    );
    // Val == 0: non-Undefined behaviors return the type width (digits).
    assert_eq!(count_trailing_zeros(0u8, ZbWidth), 8);
    assert_eq!(count_trailing_zeros(0u16, ZbWidth), 16);
    assert_eq!(count_trailing_zeros(0u32, ZbWidth), 32);
    assert_eq!(count_trailing_zeros(0u64, ZbMax), 64);
}

#[test]
fn count_leading_zeros_basic_and_zero_behavior() {
    assert_eq!(count_leading_zeros(0x01u8, ZbUndefined), 7);
    assert_eq!(count_leading_zeros(0x80u8, ZbUndefined), 0);
    assert_eq!(count_leading_zeros(0x0001u16, ZbUndefined), 15);
    assert_eq!(count_leading_zeros(0x0000_0001u32, ZbUndefined), 31);
    assert_eq!(count_leading_zeros(0x8000_0000u32, ZbUndefined), 0);
    assert_eq!(
        count_leading_zeros(0x0000_0000_0000_0001u64, ZbUndefined),
        63
    );
    // Val == 0 returns width for non-Undefined behaviors.
    assert_eq!(count_leading_zeros(0u8, ZbWidth), 8);
    assert_eq!(count_leading_zeros(0u32, ZbWidth), 32);
    assert_eq!(count_leading_zeros(0u64, ZbWidth), 64);
}

#[test]
fn find_first_set_returns_index_or_max() {
    assert_eq!(find_first_set(0x0000_0018u32, ZbMax), 3);
    assert_eq!(find_first_set(0x0000_0001u32, ZbMax), 0);
    assert_eq!(find_first_set(0x8000_0000u32, ZbMax), 31);
    // ZB_Max: zero input yields all-ones sentinel.
    assert_eq!(find_first_set(0u32, ZbMax), u32::MAX);
    assert_eq!(find_first_set(0u8, ZbMax), u8::MAX);
}

#[test]
fn find_last_set_returns_index_or_max() {
    assert_eq!(find_last_set(0x0000_0018u32, ZbMax), 4);
    assert_eq!(find_last_set(0x0000_0001u32, ZbMax), 0);
    assert_eq!(find_last_set(0x8000_0000u32, ZbMax), 31);
    assert_eq!(find_last_set(0x01u8, ZbMax), 0);
    assert_eq!(find_last_set(0x80u8, ZbMax), 7);
    assert_eq!(find_last_set(0u32, ZbMax), u32::MAX);
}

#[test]
fn mask_helpers() {
    assert_eq!(mask_trailing_ones::<u8>(0), 0x00);
    assert_eq!(mask_trailing_ones::<u8>(3), 0x07);
    assert_eq!(mask_trailing_ones::<u8>(8), 0xFF);
    assert_eq!(mask_trailing_ones::<u32>(12), 0x0000_0FFF);
    assert_eq!(mask_trailing_ones::<u64>(64), u64::MAX);

    assert_eq!(mask_leading_ones::<u8>(3), 0xE0);
    assert_eq!(mask_leading_ones::<u32>(4), 0xF000_0000);

    assert_eq!(mask_trailing_zeros::<u8>(3), 0xF8);
    assert_eq!(mask_leading_zeros::<u8>(3), 0x1F);
}

#[test]
fn reverse_bits_full_width() {
    assert_eq!(reverse_bits(0x01u8), 0x80);
    assert_eq!(reverse_bits(0x80u8), 0x01);
    assert_eq!(reverse_bits(0x0000_0001u32), 0x8000_0000);
    assert_eq!(
        reverse_bits(0x8000_0000_0000_0000u64),
        0x0000_0000_0000_0001
    );
    // Involution: reversing twice is the identity.
    let v = 0x1234_5678u32;
    assert_eq!(reverse_bits(reverse_bits(v)), v);
}

#[test]
fn hi_lo_make_64() {
    let v = 0xDEAD_BEEF_1234_5678u64;
    assert_eq!(Hi_32(v), 0xDEAD_BEEF);
    assert_eq!(Lo_32(v), 0x1234_5678);
    assert_eq!(Make_64(0xDEAD_BEEF, 0x1234_5678), v);
    assert_eq!(Make_64(Hi_32(v), Lo_32(v)), v);
}

#[test]
fn is_int_and_specializations() {
    // isInt<4>: valid range [-8, 7].
    assert!(is_int(4, 7));
    assert!(is_int(4, -8));
    assert!(!is_int(4, 8));
    assert!(!is_int(4, -9));
    // N >= 64 is always true.
    assert!(is_int(64, i64::MAX));
    assert!(is_int(64, i64::MIN));

    assert!(is_int_8(127));
    assert!(is_int_8(-128));
    assert!(!is_int_8(128));
    assert!(is_int_16(32767));
    assert!(!is_int_16(32768));
    assert!(is_int_32(i32::MAX as i64));
    assert!(!is_int_32(i32::MAX as i64 + 1));
}

#[test]
fn is_shifted_int_checks() {
    // N=4, S=2: value must fit in isInt<6> ([-32,31]) and be a multiple of 4.
    assert!(is_shifted_int(4, 2, 12));
    assert!(!is_shifted_int(4, 2, 13));
    assert!(!is_shifted_int(4, 2, 32));
}

#[test]
fn is_u_int_and_specializations() {
    // isUInt<4>: valid range [0, 15].
    assert!(is_u_int(4, 15));
    assert!(!is_u_int(4, 16));
    // N >= 64 always true.
    assert!(is_u_int(64, u64::MAX));

    assert!(is_u_int_8(255));
    assert!(!is_u_int_8(256));
    assert!(is_u_int_16(65535));
    assert!(!is_u_int_16(65536));
    assert!(is_u_int_32(u32::MAX as u64));
    assert!(!is_u_int_32(u32::MAX as u64 + 1));
}

#[test]
fn is_shifted_u_int_checks() {
    // N=4, S=2: value must fit in isUInt<6> ([0,63]) and be a multiple of 4.
    assert!(is_shifted_u_int(4, 2, 12));
    assert!(!is_shifted_u_int(4, 2, 13));
    assert!(!is_shifted_u_int(4, 2, 64));
}

#[test]
fn min_max_int_n() {
    assert_eq!(max_u_int_n(8), 255);
    assert_eq!(max_u_int_n(1), 1);
    assert_eq!(max_u_int_n(64), u64::MAX);

    assert_eq!(min_int_n(8), -128);
    assert_eq!(max_int_n(8), 127);
    assert_eq!(min_int_n(64), i64::MIN);
    assert_eq!(max_int_n(64), i64::MAX);
}

#[test]
fn is_u_int_n_and_is_int_n() {
    assert!(is_u_int_n(8, 255));
    assert!(!is_u_int_n(8, 256));
    assert!(is_u_int_n(64, u64::MAX));

    assert!(is_int_n(8, 127));
    assert!(is_int_n(8, -128));
    assert!(!is_int_n(8, 128));
    assert!(!is_int_n(8, -129));
    assert!(is_int_n(64, i64::MIN));
}

#[test]
fn is_mask() {
    assert!(is_mask_32(0x0000_FFFF));
    assert!(is_mask_32(0x0000_0001));
    assert!(is_mask_32(u32::MAX));
    assert!(!is_mask_32(0));
    assert!(!is_mask_32(0x0000_FF01));

    assert!(is_mask_64(0x0000_0000_FFFF_FFFF));
    assert!(is_mask_64(u64::MAX));
    assert!(!is_mask_64(0));
    assert!(!is_mask_64(0x0000_0000_0000_0002));
}

#[test]
fn is_shifted_mask() {
    assert!(is_shifted_mask_32(0x0000_FF00));
    assert!(is_shifted_mask_32(0x0000_FFFF));
    assert!(!is_shifted_mask_32(0));
    assert!(!is_shifted_mask_32(0x0000_FF01));

    assert!(is_shifted_mask_64(0x00FF_FF00_0000_0000));
    assert!(!is_shifted_mask_64(0));
    assert!(!is_shifted_mask_64(0x0000_0000_0000_0101));
}

#[test]
fn is_power_of2() {
    assert!(is_power_of2_32(0x0010_0000));
    assert!(is_power_of2_32(1));
    assert!(!is_power_of2_32(0));
    assert!(!is_power_of2_32(3));

    assert!(is_power_of2_64(1u64 << 40));
    assert!(!is_power_of2_64(0));
    assert!(!is_power_of2_64(6));
}

#[test]
fn count_leading_and_trailing_ones() {
    assert_eq!(count_leading_ones(0xFF0F_FF00u32, ZbWidth), 8);
    assert_eq!(count_leading_ones(0xFFFF_FFFFu32, ZbWidth), 32);
    assert_eq!(count_leading_ones(0x0000_0000u32, ZbWidth), 0);

    assert_eq!(count_trailing_ones(0x00FF_00FFu32, ZbWidth), 8);
    assert_eq!(count_trailing_ones(0xFFFF_FFFFu32, ZbWidth), 32);
    assert_eq!(count_trailing_ones(0x0000_0000u32, ZbWidth), 0);
}

#[test]
fn count_population() {
    // <=4-byte generic specialization.
    assert_eq!(executorch_kernels::llvm_math_extras::count_population(0xF000_F000u32), 8);
    assert_eq!(executorch_kernels::llvm_math_extras::count_population(0u32), 0);
    assert_eq!(executorch_kernels::llvm_math_extras::count_population(0xFFu8), 8);
    // 8-byte specialization.
    assert_eq!(executorch_kernels::llvm_math_extras::count_population(u64::MAX), 64);
    assert_eq!(executorch_kernels::llvm_math_extras::count_population(0xF000_0000_0000_000Fu64), 8);
}

#[test]
fn log2_floor() {
    assert_eq!(Log2_32(32), 5);
    assert_eq!(Log2_32(1), 0);
    assert_eq!(Log2_32(6), 2);
    // Zero returns (unsigned)-1.
    assert_eq!(Log2_32(0), u32::MAX);

    assert_eq!(Log2_64(1u64 << 40), 40);
    assert_eq!(Log2_64(1), 0);
    assert_eq!(Log2_64(0), u32::MAX);
}

#[test]
fn log2_ceil() {
    assert_eq!(Log2_32_Ceil(32), 5);
    assert_eq!(Log2_32_Ceil(1), 0);
    assert_eq!(Log2_32_Ceil(6), 3);
    // Zero returns the width.
    assert_eq!(Log2_32_Ceil(0), 32);

    assert_eq!(Log2_64_Ceil(1u64 << 40), 40);
    assert_eq!(Log2_64_Ceil(6), 3);
    assert_eq!(Log2_64_Ceil(0), 64);
}

#[test]
fn gcd64() {
    assert_eq!(GreatestCommonDivisor64(48, 36), 12);
    assert_eq!(GreatestCommonDivisor64(17, 5), 1);
    assert_eq!(GreatestCommonDivisor64(0, 9), 9);
    assert_eq!(GreatestCommonDivisor64(9, 0), 9);
}

#[test]
fn min_align() {
    // The largest power of two dividing both operands.
    assert_eq!(MinAlign(8, 12), 4);
    assert_eq!(MinAlign(2, 4), 2);
    assert_eq!(MinAlign(16, 16), 16);
}

#[test]
fn align_addr_and_adjustment() {
    assert_eq!(alignAddr(7, 4), 8);
    assert_eq!(alignAddr(8, 4), 8);
    assert_eq!(alignAddr(9, 8), 16);

    assert_eq!(alignmentAdjustment(7, 4), 1);
    assert_eq!(alignmentAdjustment(8, 4), 0);
}

#[test]
fn next_power_of2() {
    assert_eq!(NextPowerOf2(0), 1);
    assert_eq!(NextPowerOf2(7), 8);
    assert_eq!(NextPowerOf2(8), 16);
    // Strictly greater than A; overflow returns 0.
    assert_eq!(NextPowerOf2(u64::MAX), 0);
}

#[test]
fn power_of2_floor_ceil() {
    assert_eq!(PowerOf2Floor(0), 0);
    assert_eq!(PowerOf2Floor(6), 4);
    assert_eq!(PowerOf2Floor(8), 8);

    assert_eq!(PowerOf2Ceil(0), 0);
    assert_eq!(PowerOf2Ceil(6), 8);
    assert_eq!(PowerOf2Ceil(8), 8);
}

#[test]
fn align_to() {
    assert_eq!(alignTo(5, 8, 0), 8);
    assert_eq!(alignTo(17, 8, 0), 24);
    assert_eq!(alignTo(321, 255, 0), 510);
    // Documented wrap: alignTo(~0LL, 8) == 0.
    assert_eq!(alignTo(u64::MAX, 8, 0), 0);
    // With skew.
    assert_eq!(alignTo(5, 8, 7), 7);
    assert_eq!(alignTo(17, 8, 1), 17);
    assert_eq!(alignTo(321, 255, 42), 552);
}

#[test]
fn align_to_const_helper() {
    assert_eq!(AlignTo::<8>::from_value::<5>(), 8);
    assert_eq!(AlignTo::<8>::from_value::<17>(), 24);
    assert_eq!(AlignTo::<255>::from_value::<321>(), 510);
    assert_eq!(AlignTo::<4>::from_value::<8>(), 8);
}

#[test]
fn divide_ceil() {
    assert_eq!(divideCeil(10, 3), 4);
    assert_eq!(divideCeil(9, 3), 3);
    assert_eq!(divideCeil(1, 1), 1);
    assert_eq!(divideCeil(0, 5), 0);
}

#[test]
fn align_down() {
    assert_eq!(alignDown(5, 8, 0), 0);
    assert_eq!(alignDown(17, 8, 0), 16);
    assert_eq!(alignDown(15, 8, 0), 8);
    // With skew: (17 - 1)/8*8 + 1 == 17.
    assert_eq!(alignDown(17, 8, 1), 17);
}

#[test]
fn offset_to_alignment() {
    assert_eq!(OffsetToAlignment(5, 8), 3);
    assert_eq!(OffsetToAlignment(8, 8), 0);
    assert_eq!(OffsetToAlignment(17, 8), 7);
}

#[test]
fn sign_extend() {
    // Bottom 4 bits: 0xF -> -1, 0x8 -> -8, 0x7 -> 7.
    assert_eq!(SignExtend32(0x0F, 4), -1);
    assert_eq!(SignExtend32(0x08, 4), -8);
    assert_eq!(SignExtend32(0x07, 4), 7);
    // B == 32 is the identity reinterpret.
    assert_eq!(SignExtend32(0xFFFF_FFFF, 32), -1);

    assert_eq!(SignExtend64(0x0F, 4), -1);
    assert_eq!(SignExtend64(0x07, 4), 7);
    assert_eq!(SignExtend64(u64::MAX, 64), -1);
}

#[test]
fn absolute_difference() {
    assert_eq!(AbsoluteDifference(10u32, 4u32), 6);
    assert_eq!(AbsoluteDifference(4u32, 10u32), 6);
    assert_eq!(AbsoluteDifference(7u8, 7u8), 0);
    assert_eq!(AbsoluteDifference(0u64, u64::MAX), u64::MAX);
}

#[test]
fn saturating_add() {
    let mut overflowed = false;
    assert_eq!(SaturatingAdd(3u8, 4u8, Some(&mut overflowed)), 7);
    assert!(!overflowed);

    assert_eq!(SaturatingAdd(200u8, 100u8, Some(&mut overflowed)), 255);
    assert!(overflowed);

    assert_eq!(SaturatingAdd(255u8, 0u8, Some(&mut overflowed)), 255);
    assert!(!overflowed);

    // None sink still returns the clamped result.
    assert_eq!(SaturatingAdd(u32::MAX, 1u32, None), u32::MAX);
}

#[test]
fn saturating_multiply() {
    let mut overflowed = false;
    // No overflow: exact product.
    assert_eq!(SaturatingMultiply(3u8, 4u8, Some(&mut overflowed)), 12);
    assert!(!overflowed);
    // A zero operand short-circuits (Log2_64(0) path) with no overflow.
    assert_eq!(SaturatingMultiply(0u8, 5u8, Some(&mut overflowed)), 0);
    assert!(!overflowed);
    // Boundary product that still fits.
    assert_eq!(SaturatingMultiply(127u8, 2u8, Some(&mut overflowed)), 254);
    assert!(!overflowed);
    // Overflow clamps to max, sets flag.
    assert_eq!(SaturatingMultiply(16u8, 16u8, Some(&mut overflowed)), 255);
    assert!(overflowed);
    assert_eq!(SaturatingMultiply(255u8, 255u8, Some(&mut overflowed)), 255);
    assert!(overflowed);
    // Odd-X top-bit path that overflows through SaturatingAdd.
    assert_eq!(SaturatingMultiply(128u8, 2u8, Some(&mut overflowed)), 255);
    assert!(overflowed);
}

#[test]
fn saturating_multiply_add() {
    let mut overflowed = false;
    // 3*4 + 5 = 17, no overflow.
    assert_eq!(
        SaturatingMultiplyAdd(3u8, 4u8, 5u8, Some(&mut overflowed)),
        17
    );
    assert!(!overflowed);
    // Multiply overflows -> returns product (max), overflow set.
    assert_eq!(
        SaturatingMultiplyAdd(255u8, 255u8, 1u8, Some(&mut overflowed)),
        255
    );
    assert!(overflowed);
    // Multiply fits but the add saturates.
    assert_eq!(
        SaturatingMultiplyAdd(100u8, 2u8, 100u8, Some(&mut overflowed)),
        255
    );
    assert!(overflowed);
}

#[test]
fn hi_lo_make_64_round_trip_many() {
    for v in [0u64, 1, u64::MAX, 0x8000_0000_0000_0000, 0x0000_0001_0000_0000, 0x1234_5678_9ABC_DEF0] {
        assert_eq!(Make_64(Hi_32(v), Lo_32(v)), v);
    }
    assert_eq!(Hi_32(Make_64(7, 9)), 7);
    assert_eq!(Lo_32(Make_64(7, 9)), 9);
}

#[test]
fn reverse_bits_twice_is_identity_all_u8() {
    for v in 0u8..=255 {
        assert_eq!(reverse_bits(reverse_bits(v)), v);
    }
    assert_eq!(reverse_bits(0x0000_0000_0000_00F0u64), 0x0F00_0000_0000_0000);
    assert_eq!(reverse_bits(0x0002u16), 0x4000);
}

#[test]
fn trailing_masks_split_the_word() {
    for n in 0u32..=8 {
        let ones: u8 = mask_trailing_ones::<u8>(n);
        let zeros: u8 = mask_trailing_zeros::<u8>(n);
        assert_eq!(ones & zeros, 0);
        assert_eq!(ones | zeros, u8::MAX);
        assert_eq!(mask_leading_zeros::<u8>(8 - n), ones);
        assert_eq!(mask_leading_ones::<u8>(8 - n), zeros);
    }
}

#[test]
fn population_of_word_and_complement_is_width() {
    for v in [0u32, 1, 0xF0F0_F0F0, u32::MAX, 0x8000_0001] {
        assert_eq!(
            executorch_kernels::llvm_math_extras::count_population(v)
                + executorch_kernels::llvm_math_extras::count_population(!v),
            32
        );
    }
}

#[test]
fn first_set_not_above_last_set() {
    for v in [1u64, 2, 6, 0x8000_0000_0000_0000, 0x0000_0100_0000_0100, u64::MAX] {
        let first = find_first_set(v, ZbMax);
        let last = find_last_set(v, ZbMax);
        assert!(first <= last);
        assert_eq!(last, 63 - count_leading_zeros(v, ZbUndefined) as u64);
    }
}

#[test]
fn log2_ceil_is_floor_plus_one_off_powers_of_two() {
    for v in 1u64..200 {
        let extra = if is_power_of2_64(v) { 0 } else { 1 };
        assert_eq!(Log2_64_Ceil(v), Log2_64(v) + extra);
    }
}

#[test]
fn power_of2_floor_and_ceil_meet_on_powers_of_two() {
    for a in 1u64..300 {
        let lo = PowerOf2Floor(a);
        let hi = PowerOf2Ceil(a);
        assert!(lo <= a && a <= hi);
        assert_eq!(lo == hi, is_power_of2_64(a));
    }
}

#[test]
fn mask_is_power_of_two_minus_one() {
    for v in 1u64..600 {
        assert_eq!(is_mask_64(v), is_power_of2_64(v + 1));
        if is_mask_64(v) {
            assert!(is_shifted_mask_64(v));
        }
    }
}

#[test]
fn gcd_ignores_argument_order() {
    for (a, b) in [(48u64, 36u64), (0, 9), (17, 5), (0, 0), (1 << 40, 1 << 20), (270, 192)] {
        assert_eq!(GreatestCommonDivisor64(a, b), GreatestCommonDivisor64(b, a));
    }
}

#[test]
fn sign_extend_is_idempotent() {
    for x in [0u64, 0x7, 0x8, 0xF, 0xFFFF_0000, u64::MAX, 0x1234] {
        for b in [1u32, 4, 13, 32, 63, 64] {
            let once = SignExtend64(x, b);
            assert_eq!(SignExtend64(once as u64, b), once);
        }
    }
}

#[test]
fn int_n_checks_match_min_max() {
    for n in 1u32..=64 {
        for x in [i64::MIN, -129, -128, -1, 0, 1, 127, 128, i64::MAX] {
            let inside = min_int_n(n as i64) <= x && x <= max_int_n(n as i64);
            assert_eq!(is_int_n(n, x), inside);
        }
        for y in [0u64, 1, 255, 256, u64::MAX] {
            assert_eq!(is_u_int_n(n, y), y <= max_u_int_n(n as u64));
        }
    }
}

#[test]
fn offset_to_alignment_reaches_align_to() {
    for v in 0u64..70 {
        for a in [1u64, 3, 8, 16] {
            assert_eq!(v + OffsetToAlignment(v, a), alignTo(v, a, 0));
            assert!(alignDown(v, a, 0) <= v);
        }
    }
}
