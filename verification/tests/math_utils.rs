use executorch_kernels::llvm_math_extras::{divideCeil, Log2_64_Ceil};
use executorch_kernels::math_utils::{ceil_log2, divup};

#[test]
fn divup_rounds_up() {
    // Exact divisions stay exact.
    assert_eq!(divup(0, 5), 0);
    assert_eq!(divup(10, 5), 2);
    assert_eq!(divup(9, 3), 3);
    // Any remainder rounds up: (x + y - 1) / y.
    assert_eq!(divup(1, 5), 1);
    assert_eq!(divup(10, 3), 4);
    assert_eq!(divup(11, 3), 4);
    assert_eq!(divup(12, 3), 4);
    assert_eq!(divup(13, 3), 5);
    assert_eq!(divup(7, 8), 1);
    assert_eq!(divup(8, 7), 2);
    // Large values well below the x + y - 1 overflow boundary.
    assert_eq!(divup(i64::MAX - 8, 8), (i64::MAX - 8 + 7) / 8);
}

#[test]
fn ceil_log2_matches_cpp() {
    // x <= 2 clamps to 1 (including the degenerate 0 and 1 inputs).
    assert_eq!(ceil_log2(0), 1);
    assert_eq!(ceil_log2(1), 1);
    assert_eq!(ceil_log2(2), 1);
    // Exact powers of two: the subtract-1 trick keeps them exact.
    assert_eq!(ceil_log2(4), 2);
    assert_eq!(ceil_log2(8), 3);
    assert_eq!(ceil_log2(16), 4);
    assert_eq!(ceil_log2(1024), 10);
    assert_eq!(ceil_log2(1 << 40), 40);
    // Non-powers round up: findLastSet(x - 1) + 1.
    assert_eq!(ceil_log2(3), 2);
    assert_eq!(ceil_log2(5), 3);
    assert_eq!(ceil_log2(7), 3);
    assert_eq!(ceil_log2(9), 4);
    assert_eq!(ceil_log2(1025), 11);
    assert_eq!(ceil_log2((1i64 << 40) + 1), 41);
    // One below a power of two rounds up to that power's exponent.
    assert_eq!(ceil_log2(15), 4);
    assert_eq!(ceil_log2(1023), 10);
}

#[test]
fn divup_negative_dividend_truncates_toward_zero() {
    // (-5 + 3 - 1) / 3 = -3 / 3 = -1.
    assert_eq!(divup(-5, 3), -1);
    // (-1 + 4 - 1) / 4 = 2 / 4 = 0.
    assert_eq!(divup(-1, 4), 0);
}

#[test]
fn divup_agrees_with_divide_ceil() {
    for x in 0i64..40 {
        for y in 1i64..9 {
            assert_eq!(divup(x, y) as u64, divideCeil(x as u64, y as u64));
        }
    }
}

#[test]
fn ceil_log2_agrees_with_log2_64_ceil() {
    for x in 2i64..300 {
        assert_eq!(ceil_log2(x), Log2_64_Ceil(x as u64) as i64);
    }
}
