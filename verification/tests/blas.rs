use executorch_kernels::blas::blas_kernel::internal::integer_log2;
use executorch_kernels::blas::blas_kernel::{
    gemm_notrans_, gemm_transa_, gemm_transab_, gemm_transb_, scale_, sum,
};
use executorch_kernels::blas::cpu_blas::{
    gemm_impl, gemm_int, normalize_last_dims, to_blas, TransposeType,
};

// Column-major (leading dimension `ld`) helpers: element (i,j) of an m-row
// matrix lives at data[j*ld + i].
const A: [i32; 4] = [1, 3, 2, 4]; // [[1,2],[3,4]]
const B: [i32; 4] = [5, 7, 6, 8]; // [[5,6],[7,8]]

#[test]
fn cpublas_internal_integer_log2() {
    assert_eq!(integer_log2(0, 0), 0);
    assert_eq!(integer_log2(1, 0), 0);
    assert_eq!(integer_log2(2, 0), 1);
    assert_eq!(integer_log2(3, 0), 1);
    assert_eq!(integer_log2(4, 0), 2);
    assert_eq!(integer_log2(7, 0), 2);
    assert_eq!(integer_log2(8, 0), 3);
    assert_eq!(integer_log2(16, 0), 4);
    assert_eq!(integer_log2(31, 0), 4);
    assert_eq!(integer_log2(32, 0), 5);
    assert_eq!(integer_log2(1024, 0), 10);
    // Non-zero starting `p` accumulates.
    assert_eq!(integer_log2(8, 3), 6);
}

#[test]
fn cpublas_sum_ilp_reduction() {
    // f(l) = l over the full main-loop + tail range. Exercises N below the
    // ILP factor (tail-only), exactly one unroll block, and a mixed
    // block+tail size, so all three accumulation phases run.
    for (n, want) in [
        (0i64, 0i32),
        (1, 0),
        (3, 3),
        (4, 6),
        (5, 10),
        (7, 21),
        (8, 28),
        (10, 45),
    ] {
        let got: i32 = sum(n, |l| l as i32);
        assert_eq!(got, want, "n={n}");
    }
    // Sum of squares over 6 elements crosses one unroll block plus a 2-wide tail.
    let sq: i32 = sum(6, |l| (l * l) as i32);
    assert_eq!(sq, 55);
    // 64-bit accumulator.
    let isum: i64 = sum(10, |l| l);
    assert_eq!(isum, 45);
}

#[test]
fn cpublas_scale_identity_zero_and_general() {
    // alpha == 1 is the identity: block is untouched (including padding rows
    // beyond m within the leading dimension).
    let mut a = vec![1i32, 2, 99, 3, 4, 88];
    scale_::<i32>(2, 2, 1, &mut a, 3);
    assert_eq!(a, vec![1, 2, 99, 3, 4, 88]);

    // alpha == 0 zeroes only the m×n block, leaving lda padding rows intact.
    let mut a = vec![1i32, 2, 99, 3, 4, 88];
    scale_::<i32>(2, 2, 0, &mut a, 3);
    assert_eq!(a, vec![0, 0, 99, 0, 0, 88]);

    // General alpha multiplies each block element; padding untouched.
    let mut a = vec![1i32, 2, 99, 3, 4, 88];
    scale_::<i32>(2, 2, 3, &mut a, 3);
    assert_eq!(a, vec![3, 6, 99, 9, 12, 88]);
}

#[test]
fn cpublas_gemm_notrans_f32() {
    // A,B,C 2x2 column-major; alpha=2, beta=3. Hand-computed:
    //   C = 3*C0 + 2*(A@B)  ->  [41, 89, 47, 103]
    let a = vec![1i32, 3, 2, 4];
    let b = vec![5i32, 7, 6, 8];
    let mut c = vec![1i32, 1, 1, 1];
    gemm_notrans_::<i32, i32>(2, 2, 2, 2, &a, 2, &b, 2, 3, &mut c, 2);
    assert_eq!(c, vec![41, 89, 47, 103]);

    // beta=0 && alpha=1 writes the raw product, exercising the scale-by-zero
    // fast path plus the plain accumulate.
    let mut c = vec![7i32; 4];
    gemm_notrans_::<i32, i32>(2, 2, 2, 1, &a, 2, &b, 2, 0, &mut c, 2);
    assert_eq!(c, vec![19, 43, 22, 50]);
}

#[test]
fn cpublas_gemm_notrans_f32_unroll_and_tail() {
    // m=5: four rows plus a fifth. A is 5x3, B is 3x2, alpha=1, beta=0 (all
    // column-major).
    let a = vec![1i32, 4, 7, 10, 13, 2, 5, 8, 11, 14, 3, 6, 9, 12, 15];
    let b = vec![1i32, 3, 5, 2, 4, 6];
    let mut c = vec![0i32; 10];
    gemm_notrans_::<i32, i32>(5, 2, 3, 1, &a, 5, &b, 3, 0, &mut c, 5);
    assert_eq!(c, vec![22, 49, 76, 103, 130, 28, 64, 100, 136, 172]);
}

#[test]
fn cpublas_gemm_transa_f32() {
    // C = 3*C0 + 2*(A.T@B) -> [55, 79, 63, 91].
    let a = vec![1i32, 3, 2, 4];
    let b = vec![5i32, 7, 6, 8];
    let mut c = vec![1i32; 4];
    gemm_transa_::<i32, i32>(2, 2, 2, 2, &a, 2, &b, 2, 3, &mut c, 2);
    assert_eq!(c, vec![55, 79, 63, 91]);

    // beta=0 path.
    let mut c = vec![5i32; 4];
    gemm_transa_::<i32, i32>(2, 2, 2, 1, &a, 2, &b, 2, 0, &mut c, 2);
    // 1*(A.T@B): columns [ [1*5+3*7, 2*5+4*7], [1*6+3*8, 2*6+4*8] ] col-major
    assert_eq!(c, vec![26, 38, 30, 44]);
}

#[test]
fn cpublas_gemm_transb_f32() {
    // C = 3*C0 + 2*(A@B.T) -> [37, 81, 49, 109].
    let a = vec![1i32, 3, 2, 4];
    let b = vec![5i32, 7, 6, 8];
    let mut c = vec![1i32; 4];
    gemm_transb_::<i32, i32>(2, 2, 2, 2, &a, 2, &b, 2, 3, &mut c, 2);
    assert_eq!(c, vec![37, 81, 49, 109]);
}

#[test]
fn cpublas_gemm_transab_f32() {
    // C = 3*C0 + 2*(A.T@B.T) -> [49, 71, 65, 95].
    let a = vec![1i32, 3, 2, 4];
    let b = vec![5i32, 7, 6, 8];
    let mut c = vec![1i32; 4];
    gemm_transab_::<i32, i32>(2, 2, 2, 2, &a, 2, &b, 2, 3, &mut c, 2);
    assert_eq!(c, vec![49, 71, 65, 95]);

    // beta=0 && alpha=1 raw product.
    let mut c = vec![9i32; 4];
    gemm_transab_::<i32, i32>(2, 2, 2, 1, &a, 2, &b, 2, 0, &mut c, 2);
    // A.T@B.T col-major: [[1*5+3*6, 2*5+4*6],[1*7+3*8,2*7+4*8]]
    assert_eq!(c, vec![23, 34, 31, 46]);
}

#[test]
fn to_blas_maps_transpose_chars() {
    assert_eq!(to_blas(TransposeType::Transpose), b'T');
    assert_eq!(to_blas(TransposeType::NoTranspose), b'N');
    assert_eq!(to_blas(TransposeType::ConjTranspose), b'C');
}

// normalize_last_dims degenerate-dimension patches:
//  - n==1        -> ldc = m
//  - transa!=No, m==1 -> lda = k ; else (transa==No) k==1 -> lda = m
//  - transb!=No, k==1 -> ldb = n ; else (transb==No) n==1 -> ldb = k
#[test]
fn normalize_last_dims_patches() {
    // n == 1: ldc patched to m; transb==NoTranspose & n==1 -> ldb patched to k.
    let (mut lda, mut ldb, mut ldc) = (99i64, 99, 99);
    normalize_last_dims(
        TransposeType::NoTranspose,
        TransposeType::NoTranspose,
        7,
        1,
        5,
        &mut lda,
        &mut ldb,
        &mut ldc,
    );
    assert_eq!(ldc, 7); // n==1 -> ldc = m
    assert_eq!(ldb, 5); // transb==No && n==1 -> ldb = k
    assert_eq!(lda, 99); // transa==No, k!=1 -> untouched

    // transa==No & k==1: lda = m. n!=1 so ldc/ldb untouched.
    let (mut lda, mut ldb, mut ldc) = (11i64, 22, 33);
    normalize_last_dims(
        TransposeType::NoTranspose,
        TransposeType::NoTranspose,
        4,
        6,
        1,
        &mut lda,
        &mut ldb,
        &mut ldc,
    );
    assert_eq!(lda, 4); // k==1 -> lda = m
    assert_eq!(ldb, 22);
    assert_eq!(ldc, 33);

    // transa==Transpose & m==1: lda = k. transb==Transpose & k==1: ldb = n.
    let (mut lda, mut ldb, mut ldc) = (0i64, 0, 44);
    normalize_last_dims(
        TransposeType::Transpose,
        TransposeType::Transpose,
        1,
        9,
        1,
        &mut lda,
        &mut ldb,
        &mut ldc,
    );
    assert_eq!(lda, 1); // m==1 -> lda = k
    assert_eq!(ldb, 9); // transb!=No && k==1 -> ldb = n
    assert_eq!(ldc, 44); // n!=1 -> untouched
}

// gemm_impl dispatch: drive the four (transa, transb) branches directly on
// same-type elements and confirm each routes to the right micro-kernel by
// matching the hand-computed products. Pre-zeroed C, alpha=1.
#[test]
fn gemm_impl_dispatches_all_transpose_pairs() {
    let run = |ta, tb| {
        let mut c = vec![0i32; 4];
        gemm_impl::<i32, i32>(ta, tb, 2, 2, 2, 1, &A, 2, &B, 2, 0, &mut c, 2);
        c
    };
    assert_eq!(
        run(TransposeType::NoTranspose, TransposeType::NoTranspose),
        vec![19, 43, 22, 50]
    );
    assert_eq!(
        run(TransposeType::Transpose, TransposeType::NoTranspose),
        vec![26, 38, 30, 44]
    );
    assert_eq!(
        run(TransposeType::NoTranspose, TransposeType::Transpose),
        vec![17, 39, 23, 53]
    );
    assert_eq!(
        run(TransposeType::Transpose, TransposeType::Transpose),
        vec![23, 34, 31, 46]
    );
}

#[test]
fn gemm_impl_conj_transpose_reads_both_transposed() {
    // (NoTranspose, ConjTranspose) and (ConjTranspose, x) fall through to the
    // both-transposed kernel.
    let mut c = vec![0i32; 4];
    gemm_impl::<i32, i32>(
        TransposeType::NoTranspose,
        TransposeType::ConjTranspose,
        2,
        2,
        2,
        1,
        &A,
        2,
        &B,
        2,
        0,
        &mut c,
        2,
    );
    assert_eq!(c, vec![23, 34, 31, 46]);
    let mut c = vec![0i32; 4];
    gemm_impl::<i32, i32>(
        TransposeType::ConjTranspose,
        TransposeType::NoTranspose,
        2,
        2,
        2,
        1,
        &A,
        2,
        &B,
        2,
        0,
        &mut c,
        2,
    );
    assert_eq!(c, vec![23, 34, 31, 46]);
}

#[test]
fn gemm_reduced_path_wraps_into_narrow_elements() {
    // u8 elements are summed in i32 and stored back modulo 256:
    // 10*30 + 20*5 = 400 -> 144.
    let a = vec![10u8, 20];
    let b = vec![30u8, 5];
    let mut c = vec![0u8; 1];
    gemm_notrans_::<u8, u8>(1, 1, 2, 1, &a, 1, &b, 2, 0, &mut c, 1);
    assert_eq!(c, vec![144]);

    // i8: 10*10 + 10*10 = 200 -> 200 - 256 = -56.
    let a = vec![10i8, 10];
    let b = vec![10i8, 10];
    let mut c = vec![0i8; 1];
    gemm_transab_::<i8, i8>(1, 1, 2, 1, &a, 2, &b, 1, 0, &mut c, 1);
    assert_eq!(c, vec![-56]);

    // i16 with beta: 2*7 + 3*(4*5 + 6*7) = 14 + 186 = 200.
    let a = vec![4i16, 6];
    let b = vec![5i16, 7];
    let mut c = vec![7i16];
    gemm_transa_::<i16, i16>(1, 1, 2, 3, &a, 2, &b, 2, 2, &mut c, 1);
    assert_eq!(c, vec![200]);
}

#[test]
fn gemm_int_patches_leading_dims() {
    // n == 1: ldc and ldb are patched (ldc = m, ldb = k), so nonsense leading
    // dimensions for the vector operands are harmless.
    let a = vec![1i64, 3, 2, 4]; // 2x2
    let b = vec![5i64, 7]; // 2x1
    let mut c = vec![0i64; 2];
    gemm_int::<i64>(
        TransposeType::NoTranspose,
        TransposeType::NoTranspose,
        2,
        1,
        2,
        1,
        &a,
        2,
        &b,
        0,
        0,
        &mut c,
        0,
    );
    assert_eq!(c, vec![19, 43]);
}

#[test]
fn gemm_beta_zero_ignores_old_c() {
    let a = vec![1i32, 3, 2, 4];
    let b = vec![5i32, 7, 6, 8];
    let mut c1 = vec![1000i32, -5, 3, 12];
    let mut c2 = vec![0i32; 4];
    gemm_transb_::<i32, i32>(2, 2, 2, 1, &a, 2, &b, 2, 0, &mut c1, 2);
    gemm_transb_::<i32, i32>(2, 2, 2, 1, &a, 2, &b, 2, 0, &mut c2, 2);
    assert_eq!(c1, c2);
}

#[test]
fn gemm_alpha_zero_beta_one_keeps_c() {
    let a = vec![1i32, 3, 2, 4];
    let b = vec![5i32, 7, 6, 8];
    let mut c = vec![11i32, -2, 5, 9, 77];
    gemm_notrans_::<i32, i32>(2, 2, 2, 0, &a, 2, &b, 2, 1, &mut c, 2);
    assert_eq!(c, vec![11, -2, 5, 9, 77]);
}

#[test]
fn gemm_leaves_padding_rows() {
    // ldc = 3 > m = 2: the third row of each column is not part of C.
    let a = vec![1i32, 3, 2, 4];
    let b = vec![5i32, 7, 6, 8];
    let mut c = vec![0i32, 0, 99, 0, 0, 88];
    gemm_notrans_::<i32, i32>(2, 2, 2, 1, &a, 2, &b, 2, 0, &mut c, 3);
    assert_eq!(c, vec![19, 43, 99, 22, 50, 88]);
}

#[test]
fn normalize_last_dims_twice_changes_nothing_more() {
    for (ta, tb, m, n, k) in [
        (TransposeType::NoTranspose, TransposeType::NoTranspose, 7, 1, 5),
        (TransposeType::Transpose, TransposeType::Transpose, 1, 9, 1),
        (TransposeType::ConjTranspose, TransposeType::NoTranspose, 1, 1, 1),
    ] {
        let (mut lda, mut ldb, mut ldc) = (3i64, 4, 5);
        normalize_last_dims(ta, tb, m, n, k, &mut lda, &mut ldb, &mut ldc);
        let once = (lda, ldb, ldc);
        normalize_last_dims(ta, tb, m, n, k, &mut lda, &mut ldb, &mut ldc);
        assert_eq!((lda, ldb, ldc), once);
    }
}

#[test]
fn sum_allows_cancelling_terms() {
    // Every running value fits although the magnitudes do not add up in i32.
    let got: i32 = sum(2, |l| if l == 0 { i32::MAX } else { -i32::MAX });
    assert_eq!(got, 0);
    // Partial sums MAX, -5, 3, 2; the tail brings the first back to 0.
    let terms = [i32::MAX, -5, 3, 2, -i32::MAX];
    let got: i32 = sum(5, |l| terms[l as usize]);
    assert_eq!(got, 0);
}

#[test]
fn gemm_int_cancelling_products() {
    // Row [2^30, 2^30] of A times column [1, -1] of B, on both paths.
    let a = vec![1i32 << 30, 1 << 30]; // 1 x 2, column-major, lda = 1
    let b = vec![1i32, -1]; // 2 x 1, ldb = 2
    let mut c = vec![5i32];
    gemm_int::<i32>(TransposeType::NoTranspose, TransposeType::NoTranspose, 1, 1, 2, 1, &a, 1, &b, 2, 1, &mut c, 1);
    assert_eq!(c, vec![5]);
    let mut c = vec![5i32];
    gemm_int::<i32>(TransposeType::Transpose, TransposeType::NoTranspose, 1, 1, 2, 1, &a, 2, &b, 2, 0, &mut c, 1);
    assert_eq!(c, vec![0]);
}
