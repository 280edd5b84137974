//! Per-element-type GEMM dispatch for the batched matrix product: the scale
//! factors `1` and `0` of an element type, and the GEMM that the type uses.

use vstd::prelude::*;

use crate::blas::blas_kernel::{gemm_result, GemmScalar};
use crate::blas::cpu_blas::{
    gemm_impl_ok, gemm_int, norm_lda, norm_ldb, norm_ldc, reads_a_transposed, reads_b_transposed,
    TransposeType,
};

verus! {

/// Element types with a GEMM: `C := beta * C + alpha * op(A) · op(B)`, with
/// `alpha` and `beta` given as elements.
pub trait OptGemm: GemmScalar {
    /// The element `1`.
    fn one() -> (r: Self)
        ensures
            r.scalar_val() == 1,
    ;

    /// The element `0`.
    fn zero() -> (r: Self)
        ensures
            r.scalar_val() == 0,
    ;

    /// `C := beta * C + alpha * op(A) · op(B)` for column-major operands, after
    /// the leading dimensions of degenerate trailing dimensions are patched.
    fn opt_gemm(
        transa: TransposeType,
        transb: TransposeType,
        m: i64,
        n: i64,
        k: i64,
        alpha: Self,
        a: &[Self],
        lda: i64,
        b: &[Self],
        ldb: i64,
        beta: Self,
        c: &mut Vec<Self>,
        ldc: i64,
    )
        requires
            gemm_impl_ok::<Self, Self>(
                transa,
                transb,
                m as int,
                n as int,
                k as int,
                alpha.scalar_val(),
                a@,
                norm_lda(transa, m as int, k as int, lda as int),
                b@,
                norm_ldb(transb, n as int, k as int, ldb as int),
                beta.scalar_val(),
                old(c)@,
                norm_ldc(m as int, n as int, ldc as int),
            ),
        ensures
            gemm_result::<Self, Self>(
                reads_a_transposed(transa, transb),
                reads_b_transposed(transa, transb),
                m as int,
                n as int,
                k as int,
                alpha.scalar_val(),
                a@,
                norm_lda(transa, m as int, k as int, lda as int),
                b@,
                norm_ldb(transb, n as int, k as int, ldb as int),
                beta.scalar_val(),
                old(c)@,
                norm_ldc(m as int, n as int, ldc as int),
                final(c)@,
            ),
    ;
}

impl OptGemm for u8 {
    fn one() -> u8 {
        1
    }

    fn zero() -> u8 {
        0
    }

    fn opt_gemm(
        transa: TransposeType,
        transb: TransposeType,
        m: i64,
        n: i64,
        k: i64,
        alpha: u8,
        a: &[u8],
        lda: i64,
        b: &[u8],
        ldb: i64,
        beta: u8,
        c: &mut Vec<u8>,
        ldc: i64,
    ) {
        gemm_int::<u8>(
            transa,
            transb,
            m,
            n,
            k,
            alpha.to_op(),
            a,
            lda,
            b,
            ldb,
            beta.to_op(),
            c,
            ldc,
        );
    }
}

impl OptGemm for i8 {
    fn one() -> i8 {
        1
    }

    fn zero() -> i8 {
        0
    }

    fn opt_gemm(
        transa: TransposeType,
        transb: TransposeType,
        m: i64,
        n: i64,
        k: i64,
        alpha: i8,
        a: &[i8],
        lda: i64,
        b: &[i8],
        ldb: i64,
        beta: i8,
        c: &mut Vec<i8>,
        ldc: i64,
    ) {
        gemm_int::<i8>(
            transa,
            transb,
            m,
            n,
            k,
            alpha.to_op(),
            a,
            lda,
            b,
            ldb,
            beta.to_op(),
            c,
            ldc,
        );
    }
}

impl OptGemm for i16 {
    fn one() -> i16 {
        1
    }

    fn zero() -> i16 {
        0
    }

    fn opt_gemm(
        transa: TransposeType,
        transb: TransposeType,
        m: i64,
        n: i64,
        k: i64,
        alpha: i16,
        a: &[i16],
        lda: i64,
        b: &[i16],
        ldb: i64,
        beta: i16,
        c: &mut Vec<i16>,
        ldc: i64,
    ) {
        gemm_int::<i16>(
            transa,
            transb,
            m,
            n,
            k,
            alpha.to_op(),
            a,
            lda,
            b,
            ldb,
            beta.to_op(),
            c,
            ldc,
        );
    }
}

impl OptGemm for i32 {
    fn one() -> i32 {
        1
    }

    fn zero() -> i32 {
        0
    }

    fn opt_gemm(
        transa: TransposeType,
        transb: TransposeType,
        m: i64,
        n: i64,
        k: i64,
        alpha: i32,
        a: &[i32],
        lda: i64,
        b: &[i32],
        ldb: i64,
        beta: i32,
        c: &mut Vec<i32>,
        ldc: i64,
    ) {
        gemm_int::<i32>(
            transa,
            transb,
            m,
            n,
            k,
            alpha.to_op(),
            a,
            lda,
            b,
            ldb,
            beta.to_op(),
            c,
            ldc,
        );
    }
}

impl OptGemm for i64 {
    fn one() -> i64 {
        1
    }

    fn zero() -> i64 {
        0
    }

    fn opt_gemm(
        transa: TransposeType,
        transb: TransposeType,
        m: i64,
        n: i64,
        k: i64,
        alpha: i64,
        a: &[i64],
        lda: i64,
        b: &[i64],
        ldb: i64,
        beta: i64,
        c: &mut Vec<i64>,
        ldc: i64,
    ) {
        gemm_int::<i64>(
            transa,
            transb,
            m,
            n,
            k,
            alpha.to_op(),
            a,
            lda,
            b,
            ldb,
            beta.to_op(),
            c,
            ldc,
        );
    }
}

} // verus!
