//! GEMM entry points: transpose bookkeeping and the integer GEMM.

use vstd::prelude::*;

use crate::blas::blas_kernel::{
    blend, cm, dot_terms, gemm_notrans_, gemm_ok, gemm_result, gemm_transa_, gemm_transab_,
    gemm_transb_, in_block, op_at, within, scalar_vals, GemmOp, GemmScalar,
};

verus! {

/// How a GEMM operand is read.
#[derive(Clone, Copy, Debug, PartialEq, Eq, Structural)]
pub enum TransposeType {
    NoTranspose,
    Transpose,
    ConjTranspose,
}

/// The BLAS transpose character of a `TransposeType`: `'N'`, `'T'` or `'C'`.
pub fn to_blas(trans: TransposeType) -> (r: u8)
    ensures
        r == match trans {
            TransposeType::Transpose => 84u8,
            TransposeType::NoTranspose => 78u8,
            TransposeType::ConjTranspose => 67u8,
        },
{
    // 'T', 'N' and 'C' as ASCII bytes.
    match trans {
        TransposeType::Transpose => 84u8,
        TransposeType::NoTranspose => 78u8,
        TransposeType::ConjTranspose => 67u8,
    }
}

/// `ldc` after `normalize_last_dims`: `m` when `n == 1`.
pub open spec fn norm_ldc(m: int, n: int, ldc: int) -> int {
    if n == 1 {
        m
    } else {
        ldc
    }
}

/// `lda` after `normalize_last_dims`: `k` for a transposed `A` with `m == 1`,
/// `m` for an untransposed `A` with `k == 1`.
pub open spec fn norm_lda(transa: TransposeType, m: int, k: int, lda: int) -> int {
    if transa != TransposeType::NoTranspose {
        if m == 1 {
            k
        } else {
            lda
        }
    } else if k == 1 {
        m
    } else {
        lda
    }
}

/// `ldb` after `normalize_last_dims`: `n` for a transposed `B` with `k == 1`,
/// `k` for an untransposed `B` with `n == 1`.
pub open spec fn norm_ldb(transb: TransposeType, n: int, k: int, ldb: int) -> int {
    if transb != TransposeType::NoTranspose {
        if k == 1 {
            n
        } else {
            ldb
        }
    } else if n == 1 {
        k
    } else {
        ldb
    }
}

/// Patch the leading dimensions for degenerate (size-1) trailing dims so a
/// column-major GEMM stays valid: if `n == 1`, `ldc = m`. For A, when
/// transposed and `m == 1`, `lda = k`; when not transposed and `k == 1`,
/// `lda = m`. For B, when transposed and `k == 1`, `ldb = n`; when not
/// transposed and `n == 1`, `ldb = k`.
pub fn normalize_last_dims(
    transa: TransposeType,
    transb: TransposeType,
    m: i64,
    n: i64,
    k: i64,
    lda: &mut i64,
    ldb: &mut i64,
    ldc: &mut i64,
)
    ensures
        *final(ldc) == norm_ldc(m as int, n as int, *old(ldc) as int),
        *final(lda) == norm_lda(transa, m as int, k as int, *old(lda) as int),
        *final(ldb) == norm_ldb(transb, n as int, k as int, *old(ldb) as int),
{
    if n == 1 {
        *ldc = m;
    }
    if transa != TransposeType::NoTranspose {
        if m == 1 {
            *lda = k;
        }
    } else if k == 1 {
        *lda = m;
    }
    if transb != TransposeType::NoTranspose {
        if k == 1 {
            *ldb = n;
        }
    } else if n == 1 {
        *ldb = k;
    }
}


/// Whether `gemm_impl` reads `A` transposed: the `(NoTranspose, NoTranspose)`
/// and `(NoTranspose, Transpose)` pairs read it as stored, every other pair
/// transposed.
pub open spec fn reads_a_transposed(transa: TransposeType, transb: TransposeType) -> bool {
    !(transa == TransposeType::NoTranspose && (transb == TransposeType::NoTranspose || transb
        == TransposeType::Transpose))
}

/// Whether `gemm_impl` reads `B` transposed: `(NoTranspose, NoTranspose)` and
/// `(Transpose, x)` with `x != Transpose` read it as stored, every other pair
/// transposed.
pub open spec fn reads_b_transposed(transa: TransposeType, transb: TransposeType) -> bool {
    !((transa == TransposeType::NoTranspose && transb == TransposeType::NoTranspose) || (transa
        == TransposeType::Transpose && transb != TransposeType::Transpose))
}

/// The conditions of the kernel that `gemm_impl` dispatches to.
pub open spec fn gemm_impl_ok<S: GemmScalar, Out: GemmScalar>(
    transa: TransposeType,
    transb: TransposeType,
    m: int,
    n: int,
    k: int,
    alpha: int,
    a: Seq<S>,
    lda: int,
    b: Seq<S>,
    ldb: int,
    beta: int,
    c: Seq<Out>,
    ldc: int,
) -> bool {
    let ta = reads_a_transposed(transa, transb);
    let tb = reads_b_transposed(transa, transb);
    &&& gemm_ok::<S, Out>(ta, tb, m, n, k, alpha, a, lda, b, ldb, beta, c, ldc)
    &&& (!S::reduced_spec() ==> !Out::reduced_spec())
    &&& (!S::reduced_spec() && !ta ==> forall|l: int, j: int|
        0 <= l < k && 0 <= j < n ==> within(#[trigger] op_at(scalar_vals(b), ldb, tb, l, j) * alpha, <S::Op as GemmOp>::bound()))
}

/// `C := beta * C + alpha * op(A) · op(B)`, dispatched on the transpose pair:
/// `(NoTranspose, NoTranspose)` to `gemm_notrans_`, `(Transpose, x)` with
/// `x != Transpose` to `gemm_transa_`, `(NoTranspose, Transpose)` to
/// `gemm_transb_`, every other pair to `gemm_transab_`.
pub fn gemm_impl<S: GemmScalar, Out: GemmScalar<Op = S::Op>>(
    transa: TransposeType,
    transb: TransposeType,
    m: i64,
    n: i64,
    k: i64,
    alpha: S::Op,
    a: &[S],
    lda: i64,
    b: &[S],
    ldb: i64,
    beta: S::Op,
    c: &mut Vec<Out>,
    ldc: i64,
)
    requires
        gemm_impl_ok::<S, Out>(
            transa,
            transb,
            m as int,
            n as int,
            k as int,
            alpha.op_val(),
            a@,
            lda as int,
            b@,
            ldb as int,
            beta.op_val(),
            old(c)@,
            ldc as int,
        ),
    ensures
        gemm_result::<S, Out>(
            reads_a_transposed(transa, transb),
            reads_b_transposed(transa, transb),
            m as int,
            n as int,
            k as int,
            alpha.op_val(),
            a@,
            lda as int,
            b@,
            ldb as int,
            beta.op_val(),
            old(c)@,
            ldc as int,
            final(c)@,
        ),
{
    if transa == TransposeType::NoTranspose && transb == TransposeType::NoTranspose {
        gemm_notrans_::<S, Out>(m, n, k, alpha, a, lda, b, ldb, beta, c, ldc);
    } else if transa == TransposeType::Transpose && transb != TransposeType::Transpose {
        gemm_transa_::<S, Out>(m, n, k, alpha, a, lda, b, ldb, beta, c, ldc);
    } else if transa == TransposeType::NoTranspose && transb == TransposeType::Transpose {
        gemm_transb_::<S, Out>(m, n, k, alpha, a, lda, b, ldb, beta, c, ldc);
    } else {
        gemm_transab_::<S, Out>(m, n, k, alpha, a, lda, b, ldb, beta, c, ldc);
    }
}

/// GEMM for integer element types: `normalize_last_dims`, then `gemm_impl`
/// with the output in the element type.
pub fn gemm_int<T: GemmScalar>(
    transa: TransposeType,
    transb: TransposeType,
    m: i64,
    n: i64,
    k: i64,
    alpha: T::Op,
    a: &[T],
    lda: i64,
    b: &[T],
    ldb: i64,
    beta: T::Op,
    c: &mut Vec<T>,
    ldc: i64,
)
    requires
        gemm_impl_ok::<T, T>(
            transa,
            transb,
            m as int,
            n as int,
            k as int,
            alpha.op_val(),
            a@,
            norm_lda(transa, m as int, k as int, lda as int),
            b@,
            norm_ldb(transb, n as int, k as int, ldb as int),
            beta.op_val(),
            old(c)@,
            norm_ldc(m as int, n as int, ldc as int),
        ),
    ensures
        gemm_result::<T, T>(
            reads_a_transposed(transa, transb),
            reads_b_transposed(transa, transb),
            m as int,
            n as int,
            k as int,
            alpha.op_val(),
            a@,
            norm_lda(transa, m as int, k as int, lda as int),
            b@,
            norm_ldb(transb, n as int, k as int, ldb as int),
            beta.op_val(),
            old(c)@,
            norm_ldc(m as int, n as int, ldc as int),
            final(c)@,
        ),
{
    let mut lda = lda;
    let mut ldb = ldb;
    let mut ldc = ldc;
    normalize_last_dims(transa, transb, m, n, k, &mut lda, &mut ldb, &mut ldc);
    gemm_impl::<T, T>(transa, transb, m, n, k, alpha, a, lda, b, ldb, beta, c, ldc);
}


/// Patching the leading dimensions twice changes nothing more than patching
/// them once.
pub proof fn lemma_normalize_last_dims_idempotent(
    transa: TransposeType,
    transb: TransposeType,
    m: int,
    n: int,
    k: int,
    lda: int,
    ldb: int,
    ldc: int,
)
    ensures
        norm_ldc(m, n, norm_ldc(m, n, ldc)) == norm_ldc(m, n, ldc),
        norm_lda(transa, m, k, norm_lda(transa, m, k, lda)) == norm_lda(transa, m, k, lda),
        norm_ldb(transb, n, k, norm_ldb(transb, n, k, ldb)) == norm_ldb(transb, n, k, ldb),
{
}

/// The leading dimensions are patched only for degenerate matrices: `ldc`
/// only when `C` has a single column, `lda` only when the dimension that
/// `A` is stored along (its rows `k` as stored untransposed, `m` as stored
/// transposed) is 1, `ldb` likewise for `B`.  Otherwise the caller's
/// leading dimension is kept.
pub proof fn lemma_normalize_keeps_nondegenerate(
    transa: TransposeType,
    transb: TransposeType,
    m: int,
    n: int,
    k: int,
    lda: int,
    ldb: int,
    ldc: int,
)
    ensures
        n != 1 ==> norm_ldc(m, n, ldc) == ldc,
        transa == TransposeType::NoTranspose && k != 1 ==> norm_lda(transa, m, k, lda) == lda,
        transa != TransposeType::NoTranspose && m != 1 ==> norm_lda(transa, m, k, lda) == lda,
        transb == TransposeType::NoTranspose && n != 1 ==> norm_ldb(transb, n, k, ldb) == ldb,
        transb != TransposeType::NoTranspose && k != 1 ==> norm_ldb(transb, n, k, ldb) == ldb,
{
}

/// With more than one column, `gemm_int` leaves element `(i, j)` of the
/// result at `j * ldc + i` for the caller's own `ldc`, and leaves every
/// other element (the padding rows among them) as it was.
pub proof fn lemma_gemm_int_keeps_callers_ldc<T: GemmScalar>(
    transa: TransposeType,
    transb: TransposeType,
    m: int,
    n: int,
    k: int,
    alpha: int,
    a: Seq<T>,
    lda: int,
    b: Seq<T>,
    ldb: int,
    beta: int,
    c0: Seq<T>,
    ldc: int,
    c1: Seq<T>,
)
    requires
        n >= 2,
        gemm_result::<T, T>(
            reads_a_transposed(transa, transb),
            reads_b_transposed(transa, transb),
            m,
            n,
            k,
            alpha,
            a,
            norm_lda(transa, m, k, lda),
            b,
            norm_ldb(transb, n, k, ldb),
            beta,
            c0,
            norm_ldc(m, n, ldc),
            c1,
        ),
    ensures
        forall|i: int, j: int|
            0 <= i < m && 0 <= j < n ==> #[trigger] c1[j * ldc + i].scalar_val() == T::narrow(
                blend(
                    alpha,
                    beta,
                    c0[j * ldc + i].scalar_val(),
                    dot_terms(
                        scalar_vals(a),
                        norm_lda(transa, m, k, lda),
                        reads_a_transposed(transa, transb),
                        scalar_vals(b),
                        norm_ldb(transb, n, k, ldb),
                        reads_b_transposed(transa, transb),
                        k,
                        i,
                        j,
                    ),
                ),
            ),
        forall|idx: int|
            0 <= idx < c0.len() && !in_block(idx, m, n, ldc) ==> #[trigger] c1[idx] == c0[idx],
{
    assert(norm_ldc(m, n, ldc) == ldc);
    assert forall|i: int, j: int| 0 <= i < m && 0 <= j < n implies #[trigger] c1[j * ldc + i].scalar_val()
        == T::narrow(
        blend(
            alpha,
            beta,
            c0[j * ldc + i].scalar_val(),
            dot_terms(
                scalar_vals(a),
                norm_lda(transa, m, k, lda),
                reads_a_transposed(transa, transb),
                scalar_vals(b),
                norm_ldb(transb, n, k, ldb),
                reads_b_transposed(transa, transb),
                k,
                i,
                j,
            ),
        ),
    ) by {
        assert(cm(i, j, ldc) == j * ldc + i);
    }
}

} // verus!
