//! Matrix product: `out = in · mat2` with `in` of shape `(n, k)`, `mat2` of
//! shape `(k, m)` and `out` resized to `(n, m)`.

use vstd::prelude::*;

use crate::binary_ops::flat2;
use crate::blas::blas_kernel::{
    cm, covers, dot_terms, lemma_sum_path_fits, op_at, scalar_vals, seq_sum, sum_path_fits, within,
    GemmOp, GemmScalar,
};
use crate::blas::cpu_blas::TransposeType;
use crate::opt_gemm::OptGemm;
use crate::tensor::{
    is_realhbf16_spec, is_realhbf16_type, resize_allowed, shape_numel, tensors_have_same_dtype,
    Error, KernelRuntimeContext, ScalarType, Tensor,
};

verus! {

/// The operands of a matrix product agree: `in`, `mat2` and `out` have rank
/// 2, all three share an element type, and the columns of `in` are the rows
/// of `mat2`.
pub open spec fn mm_args_ok(
    x: Seq<i32>,
    y: Seq<i32>,
    o: Seq<i32>,
    xt: ScalarType,
    yt: ScalarType,
    ot: ScalarType,
) -> bool {
    &&& x.len() == 2
    &&& y.len() == 2
    &&& o.len() == 2
    &&& xt == yt
    &&& xt == ot
    &&& x[1] == y[0]
}

/// Whether the operands of a matrix product agree (see `mm_args_ok`).
pub fn check_mm_args<A: Copy, B: Copy, C: Copy>(
    in_: &Tensor<A>,
    mat2: &Tensor<B>,
    out: &Tensor<C>,
) -> (r: bool)
    ensures
        r == mm_args_ok(
            in_.shape(),
            mat2.shape(),
            out.shape(),
            in_.dtype(),
            mat2.dtype(),
            out.dtype(),
        ),
{
    if in_.dim() != 2 {
        return false;
    }
    if mat2.dim() != 2 {
        return false;
    }
    if out.dim() != 2 {
        return false;
    }
    if !tensors_have_same_dtype(in_, mat2, out) {
        return false;
    }
    in_.size(1) == mat2.size(0)
}

/// The shape of the product: the rows of `x` by the columns of `y`.
pub open spec fn mm_out_sizes(x: Seq<i32>, y: Seq<i32>) -> Seq<i32> {
    seq![x[0], y[1]]
}

/// The shape of the product of two rank-2 tensors (see `mm_out_sizes`).
pub fn get_mm_out_target_size<A: Copy, B: Copy>(in_: &Tensor<A>, mat2: &Tensor<B>) -> (r: Vec<i32>)
    requires
        in_.shape().len() == 2,
        mat2.shape().len() == 2,
    ensures
        r@ == mm_out_sizes(in_.shape(), mat2.shape()),
{
    let mut r: Vec<i32> = Vec::new();
    r.push(in_.size(0));
    r.push(mat2.size(1));
    proof {
        assert(r@ =~= mm_out_sizes(in_.shape(), mat2.shape()));
    }
    r
}

/// The products summed in element `(r, c)` of the product of the row-major
/// `_ × k` matrix `x` and the row-major `k × m` matrix `y`.
pub open spec fn mm_terms(x: Seq<int>, y: Seq<int>, k: int, m: int, r: int, c: int) -> Seq<int> {
    Seq::new(k as nat, |l: int| x[flat2(r, l, k)] * y[flat2(l, c, m)])
}

/// When `x` (`n × k`) and `y` (`k × m`) are rank 2 and agree: every value
/// that the GEMM meets while summing the products of an element of the
/// product fits the accumulator type (see `sum_path_fits`: each product, then
/// each running sum when elements are summed in their own type, every value
/// of the four-way reduction otherwise).
pub open spec fn mm_fits<T: GemmScalar>(xs: Seq<i32>, xe: Seq<T>, ys: Seq<i32>, ye: Seq<T>) -> bool {
    xs.len() == 2 && ys.len() == 2 && xs[1] == ys[0] ==> {
        let n = xs[0] as int;
        let k = xs[1] as int;
        let m = ys[1] as int;
        forall|r: int, c: int|
            0 <= r < n && 0 <= c < m ==> sum_path_fits(
                !T::reduced_spec(),
                #[trigger] mm_terms(scalar_vals(xe), scalar_vals(ye), k, m, r, c),
                <T::Op as GemmOp>::bound(),
            )
    }
}

/// `out := in · mat2` as one column-major GEMM: `mat2` as the `m × k` left
/// operand, `in` as the `k × n` right one, `out` as the `m × n` result, which
/// is the row-major `n × m` product.
fn mm_kernel<T: OptGemm>(in_: &Tensor<T>, mat2: &Tensor<T>, out: &mut Tensor<T>)
    requires
        in_.wf(),
        mat2.wf(),
        old(out).wf(),
        in_.shape().len() == 2,
        mat2.shape().len() == 2,
        in_.shape()[1] == mat2.shape()[0],
        old(out).shape() == mm_out_sizes(in_.shape(), mat2.shape()),
        old(out).elems().len() > 0,
        mm_fits::<T>(in_.shape(), in_.elems(), mat2.shape(), mat2.elems()),
    ensures
        final(out).wf(),
        final(out).shape() == old(out).shape(),
        final(out).dtype() == old(out).dtype(),
        final(out).dynamism_spec() == old(out).dynamism_spec(),
        final(out).capacity() == old(out).capacity(),
        forall|r: int, c: int|
            0 <= r < in_.shape()[0] && 0 <= c < mat2.shape()[1] ==> #[trigger] final(out).elems()[flat2(
                r,
                c,
                mat2.shape()[1] as int,
            )].scalar_val() == T::narrow(
                seq_sum(
                    mm_terms(
                        scalar_vals(in_.elems()),
                        scalar_vals(mat2.elems()),
                        in_.shape()[1] as int,
                        mat2.shape()[1] as int,
                        r,
                        c,
                    ),
                ),
            ),
{
    proof {
        in_.lemma_wf();
        mat2.lemma_wf();
        old(out).lemma_wf();
    }
    let ghost xs = in_.shape();
    let ghost ys = mat2.shape();
    let ghost os = old(out).shape();
    let ghost xv = scalar_vals(in_.elems());
    let ghost yv = scalar_vals(mat2.elems());
    let n: usize = in_.size(0) as usize;
    let k: usize = in_.size(1) as usize;
    let m: usize = mat2.size(1) as usize;
    proof {
        reveal_with_fuel(shape_numel, 3);
        assert(xs.drop_last().drop_last() =~= Seq::<i32>::empty());
        assert(ys.drop_last().drop_last() =~= Seq::<i32>::empty());
        assert(os.drop_last().drop_last() =~= Seq::<i32>::empty());
        assert(xs.drop_last() =~= seq![xs[0]]);
        assert(ys.drop_last() =~= seq![ys[0]]);
        assert(os.drop_last() =~= seq![os[0]]);
        assert(in_.elems().len() == n * k);
        assert(mat2.elems().len() == k * m);
        assert(old(out).elems().len() == n * m);
        assert(n >= 1 && m >= 1) by (nonlinear_arith)
            requires
                n * m > 0,
                n >= 0,
                m >= 0,
        ;
        assert(n * m == m * n && n * k == k * n) by (nonlinear_arith);
    }
    let mn: usize = m * n;
    let a = mat2.as_slice();
    let b = in_.as_slice();
    let mut cb: Vec<T> = out.to_vec();
    let ghost av = scalar_vals(a@);
    let ghost bv = scalar_vals(b@);
    proof {
        assert forall|c: int, r: int|
            0 <= c < m && 0 <= r < n implies #[trigger] dot_terms(
            av,
            m as int,
            false,
            bv,
            k as int,
            false,
            k as int,
            c,
            r,
        ) == mm_terms(xv, yv, k as int, m as int, r, c) by {
            let d = dot_terms(av, m as int, false, bv, k as int, false, k as int, c, r);
            let e = mm_terms(xv, yv, k as int, m as int, r, c);
            assert forall|l: int| 0 <= l < k implies #[trigger] d[l] == e[l] by {
                vstd::arithmetic::mul::lemma_mul_is_commutative(
                    xv[flat2(r, l, k as int)],
                    yv[flat2(l, c, m as int)],
                );
            }
            assert(d =~= e);
        }
        assert forall|i: int, j: int|
            #![trigger cm(i, j, m as int)]
            0 <= i < m && 0 <= j < n implies if !T::reduced_spec() {
            crate::blas::blas_kernel::rank1_blend_fits(
                1,
                0,
                cb@[cm(i, j, m as int)].scalar_val(),
                dot_terms(av, m as int, false, bv, k as int, false, k as int, i, j),
                <T::Op as GemmOp>::bound(),
            )
        } else {
            crate::blas::blas_kernel::dot_blend_fits(
                1,
                0,
                cb@[cm(i, j, m as int)].scalar_val(),
                dot_terms(av, m as int, false, bv, k as int, false, k as int, i, j),
                <T::Op as GemmOp>::bound(),
            )
        } by {
            let d = dot_terms(av, m as int, false, bv, k as int, false, k as int, i, j);
            assert(d == mm_terms(xv, yv, k as int, m as int, j, i));
            assert(sum_path_fits(!T::reduced_spec(), d, <T::Op as GemmOp>::bound()));
            assert(0 <= cm(i, j, m as int) < n * m) by (nonlinear_arith)
                requires
                    0 <= i < m,
                    0 <= j < n,
            ;
            T::lemma_scalar_within(cb@[cm(i, j, m as int)]);
            lemma_sum_path_fits(
                !T::reduced_spec(),
                cb@[cm(i, j, m as int)].scalar_val(),
                d,
                <T::Op as GemmOp>::bound(),
            );
        }
        assert(covers(a@.len() as int, m as int, k as int, m as int)) by {
            if k > 0 {
                assert(cm(m - 1, k - 1, m as int) < k * m) by (nonlinear_arith)
                    requires
                        m >= 1,
                        k >= 1,
                ;
            }
        }
        assert(covers(b@.len() as int, k as int, n as int, k as int)) by {
            if k > 0 {
                assert(cm(k - 1, n - 1, k as int) < n * k) by (nonlinear_arith)
                    requires
                        k >= 1,
                        n >= 1,
                ;
            }
        }
        assert(covers(cb@.len() as int, m as int, n as int, m as int)) by {
            assert(cm(m - 1, n - 1, m as int) < n * m) by (nonlinear_arith)
                requires
                    m >= 1,
                    n >= 1,
            ;
        }
        if !T::reduced_spec() {
            assert forall|l: int, j: int|
                0 <= l < k && 0 <= j < n implies within(
                #[trigger] op_at(bv, k as int, false, l, j) * 1,
                <T::Op as GemmOp>::bound(),
            ) by {
                assert(0 <= cm(l, j, k as int) < n * k) by (nonlinear_arith)
                    requires
                        0 <= l < k,
                        0 <= j < n,
                ;
                T::lemma_scalar_within(b@[cm(l, j, k as int)]);
            }
        }
    }
    T::opt_gemm(
        TransposeType::NoTranspose,
        TransposeType::NoTranspose,
        m as i64,
        n as i64,
        k as i64,
        T::one(),
        a,
        m as i64,
        b,
        k as i64,
        T::zero(),
        &mut cb,
        m as i64,
    );
    let mut t: usize = 0;
    while t < mn
        invariant
            mn == m * n,
            mn == n * m,
            t <= mn,
            cb@.len() == mn,
            out.wf(),
            out.shape() == old(out).shape(),
            out.dtype() == old(out).dtype(),
            out.dynamism_spec() == old(out).dynamism_spec(),
            out.capacity() == old(out).capacity(),
            out.elems().len() == mn,
            forall|t2: int| 0 <= t2 < t ==> #[trigger] out.elems()[t2] == cb@[t2],
        decreases mn - t,
    {
        let ghost before = out.elems();
        out.set(t, cb[t]);
        proof {
            assert forall|t2: int| 0 <= t2 < t + 1 implies #[trigger] out.elems()[t2] == cb@[t2] by {
                if t2 < t {
                    assert(before[t2] == out.elems()[t2]);
                }
            }
        }
        t = t + 1;
    }
    proof {
        assert forall|r: int, c: int| 0 <= r < n && 0 <= c < m implies #[trigger] out.elems()[flat2(
            r,
            c,
            m as int,
        )].scalar_val() == T::narrow(seq_sum(mm_terms(xv, yv, k as int, m as int, r, c))) by {
            assert(0 <= cm(c, r, m as int) < n * m) by (nonlinear_arith)
                requires
                    0 <= c < m,
                    0 <= r < n,
            ;
            assert(flat2(r, c, m as int) == cm(c, r, m as int));
            let d = dot_terms(av, m as int, false, bv, k as int, false, k as int, c, r);
            assert(d == mm_terms(xv, yv, k as int, m as int, r, c));
            vstd::arithmetic::mul::lemma_mul_basics(seq_sum(d));
        }
    }
}

/// `out := in · mat2`.  Fails with `InvalidArgument`, leaving `out` alone,
/// when the operands disagree (see `mm_args_ok`) or `out` cannot take the
/// shape `(n, m)`; otherwise `out` takes that shape, and, unless it is
/// empty, the element type must be a real one (else `InvalidArgument`, the
/// elements untouched) and `out` receives the product (see `mm_kernel`).
pub fn opt_mm_out<T: OptGemm>(
    ctx: &mut KernelRuntimeContext,
    in_: &Tensor<T>,
    mat2: &Tensor<T>,
    out: &mut Tensor<T>,
)
    requires
        in_.wf(),
        mat2.wf(),
        old(out).wf(),
        mm_fits::<T>(in_.shape(), in_.elems(), mat2.shape(), mat2.elems()),
    ensures
        final(out).wf(),
        final(out).dtype() == old(out).dtype(),
        final(out).dynamism_spec() == old(out).dynamism_spec(),
        final(out).capacity() == old(out).capacity(),
        ({
            let sizes = mm_out_sizes(in_.shape(), mat2.shape());
            let args = mm_args_ok(
                in_.shape(),
                mat2.shape(),
                old(out).shape(),
                in_.dtype(),
                mat2.dtype(),
                old(out).dtype(),
            );
            let resized = args && resize_allowed(
                old(out).shape(),
                old(out).dynamism_spec(),
                old(out).capacity(),
                sizes,
            );
            let empty = shape_numel(sizes) == 0;
            let valid = resized && (empty || is_realhbf16_spec(in_.dtype()));
            &&& final(ctx).failure_spec() == if valid {
                old(ctx).failure_spec()
            } else {
                Error::InvalidArgument
            }
            &&& !resized ==> final(out).shape() == old(out).shape() && final(out).elems()
                == old(out).elems()
            &&& resized ==> final(out).shape() == sizes
            &&& resized && !valid ==> final(out).elems() == old(out).allocation().take(
                shape_numel(sizes),
            )
            &&& resized && empty ==> final(out).elems().len() == 0
            &&& valid ==> forall|r: int, c: int|
                0 <= r < in_.shape()[0] && 0 <= c < mat2.shape()[1]
                    ==> #[trigger] final(out).elems()[flat2(r, c, mat2.shape()[1] as int)].scalar_val()
                    == T::narrow(
                    seq_sum(
                        mm_terms(
                            scalar_vals(in_.elems()),
                            scalar_vals(mat2.elems()),
                            in_.shape()[1] as int,
                            mat2.shape()[1] as int,
                            r,
                            c,
                        ),
                    ),
                )
        }),
{
    proof {
        in_.lemma_wf();
        old(out).lemma_wf();
    }
    if !check_mm_args(in_, mat2, out) {
        ctx.fail(Error::InvalidArgument);
        return;
    }
    let output_sizes = get_mm_out_target_size(in_, mat2);
    if out.resize(&output_sizes) != Error::Success {
        ctx.fail(Error::InvalidArgument);
        return;
    }
    proof {
        out.lemma_wf();
    }
    if out.numel() == 0 {
        proof {
            let sizes = mm_out_sizes(in_.shape(), mat2.shape());
            reveal_with_fuel(shape_numel, 3);
            assert(sizes.drop_last().drop_last() =~= Seq::<i32>::empty());
            assert(sizes.drop_last() =~= seq![sizes[0]]);
            assert(sizes[0] == 0 || sizes[1] == 0) by (nonlinear_arith)
                requires
                    sizes[0] * sizes[1] == 0,
            ;
        }
        return;
    }
    if !is_realhbf16_type(in_.scalar_type()) {
        ctx.fail(Error::InvalidArgument);
        return;
    }
    mm_kernel::<T>(in_, mat2, out);
}

/// The operands of a matrix product agree with an output whatever its
/// sizes: only its rank and element type are checked, so two outputs of one
/// rank are accepted alike, and `in` of shape `(n, k)` with `mat2` of shape
/// `(k, m)`, all of one element type, is accepted with any output of rank 2
/// (which `opt_mm_out` then resizes to `(n, m)`).
pub proof fn lemma_mm_args_ignore_out_sizes(
    x: Seq<i32>,
    y: Seq<i32>,
    o1: Seq<i32>,
    o2: Seq<i32>,
    t: ScalarType,
)
    requires
        o1.len() == o2.len(),
    ensures
        mm_args_ok(x, y, o1, t, t, t) == mm_args_ok(x, y, o2, t, t, t),
        x.len() == 2 && y.len() == 2 && o1.len() == 2 && x[1] == y[0] ==> mm_args_ok(
            x,
            y,
            o1,
            t,
            t,
            t,
        ),
{
}

/// A matrix product is accepted only for rank-2 operands and output of one
/// element type whose inner sizes agree (the columns of `in` are the rows of
/// `mat2`).
pub proof fn lemma_mm_args_needs(
    x: Seq<i32>,
    y: Seq<i32>,
    o: Seq<i32>,
    xt: ScalarType,
    yt: ScalarType,
    ot: ScalarType,
)
    requires
        mm_args_ok(x, y, o, xt, yt, ot),
    ensures
        x.len() == 2 && y.len() == 2 && o.len() == 2,
        x[1] == y[0],
        xt == yt && yt == ot,
{
}

} // verus!
