//! The linear layer `out = in · mat2ᵀ (+ bias)`, with `in` of shape
//! `(*, k)`, the weight `mat2` of shape `(m, k)` and `out` resized to
//! `(*, m)`; and its output initialisation: filling the output with a scalar
//! bias, or with one copy of a vector bias per row.

use vstd::prelude::*;

use crate::binary_ops::flat2;
use crate::blas::blas_kernel::{
    cm, covers, dot_terms, lemma_sum_path_fits, scalar_vals, seq_sum, sum_path_fits, within, GemmOp,
    GemmScalar,
};
use crate::blas::cpu_blas::TransposeType;
use crate::opt_gemm::OptGemm;
use crate::tensor::{
    is_realhbf16_spec, is_realhbf16_type, leading_dims_product, lemma_shape_numel_nonneg,
    resize_allowed, shape_numel, tensors_have_same_dtype, Error, KernelRuntimeContext, ScalarType,
    Tensor,
};

verus! {

/// Sets the first `out_numel` elements of `out` to `init`; the rest stay as
/// they are.
pub fn initialize_scalar<S: Copy>(out_numel: isize, init: S, out: &mut [S])
    requires
        out_numel <= old(out)@.len(),
    ensures
        final(out)@.len() == old(out)@.len(),
        forall|i: int| 0 <= i < out_numel ==> #[trigger] final(out)@[i] == init,
        forall|i: int| out_numel <= i < old(out)@.len() && 0 <= i ==> #[trigger] final(out)@[i]
            == old(out)@[i],
{
    let ghost before = out@;
    let mut d: isize = 0;
    while d < out_numel
        invariant
            out_numel <= before.len(),
            0 <= d,
            out_numel >= 0 ==> d <= out_numel,
            out_numel < 0 ==> d == 0,
            out@.len() == before.len(),
            forall|i: int| 0 <= i < d ==> #[trigger] out@[i] == init,
            forall|i: int| d <= i < before.len() ==> #[trigger] out@[i] == before[i],
        decreases out_numel - d,
    {
        out[d as usize] = init;
        d = d + 1;
    }
}

/// Copies `bias` (its first `m` elements) into each of the `n` rows of the
/// row-major `n × m` output; what follows the `n × m` block stays as it is.
pub fn initialize_to_vector<S: Copy>(n: isize, m: isize, bias: &[S], out: &mut [S])
    requires
        n > 0 ==> 0 <= m <= bias@.len(),
        n > 0 ==> n * m <= old(out)@.len(),
    ensures
        final(out)@.len() == old(out)@.len(),
        forall|row: int, j: int|
            0 <= row < n && 0 <= j < m ==> #[trigger] final(out)@[flat2(row, j, m as int)]
                == bias@[j],
        forall|i: int|
            0 <= i < old(out)@.len() && (n <= 0 || i >= n * m) ==> #[trigger] final(out)@[i]
                == old(out)@[i],
{
    let ghost before = out@;
    let len = out.len();
    let mut col: isize = 0;
    while col < n
        invariant
            n > 0 ==> 0 <= m <= bias@.len(),
            n > 0 ==> n * m <= before.len(),
            before.len() == len,
            0 <= col,
            n > 0 ==> col <= n,
            n <= 0 ==> col == 0,
            out@.len() == before.len(),
            forall|row: int, j: int|
                0 <= row < col && 0 <= j < m ==> #[trigger] out@[flat2(row, j, m as int)]
                    == bias@[j],
            forall|i: int|
                0 <= i < before.len() && i >= col * m ==> #[trigger] out@[i] == before[i],
        decreases n - col,
    {
        proof {
            assert(0 <= col * m && col * m + m <= n * m) by (nonlinear_arith)
                requires
                    0 <= col < n,
                    0 <= m,
            ;
        }
        let base: usize = (col as usize) * (m as usize);
        let mut j: isize = 0;
        while j < m
            invariant
                0 <= col < n,
                0 <= m <= bias@.len(),
                n * m <= before.len(),
                before.len() == len,
                0 <= col * m,
                col * m + m <= n * m,
                base == col * m,
                0 <= j <= m,
                out@.len() == before.len(),
                forall|row: int, jj: int|
                    0 <= row < col && 0 <= jj < m ==> #[trigger] out@[flat2(row, jj, m as int)]
                        == bias@[jj],
                forall|jj: int| 0 <= jj < j ==> #[trigger] out@[base + jj] == bias@[jj],
                forall|i: int|
                    0 <= i < before.len() && i >= col * m + j ==> #[trigger] out@[i] == before[i],
            decreases m - j,
        {
            out[base + j as usize] = bias[j as usize];
            proof {
                assert forall|row: int, jj: int|
                    0 <= row < col && 0 <= jj < m implies #[trigger] out@[flat2(row, jj, m as int)]
                    == bias@[jj] by {
                    assert(flat2(row, jj, m as int) < col * m) by (nonlinear_arith)
                        requires
                            0 <= row < col,
                            0 <= jj < m,
                    ;
                }
            }
            j = j + 1;
        }
        proof {
            assert forall|row: int, jj: int|
                0 <= row < col + 1 && 0 <= jj < m implies #[trigger] out@[flat2(row, jj, m as int)]
                == bias@[jj] by {
                if row == col {
                    assert(flat2(row, jj, m as int) == base + jj);
                }
            }
            assert((col + 1) * m == col * m + m) by (nonlinear_arith);
        }
        col = col + 1;
    }
}

/// The operands of a linear layer agree: `in` and `out` have one rank of at
/// least 2, the weight `mat2` has rank 2, all three share an element type, and
/// the last size of `in` is the number of columns of `mat2`.
pub open spec fn linear_args_ok(
    x: Seq<i32>,
    w: Seq<i32>,
    o: Seq<i32>,
    xt: ScalarType,
    wt: ScalarType,
    ot: ScalarType,
) -> bool {
    &&& x.len() == o.len()
    &&& x.len() >= 2
    &&& w.len() == 2
    &&& xt == wt
    &&& xt == ot
    &&& x[x.len() - 1] == w[1]
}

/// Whether the operands of a linear layer agree (see `linear_args_ok`).
pub fn check_linear_args<A: Copy, B: Copy, C: Copy>(
    in_: &Tensor<A>,
    mat2: &Tensor<B>,
    out: &Tensor<C>,
) -> (r: bool)
    ensures
        r == linear_args_ok(
            in_.shape(),
            mat2.shape(),
            out.shape(),
            in_.dtype(),
            mat2.dtype(),
            out.dtype(),
        ),
{
    if in_.dim() != out.dim() {
        return false;
    }
    if in_.dim() < 2 {
        return false;
    }
    if mat2.dim() != 2 {
        return false;
    }
    if !tensors_have_same_dtype(in_, mat2, out) {
        return false;
    }
    in_.size(in_.dim() - 1) == mat2.size(1)
}

/// The shape of the layer's output: the sizes of `x` but the last, then the
/// number of rows of `w`.
pub open spec fn linear_out_sizes(x: Seq<i32>, w: Seq<i32>) -> Seq<i32> {
    x.drop_last().push(w[0])
}

/// The shape of the layer's output (see `linear_out_sizes`).
pub fn get_linear_out_target_size<A: Copy, B: Copy>(in_: &Tensor<A>, mat2: &Tensor<B>) -> (r: Vec<i32>)
    requires
        in_.shape().len() >= 1,
        mat2.shape().len() >= 1,
    ensures
        r@ == linear_out_sizes(in_.shape(), mat2.shape()),
{
    let mut r: Vec<i32> = Vec::new();
    let last: usize = in_.dim() - 1;
    let mut i: usize = 0;
    while i < last
        invariant
            last == in_.shape().len() - 1,
            i <= last,
            r@ == in_.shape().take(i as int),
        decreases last - i,
    {
        r.push(in_.size(i));
        proof {
            assert(in_.shape().take(i as int + 1) =~= in_.shape().take(i as int).push(
                in_.shape()[i as int],
            ));
        }
        i = i + 1;
    }
    r.push(mat2.size(0));
    proof {
        assert(r@ =~= linear_out_sizes(in_.shape(), mat2.shape()));
    }
    r
}

/// The bias is absent, or it shares the output's element type and is a
/// vector of `m` elements or of one.
pub open spec fn linear_bias_ok<T: Copy>(bias: Option<Tensor<T>>, m: int, ot: ScalarType) -> bool {
    match bias {
        None => true,
        Some(b) => b.dtype() == ot && b.shape().len() == 1 && (b.shape()[0] == m || b.shape()[0]
            == 1),
    }
}

/// The bias added to column `c` of the output: none, the one element of a
/// one-element bias, or element `c`.
pub open spec fn linear_bias_at<T: GemmScalar>(bias: Option<Tensor<T>>, c: int) -> int {
    match bias {
        None => 0,
        Some(b) => if b.elems().len() == 1 {
            b.elems()[0].scalar_val()
        } else {
            b.elems()[c].scalar_val()
        },
    }
}

/// The products summed in element `(r, c)` of `x · wᵀ`, for the row-major
/// matrices `x` (`_ × k`) and `w` (`_ × k`).
pub open spec fn linear_terms(x: Seq<int>, w: Seq<int>, k: int, r: int, c: int) -> Seq<int> {
    Seq::new(k as nat, |l: int| x[flat2(r, l, k)] * w[flat2(c, l, k)])
}

/// When the operands agree in shape (`in` is `(*, k)`, `mat2` is `(m, k)`):
/// every value that the GEMM meets for an element of the output fits the
/// accumulator type: each product, every value of the four-way reduction of
/// the products (see `sum_path_fits`), and the bias plus their sum.
pub open spec fn linear_fits<T: GemmScalar>(
    xs: Seq<i32>,
    xe: Seq<T>,
    ws: Seq<i32>,
    we: Seq<T>,
    bias: Option<Tensor<T>>,
) -> bool {
    xs.len() >= 2 && ws.len() == 2 && xs[xs.len() - 1] == ws[1] ==> {
        let n = shape_numel(xs.drop_last());
        let k = xs[xs.len() - 1] as int;
        let m = ws[0] as int;
        forall|r: int, c: int|
            0 <= r < n && 0 <= c < m ==> #[trigger] sum_path_fits(
                false,
                linear_terms(scalar_vals(xe), scalar_vals(we), k, r, c),
                <T::Op as GemmOp>::bound(),
            ) && within(
                linear_bias_at(bias, c) + seq_sum(
                    linear_terms(scalar_vals(xe), scalar_vals(we), k, r, c),
                ),
                <T::Op as GemmOp>::bound(),
            )
    }
}

/// `out := in · mat2ᵀ + bias` as one column-major GEMM: `out` is first filled
/// with the bias (see `initialize_scalar`, `initialize_to_vector`), then the
/// GEMM reads `mat2` transposed as the `m × k` left operand, `in` as the
/// `k × n` right one, and adds into `out` as the `m × n` result (with
/// `beta = 0` when there is no bias), which is the row-major `n × m` output.
fn linear_kernel<T: OptGemm>(
    in_: &Tensor<T>,
    mat2: &Tensor<T>,
    bias: &Option<Tensor<T>>,
    out: &mut Tensor<T>,
    n: usize,
    k: usize,
    m: usize,
)
    requires
        in_.wf(),
        mat2.wf(),
        old(out).wf(),
        bias matches Some(b) ==> b.wf(),
        in_.shape().len() >= 2,
        mat2.shape().len() == 2,
        in_.shape()[in_.shape().len() - 1] == mat2.shape()[1],
        old(out).shape() == linear_out_sizes(in_.shape(), mat2.shape()),
        old(out).elems().len() > 0,
        old(out).capacity() <= isize::MAX,
        n == shape_numel(in_.shape().drop_last()),
        k == in_.shape()[in_.shape().len() - 1],
        m == mat2.shape()[0],
        linear_bias_ok(*bias, m as int, old(out).dtype()),
        linear_fits::<T>(in_.shape(), in_.elems(), mat2.shape(), mat2.elems(), *bias),
    ensures
        final(out).wf(),
        final(out).shape() == old(out).shape(),
        final(out).dtype() == old(out).dtype(),
        final(out).dynamism_spec() == old(out).dynamism_spec(),
        final(out).capacity() == old(out).capacity(),
        forall|r: int, c: int|
            0 <= r < n && 0 <= c < m ==> #[trigger] final(out).elems()[flat2(
                r,
                c,
                m as int,
            )].scalar_val() == T::narrow(
                linear_bias_at(*bias, c) + seq_sum(
                    linear_terms(scalar_vals(in_.elems()), scalar_vals(mat2.elems()), k as int, r, c),
                ),
            ),
{
    proof {
        in_.lemma_wf();
        mat2.lemma_wf();
        old(out).lemma_wf();
    }
    let ghost xs = in_.shape();
    let ghost ws = mat2.shape();
    let ghost os = old(out).shape();
    let ghost xv = scalar_vals(in_.elems());
    let ghost wv = scalar_vals(mat2.elems());
    proof {
        reveal_with_fuel(shape_numel, 3);
        assert(xs.drop_last().push(xs[xs.len() - 1]) =~= xs);
        assert(os.drop_last() =~= xs.drop_last());
        assert(ws.drop_last().drop_last() =~= Seq::<i32>::empty());
        assert(ws.drop_last() =~= seq![ws[0]]);
        lemma_shape_numel_nonneg(xs.drop_last());
        assert(in_.elems().len() == n * k);
        assert(mat2.elems().len() == m * k);
        assert(old(out).elems().len() == n * m);
        assert(n >= 1 && m >= 1) by (nonlinear_arith)
            requires
                n * m > 0,
                n >= 0,
                m >= 0,
        ;
        assert(n <= n * m && m <= n * m) by (nonlinear_arith)
            requires
                n >= 1,
                m >= 1,
        ;
    }
    let mut cb: Vec<T> = out.to_vec();
    match bias {
        Some(b) => {
            proof {
                b.lemma_wf();
                assert(b.shape().drop_last() =~= Seq::<i32>::empty());
                assert(shape_numel(b.shape()) == shape_numel(b.shape().drop_last()) * b.shape().last());
            }
            if b.numel() == 1 {
                initialize_scalar(out.numel() as isize, b.at(0), cb.as_mut_slice());
            } else {
                initialize_to_vector(n as isize, m as isize, b.as_slice(), cb.as_mut_slice());
            }
        },
        None => {},
    }
    proof {
        assert forall|r: int, c: int|
            0 <= r < n && 0 <= c < m && bias is Some implies #[trigger] cb@[flat2(r, c, m as int)].scalar_val()
            == linear_bias_at(*bias, c) by {
            assert(0 <= flat2(r, c, m as int) < n * m) by (nonlinear_arith)
                requires
                    0 <= r < n,
                    0 <= c < m,
            ;
        }
    }
    let beta = if bias.is_some() {
        T::one()
    } else {
        T::zero()
    };
    let a = mat2.as_slice();
    let b = in_.as_slice();
    let ghost av = scalar_vals(a@);
    let ghost bv = scalar_vals(b@);
    let ghost cpre = cb@;
    proof {
        assert forall|c: int, r: int|
            0 <= c < m && 0 <= r < n implies #[trigger] dot_terms(
            av,
            k as int,
            true,
            bv,
            k as int,
            false,
            k as int,
            c,
            r,
        ) == linear_terms(xv, wv, k as int, r, c) by {
            let d = dot_terms(av, k as int, true, bv, k as int, false, k as int, c, r);
            let e = linear_terms(xv, wv, k as int, r, c);
            assert forall|l: int| 0 <= l < k implies #[trigger] d[l] == e[l] by {
                vstd::arithmetic::mul::lemma_mul_is_commutative(
                    xv[flat2(r, l, k as int)],
                    wv[flat2(c, l, k as int)],
                );
            }
            assert(d =~= e);
        }
        assert forall|i: int, j: int|
            #![trigger cm(i, j, m as int)]
            0 <= i < m && 0 <= j < n implies crate::blas::blas_kernel::dot_blend_fits(
            1,
            beta.scalar_val(),
            cpre[cm(i, j, m as int)].scalar_val(),
            dot_terms(av, k as int, true, bv, k as int, false, k as int, i, j),
            <T::Op as GemmOp>::bound(),
        ) by {
            let d = dot_terms(av, k as int, true, bv, k as int, false, k as int, i, j);
            assert(flat2(j, i, m as int) == cm(i, j, m as int));
            assert(d == linear_terms(xv, wv, k as int, j, i));
            assert(sum_path_fits(false, d, <T::Op as GemmOp>::bound()));
            assert(0 <= cm(i, j, m as int) < n * m) by (nonlinear_arith)
                requires
                    0 <= i < m,
                    0 <= j < n,
            ;
            T::lemma_scalar_within(cpre[cm(i, j, m as int)]);
            lemma_sum_path_fits(
                false,
                cpre[cm(i, j, m as int)].scalar_val(),
                d,
                <T::Op as GemmOp>::bound(),
            );
        }
        assert(covers(a@.len() as int, k as int, m as int, k as int)) by {
            if k > 0 {
                assert(cm(k - 1, m - 1, k as int) < m * k) by (nonlinear_arith)
                    requires
                        m >= 1,
                        k >= 1,
                ;
            }
        }
        assert(covers(b@.len() as int, k as int, n as int, k as int)) by {
            if k > 0 {
                assert(cm(k - 1, n - 1, k as int) < n * k) by (nonlinear_arith)
                    requires
                        k >= 1,
                        n >= 1,
                ;
            }
        }
        assert(covers(cpre.len() as int, m as int, n as int, m as int)) by {
            assert(cm(m - 1, n - 1, m as int) < n * m) by (nonlinear_arith)
                requires
                    m >= 1,
                    n >= 1,
            ;
        }
    }
    T::opt_gemm(
        TransposeType::Transpose,
        TransposeType::NoTranspose,
        m as i64,
        n as i64,
        k as i64,
        T::one(),
        a,
        k as i64,
        b,
        k as i64,
        beta,
        &mut cb,
        m as i64,
    );
    let nm: usize = out.numel();
    let mut t: usize = 0;
    while t < nm
        invariant
            nm == n * m,
            t <= nm,
            cb@.len() == nm,
            out.wf(),
            out.shape() == old(out).shape(),
            out.dtype() == old(out).dtype(),
            out.dynamism_spec() == old(out).dynamism_spec(),
            out.capacity() == old(out).capacity(),
            out.elems().len() == nm,
            forall|t2: int| 0 <= t2 < t ==> #[trigger] out.elems()[t2] == cb@[t2],
        decreases nm - t,
    {
        let ghost before = out.elems();
        out.set(t, cb[t]);
        proof {
            assert forall|t2: int| 0 <= t2 < t + 1 implies #[trigger] out.elems()[t2] == cb@[t2] by {
                if t2 < t {
                    assert(before[t2] == out.elems()[t2]);
                }
            }
        }
        t = t + 1;
    }
    proof {
        assert forall|r: int, c: int| 0 <= r < n && 0 <= c < m implies #[trigger] out.elems()[flat2(
            r,
            c,
            m as int,
        )].scalar_val() == T::narrow(
            linear_bias_at(*bias, c) + seq_sum(linear_terms(xv, wv, k as int, r, c)),
        ) by {
            assert(0 <= cm(c, r, m as int) < n * m) by (nonlinear_arith)
                requires
                    0 <= c < m,
                    0 <= r < n,
            ;
            assert(flat2(r, c, m as int) == cm(c, r, m as int));
            let d = dot_terms(av, k as int, true, bv, k as int, false, k as int, c, r);
            assert(d == linear_terms(xv, wv, k as int, r, c));
            vstd::arithmetic::mul::lemma_mul_basics(seq_sum(d));
            vstd::arithmetic::mul::lemma_mul_basics(cpre[cm(c, r, m as int)].scalar_val());
        }
    }
}

/// `out := in · mat2ᵀ + bias`.  Fails with `InvalidArgument`, leaving `out`
/// alone, when the operands disagree (see `linear_args_ok`) or `out` cannot
/// take the shape `(*, m)`; otherwise `out` takes that shape, and, unless it
/// is empty, fails with `InvalidArgument`, its elements untouched, when the
/// bias does not fit (see `linear_bias_ok`) or the element type is not a real
/// one; else every element `(r, c)` of `out` is the bias for column `c` plus
/// the dot product of row `r` of `in` with row `c` of `mat2`.
pub fn opt_linear_out<T: OptGemm>(
    ctx: &mut KernelRuntimeContext,
    in_: &Tensor<T>,
    mat2: &Tensor<T>,
    bias: &Option<Tensor<T>>,
    out: &mut Tensor<T>,
)
    requires
        in_.wf(),
        mat2.wf(),
        old(out).wf(),
        bias matches Some(b) ==> b.wf(),
        old(out).capacity() <= isize::MAX,
        linear_fits::<T>(in_.shape(), in_.elems(), mat2.shape(), mat2.elems(), *bias),
    ensures
        final(out).wf(),
        final(out).dtype() == old(out).dtype(),
        final(out).dynamism_spec() == old(out).dynamism_spec(),
        final(out).capacity() == old(out).capacity(),
        ({
            let sizes = linear_out_sizes(in_.shape(), mat2.shape());
            let args = linear_args_ok(
                in_.shape(),
                mat2.shape(),
                old(out).shape(),
                in_.dtype(),
                mat2.dtype(),
                old(out).dtype(),
            );
            let resized = args && resize_allowed(
                old(out).shape(),
                old(out).dynamism_spec(),
                old(out).capacity(),
                sizes,
            );
            let empty = shape_numel(sizes) == 0;
            let valid = resized && (empty || (linear_bias_ok(
                *bias,
                mat2.shape()[0] as int,
                old(out).dtype(),
            ) && is_realhbf16_spec(old(out).dtype())));
            let n = shape_numel(in_.shape().drop_last());
            let k = in_.shape()[in_.shape().len() - 1] as int;
            let m = mat2.shape()[0] as int;
            &&& final(ctx).failure_spec() == if valid {
                old(ctx).failure_spec()
            } else {
                Error::InvalidArgument
            }
            &&& !resized ==> final(out).shape() == old(out).shape() && final(out).elems()
                == old(out).elems()
            &&& resized ==> final(out).shape() == sizes
            &&& resized && !valid ==> final(out).elems() == old(out).allocation().take(
                shape_numel(sizes),
            )
            &&& resized && empty ==> final(out).elems().len() == 0
            &&& valid ==> forall|r: int, c: int|
                0 <= r < n && 0 <= c < m
                    ==> #[trigger] final(out).elems()[flat2(r, c, m)].scalar_val()
                    == T::narrow(
                    linear_bias_at(*bias, c) + seq_sum(
                        linear_terms(scalar_vals(in_.elems()), scalar_vals(mat2.elems()), k, r, c),
                    ),
                )
        }),
{
    proof {
        in_.lemma_wf();
        old(out).lemma_wf();
    }
    if !check_linear_args(in_, mat2, out) {
        ctx.fail(Error::InvalidArgument);
        return;
    }
    let output_sizes = get_linear_out_target_size(in_, mat2);
    if out.resize(&output_sizes) != Error::Success {
        ctx.fail(Error::InvalidArgument);
        return;
    }
    let ghost sizes = output_sizes@;
    let ghost xs = in_.shape();
    proof {
        out.lemma_wf();
        reveal_with_fuel(shape_numel, 2);
        assert(sizes.drop_last() =~= xs.drop_last());
        lemma_shape_numel_nonneg(xs.drop_last());
    }
    if out.numel() == 0 {
        proof {
            assert(shape_numel(xs.drop_last()) == 0 || sizes.last() == 0) by (nonlinear_arith)
                requires
                    shape_numel(xs.drop_last()) * sizes.last() == 0,
            ;
        }
        return;
    }
    let k: usize = in_.size(in_.dim() - 1) as usize;
    let m: usize = mat2.size(0) as usize;
    proof {
        assert(shape_numel(xs.drop_last()) <= shape_numel(sizes)) by (nonlinear_arith)
            requires
                shape_numel(sizes) == shape_numel(xs.drop_last()) * m,
                shape_numel(sizes) > 0,
                m >= 0,
                shape_numel(xs.drop_last()) >= 0,
        ;
        assert(xs.subrange(0, xs.len() - 1) =~= xs.drop_last());
    }
    let n: usize = leading_dims_product(in_.sizes(), in_.dim() - 1).unwrap();
    match bias {
        Some(b) => {
            if b.scalar_type() != out.scalar_type() {
                ctx.fail(Error::InvalidArgument);
                return;
            }
            if !(b.dim() == 1 && (b.size(0) == mat2.size(0) || b.size(0) == 1)) {
                ctx.fail(Error::InvalidArgument);
                return;
            }
        },
        None => {},
    }
    proof {
        assert(linear_bias_ok(*bias, m as int, out.dtype()));
    }
    if !is_realhbf16_type(out.scalar_type()) {
        ctx.fail(Error::InvalidArgument);
        return;
    }
    linear_kernel::<T>(in_, mat2, bias, out, n, k, m);
}

/// The row-major `cols × rows` transpose of the row-major `rows × cols`
/// matrix `w`.
pub open spec fn transposed(w: Seq<int>, rows: int, cols: int) -> Seq<int> {
    Seq::new((rows * cols) as nat, |i: int| w[flat2(i % rows, i / rows, cols)])
}

/// The linear layer multiplies by the transposed weight: the products summed
/// in element `(r, c)` of `x · wᵀ`, for a weight `w` of `m` rows of `k`, are
/// those of element `(r, c)` of the matrix product of `x` with the `k × m`
/// transpose of `w`.
pub proof fn lemma_linear_is_mm_with_transposed_weight(
    x: Seq<int>,
    w: Seq<int>,
    k: int,
    m: int,
    r: int,
    c: int,
)
    requires
        0 <= k,
        0 <= c < m,
    ensures
        linear_terms(x, w, k, r, c) == crate::op_mm::mm_terms(x, transposed(w, m, k), k, m, r, c),
{
    let wt = transposed(w, m, k);
    let lhs = linear_terms(x, w, k, r, c);
    let rhs = crate::op_mm::mm_terms(x, wt, k, m, r, c);
    assert forall|l: int| 0 <= l < k implies #[trigger] lhs[l] == rhs[l] by {
        let i = flat2(l, c, m);
        assert(0 <= i < m * k) by (nonlinear_arith)
            requires
                0 <= l < k,
                0 <= c < m,
                i == l * m + c,
        ;
        vstd::arithmetic::div_mod::lemma_fundamental_div_mod_converse(i, m, l, c);
        assert(i / m == l && i % m == c);
        assert(wt[i] == w[flat2(c, l, k)]);
    }
    assert(lhs =~= rhs);
}

/// A linear layer accepts an input of every rank of at least 2: an input
/// `(d.., k)` with a weight `(m, k)` and an output of the input's rank, all of
/// one element type, is accepted whatever the leading sizes `d..` and the
/// sizes of the output (which `opt_linear_out` then resizes to `(d.., m)`).
pub proof fn lemma_linear_args_accept_any_rank(x: Seq<i32>, w: Seq<i32>, o: Seq<i32>, t: ScalarType)
    requires
        x.len() >= 2,
        o.len() == x.len(),
        w.len() == 2,
        x.last() == w[1],
    ensures
        linear_args_ok(x, w, o, t, t, t),
{
}

/// A linear layer is accepted only when the input has rank at least 2 and
/// the output the same rank, the weight is a matrix whose columns match the
/// last size of the input, and all three share an element type.
pub proof fn lemma_linear_args_needs(
    x: Seq<i32>,
    w: Seq<i32>,
    o: Seq<i32>,
    xt: ScalarType,
    wt: ScalarType,
    ot: ScalarType,
)
    requires
        linear_args_ok(x, w, o, xt, wt, ot),
    ensures
        x.len() >= 2 && o.len() == x.len() && w.len() == 2,
        x.last() == w[1],
        xt == wt && wt == ot,
{
}

/// The output of a linear layer keeps every size of the input but the last,
/// which becomes the number of rows of the weight.
pub proof fn lemma_linear_out_sizes(x: Seq<i32>, w: Seq<i32>)
    requires
        x.len() >= 1,
    ensures
        linear_out_sizes(x, w).len() == x.len(),
        forall|i: int| 0 <= i < x.len() - 1 ==> #[trigger] linear_out_sizes(x, w)[i] == x[i],
        linear_out_sizes(x, w).last() == w[0],
{
}

} // verus!
