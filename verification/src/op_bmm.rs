//! Batched matrix product: `out[b] = self[b] · mat2[b]` for every batch `b`,
//! with `self` of shape `(B, n, k)`, `mat2` of shape `(B, k, m)` and `out`
//! resized to `(B, n, m)`.  There is no broadcasting.

use vstd::prelude::*;

use crate::binary_ops::flat3;
use crate::blas::blas_kernel::{
    blend, cm, dot_terms, gemm_result, lemma_sum_path_fits, scalar_vals, seq_sum, sum_path_fits,
    within, GemmOp, GemmScalar,
};
use crate::blas::cpu_blas::{
    gemm_impl_ok, norm_lda, norm_ldb, norm_ldc, reads_a_transposed, reads_b_transposed,
    TransposeType,
};
use crate::opt_gemm::OptGemm;
use crate::tensor::{
    is_complex_type, is_realhbf16_spec, is_realhbf16_type, resize_allowed, shape_numel,
    tensors_have_same_dtype, Error, KernelRuntimeContext, ScalarType, Tensor, MAX_DIMS,
};

verus! {

/// The operands of a batched matrix product agree: `self`, `mat2` and `out`
/// all have rank 3, one non-negative batch count, `out` has the rows of `self`
/// and the columns of `mat2`, and all three share an element type.
pub open spec fn bmm_args_ok(
    x: Seq<i32>,
    y: Seq<i32>,
    o: Seq<i32>,
    xt: ScalarType,
    yt: ScalarType,
    ot: ScalarType,
) -> bool {
    &&& x.len() == y.len()
    &&& x.len() == o.len()
    &&& x.len() == 3
    &&& x[0] >= 0
    &&& x[0] == y[0]
    &&& x[0] == o[0]
    &&& y[2] == o[2]
    &&& x[1] == o[1]
    &&& xt == yt
    &&& xt == ot
}

/// Whether the operands of a batched matrix product agree (see `bmm_args_ok`).
pub fn check_bmm_out_args<A: Copy, B: Copy, C: Copy>(
    self_: &Tensor<A>,
    mat2: &Tensor<B>,
    out: &Tensor<C>,
) -> (r: bool)
    ensures
        r == bmm_args_ok(
            self_.shape(),
            mat2.shape(),
            out.shape(),
            self_.dtype(),
            mat2.dtype(),
            out.dtype(),
        ),
{
    if self_.dim() != mat2.dim() {
        return false;
    }
    if self_.dim() != out.dim() {
        return false;
    }
    if self_.dim() != 3 {
        return false;
    }
    if self_.size(0) < 0 {
        return false;
    }
    if self_.size(0) != mat2.size(0) {
        return false;
    }
    if self_.size(0) != out.size(0) {
        return false;
    }
    if mat2.size(2) != out.size(2) {
        return false;
    }
    if self_.size(1) != out.size(1) {
        return false;
    }
    if !tensors_have_same_dtype(self_, mat2, out) {
        return false;
    }
    true
}

/// The sizes the output is resized to, for an output of rank `rank`: the
/// leading sizes of `x` up to its second-to-last, then the last size of `y`
/// at position `x.len() - 1`, then zeros; cut to `rank` entries.
pub open spec fn bmm_out_sizes(x: Seq<i32>, y: Seq<i32>, rank: int) -> Seq<i32> {
    Seq::new(
        rank as nat,
        |i: int|
            if i <= x.len() - 2 {
                x[i]
            } else if i == x.len() - 1 {
                y[x.len() - 1]
            } else {
                0
            },
    )
}

/// Resizes `out` to the shape of the product (see `bmm_out_sizes`).  Fails
/// with `InvalidArgument`, leaving `out` alone, when `mat2` has fewer
/// dimensions than `self`; otherwise returns what `Tensor::resize` returns.
pub fn resize_out_tensor<A: Copy, B: Copy, C: Copy>(
    self_: &Tensor<A>,
    mat2: &Tensor<B>,
    out: &mut Tensor<C>,
) -> (r: Error)
    requires
        self_.wf(),
        self_.shape().len() >= 2,
        old(out).wf(),
    ensures
        final(out).wf(),
        final(out).dtype() == old(out).dtype(),
        final(out).dynamism_spec() == old(out).dynamism_spec(),
        final(out).capacity() == old(out).capacity(),
        final(out).allocation() == old(out).allocation(),
        mat2.shape().len() < self_.shape().len() ==> r == Error::InvalidArgument,
        mat2.shape().len() >= self_.shape().len() ==> (r == Error::Success <==> resize_allowed(
            old(out).shape(),
            old(out).dynamism_spec(),
            old(out).capacity(),
            bmm_out_sizes(self_.shape(), mat2.shape(), old(out).shape().len() as int),
        )),
        mat2.shape().len() >= self_.shape().len() && r != Error::Success ==> r
            == Error::NotSupported,
        r == Error::Success ==> final(out).shape() == bmm_out_sizes(
            self_.shape(),
            mat2.shape(),
            old(out).shape().len() as int,
        ),
        r != Error::Success ==> final(out).shape() == old(out).shape() && final(out).elems()
            == old(out).elems(),
{
    proof {
        self_.lemma_wf();
        old(out).lemma_wf();
    }
    let mut expected: Vec<i32> = Vec::new();
    let mut f: usize = 0;
    while f < MAX_DIMS
        invariant
            f <= MAX_DIMS,
            expected@.len() == f,
            forall|t: int| 0 <= t < f ==> #[trigger] expected@[t] == 0i32,
        decreases MAX_DIMS - f,
    {
        expected.push(0);
        f = f + 1;
    }
    let m_dim: usize = self_.dim() - 2;
    let n_dim: usize = self_.dim() - 1;
    let mut i: usize = 0;
    while i < m_dim
        invariant
            m_dim == self_.shape().len() - 2,
            self_.shape().len() <= MAX_DIMS,
            i <= m_dim,
            expected@.len() == MAX_DIMS,
            forall|t: int| 0 <= t < i ==> #[trigger] expected@[t] == self_.shape()[t],
            forall|t: int| i <= t < MAX_DIMS ==> #[trigger] expected@[t] == 0i32,
        decreases m_dim - i,
    {
        expected.set(i, self_.size(i));
        i = i + 1;
    }
    if m_dim >= self_.dim() || n_dim >= mat2.dim() {
        return Error::InvalidArgument;
    }
    expected.set(m_dim, self_.size(m_dim));
    expected.set(n_dim, mat2.size(n_dim));
    let rank = out.dim();
    let mut output_size: Vec<i32> = Vec::new();
    let mut t: usize = 0;
    while t < rank
        invariant
            rank == old(out).shape().len(),
            rank <= MAX_DIMS,
            t <= rank,
            expected@.len() == MAX_DIMS,
            output_size@ == expected@.take(t as int),
        decreases rank - t,
    {
        output_size.push(expected[t]);
        proof {
            assert(expected@.take(t as int + 1) =~= expected@.take(t as int).push(expected@[t as int]));
        }
        t = t + 1;
    }
    proof {
        assert(output_size@ =~= bmm_out_sizes(self_.shape(), mat2.shape(), rank as int));
    }
    let r = out.resize(&output_size);
    proof {
        if r == Error::Success && old(out).shape().len() == 0 {
            assert(output_size@ =~= old(out).shape());
        }
    }
    r
}

/// The products summed in element `(bi, r, c)` of the product of `x`
/// (`_ × n × k`) and `y` (`_ × k × m`), both row-major.
pub open spec fn bmm_terms(
    x: Seq<int>,
    y: Seq<int>,
    n: int,
    k: int,
    m: int,
    bi: int,
    r: int,
    c: int,
) -> Seq<int> {
    Seq::new(k as nat, |l: int| x[flat3(bi, r, l, n, k)] * y[flat3(bi, l, c, k, m)])
}

/// When `x` (`B × n × k`) and `y` (`B × _ × m`) are rank 3 with one batch
/// count: `y` holds `B × k × m` elements, and every value that the GEMM meets
/// while summing the products of an element of the product fits the
/// accumulator type (see `sum_path_fits`).
pub open spec fn bmm_fits<T: GemmScalar>(xs: Seq<i32>, xe: Seq<T>, ys: Seq<i32>, ye: Seq<T>) -> bool {
    xs.len() == 3 && ys.len() == 3 && xs[0] == ys[0] && xs[0] >= 0 ==> {
        let bt = xs[0] as int;
        let n = xs[1] as int;
        let k = xs[2] as int;
        let m = ys[2] as int;
        &&& bt * (k * m) <= ye.len()
        &&& forall|bi: int, r: int, c: int|
            0 <= bi < bt && 0 <= r < n && 0 <= c < m ==> sum_path_fits(
                !T::reduced_spec(),
                #[trigger] bmm_terms(scalar_vals(xe), scalar_vals(ye), n, k, m, bi, r, c),
                <T::Op as GemmOp>::bound(),
            )
    }
}

proof fn lemma_flat3_split(b: int, i: int, j: int, d1: int, d2: int)
    ensures
        flat3(b, i, j, d1, d2) == b * (d1 * d2) + cm(j, i, d2),
{
    assert((b * d1 + i) * d2 + j == b * (d1 * d2) + (i * d2 + j)) by (nonlinear_arith);
}

proof fn lemma_batch_bounds(b: int, bt: int, i: int, j: int, d1: int, d2: int)
    requires
        0 <= b < bt,
        0 <= i < d1,
        0 <= j < d2,
    ensures
        0 <= cm(j, i, d2) < d1 * d2,
        0 <= b * (d1 * d2),
        (b + 1) * (d1 * d2) <= bt * (d1 * d2),
        b * (d1 * d2) + d1 * d2 == (b + 1) * (d1 * d2),
{
    assert(0 <= i * d2 + j < d1 * d2) by (nonlinear_arith)
        requires
            0 <= i < d1,
            0 <= j < d2,
    ;
    assert(0 <= b * (d1 * d2)) by (nonlinear_arith)
        requires
            0 <= b,
            0 <= d1 * d2,
    ;
    assert((b + 1) * (d1 * d2) <= bt * (d1 * d2)) by (nonlinear_arith)
        requires
            b + 1 <= bt,
            0 <= d1 * d2,
    ;
    assert(b * (d1 * d2) + d1 * d2 == (b + 1) * (d1 * d2)) by (nonlinear_arith);
}

/// For every batch, `out[b] = self[b] · mat2[b]`, as one column-major GEMM
/// (`mat2[b]` as the `m × k` left operand, `self[b]` as the `k × n` right
/// one, `out[b]` as the `m × n` result).  Does nothing when one of the three
/// tensors is empty.
fn bmm_kernel<T: OptGemm>(self_: &Tensor<T>, mat2: &Tensor<T>, out: &mut Tensor<T>)
    requires
        self_.wf(),
        mat2.wf(),
        old(out).wf(),
        bmm_args_ok(
            self_.shape(),
            mat2.shape(),
            old(out).shape(),
            self_.dtype(),
            mat2.dtype(),
            old(out).dtype(),
        ),
        bmm_fits::<T>(self_.shape(), self_.elems(), mat2.shape(), mat2.elems()),
    ensures
        final(out).wf(),
        final(out).shape() == old(out).shape(),
        final(out).dtype() == old(out).dtype(),
        final(out).dynamism_spec() == old(out).dynamism_spec(),
        final(out).capacity() == old(out).capacity(),
        self_.elems().len() == 0 || mat2.elems().len() == 0 || old(out).elems().len() == 0
            ==> final(out).elems() == old(out).elems(),
        !(self_.elems().len() == 0 || mat2.elems().len() == 0 || old(out).elems().len() == 0)
            ==> forall|bi: int, r: int, c: int|
            0 <= bi < self_.shape()[0] && 0 <= r < self_.shape()[1] && 0 <= c < mat2.shape()[2]
                ==> #[trigger] final(out).elems()[flat3(
                bi,
                r,
                c,
                self_.shape()[1] as int,
                mat2.shape()[2] as int,
            )].scalar_val() == T::narrow(
                seq_sum(
                    bmm_terms(
                        scalar_vals(self_.elems()),
                        scalar_vals(mat2.elems()),
                        self_.shape()[1] as int,
                        self_.shape()[2] as int,
                        mat2.shape()[2] as int,
                        bi,
                        r,
                        c,
                    ),
                ),
            ),
{
    proof {
        self_.lemma_wf();
        mat2.lemma_wf();
        old(out).lemma_wf();
    }
    if self_.numel() == 0 || mat2.numel() == 0 || out.numel() == 0 {
        return;
    }
    let ghost xs = self_.shape();
    let ghost ys = mat2.shape();
    let ghost xv = scalar_vals(self_.elems());
    let ghost yv = scalar_vals(mat2.elems());
    let batch: usize = self_.size(0) as usize;
    let n: usize = self_.size(1) as usize;
    let k: usize = self_.size(2) as usize;
    let m: usize = mat2.size(2) as usize;
    proof {
        reveal_with_fuel(shape_numel, 4);
        assert(xs.drop_last().drop_last().drop_last() =~= Seq::<i32>::empty());
        assert(ys.drop_last().drop_last().drop_last() =~= Seq::<i32>::empty());
        assert(old(out).shape().drop_last().drop_last().drop_last() =~= Seq::<i32>::empty());
        assert(xs.drop_last().drop_last() =~= seq![xs[0]]);
        assert(ys.drop_last().drop_last() =~= seq![ys[0]]);
        assert(old(out).shape().drop_last().drop_last() =~= seq![old(out).shape()[0]]);
        assert(xs.drop_last() =~= seq![xs[0], xs[1]]);
        assert(ys.drop_last() =~= seq![ys[0], ys[1]]);
        assert(old(out).shape().drop_last() =~= seq![old(out).shape()[0], old(out).shape()[1]]);
        assert(self_.elems().len() == batch * n * k);
        assert(old(out).elems().len() == batch * n * m);
        assert(batch * (k * m) <= mat2.elems().len());
        assert(batch >= 1 && n >= 1 && k >= 1 && m >= 1) by (nonlinear_arith)
            requires
                batch * n * k > 0,
                batch * n * m > 0,
                batch >= 0,
                n >= 0,
                k >= 0,
                m >= 0,
        ;
        assert(k * m <= batch * (k * m) && k * n <= batch * n * k && m * n <= batch * n * m)
            by (nonlinear_arith)
            requires
                batch >= 1,
                k >= 0,
                m >= 0,
                n >= 0,
        ;
        assert(batch * n * k == batch * (n * k) && batch * n * m == batch * (n * m))
            by (nonlinear_arith);
        assert(n * k == k * n && n * m == m * n && m * k == k * m) by (nonlinear_arith);
        assert(mat2.elems().len() <= usize::MAX);
        assert(old(out).elems().len() <= usize::MAX);
    }
    let mk: usize = m * k;
    let kn: usize = k * n;
    let mn: usize = m * n;
    let xdata = self_.as_slice();
    let ydata = mat2.as_slice();
    let mut bi: usize = 0;
    while bi < batch
        invariant
            xs == self_.shape(),
            ys == mat2.shape(),
            xv == scalar_vals(self_.elems()),
            yv == scalar_vals(mat2.elems()),
            xdata@ == self_.elems(),
            ydata@ == mat2.elems(),
            xs.len() == 3,
            ys.len() == 3,
            xs[0] == ys[0],
            batch == xs[0],
            n == xs[1],
            k == xs[2],
            m == ys[2],
            batch >= 1 && n >= 1 && k >= 1 && m >= 1,
            mk == m * k,
            kn == k * n,
            mn == m * n,
            self_.elems().len() == batch * kn,
            batch * mk <= mat2.elems().len(),
            mat2.elems().len() <= usize::MAX,
            self_.elems().len() <= usize::MAX,
            batch * mn <= usize::MAX,
            bi <= batch,
            out.wf(),
            out.shape() == old(out).shape(),
            out.dtype() == old(out).dtype(),
            out.dynamism_spec() == old(out).dynamism_spec(),
            out.capacity() == old(out).capacity(),
            out.elems().len() == batch * mn,
            bmm_fits::<T>(xs, self_.elems(), ys, mat2.elems()),
            forall|b2: int, r: int, c: int|
                0 <= b2 < bi && 0 <= r < n && 0 <= c < m ==> #[trigger] out.elems()[flat3(
                    b2,
                    r,
                    c,
                    n as int,
                    m as int,
                )].scalar_val() == T::narrow(
                    seq_sum(bmm_terms(xv, yv, n as int, k as int, m as int, b2, r, c)),
                ),
        decreases batch - bi,
    {
        proof {
            lemma_batch_bounds(bi as int, batch as int, 0, 0, m as int, k as int);
            lemma_batch_bounds(bi as int, batch as int, 0, 0, k as int, n as int);
            lemma_batch_bounds(bi as int, batch as int, 0, 0, n as int, m as int);
            assert(n * m == mn) by (nonlinear_arith)
                requires
                    mn == m * n,
            ;
            assert(k * m == mk) by (nonlinear_arith)
                requires
                    mk == m * k,
            ;
        }
        let a = vstd::slice::slice_subrange(ydata, bi * mk, bi * mk + mk);
        let b = vstd::slice::slice_subrange(xdata, bi * kn, bi * kn + kn);
        let mut cb: Vec<T> = vec![T::zero(); mn];
        let ghost av = scalar_vals(a@);
        let ghost bv = scalar_vals(b@);
        proof {
            assert forall|c: int, r: int|
                0 <= c < m && 0 <= r < n implies #[trigger] dot_terms(
                av,
                m as int,
                false,
                bv,
                k as int,
                false,
                k as int,
                c,
                r,
            ) == bmm_terms(xv, yv, n as int, k as int, m as int, bi as int, r, c) by {
                let d = dot_terms(av, m as int, false, bv, k as int, false, k as int, c, r);
                let e = bmm_terms(xv, yv, n as int, k as int, m as int, bi as int, r, c);
                assert forall|l: int| 0 <= l < k implies #[trigger] d[l] == e[l] by {
                    lemma_flat3_split(bi as int, l, c, k as int, m as int);
                    lemma_flat3_split(bi as int, r, l, n as int, k as int);
                    lemma_batch_bounds(bi as int, batch as int, l, c, k as int, m as int);
                    lemma_batch_bounds(bi as int, batch as int, r, l, n as int, k as int);
                    vstd::arithmetic::mul::lemma_mul_is_commutative(
                        xv[flat3(bi as int, r, l, n as int, k as int)],
                        yv[flat3(bi as int, l, c, k as int, m as int)],
                    );
                }
                assert(d =~= e);
            }
            assert forall|i: int, j: int|
                #![trigger cm(i, j, m as int)]
                0 <= i < m && 0 <= j < n implies if !T::reduced_spec() {
                crate::blas::blas_kernel::rank1_blend_fits(
                    1,
                    0,
                    cb@[cm(i, j, m as int)].scalar_val(),
                    dot_terms(av, m as int, false, bv, k as int, false, k as int, i, j),
                    <T::Op as GemmOp>::bound(),
                )
            } else {
                crate::blas::blas_kernel::dot_blend_fits(
                    1,
                    0,
                    cb@[cm(i, j, m as int)].scalar_val(),
                    dot_terms(av, m as int, false, bv, k as int, false, k as int, i, j),
                    <T::Op as GemmOp>::bound(),
                )
            } by {
                let d = dot_terms(av, m as int, false, bv, k as int, false, k as int, i, j);
                assert(d == bmm_terms(xv, yv, n as int, k as int, m as int, bi as int, j, i));
                assert(sum_path_fits(!T::reduced_spec(), d, <T::Op as GemmOp>::bound()));
                assert(0 <= cm(i, j, m as int) < m * n) by (nonlinear_arith)
                    requires
                        0 <= i < m,
                        0 <= j < n,
                ;
                T::lemma_scalar_within(cb@[cm(i, j, m as int)]);
                lemma_sum_path_fits(
                    !T::reduced_spec(),
                    cb@[cm(i, j, m as int)].scalar_val(),
                    d,
                    <T::Op as GemmOp>::bound(),
                );
            }
            assert(crate::blas::blas_kernel::covers(a@.len() as int, m as int, k as int, m as int))
                by {
                assert(cm(m - 1, k - 1, m as int) < m * k) by (nonlinear_arith)
                    requires
                        m >= 1,
                        k >= 1,
                ;
            }
            assert(crate::blas::blas_kernel::covers(b@.len() as int, k as int, n as int, k as int))
                by {
                assert(cm(k - 1, n - 1, k as int) < k * n) by (nonlinear_arith)
                    requires
                        k >= 1,
                        n >= 1,
                ;
            }
            assert(crate::blas::blas_kernel::covers(cb@.len() as int, m as int, n as int, m as int))
                by {
                assert(cm(m - 1, n - 1, m as int) < m * n) by (nonlinear_arith)
                    requires
                        m >= 1,
                        n >= 1,
                ;
            }
            if !T::reduced_spec() {
                assert forall|l: int, j: int|
                    0 <= l < k && 0 <= j < n implies within(
                    #[trigger] crate::blas::blas_kernel::op_at(bv, k as int, false, l, j) * 1,
                    <T::Op as GemmOp>::bound(),
                ) by {
                    lemma_batch_bounds(bi as int, batch as int, j, l, n as int, k as int);
                    assert(self_.elems()[bi * kn + cm(l, j, k as int)].scalar_val() == bv[cm(
                        l,
                        j,
                        k as int,
                    )]);
                    T::lemma_scalar_within(self_.elems()[bi * kn + cm(l, j, k as int)]);
                }
            }
        }
        T::opt_gemm(
            TransposeType::NoTranspose,
            TransposeType::NoTranspose,
            m as i64,
            n as i64,
            k as i64,
            T::one(),
            a,
            m as i64,
            b,
            k as i64,
            T::zero(),
            &mut cb,
            m as i64,
        );
        let base: usize = bi * mn;
        let mut t: usize = 0;
        while t < mn
            invariant
                xs == self_.shape(),
                ys == mat2.shape(),
                xv == scalar_vals(self_.elems()),
                yv == scalar_vals(mat2.elems()),
                batch == xs[0],
                n == xs[1],
                k == xs[2],
                m == ys[2],
                batch >= 1 && n >= 1 && k >= 1 && m >= 1,
                mn == m * n,
                bi < batch,
                base == bi * mn,
                base + mn <= batch * mn,
                batch * mn <= usize::MAX,
                t <= mn,
                cb@.len() == mn,
                out.wf(),
                out.shape() == old(out).shape(),
                out.dtype() == old(out).dtype(),
                out.dynamism_spec() == old(out).dynamism_spec(),
                out.capacity() == old(out).capacity(),
                out.elems().len() == batch * mn,
                forall|b2: int, r: int, c: int|
                    0 <= b2 < bi && 0 <= r < n && 0 <= c < m ==> #[trigger] out.elems()[flat3(
                        b2,
                        r,
                        c,
                        n as int,
                        m as int,
                    )].scalar_val() == T::narrow(
                        seq_sum(bmm_terms(xv, yv, n as int, k as int, m as int, b2, r, c)),
                    ),
                forall|t2: int| 0 <= t2 < t ==> #[trigger] out.elems()[base + t2] == cb@[t2],
            decreases mn - t,
        {
            let ghost before = out.elems();
            out.set(base + t, cb[t]);
            proof {
                assert forall|b2: int, r: int, c: int|
                    0 <= b2 < bi && 0 <= r < n && 0 <= c < m implies #[trigger] out.elems()[flat3(
                    b2,
                    r,
                    c,
                    n as int,
                    m as int,
                )].scalar_val() == T::narrow(
                    seq_sum(bmm_terms(xv, yv, n as int, k as int, m as int, b2, r, c)),
                ) by {
                    lemma_flat3_split(b2, r, c, n as int, m as int);
                    lemma_batch_bounds(b2, bi as int, r, c, n as int, m as int);
                    assert(n * m == mn) by (nonlinear_arith)
                        requires
                            mn == m * n,
                    ;
                    assert(before[flat3(b2, r, c, n as int, m as int)] == out.elems()[flat3(
                        b2,
                        r,
                        c,
                        n as int,
                        m as int,
                    )]);
                }
                assert forall|t2: int| 0 <= t2 < t + 1 implies #[trigger] out.elems()[base + t2]
                    == cb@[t2] by {
                    if t2 < t {
                        assert(before[base + t2] == out.elems()[base + t2]);
                    }
                }
            }
            t = t + 1;
        }
        proof {
            assert forall|b2: int, r: int, c: int|
                0 <= b2 < bi + 1 && 0 <= r < n && 0 <= c < m implies #[trigger] out.elems()[flat3(
                b2,
                r,
                c,
                n as int,
                m as int,
            )].scalar_val() == T::narrow(
                seq_sum(bmm_terms(xv, yv, n as int, k as int, m as int, b2, r, c)),
            ) by {
                if b2 == bi {
                    lemma_flat3_split(b2, r, c, n as int, m as int);
                    lemma_batch_bounds(b2, batch as int, r, c, n as int, m as int);
                    assert(n * m == mn) by (nonlinear_arith)
                        requires
                            mn == m * n,
                    ;
                    assert(out.elems()[base + cm(c, r, m as int)] == cb@[cm(c, r, m as int)]);
                    let d = dot_terms(av, m as int, false, bv, k as int, false, k as int, c, r);
                    assert(d == bmm_terms(xv, yv, n as int, k as int, m as int, bi as int, r, c));
                    vstd::arithmetic::mul::lemma_mul_basics(seq_sum(d));
                }
            }
        }
        bi = bi + 1;
    }
}

/// `out := self · mat2`, batch by batch (see `bmm_kernel`).  `out` is first
/// resized to `(B, n, m)`; when that fails, when the operands disagree (see
/// `bmm_args_ok`), or when the element type is complex or not a real type,
/// the kernel fails with `InvalidArgument`.
pub fn opt_bmm_out<T: OptGemm>(
    ctx: &mut KernelRuntimeContext,
    self_: &Tensor<T>,
    mat2: &Tensor<T>,
    out: &mut Tensor<T>,
)
    requires
        self_.wf(),
        mat2.wf(),
        old(out).wf(),
        self_.shape().len() >= 2,
        bmm_fits::<T>(self_.shape(), self_.elems(), mat2.shape(), mat2.elems()),
    ensures
        final(out).wf(),
        final(out).dtype() == old(out).dtype(),
        final(out).dynamism_spec() == old(out).dynamism_spec(),
        final(out).capacity() == old(out).capacity(),
        ({
            let sizes = bmm_out_sizes(self_.shape(), mat2.shape(), old(out).shape().len() as int);
            let resized = mat2.shape().len() >= self_.shape().len() && resize_allowed(
                old(out).shape(),
                old(out).dynamism_spec(),
                old(out).capacity(),
                sizes,
            );
            let valid = resized && bmm_args_ok(
                self_.shape(),
                mat2.shape(),
                sizes,
                self_.dtype(),
                mat2.dtype(),
                old(out).dtype(),
            ) && is_realhbf16_spec(self_.dtype());
            let computed = valid && self_.elems().len() > 0 && mat2.elems().len() > 0
                && shape_numel(sizes) > 0;
            &&& final(ctx).failure_spec() == if valid {
                old(ctx).failure_spec()
            } else {
                Error::InvalidArgument
            }
            &&& !resized ==> final(out).shape() == old(out).shape() && final(out).elems()
                == old(out).elems()
            &&& resized ==> final(out).shape() == sizes
            &&& resized && !computed ==> final(out).elems() == old(out).allocation().take(
                shape_numel(sizes),
            )
            &&& computed ==> forall|bi: int, r: int, c: int|
                0 <= bi < self_.shape()[0] && 0 <= r < self_.shape()[1] && 0 <= c
                    < mat2.shape()[2] ==> #[trigger] final(out).elems()[flat3(
                    bi,
                    r,
                    c,
                    self_.shape()[1] as int,
                    mat2.shape()[2] as int,
                )].scalar_val() == T::narrow(
                    seq_sum(
                        bmm_terms(
                            scalar_vals(self_.elems()),
                            scalar_vals(mat2.elems()),
                            self_.shape()[1] as int,
                            self_.shape()[2] as int,
                            mat2.shape()[2] as int,
                            bi,
                            r,
                            c,
                        ),
                    ),
                )
        }),
{
    proof {
        old(out).lemma_wf();
    }
    let resized = resize_out_tensor(self_, mat2, out);
    proof {
        out.lemma_wf();
    }
    if resized != Error::Success {
        ctx.fail(Error::InvalidArgument);
        return;
    }
    if !check_bmm_out_args(self_, mat2, out) {
        ctx.fail(Error::InvalidArgument);
        return;
    }
    let self_type = self_.scalar_type();
    if is_complex_type(self_type) {
        ctx.fail(Error::InvalidArgument);
        return;
    }
    if !is_realhbf16_type(self_type) {
        ctx.fail(Error::InvalidArgument);
        return;
    }
    bmm_kernel::<T>(self_, mat2, out);
}

/// Each batch of the batched product is a matrix product: the products summed
/// in element `(bi, r, c)` are those of element `(r, c)` of the product of
/// batch `bi` of `x` (`n × k`) with batch `bi` of `y` (`k × m`).
pub proof fn lemma_bmm_batch_is_mm(
    x: Seq<int>,
    y: Seq<int>,
    n: int,
    k: int,
    m: int,
    bi: int,
    r: int,
    c: int,
)
    requires
        0 <= bi,
        0 <= r < n,
        0 <= k,
        0 <= c < m,
        (bi + 1) * (n * k) <= x.len(),
        (bi + 1) * (k * m) <= y.len(),
    ensures
        bmm_terms(x, y, n, k, m, bi, r, c) == crate::op_mm::mm_terms(
            x.subrange(bi * (n * k), (bi + 1) * (n * k)),
            y.subrange(bi * (k * m), (bi + 1) * (k * m)),
            k,
            m,
            r,
            c,
        ),
{
    let xb = x.subrange(bi * (n * k), (bi + 1) * (n * k));
    let yb = y.subrange(bi * (k * m), (bi + 1) * (k * m));
    let lhs = bmm_terms(x, y, n, k, m, bi, r, c);
    let rhs = crate::op_mm::mm_terms(xb, yb, k, m, r, c);
    assert forall|l: int| 0 <= l < k implies #[trigger] lhs[l] == rhs[l] by {
        lemma_flat3_split(bi, r, l, n, k);
        lemma_flat3_split(bi, l, c, k, m);
        lemma_batch_bounds(bi, bi + 1, r, l, n, k);
        lemma_batch_bounds(bi, bi + 1, l, c, k, m);
        assert(cm(l, r, k) == crate::binary_ops::flat2(r, l, k));
        assert(cm(c, l, m) == crate::binary_ops::flat2(l, c, m));
    }
    assert(lhs =~= rhs);
}

/// A batched matrix product accepts every batch count of at least zero,
/// an empty batch among them: rank-3 operands `(B, n, k)` and `(B, _, m)`
/// with an output `(B, n, m)`, all of one element type, are accepted for
/// every `B >= 0`.
pub proof fn lemma_bmm_args_accept_any_batch(x: Seq<i32>, y: Seq<i32>, o: Seq<i32>, t: ScalarType)
    requires
        x.len() == 3,
        y.len() == 3,
        o.len() == 3,
        x[0] >= 0,
        y[0] == x[0],
        o[0] == x[0],
        o[1] == x[1],
        o[2] == y[2],
    ensures
        bmm_args_ok(x, y, o, t, t, t),
{
}

/// A batched matrix product is accepted only for rank-3 operands and output
/// of one element type with one batch count of at least zero, the output
/// having the rows of `self` and the columns of `mat2`.
pub proof fn lemma_bmm_args_needs(
    x: Seq<i32>,
    y: Seq<i32>,
    o: Seq<i32>,
    xt: ScalarType,
    yt: ScalarType,
    ot: ScalarType,
)
    requires
        bmm_args_ok(x, y, o, xt, yt, ot),
    ensures
        x.len() == 3 && y.len() == 3 && o.len() == 3,
        x[0] >= 0 && y[0] == x[0] && o[0] == x[0],
        o[1] == x[1] && o[2] == y[2],
        xt == yt && yt == ot,
{
}

/// For rank-3 operands `(B, n, k)` and `(B, k, m)` the product has shape
/// `(B, n, m)`.
pub proof fn lemma_bmm_out_sizes_rank3(x: Seq<i32>, y: Seq<i32>)
    requires
        x.len() == 3,
        y.len() == 3,
    ensures
        bmm_out_sizes(x, y, 3) == seq![x[0], x[1], y[2]],
{
    assert(bmm_out_sizes(x, y, 3) =~= seq![x[0], x[1], y[2]]);
}

} // verus!
