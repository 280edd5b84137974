//! Shape analysis that picks an optimized traversal for a binary elementwise
//! operation, and the broadcasting traversals themselves.

use vstd::prelude::*;

pub mod internal;

verus! {

use crate::tensor::{
    Tensor,
    ScalarType,
    shape_numel,
    shape_nonneg,
    KernelRuntimeContext,
    Error,
    resize_allowed,
    leading_dims_product,
    lemma_shape_numel_split,
    lemma_shape_numel_nonneg,
    lemma_shape_numel_ones,
};
use internal::{
    plan_broadcast_elementwise,
    plan_applicable,
    planned_extents,
    arguments_reversed,
    is_nd_path,
    nd_broadcast_axis,
    lemma_broadcast_dim_facts,
    lemma_leading_ones_end,
    leading_ones_end,
    leading_ones_end_spec,
    select_broadcast_optimized_path,
    select_broadcast_path_spec,
    both_effectively_scalar,
};

/// The traversal an elementwise binary operation can take.
#[derive(Clone, Copy, Debug, PartialEq, Eq, Structural)]
pub enum ElementwiseOptimizedPath {
    KNone,
    KTreatAs1d,
    KBroadcast2dBy1d,
    KBroadcast2dBy1dReverseArguments,
    KBroadcastNdByNd,
    KBroadcastNdByNdReverseArguments,
    KBroadcastLastDim,
    KBroadcastLastDimReverseArguments,
}

/// The sizes after their leading 1s.
pub open spec fn effective_shape(s: Seq<i32>) -> Seq<i32> {
    s.subrange(leading_ones_end_spec(s) as int, s.len() as int)
}

/// The two size lists agree once their leading 1s are dropped.
pub fn sizes_match_ignoring_leading_1s(a: &Vec<i32>, b: &Vec<i32>) -> (r: bool)
    ensures
        r == (effective_shape(a@) == effective_shape(b@)),
{
    let la = leading_ones_end(a);
    let lb = leading_ones_end(b);
    if a.len() - la != b.len() - lb {
        proof {
            assert(effective_shape(a@).len() != effective_shape(b@).len());
        }
        return false;
    }
    let mut i: usize = 0;
    while i < a.len() - la
        invariant
            la == leading_ones_end_spec(a@),
            lb == leading_ones_end_spec(b@),
            la <= a.len(),
            lb <= b.len(),
            a.len() - la == b.len() - lb,
            i <= a.len() - la,
            forall|j: int| 0 <= j < i ==> effective_shape(a@)[j] == effective_shape(b@)[j],
        decreases a.len() - la - i,
    {
        proof {
            assert(effective_shape(a@)[i as int] == a@[la + i]);
            assert(effective_shape(b@)[i as int] == b@[lb + i]);
        }
        if a[la + i] != b[lb + i] {
            return false;
        }
        i = i + 1;
    }
    proof {
        assert(effective_shape(a@) =~= effective_shape(b@));
    }
    true
}

/// The path `select_optimized_path` picks.
pub open spec fn select_optimized_path_spec(
    a_type: ScalarType,
    b_type: ScalarType,
    out_type: ScalarType,
    a: Seq<i32>,
    b: Seq<i32>,
    out: Seq<i32>,
) -> ElementwiseOptimizedPath {
    if a_type != b_type || a_type != out_type || a_type == ScalarType::Half || a_type
        == ScalarType::BFloat16 {
        ElementwiseOptimizedPath::KNone
    } else if a == b || (shape_numel(a) == shape_numel(b) && (shape_numel(a) == shape_numel(out)
        || effective_shape(a) == effective_shape(b))) {
        ElementwiseOptimizedPath::KTreatAs1d
    } else {
        select_broadcast_path_spec(a, b)
    }
}

/// Mixed element types, or 16-bit floats, get no optimized traversal;
/// operands of one other element type and one shape are traversed flat; and
/// so are operands whose shapes differ only by leading 1s.
pub proof fn lemma_select_path_basics(
    t: ScalarType,
    u: ScalarType,
    v: ScalarType,
    a: Seq<i32>,
    b: Seq<i32>,
    o: Seq<i32>,
)
    ensures
        t != u || t != v ==> select_optimized_path_spec(t, u, v, a, b, o)
            == ElementwiseOptimizedPath::KNone,
        t == u && t == v && t != ScalarType::Half && t != ScalarType::BFloat16 && a == b
            ==> select_optimized_path_spec(t, u, v, a, b, o) == ElementwiseOptimizedPath::KTreatAs1d,
        t == u && t == v && t != ScalarType::Half && t != ScalarType::BFloat16 && shape_numel(a)
            == shape_numel(b) && effective_shape(a) == effective_shape(b)
            ==> select_optimized_path_spec(t, u, v, a, b, o) == ElementwiseOptimizedPath::KTreatAs1d,
{
}

/// Chooses how an elementwise operation on `a` and `b` into `out` is
/// traversed: not at all for mixed or 16-bit float types, as flat arrays
/// when the shapes agree (or agree up to leading 1s with equal element
/// counts), and otherwise by the broadcast pattern of the two shapes.
pub fn select_optimized_path<A: Copy, B: Copy, C: Copy>(a: &Tensor<A>, b: &Tensor<B>, out: &Tensor<C>) -> (r:
    ElementwiseOptimizedPath)
    requires
        a.wf(),
        b.wf(),
        out.wf(),
    ensures
        r == select_optimized_path_spec(
            a.dtype(),
            b.dtype(),
            out.dtype(),
            a.shape(),
            b.shape(),
            out.shape(),
        ),
{
    let a_type = a.scalar_type();
    let b_type = b.scalar_type();
    let out_type = out.scalar_type();
    if a_type != b_type || a_type != out_type || a_type == ScalarType::Half || a_type
        == ScalarType::BFloat16 {
        return ElementwiseOptimizedPath::KNone;
    }
    if crate::tensor::sizes_equal(a.sizes(), b.sizes()) || (a.numel() == b.numel() && (a.numel()
        == out.numel() || sizes_match_ignoring_leading_1s(a.sizes(), b.sizes()))) {
        return ElementwiseOptimizedPath::KTreatAs1d;
    }
    proof {
        if both_effectively_scalar(a.shape(), b.shape()) {
            internal::lemma_effectively_scalar_numel(a.shape());
            internal::lemma_effectively_scalar_numel(b.shape());
            assert(effective_shape(a.shape()) =~= effective_shape(b.shape()));
        }
    }
    select_broadcast_optimized_path(a, b)
}

/// Every partial product of `s[lo..hi]`, accumulated from `lo` up, fits in
/// an `i32`.
pub open spec fn range_products_fit_i32(s: Seq<i32>, lo: int, hi: int) -> bool {
    forall|k: int| lo <= k <= hi ==> #[trigger] shape_numel(s.subrange(lo, k)) <= i32::MAX
}

/// Product of `s[lo..hi]`, accumulated as `i32` from `lo` up.
fn range_product_i32(s: &Vec<i32>, lo: usize, hi: usize) -> (r: i32)
    requires
        lo <= hi <= s.len(),
        shape_nonneg(s@),
        range_products_fit_i32(s@, lo as int, hi as int),
    ensures
        r == shape_numel(s@.subrange(lo as int, hi as int)),
{
    let mut acc: i32 = 1;
    let mut i: usize = lo;
    proof {
        assert(s@.subrange(lo as int, lo as int) =~= Seq::<i32>::empty());
    }
    while i < hi
        invariant
            lo <= i <= hi <= s.len(),
            shape_nonneg(s@),
            range_products_fit_i32(s@, lo as int, hi as int),
            acc == shape_numel(s@.subrange(lo as int, i as int)),
        decreases hi - i,
    {
        proof {
            assert(s@.subrange(lo as int, i + 1).drop_last() =~= s@.subrange(lo as int, i as int));
            assert(s@.subrange(lo as int, i + 1).last() == s@[i as int]);
            assert(shape_numel(s@.subrange(lo as int, i + 1)) <= i32::MAX);
            crate::tensor::lemma_shape_numel_nonneg(s@.subrange(lo as int, i as int));
            assert(s@.subrange(lo as int, i as int).len() == i - lo);
        }
        acc = acc * s[i];
        i = i + 1;
    }
    acc
}

/// Collapses the sizes of `a` around `broadcast_dim` into `[outer, mid,
/// inner]`: the product of the sizes before it, its own size, and the
/// product of the sizes after it.
pub fn get_normalized_tensor_size<T: Copy>(a: &Tensor<T>, broadcast_dim: i32) -> (r: [i32; 3])
    requires
        a.wf(),
        0 <= broadcast_dim < a.shape().len(),
        range_products_fit_i32(a.shape(), 0, broadcast_dim as int),
        range_products_fit_i32(a.shape(), broadcast_dim + 1, a.shape().len() as int),
    ensures
        r[0] == shape_numel(a.shape().subrange(0, broadcast_dim as int)),
        r[1] == a.shape()[broadcast_dim as int],
        r[2] == shape_numel(a.shape().subrange(broadcast_dim + 1, a.shape().len() as int)),
{
    proof {
        a.lemma_wf();
    }
    let s = a.sizes();
    let bd = broadcast_dim as usize;
    let outer = range_product_i32(s, 0, bd);
    let mid = a.size(bd);
    let inner = range_product_i32(s, bd + 1, s.len());
    [outer, mid, inner]
}


/// Flat index of row `o`, column `j` of a row-major block with `cols`
/// columns.
pub open spec fn flat2(o: int, j: int, cols: int) -> int {
    o * cols + j
}

/// Flat index of `(o, b, i)` in a row-major `_ x bs x is` block.
pub open spec fn flat3(o: int, b: int, i: int, bs: int, is: int) -> int {
    (o * bs + b) * is + i
}

pub proof fn lemma_flat2_bounds(o: int, j: int, rows: int, cols: int)
    requires
        0 <= o < rows,
        0 <= j < cols,
    ensures
        0 <= flat2(o, j, cols) < rows * cols,
        flat2(o, j, cols) + 1 <= (o + 1) * cols,
        o * cols <= flat2(o, j, cols),
{
    assert(0 <= o * cols + j < rows * cols) by (nonlinear_arith)
        requires
            0 <= o < rows,
            0 <= j < cols,
    ;
    assert((o + 1) * cols == o * cols + cols) by (nonlinear_arith);
}

pub proof fn lemma_flat2_order(o1: int, j1: int, o2: int, j2: int, cols: int)
    requires
        0 <= j1 < cols,
        0 <= j2 < cols,
        o1 < o2 || (o1 == o2 && j1 < j2),
    ensures
        flat2(o1, j1, cols) < flat2(o2, j2, cols),
{
    if o1 < o2 {
        assert(o1 * cols + cols <= o2 * cols) by (nonlinear_arith)
            requires
                o1 < o2,
                cols > 0,
        ;
    }
}

/// The operands of a last-dimension broadcast: `(lhs, rhs)`.
pub open spec fn last_dim_operands<T>(a: Tensor<T>, b: Tensor<T>, path: ElementwiseOptimizedPath) -> (
    Tensor<T>,
    Tensor<T>,
) {
    if path == ElementwiseOptimizedPath::KBroadcastLastDimReverseArguments {
        (b, a)
    } else {
        (a, b)
    }
}

/// A last-dimension broadcast can run on `lhs` and `rhs`: `lhs` has a
/// dimension, the product of its leading sizes fits in a `usize`, and `rhs`
/// holds at least one element per row of `lhs`.
pub open spec fn last_dim_applicable<T: Copy>(lhs: Tensor<T>, rhs: Tensor<T>) -> bool {
    let l = lhs.shape();
    &&& l.len() >= 1
    &&& shape_numel(l.subrange(0, l.len() - 1)) <= usize::MAX
    &&& shape_numel(rhs.shape()) >= shape_numel(l.subrange(0, l.len() - 1))
}

/// Every entry `(o, j)` of the `rows x cols` result is `f` applied to entry
/// `(o, j)` of `lhs` and entry `o` of `rhs`.
pub open spec fn last_dim_result<T, Op: Fn(T, T) -> T>(
    f: Op,
    lhs: Seq<T>,
    rhs: Seq<T>,
    out: Seq<T>,
    rows: int,
    cols: int,
) -> bool {
    forall|o: int, j: int|
        0 <= o < rows && 0 <= j < cols ==> call_ensures(
            f,
            (lhs[#[trigger] flat2(o, j, cols)], rhs[o]),
            out[flat2(o, j, cols)],
        )
}

/// Applies `vec_fun` elementwise when the broadcast operand repeats along
/// the last dimension: `out` takes the sizes of the full operand (lhs), and
/// element `j` of row `o` of `out` is `vec_fun(lhs[o][j], rhs[o])`. When
/// `out` cannot take those sizes, records `InvalidArgument` on `ctx` and
/// leaves `out` as it was.
pub fn handle_last_dim_broadcast_elementwise<T: Copy, Op: Fn(T, T) -> T>(
    ctx: &mut KernelRuntimeContext,
    vec_fun: &Op,
    a: &Tensor<T>,
    b: &Tensor<T>,
    out: &mut Tensor<T>,
    selected_optimized_path: ElementwiseOptimizedPath,
)
    requires
        a.wf(),
        b.wf(),
        old(out).wf(),
        forall|x: T, y: T| vec_fun.requires((x, y)),
        last_dim_applicable(
            last_dim_operands(*a, *b, selected_optimized_path).0,
            last_dim_operands(*a, *b, selected_optimized_path).1,
        ),
    ensures
        ({
            let (lhs, rhs) = last_dim_operands(*a, *b, selected_optimized_path);
            let l = lhs.shape();
            &&& final(out).wf()
            &&& final(out).dtype() == old(out).dtype()
            &&& if resize_allowed(
                old(out).shape(),
                old(out).dynamism_spec(),
                old(out).capacity(),
                l,
            ) {
                &&& *final(ctx) == *old(ctx)
                &&& final(out).shape() == l
                &&& last_dim_result(
                    *vec_fun,
                    lhs.elems(),
                    rhs.elems(),
                    final(out).elems(),
                    shape_numel(l.subrange(0, l.len() - 1)),
                    l[l.len() - 1] as int,
                )
            } else {
                &&& final(ctx).failure_spec() == Error::InvalidArgument
                &&& final(out).shape() == old(out).shape()
                &&& final(out).elems() == old(out).elems()
            }
        }),
{
    let lhs: &Tensor<T>;
    let rhs: &Tensor<T>;
    if selected_optimized_path == ElementwiseOptimizedPath::KBroadcastLastDimReverseArguments {
        lhs = b;
        rhs = a;
    } else {
        lhs = a;
        rhs = b;
    }
    proof {
        lhs.lemma_wf();
        rhs.lemma_wf();
    }
    let error = out.resize(lhs.sizes());
    if error != Error::Success {
        ctx.fail(Error::InvalidArgument);
        return;
    }
    let ghost l = lhs.shape();
    let outer_size = match leading_dims_product(out.sizes(), out.dim() - 1) {
        Some(v) => v,
        None => {
            return;
        },
    };
    let broadcast_size = out.size(out.dim() - 1) as usize;
    proof {
        out.lemma_wf();
        lemma_shape_numel_split(l, l.len() - 1);
        assert(l.subrange(l.len() - 1, l.len() as int).drop_last() =~= Seq::<i32>::empty());
        assert(shape_numel(l) == outer_size * broadcast_size);
        lemma_shape_numel_nonneg(l.subrange(0, l.len() - 1));
    }
    let mut outer: usize = 0;
    while outer < outer_size
        invariant
            lhs.wf(),
            rhs.wf(),
            out.wf(),
            out.shape() == l,
            l == lhs.shape(),
            out.dtype() == old(out).dtype(),
            lhs.elems().len() == outer_size * broadcast_size,
            out.elems().len() == outer_size * broadcast_size,
            rhs.elems().len() >= outer_size,
            outer_size * broadcast_size <= usize::MAX,
            outer <= outer_size,
            forall|x: T, y: T| vec_fun.requires((x, y)),
            last_dim_result(
                *vec_fun,
                lhs.elems(),
                rhs.elems(),
                out.elems(),
                outer as int,
                broadcast_size as int,
            ),
        decreases outer_size - outer,
    {
        proof {
            assert(outer * broadcast_size + broadcast_size <= outer_size * broadcast_size) by (
            nonlinear_arith)
                requires
                    outer < outer_size,
            ;
        }
        let base = outer * broadcast_size;
        let rhs_val = rhs.at(outer);
        let mut j: usize = 0;
        while j < broadcast_size
            invariant
                lhs.wf(),
                rhs.wf(),
                out.wf(),
                out.shape() == l,
                l == lhs.shape(),
                out.dtype() == old(out).dtype(),
                lhs.elems().len() == outer_size * broadcast_size,
                out.elems().len() == outer_size * broadcast_size,
                rhs.elems().len() >= outer_size,
                outer < outer_size,
                outer_size * broadcast_size <= usize::MAX,
                base == outer * broadcast_size,
                base + broadcast_size <= outer_size * broadcast_size,
                rhs_val == rhs.elems()[outer as int],
                j <= broadcast_size,
                forall|x: T, y: T| vec_fun.requires((x, y)),
                last_dim_result(
                    *vec_fun,
                    lhs.elems(),
                    rhs.elems(),
                    out.elems(),
                    outer as int,
                    broadcast_size as int,
                ),
                forall|jj: int|
                    0 <= jj < j ==> call_ensures(
                        *vec_fun,
                        (lhs.elems()[#[trigger] flat2(outer as int, jj, broadcast_size as int)], rhs_val),
                        out.elems()[flat2(outer as int, jj, broadcast_size as int)],
                    ),
            decreases broadcast_size - j,
        {
            let v = vec_fun(lhs.at(base + j), rhs_val);
            let ghost before = out.elems();
            out.set(base + j, v);
            proof {
                let bs = broadcast_size as int;
                let k = flat2(outer as int, j as int, bs);
                assert(k == base + j);
                assert forall|o: int, jj: int| 0 <= o < outer && 0 <= jj < bs implies call_ensures(
                    *vec_fun,
                    (lhs.elems()[#[trigger] flat2(o, jj, bs)], rhs.elems()[o]),
                    out.elems()[flat2(o, jj, bs)],
                ) by {
                    lemma_flat2_order(o, jj, outer as int, j as int, bs);
                    lemma_flat2_bounds(o, jj, outer_size as int, bs);
                    assert(out.elems()[flat2(o, jj, bs)] == before[flat2(o, jj, bs)]);
                }
                assert forall|jj: int| 0 <= jj < j + 1 implies call_ensures(
                    *vec_fun,
                    (lhs.elems()[#[trigger] flat2(outer as int, jj, bs)], rhs_val),
                    out.elems()[flat2(outer as int, jj, bs)],
                ) by {
                    if jj < j {
                        lemma_flat2_order(outer as int, jj, outer as int, j as int, bs);
                        lemma_flat2_bounds(outer as int, jj, outer_size as int, bs);
                        assert(out.elems()[flat2(outer as int, jj, bs)] == before[flat2(
                            outer as int,
                            jj,
                            bs,
                        )]);
                    }
                }
            }
            j = j + 1;
        }
        outer = outer + 1;
    }
}


pub proof fn lemma_flat3_order(
    o1: int,
    b1: int,
    i1: int,
    o2: int,
    b2: int,
    i2: int,
    bs: int,
    is: int,
)
    requires
        0 <= b1 < bs,
        0 <= b2 < bs,
        0 <= i1 < is,
        0 <= i2 < is,
        o1 < o2 || (o1 == o2 && b1 < b2) || (o1 == o2 && b1 == b2 && i1 < i2),
    ensures
        flat3(o1, b1, i1, bs, is) < flat3(o2, b2, i2, bs, is),
{
    if o1 == o2 && b1 == b2 {
    } else {
        lemma_flat2_order(o1, b1, o2, b2, bs);
        lemma_flat2_order(flat2(o1, b1, bs), i1, flat2(o2, b2, bs), i2, is);
    }
}

pub proof fn lemma_flat3_bounds(o: int, b: int, i: int, os: int, bs: int, is: int)
    requires
        0 <= o < os,
        0 <= b < bs,
        0 <= i < is,
    ensures
        0 <= flat3(o, b, i, bs, is) < os * bs * is,
{
    lemma_flat2_bounds(o, b, os, bs);
    lemma_flat2_bounds(flat2(o, b, bs), i, os * bs, is);
}

/// Every entry `(o, b, i)` of the `os x bs x is` result is `f` applied to
/// entry `(o, b, i)` of `lhs` and entry `(o, i)` of the `os x is` `rhs`.
pub open spec fn broadcast3_result<T, Op: Fn(T, T) -> T>(
    f: Op,
    lhs: Seq<T>,
    rhs: Seq<T>,
    out: Seq<T>,
    os: int,
    bs: int,
    is: int,
) -> bool {
    forall|o: int, b: int, i: int|
        0 <= o < os && 0 <= b < bs && 0 <= i < is ==> call_ensures(
            f,
            (lhs[#[trigger] flat3(o, b, i, bs, is)], rhs[flat2(o, i, is)]),
            out[flat3(o, b, i, bs, is)],
        )
}

/// The operands of an n-d or 2-d by 1-d broadcast: `(lhs, rhs)`.
pub open spec fn broadcast_operands<T>(a: Tensor<T>, b: Tensor<T>, path: ElementwiseOptimizedPath) -> (
    Tensor<T>,
    Tensor<T>,
) {
    if arguments_reversed(path) {
        (b, a)
    } else {
        (a, b)
    }
}

/// The path broadcasts the last dimension.
pub open spec fn is_last_dim_path(path: ElementwiseOptimizedPath) -> bool {
    path == ElementwiseOptimizedPath::KBroadcastLastDim || path
        == ElementwiseOptimizedPath::KBroadcastLastDimReverseArguments
}

/// A broadcast along `path` can run on `a` and `b`: the last-dimension
/// conditions for a last-dimension path; otherwise a plan can be made, the
/// `rhs` holds an `outer x inner` block, and `outer * broadcast` fits in a
/// `usize`.
pub open spec fn broadcast_applicable<T: Copy>(a: Tensor<T>, b: Tensor<T>, path: ElementwiseOptimizedPath) -> bool {
    if is_last_dim_path(path) {
        last_dim_applicable(last_dim_operands(a, b, path).0, last_dim_operands(a, b, path).1)
    } else {
        let (lhs, rhs) = broadcast_operands(a, b, path);
        let (os, bs, is) = planned_extents(lhs.shape(), rhs.shape(), path);
        &&& plan_applicable(a.shape(), b.shape(), path)
        &&& shape_numel(rhs.shape()) >= os * is
        &&& os * bs <= usize::MAX
    }
}

/// The three extents of a broadcast plan multiply to the element count of
/// its full operand.
pub proof fn lemma_planned_extents_numel(l: Seq<i32>, r: Seq<i32>, a: Seq<i32>, b: Seq<i32>, path: ElementwiseOptimizedPath)
    requires
        shape_nonneg(l),
        plan_applicable(a, b, path),
        l == (if arguments_reversed(path) { b } else { a }),
        r == (if arguments_reversed(path) { a } else { b }),
    ensures
        ({
            let (os, bs, is) = planned_extents(l, r, path);
            &&& shape_numel(l) == os * bs * is
            &&& os >= 0 && bs >= 0 && is >= 0
            &&& os <= i32::MAX && bs <= i32::MAX && is <= i32::MAX
        }),
{
    let (os, bs, is) = planned_extents(l, r, path);
    lemma_broadcast_dim_facts(a, b);
    lemma_leading_ones_end(l);
    if is_nd_path(path) {
        let d = nd_broadcast_axis(l, r);
        let tail = l.subrange(d, l.len() as int);
        lemma_shape_numel_split(l, d);
        lemma_shape_numel_split(tail, 1);
        assert(tail.subrange(0, 1).drop_last() =~= Seq::<i32>::empty());
        assert(shape_numel(tail.subrange(0, 1)) == shape_numel(Seq::<i32>::empty()) * tail[0]);
        assert(tail[0] == l[d]);
        assert(tail.subrange(1, tail.len() as int) =~= l.subrange(d + 1, l.len() as int));
        assert(shape_numel(Seq::<i32>::empty()) == 1);
        assert(shape_numel(tail.subrange(0, 1)) == bs);
        assert(shape_numel(tail.subrange(1, tail.len() as int)) == is);
        assert(shape_numel(tail) == shape_numel(tail.subrange(0, 1)) * shape_numel(
            tail.subrange(1, tail.len() as int),
        ));
        assert(shape_numel(tail) == bs * is);
        assert(shape_numel(l) == os * (bs * is));
        assert(os * (bs * is) == os * bs * is) by (nonlinear_arith);
        lemma_shape_numel_nonneg(l.subrange(0, d));
        lemma_shape_numel_nonneg(l.subrange(d + 1, l.len() as int));
        assert(l.subrange(0, d).subrange(0, d) =~= l.subrange(0, d));
        assert(shape_numel(l.subrange(0, d)) <= i32::MAX);
        assert(shape_numel(l.subrange(d + 1, l.len() as int)) <= i32::MAX);
    } else {
        let k = l.len() - 2;
        let tail = l.subrange(k, l.len() as int);
        lemma_shape_numel_split(l, k);
        lemma_shape_numel_ones(l.subrange(0, k));
        assert(tail.drop_last().drop_last() =~= Seq::<i32>::empty());
        assert(shape_numel(tail.drop_last()) == shape_numel(tail.drop_last().drop_last())
            * tail.drop_last().last());
        assert(tail.drop_last().last() == l[k]);
        assert(tail.last() == l[k + 1]);
        assert(shape_numel(tail) == (1 * bs) * is);
    }
}

/// Applies `vec_fun` elementwise across a broadcast: for a last-dimension
/// path as `handle_last_dim_broadcast_elementwise` does; otherwise along
/// the plan of `plan_broadcast_elementwise`, so that entry `(o, b, i)` of
/// `out` is `vec_fun(lhs[o][b][i], rhs[o][i])`. When `out` cannot take the
/// lhs sizes, records `InvalidArgument` on `ctx` and leaves `out` as it was.
pub fn handle_broadcast_elementwise<T: Copy, Op: Fn(T, T) -> T>(
    ctx: &mut KernelRuntimeContext,
    vec_fun: &Op,
    a: &Tensor<T>,
    b: &Tensor<T>,
    out: &mut Tensor<T>,
    selected_optimized_path: ElementwiseOptimizedPath,
)
    requires
        a.wf(),
        b.wf(),
        old(out).wf(),
        forall|x: T, y: T| vec_fun.requires((x, y)),
        broadcast_applicable(*a, *b, selected_optimized_path),
    ensures
        final(out).wf(),
        final(out).dtype() == old(out).dtype(),
        is_last_dim_path(selected_optimized_path) ==> ({
            let (lhs, rhs) = last_dim_operands(*a, *b, selected_optimized_path);
            let l = lhs.shape();
            if resize_allowed(old(out).shape(), old(out).dynamism_spec(), old(out).capacity(), l) {
                &&& *final(ctx) == *old(ctx)
                &&& final(out).shape() == l
                &&& last_dim_result(
                    *vec_fun,
                    lhs.elems(),
                    rhs.elems(),
                    final(out).elems(),
                    shape_numel(l.subrange(0, l.len() - 1)),
                    l[l.len() - 1] as int,
                )
            } else {
                &&& final(ctx).failure_spec() == Error::InvalidArgument
                &&& final(out).shape() == old(out).shape()
                &&& final(out).elems() == old(out).elems()
            }
        }),
        !is_last_dim_path(selected_optimized_path) ==> ({
            let (lhs, rhs) = broadcast_operands(*a, *b, selected_optimized_path);
            let (os, bs, is) = planned_extents(lhs.shape(), rhs.shape(), selected_optimized_path);
            if resize_allowed(
                old(out).shape(),
                old(out).dynamism_spec(),
                old(out).capacity(),
                lhs.shape(),
            ) {
                &&& *final(ctx) == *old(ctx)
                &&& final(out).shape() == lhs.shape()
                &&& broadcast3_result(
                    *vec_fun,
                    lhs.elems(),
                    rhs.elems(),
                    final(out).elems(),
                    os,
                    bs,
                    is,
                )
            } else {
                &&& final(ctx).failure_spec() == Error::InvalidArgument
                &&& final(out).shape() == old(out).shape()
                &&& final(out).elems() == old(out).elems()
            }
        }),
{
    if selected_optimized_path == ElementwiseOptimizedPath::KBroadcastLastDim
        || selected_optimized_path == ElementwiseOptimizedPath::KBroadcastLastDimReverseArguments {
        handle_last_dim_broadcast_elementwise(ctx, vec_fun, a, b, out, selected_optimized_path);
        return;
    }
    let opt_plan = plan_broadcast_elementwise(ctx, a, b, out, selected_optimized_path);
    let opt_plan = match opt_plan {
        Some(plan) => plan,
        None => {
            return;
        },
    };
    let lhs = opt_plan.lhs;
    let rhs = opt_plan.rhs;
    let ghost l = lhs.shape();
    proof {
        lhs.lemma_wf();
        rhs.lemma_wf();
        out.lemma_wf();
        lemma_planned_extents_numel(l, rhs.shape(), a.shape(), b.shape(), selected_optimized_path);
    }
    let outer_size = opt_plan.outer_size as usize;
    let broadcast_size = opt_plan.broadcast_size as usize;
    let inner_size = opt_plan.inner_size as usize;
    let ghost os = outer_size as int;
    let ghost bs = broadcast_size as int;
    let ghost is = inner_size as int;
    let mut outer: usize = 0;
    while outer < outer_size
        invariant
            lhs.wf(),
            rhs.wf(),
            out.wf(),
            out.shape() == l,
            l == lhs.shape(),
            out.dtype() == old(out).dtype(),
            lhs.elems().len() == os * bs * is,
            out.elems().len() == os * bs * is,
            rhs.elems().len() >= os * is,
            os * bs * is <= usize::MAX,
            os * is <= usize::MAX,
            os * bs <= usize::MAX,
            os == outer_size,
            bs == broadcast_size,
            is == inner_size,
            outer <= outer_size,
            forall|x: T, y: T| vec_fun.requires((x, y)),
            broadcast3_result(*vec_fun, lhs.elems(), rhs.elems(), out.elems(), outer as int, bs, is),
        decreases outer_size - outer,
    {
        proof {
            assert(outer * bs * is + bs * is <= os * bs * is && outer * bs <= os * bs && outer
                * is + is <= os * is) by (nonlinear_arith)
                requires
                    outer < os,
                    bs >= 0,
                    is >= 0,
            ;
        }
        let lhs_outer = outer * broadcast_size * inner_size;
        let rhs_outer = outer * inner_size;
        let mut bcast: usize = 0;
        while bcast < broadcast_size
            invariant
                lhs.wf(),
                rhs.wf(),
                out.wf(),
                out.shape() == l,
                l == lhs.shape(),
                out.dtype() == old(out).dtype(),
                lhs.elems().len() == os * bs * is,
                out.elems().len() == os * bs * is,
                rhs.elems().len() >= os * is,
                os * bs * is <= usize::MAX,
                os * is <= usize::MAX,
                os == outer_size,
                bs == broadcast_size,
                is == inner_size,
                outer < outer_size,
                lhs_outer == outer * bs * is,
                lhs_outer + bs * is <= os * bs * is,
                rhs_outer == outer * is,
                rhs_outer + is <= os * is,
                bcast <= broadcast_size,
                forall|x: T, y: T| vec_fun.requires((x, y)),
                broadcast3_result(*vec_fun, lhs.elems(), rhs.elems(), out.elems(), outer as int, bs, is),
                forall|b: int, i: int|
                    0 <= b < bcast && 0 <= i < is ==> call_ensures(
                        *vec_fun,
                        (lhs.elems()[#[trigger] flat3(outer as int, b, i, bs, is)], rhs.elems()[flat2(outer as int, i, is)]),
                        out.elems()[flat3(outer as int, b, i, bs, is)],
                    ),
            decreases broadcast_size - bcast,
        {
            proof {
                assert(bcast * is + is <= bs * is) by (nonlinear_arith)
                    requires
                        bcast < bs,
                        is >= 0,
                ;
                assert(outer * bs * is + bcast * is == (outer * bs + bcast) * is) by (nonlinear_arith);
            }
            let lhs_row = lhs_outer + bcast * inner_size;
            let mut inner: usize = 0;
            while inner < inner_size
                invariant
                    lhs.wf(),
                    rhs.wf(),
                    out.wf(),
                    out.shape() == l,
                    l == lhs.shape(),
                    out.dtype() == old(out).dtype(),
                    lhs.elems().len() == os * bs * is,
                    out.elems().len() == os * bs * is,
                    rhs.elems().len() >= os * is,
                    os * bs * is <= usize::MAX,
                    os * is <= usize::MAX,
                    os == outer_size,
                    bs == broadcast_size,
                    is == inner_size,
                    outer < outer_size,
                    bcast < broadcast_size,
                    lhs_row == (outer * bs + bcast) * is,
                    lhs_row + is <= os * bs * is,
                    rhs_outer == outer * is,
                    rhs_outer + is <= os * is,
                    inner <= inner_size,
                    forall|x: T, y: T| vec_fun.requires((x, y)),
                    broadcast3_result(*vec_fun, lhs.elems(), rhs.elems(), out.elems(), outer as int, bs, is),
                    forall|b: int, i: int|
                        0 <= b < bcast && 0 <= i < is ==> call_ensures(
                            *vec_fun,
                            (lhs.elems()[#[trigger] flat3(outer as int, b, i, bs, is)], rhs.elems()[flat2(outer as int, i, is)]),
                            out.elems()[flat3(outer as int, b, i, bs, is)],
                        ),
                    forall|i: int|
                        0 <= i < inner ==> call_ensures(
                            *vec_fun,
                            (lhs.elems()[#[trigger] flat3(outer as int, bcast as int, i, bs, is)], rhs.elems()[flat2(outer as int, i, is)]),
                            out.elems()[flat3(outer as int, bcast as int, i, bs, is)],
                        ),
                decreases inner_size - inner,
            {
                let v = vec_fun(lhs.at(lhs_row + inner), rhs.at(rhs_outer + inner));
                let ghost before = out.elems();
                out.set(lhs_row + inner, v);
                proof {
                    let k = flat3(outer as int, bcast as int, inner as int, bs, is);
                    assert(k == lhs_row + inner);
                    assert(flat2(outer as int, inner as int, is) == rhs_outer + inner);
                    assert forall|o: int, b: int, i: int|
                        0 <= o < outer && 0 <= b < bs && 0 <= i < is implies call_ensures(
                        *vec_fun,
                        (lhs.elems()[#[trigger] flat3(o, b, i, bs, is)], rhs.elems()[flat2(o, i, is)]),
                        out.elems()[flat3(o, b, i, bs, is)],
                    ) by {
                        lemma_flat3_order(o, b, i, outer as int, bcast as int, inner as int, bs, is);
                        lemma_flat3_bounds(o, b, i, os, bs, is);
                        assert(out.elems()[flat3(o, b, i, bs, is)] == before[flat3(o, b, i, bs, is)]);
                    }
                    assert forall|b: int, i: int|
                        0 <= b < bcast && 0 <= i < is implies call_ensures(
                        *vec_fun,
                        (lhs.elems()[#[trigger] flat3(outer as int, b, i, bs, is)], rhs.elems()[flat2(outer as int, i, is)]),
                        out.elems()[flat3(outer as int, b, i, bs, is)],
                    ) by {
                        lemma_flat3_order(outer as int, b, i, outer as int, bcast as int, inner as int, bs, is);
                        lemma_flat3_bounds(outer as int, b, i, os, bs, is);
                        assert(out.elems()[flat3(outer as int, b, i, bs, is)] == before[flat3(outer as int, b, i, bs, is)]);
                    }
                    assert forall|i: int|
                        0 <= i < inner + 1 implies call_ensures(
                        *vec_fun,
                        (lhs.elems()[#[trigger] flat3(outer as int, bcast as int, i, bs, is)], rhs.elems()[flat2(outer as int, i, is)]),
                        out.elems()[flat3(outer as int, bcast as int, i, bs, is)],
                    ) by {
                        if i < inner {
                            lemma_flat3_order(outer as int, bcast as int, i, outer as int, bcast as int, inner as int, bs, is);
                            lemma_flat3_bounds(outer as int, bcast as int, i, os, bs, is);
                            assert(out.elems()[flat3(outer as int, bcast as int, i, bs, is)] == before[flat3(outer as int, bcast as int, i, bs, is)]);
                        }
                    }
                }
                inner = inner + 1;
            }
            bcast = bcast + 1;
        }
        outer = outer + 1;
    }
}


} // verus!
