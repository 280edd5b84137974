//! Elementwise comparison `out = (a <= b)`, as `1` or `0` in the element
//! type, against a tensor (with broadcasting) or against a scalar.

use vstd::prelude::*;

use crate::binary_ops::{select_optimized_path, ElementwiseOptimizedPath};
use crate::elementwise::{
    broadcast_result, broadcast_shape, broadcastable, lemma_broadcast_shape_facts, map_1d,
    map_broadcast, map_scalar_out, resize_to_broadcast_target_size, BinaryKind, ElementwiseOp,
};
use crate::op_mul::treated_as_1d;
use crate::tensor::{resize_allowed, shape_numel, Error, KernelRuntimeContext, Tensor};

verus! {

/// `1` when `x <= y`, else `0`.
pub open spec fn le_value(x: int, y: int) -> int {
    if x <= y {
        1
    } else {
        0
    }
}

/// The elements of `out` (of shape `o`, the broadcast shape) compare `a`
/// with `b`: position by position on the flat traversal, pair by pair of
/// the broadcast operands otherwise.
pub open spec fn le_result<T: ElementwiseOp>(a: Tensor<T>, b: Tensor<T>, out: Seq<T>) -> bool {
    let o = broadcast_shape(a.shape(), b.shape());
    let n = shape_numel(o);
    if treated_as_1d::<T>(a.shape(), b.shape(), o) {
        forall|i: int|
            0 <= i < n ==> (#[trigger] out[i]).elem_val() == le_value(
                a.elems()[i].elem_val(),
                b.elems()[i].elem_val(),
            )
    } else {
        broadcast_result::<T>(BinaryKind::Le, 0, a, b, o, out)
    }
}

/// `out := (a <= b)`, broadcasting `a` and `b` against each other.  Fails
/// with `InvalidArgument`, leaving `out` alone, when the shapes do not
/// broadcast together or `out` cannot take the broadcast shape; otherwise
/// `out` takes that shape and holds `1` where the element of `a` is at most
/// that of `b` and `0` elsewhere (see `le_result`).
pub fn opt_le_tensor_out<T: ElementwiseOp>(
    ctx: &mut KernelRuntimeContext,
    a: &Tensor<T>,
    b: &Tensor<T>,
    out: &mut Tensor<T>,
)
    requires
        a.wf(),
        b.wf(),
        old(out).wf(),
        a.dtype() == T::dtype_spec(),
        b.dtype() == T::dtype_spec(),
        old(out).dtype() == T::dtype_spec(),
    ensures
        final(out).wf(),
        final(out).dtype() == old(out).dtype(),
        final(out).dynamism_spec() == old(out).dynamism_spec(),
        final(out).capacity() == old(out).capacity(),
        ({
            let o = broadcast_shape(a.shape(), b.shape());
            let ok = broadcastable(a.shape(), b.shape()) && resize_allowed(
                old(out).shape(),
                old(out).dynamism_spec(),
                old(out).capacity(),
                o,
            );
            &&& final(ctx).failure_spec() == if ok {
                old(ctx).failure_spec()
            } else {
                Error::InvalidArgument
            }
            &&& !ok ==> final(out).shape() == old(out).shape() && final(out).elems()
                == old(out).elems()
            &&& ok ==> final(out).shape() == o && le_result::<T>(*a, *b, final(out).elems())
        }),
{
    proof {
        a.lemma_wf();
        b.lemma_wf();
    }
    let ghost o = broadcast_shape(a.shape(), b.shape());
    if resize_to_broadcast_target_size(a, b, out) != Error::Success {
        ctx.fail(Error::InvalidArgument);
        return;
    }
    proof {
        out.lemma_wf();
        lemma_broadcast_shape_facts(a.shape(), b.shape());
        if old(out).shape().len() == 0 {
            assert(o.len() == 0);
            assert(o =~= old(out).shape());
        }
        assert(out.shape() == o);
    }
    let path = select_optimized_path(a, b, out);
    if path == ElementwiseOptimizedPath::KTreatAs1d {
        proof {
            crate::elementwise::lemma_flat_path_numel(a.shape(), b.shape());
        }
        map_1d(BinaryKind::Le, T::zero(), a, b, out);
    } else {
        map_broadcast(BinaryKind::Le, T::zero(), a, b, out);
    }
}

/// `out := (a <= b)` for a scalar `b`.  Fails with `InvalidArgument`,
/// leaving `out` alone, when `out` cannot take the shape of `a`; otherwise
/// `out` takes it and holds `1` where the element of `a` is at most `b` and
/// `0` elsewhere.
pub fn opt_le_scalar_out<T: ElementwiseOp>(
    ctx: &mut KernelRuntimeContext,
    a: &Tensor<T>,
    b: T,
    out: &mut Tensor<T>,
)
    requires
        a.wf(),
        old(out).wf(),
        a.dtype() == T::dtype_spec(),
        old(out).dtype() == T::dtype_spec(),
    ensures
        final(out).wf(),
        final(out).dtype() == old(out).dtype(),
        final(out).dynamism_spec() == old(out).dynamism_spec(),
        final(out).capacity() == old(out).capacity(),
        ({
            let ok = resize_allowed(
                old(out).shape(),
                old(out).dynamism_spec(),
                old(out).capacity(),
                a.shape(),
            );
            &&& final(ctx).failure_spec() == if ok {
                old(ctx).failure_spec()
            } else {
                Error::InvalidArgument
            }
            &&& !ok ==> final(out).shape() == old(out).shape() && final(out).elems()
                == old(out).elems()
            &&& ok ==> final(out).shape() == a.shape() && forall|i: int|
                0 <= i < shape_numel(a.shape()) ==> (#[trigger] final(out).elems()[i]).elem_val()
                    == le_value(a.elems()[i].elem_val(), b.elem_val())
        }),
{
    map_scalar_out(ctx, BinaryKind::Le, T::zero(), a, b, out);
}

} // verus!
