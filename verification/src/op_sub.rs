//! Elementwise subtraction `out = a - alpha * b` with broadcasting.

use vstd::prelude::*;

use crate::elementwise::{
    broadcast_shape, broadcastable, lemma_broadcast_shape_facts, lemma_broadcast_with_single,
    map_scalar_out, map_with_scalar, op_fits, resize_to_broadcast_target_size, BinaryKind, ElementwiseOp,
};
use crate::op_add_sub_impl::{add_sub_impl_fits, add_sub_impl_result, opt_add_sub_out_impl};
use crate::tensor::{resize_allowed, shape_numel, Error, KernelRuntimeContext, ScalarType, Tensor};

verus! {

/// The values `opt_sub_out` forms fit in `T`: with a one-element `a`,
/// `a[0] - alpha * b[i]`; with a one-element `b`, `a[i] - alpha * b[0]`;
/// otherwise as `add_sub_impl_fits` says.
pub open spec fn sub_fits<T: ElementwiseOp>(a: Tensor<T>, b: Tensor<T>, alpha: int) -> bool {
    let n = shape_numel(broadcast_shape(a.shape(), b.shape()));
    if shape_numel(a.shape()) == 1 {
        forall|i: int|
            0 <= i < n ==> op_fits::<T>(
                BinaryKind::Sub,
                alpha,
                a.elems()[0].elem_val(),
                (#[trigger] b.elems()[i]).elem_val(),
            )
    } else if shape_numel(b.shape()) == 1 {
        forall|i: int|
            0 <= i < n ==> op_fits::<T>(
                BinaryKind::Sub,
                alpha,
                (#[trigger] a.elems()[i]).elem_val(),
                b.elems()[0].elem_val(),
            )
    } else {
        add_sub_impl_fits::<T>(a, b, alpha, true)
    }
}

/// The differences `opt_sub_out` writes, following the cases of
/// `sub_fits`.
pub open spec fn sub_result<T: ElementwiseOp>(a: Tensor<T>, b: Tensor<T>, alpha: int, out: Seq<T>) -> bool {
    let n = shape_numel(broadcast_shape(a.shape(), b.shape()));
    if shape_numel(a.shape()) == 1 {
        forall|i: int|
            0 <= i < n ==> (#[trigger] out[i]).elem_val() == a.elems()[0].elem_val() - alpha
                * b.elems()[i].elem_val()
    } else if shape_numel(b.shape()) == 1 {
        forall|i: int|
            0 <= i < n ==> (#[trigger] out[i]).elem_val() == a.elems()[i].elem_val() - alpha
                * b.elems()[0].elem_val()
    } else {
        add_sub_impl_result::<T>(a, b, alpha, true, out)
    }
}

/// `out := a - alpha * b`, broadcasting `a` and `b` against each other.
/// Fails with `InvalidArgument`, leaving `out` alone, when the elements (and
/// so `alpha`) are booleans, when the shapes do not broadcast together, or
/// when `out` cannot take the broadcast shape; otherwise
/// `out` takes that shape and holds the differences (see `sub_result`).
pub fn opt_sub_out<T: ElementwiseOp>(
    ctx: &mut KernelRuntimeContext,
    a: &Tensor<T>,
    b: &Tensor<T>,
    alpha: T,
    out: &mut Tensor<T>,
)
    requires
        a.wf(),
        b.wf(),
        old(out).wf(),
        a.dtype() == T::dtype_spec(),
        b.dtype() == T::dtype_spec(),
        old(out).dtype() == T::dtype_spec(),
        T::dtype_spec() != ScalarType::Bool ==> sub_fits::<T>(*a, *b, alpha.elem_val()),
    ensures
        final(out).wf(),
        final(out).dtype() == old(out).dtype(),
        final(out).dynamism_spec() == old(out).dynamism_spec(),
        final(out).capacity() == old(out).capacity(),
        ({
            let o = broadcast_shape(a.shape(), b.shape());
            let ok = broadcastable(a.shape(), b.shape()) && resize_allowed(
                old(out).shape(),
                old(out).dynamism_spec(),
                old(out).capacity(),
                o,
            );
            let ok = ok && T::dtype_spec() != ScalarType::Bool;
            &&& final(ctx).failure_spec() == if ok {
                old(ctx).failure_spec()
            } else {
                Error::InvalidArgument
            }
            &&& !ok ==> final(out).shape() == old(out).shape() && final(out).elems()
                == old(out).elems()
            &&& ok ==> final(out).shape() == o && sub_result::<T>(
                *a,
                *b,
                alpha.elem_val(),
                final(out).elems(),
            )
        }),
{
    proof {
        a.lemma_wf();
        b.lemma_wf();
    }
    let ghost o = broadcast_shape(a.shape(), b.shape());
    // A boolean `alpha` is refused.
    if a.scalar_type() == ScalarType::Bool {
        ctx.fail(Error::InvalidArgument);
        return;
    }
    if resize_to_broadcast_target_size(a, b, out) != Error::Success {
        ctx.fail(Error::InvalidArgument);
        return;
    }
    proof {
        out.lemma_wf();
        lemma_broadcast_shape_facts(a.shape(), b.shape());
        if old(out).shape().len() == 0 {
            assert(o =~= old(out).shape());
        }
        assert(out.shape() == o);
    }
    if a.numel() == 1 || b.numel() == 1 {
        if a.numel() == 1 {
            proof {
                lemma_broadcast_with_single(b.shape(), a.shape());
            }
            let av = a.at(0);
            map_with_scalar(BinaryKind::Sub, alpha, b, av, true, out);
        } else {
            proof {
                lemma_broadcast_with_single(a.shape(), b.shape());
            }
            let bv = b.at(0);
            map_with_scalar(BinaryKind::Sub, alpha, a, bv, false, out);
        }
        return;
    }
    opt_add_sub_out_impl(ctx, a, b, alpha, out, true);
}

/// `out := a - alpha * b` for a scalar `b`.  Fails with `InvalidArgument`,
/// leaving `out` alone, when the elements (and so `alpha`) are booleans or
/// `out` cannot take the shape of `a`; otherwise
/// `out` takes it and each element is that of `a` minus `alpha * b`.
pub fn opt_sub_scalar_out<T: ElementwiseOp>(
    ctx: &mut KernelRuntimeContext,
    a: &Tensor<T>,
    b: T,
    alpha: T,
    out: &mut Tensor<T>,
)
    requires
        a.wf(),
        old(out).wf(),
        a.dtype() == T::dtype_spec(),
        old(out).dtype() == T::dtype_spec(),
        T::dtype_spec() != ScalarType::Bool ==> T::fits(alpha.elem_val() * b.elem_val()),
        T::dtype_spec() != ScalarType::Bool ==> forall|i: int|
            0 <= i < shape_numel(a.shape()) ==> T::fits(
                (#[trigger] a.elems()[i]).elem_val() - alpha.elem_val() * b.elem_val(),
            ),
    ensures
        final(out).wf(),
        final(out).dtype() == old(out).dtype(),
        final(out).dynamism_spec() == old(out).dynamism_spec(),
        final(out).capacity() == old(out).capacity(),
        ({
            let ok = T::dtype_spec() != ScalarType::Bool && resize_allowed(
                old(out).shape(),
                old(out).dynamism_spec(),
                old(out).capacity(),
                a.shape(),
            );
            &&& final(ctx).failure_spec() == if ok {
                old(ctx).failure_spec()
            } else {
                Error::InvalidArgument
            }
            &&& !ok ==> final(out).shape() == old(out).shape() && final(out).elems()
                == old(out).elems()
            &&& ok ==> final(out).shape() == a.shape() && forall|i: int|
                0 <= i < shape_numel(a.shape()) ==> (#[trigger] final(out).elems()[i]).elem_val()
                    == a.elems()[i].elem_val() - alpha.elem_val() * b.elem_val()
        }),
{
    // A boolean `alpha` is refused.
    if a.scalar_type() == ScalarType::Bool {
        ctx.fail(Error::InvalidArgument);
        return;
    }
    map_scalar_out(ctx, BinaryKind::Sub, alpha, a, b, out);
}

} // verus!
