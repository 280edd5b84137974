//! Elementwise addition `out = a + alpha * b` with broadcasting.

use vstd::prelude::*;

use crate::elementwise::{
    broadcast_shape, broadcastable, lemma_broadcast_shape_facts, lemma_broadcast_with_single,
    map_scalar_out, map_with_scalar, op_fits, resize_to_broadcast_target_size, BinaryKind, ElementwiseOp,
};
use crate::op_add_sub_impl::{add_sub_impl_fits, add_sub_impl_result, opt_add_sub_out_impl};
use crate::tensor::{resize_allowed, shape_numel, Error, KernelRuntimeContext, Tensor};

verus! {

/// The values `opt_add_out` forms fit in `T`: with a one-element `b`,
/// `a[i] + alpha * b[0]`; with a one-element `a` (the operands swapped),
/// `b[i] + alpha * a[0]`; otherwise as `add_sub_impl_fits` says.
pub open spec fn add_fits<T: ElementwiseOp>(a: Tensor<T>, b: Tensor<T>, alpha: int) -> bool {
    let n = shape_numel(broadcast_shape(a.shape(), b.shape()));
    if shape_numel(b.shape()) == 1 {
        forall|i: int|
            0 <= i < n ==> op_fits::<T>(
                BinaryKind::Add,
                alpha,
                (#[trigger] a.elems()[i]).elem_val(),
                b.elems()[0].elem_val(),
            )
    } else if shape_numel(a.shape()) == 1 {
        forall|i: int|
            0 <= i < n ==> op_fits::<T>(
                BinaryKind::Add,
                alpha,
                (#[trigger] b.elems()[i]).elem_val(),
                a.elems()[0].elem_val(),
            )
    } else {
        add_sub_impl_fits::<T>(a, b, alpha, false)
    }
}

/// The sums `opt_add_out` writes, following the cases of `add_fits`.
pub open spec fn add_result<T: ElementwiseOp>(a: Tensor<T>, b: Tensor<T>, alpha: int, out: Seq<T>) -> bool {
    let n = shape_numel(broadcast_shape(a.shape(), b.shape()));
    if shape_numel(b.shape()) == 1 {
        forall|i: int|
            0 <= i < n ==> (#[trigger] out[i]).elem_val() == a.elems()[i].elem_val() + alpha
                * b.elems()[0].elem_val()
    } else if shape_numel(a.shape()) == 1 {
        forall|i: int|
            0 <= i < n ==> (#[trigger] out[i]).elem_val() == b.elems()[i].elem_val() + alpha
                * a.elems()[0].elem_val()
    } else {
        add_sub_impl_result::<T>(a, b, alpha, false, out)
    }
}

/// `out := a + alpha * b`, broadcasting `a` and `b` against each other.
/// Fails with `InvalidArgument`, leaving `out` alone, when the shapes do not
/// broadcast together or `out` cannot take the broadcast shape; otherwise
/// `out` takes that shape and holds the sums (see `add_result`).  With a
/// one-element `a` the operands are swapped, so the scale applies to `a`.
pub fn opt_add_out<T: ElementwiseOp>(
    ctx: &mut KernelRuntimeContext,
    a: &Tensor<T>,
    b: &Tensor<T>,
    alpha: T,
    out: &mut Tensor<T>,
)
    requires
        a.wf(),
        b.wf(),
        old(out).wf(),
        a.dtype() == T::dtype_spec(),
        b.dtype() == T::dtype_spec(),
        old(out).dtype() == T::dtype_spec(),
        add_fits::<T>(*a, *b, alpha.elem_val()),
    ensures
        final(out).wf(),
        final(out).dtype() == old(out).dtype(),
        final(out).dynamism_spec() == old(out).dynamism_spec(),
        final(out).capacity() == old(out).capacity(),
        ({
            let o = broadcast_shape(a.shape(), b.shape());
            let ok = broadcastable(a.shape(), b.shape()) && resize_allowed(
                old(out).shape(),
                old(out).dynamism_spec(),
                old(out).capacity(),
                o,
            );
            &&& final(ctx).failure_spec() == if ok {
                old(ctx).failure_spec()
            } else {
                Error::InvalidArgument
            }
            &&& !ok ==> final(out).shape() == old(out).shape() && final(out).elems()
                == old(out).elems()
            &&& ok ==> final(out).shape() == o && add_result::<T>(
                *a,
                *b,
                alpha.elem_val(),
                final(out).elems(),
            )
        }),
{
    proof {
        a.lemma_wf();
        b.lemma_wf();
    }
    let ghost o = broadcast_shape(a.shape(), b.shape());
    if resize_to_broadcast_target_size(a, b, out) != Error::Success {
        ctx.fail(Error::InvalidArgument);
        return;
    }
    proof {
        out.lemma_wf();
        lemma_broadcast_shape_facts(a.shape(), b.shape());
        if old(out).shape().len() == 0 {
            assert(o =~= old(out).shape());
        }
        assert(out.shape() == o);
    }
    if b.numel() == 1 {
        proof {
            lemma_broadcast_with_single(a.shape(), b.shape());
        }
        let bv = b.at(0);
        map_with_scalar(BinaryKind::Add, alpha, a, bv, false, out);
        return;
    } else if a.numel() == 1 {
        // The operands swapped: each element of `b` plus `alpha` times the
        // one of `a`.
        proof {
            lemma_broadcast_with_single(b.shape(), a.shape());
        }
        let av = a.at(0);
        map_with_scalar(BinaryKind::Add, alpha, b, av, false, out);
        return;
    }
    opt_add_sub_out_impl(ctx, a, b, alpha, out, false);
}

/// `out := a + alpha * b` for a scalar `b`.  Fails with `InvalidArgument`,
/// leaving `out` alone, when `out` cannot take the shape of `a`; otherwise
/// `out` takes it and each element is that of `a` plus `alpha * b`.
pub fn opt_add_scalar_out<T: ElementwiseOp>(
    ctx: &mut KernelRuntimeContext,
    a: &Tensor<T>,
    b: T,
    alpha: T,
    out: &mut Tensor<T>,
)
    requires
        a.wf(),
        old(out).wf(),
        a.dtype() == T::dtype_spec(),
        old(out).dtype() == T::dtype_spec(),
        T::fits(alpha.elem_val() * b.elem_val()),
        forall|i: int|
            0 <= i < shape_numel(a.shape()) ==> T::fits(
                (#[trigger] a.elems()[i]).elem_val() + alpha.elem_val() * b.elem_val(),
            ),
    ensures
        final(out).wf(),
        final(out).dtype() == old(out).dtype(),
        final(out).dynamism_spec() == old(out).dynamism_spec(),
        final(out).capacity() == old(out).capacity(),
        ({
            let ok = resize_allowed(
                old(out).shape(),
                old(out).dynamism_spec(),
                old(out).capacity(),
                a.shape(),
            );
            &&& final(ctx).failure_spec() == if ok {
                old(ctx).failure_spec()
            } else {
                Error::InvalidArgument
            }
            &&& !ok ==> final(out).shape() == old(out).shape() && final(out).elems()
                == old(out).elems()
            &&& ok ==> final(out).shape() == a.shape() && forall|i: int|
                0 <= i < shape_numel(a.shape()) ==> (#[trigger] final(out).elems()[i]).elem_val()
                    == a.elems()[i].elem_val() + alpha.elem_val() * b.elem_val()
        }),
{
    map_scalar_out(ctx, BinaryKind::Add, alpha, a, b, out);
}

} // verus!
