//! Elementwise division `out = a / b` with broadcasting, for integer
//! element types (quotients rounded toward zero).

use vstd::prelude::*;

use crate::binary_ops::{
    select_optimized_path, select_optimized_path_spec, ElementwiseOptimizedPath,
};
use crate::elementwise::{
    broadcast_fits, broadcast_result, broadcast_shape, broadcastable, lemma_broadcast_shape_facts,
    lemma_broadcast_with_single, map_1d, map_broadcast, map_with_scalar,
    resize_to_broadcast_target_size, trunc_div, BinaryKind, ElementwiseOp,
};
use crate::op_mul::treated_as_1d;
use crate::tensor::{resize_allowed, shape_numel, Error, KernelRuntimeContext, Tensor};

verus! {

/// Neither operand has one element and the path selector finds no
/// traversal for their shapes: `opt_div_out` then takes the general path,
/// which computes in floating point into a floating-point output.
pub open spec fn div_general_path<T: ElementwiseOp>(a: Seq<i32>, b: Seq<i32>) -> bool {
    &&& shape_numel(a) != 1
    &&& shape_numel(b) != 1
    &&& select_optimized_path_spec(
        T::dtype_spec(),
        T::dtype_spec(),
        T::dtype_spec(),
        a,
        b,
        broadcast_shape(a, b),
    ) == ElementwiseOptimizedPath::KNone
}

/// The divisions `opt_div_out` performs have non-zero divisors and
/// quotients in `T`: with a one-element `a`, `a[0] / b[i]`; with a
/// one-element `b`, the reciprocal `1 / b[0]` and each `a[i]` times it; on
/// the flat traversal `a[i] / b[i]`; on a broadcast traversal the broadcast
/// pairs.
pub open spec fn div_fits<T: ElementwiseOp>(a: Tensor<T>, b: Tensor<T>) -> bool {
    let o = broadcast_shape(a.shape(), b.shape());
    let n = shape_numel(o);
    if shape_numel(a.shape()) == 1 {
        forall|i: int|
            0 <= i < n ==> (#[trigger] b.elems()[i]).elem_val() != 0 && T::fits(
                trunc_div(a.elems()[0].elem_val(), b.elems()[i].elem_val()),
            )
    } else if shape_numel(b.shape()) == 1 {
        &&& b.elems()[0].elem_val() != 0
        &&& forall|i: int|
            0 <= i < n ==> T::fits(
                (#[trigger] a.elems()[i]).elem_val() * trunc_div(1, b.elems()[0].elem_val()),
            )
    } else if treated_as_1d::<T>(a.shape(), b.shape(), o) {
        forall|i: int|
            0 <= i < n ==> (#[trigger] b.elems()[i]).elem_val() != 0 && T::fits(
                trunc_div(a.elems()[i].elem_val(), b.elems()[i].elem_val()),
            )
    } else if div_general_path::<T>(a.shape(), b.shape()) {
        true
    } else {
        broadcast_fits::<T>(BinaryKind::Div, 0, a, b, o)
    }
}

/// The elements of the quotient `out` (of shape `o`, the broadcast shape),
/// following the same cases as `div_fits`.
pub open spec fn div_result<T: ElementwiseOp>(a: Tensor<T>, b: Tensor<T>, out: Seq<T>) -> bool {
    let o = broadcast_shape(a.shape(), b.shape());
    let n = shape_numel(o);
    if shape_numel(a.shape()) == 1 {
        forall|i: int|
            0 <= i < n ==> (#[trigger] out[i]).elem_val() == trunc_div(
                a.elems()[0].elem_val(),
                b.elems()[i].elem_val(),
            )
    } else if shape_numel(b.shape()) == 1 {
        forall|i: int|
            0 <= i < n ==> (#[trigger] out[i]).elem_val() == a.elems()[i].elem_val() * trunc_div(
                1,
                b.elems()[0].elem_val(),
            )
    } else if treated_as_1d::<T>(a.shape(), b.shape(), o) {
        forall|i: int|
            0 <= i < n ==> (#[trigger] out[i]).elem_val() == trunc_div(
                a.elems()[i].elem_val(),
                b.elems()[i].elem_val(),
            )
    } else {
        broadcast_result::<T>(BinaryKind::Div, 0, a, b, o, out)
    }
}

/// `out := a / b`, broadcasting `a` and `b` against each other, quotients
/// rounded toward zero.  Fails with `InvalidArgument`, leaving `out` alone,
/// when the shapes do not broadcast together or `out` cannot take the
/// broadcast shape; otherwise `out` takes that shape.  Then, with a
/// one-element `a`, each element is `a[0]` divided by that of `b`; with a
/// one-element `b`, each element of `a` times the reciprocal of `b[0]`
/// (itself rounded toward zero); on the flat or a broadcast traversal the
/// quotients of the pairs (see `div_result`).  On the general path (see
/// `div_general_path`) the floating-point output that the computation
/// needs cannot be an integer tensor: `InvalidArgument`, with the elements
/// in the allocation of `out` untouched.
pub fn opt_div_out<T: ElementwiseOp>(
    ctx: &mut KernelRuntimeContext,
    a: &Tensor<T>,
    b: &Tensor<T>,
    out: &mut Tensor<T>,
)
    requires
        a.wf(),
        b.wf(),
        old(out).wf(),
        a.dtype() == T::dtype_spec(),
        b.dtype() == T::dtype_spec(),
        old(out).dtype() == T::dtype_spec(),
        div_fits::<T>(*a, *b),
    ensures
        final(out).wf(),
        final(out).dtype() == old(out).dtype(),
        final(out).dynamism_spec() == old(out).dynamism_spec(),
        final(out).capacity() == old(out).capacity(),
        ({
            let o = broadcast_shape(a.shape(), b.shape());
            let ok = broadcastable(a.shape(), b.shape()) && resize_allowed(
                old(out).shape(),
                old(out).dynamism_spec(),
                old(out).capacity(),
                o,
            );
            let general = div_general_path::<T>(a.shape(), b.shape());
            &&& final(ctx).failure_spec() == if ok && !general {
                old(ctx).failure_spec()
            } else {
                Error::InvalidArgument
            }
            &&& !ok ==> final(out).shape() == old(out).shape() && final(out).elems()
                == old(out).elems()
            &&& ok ==> final(out).shape() == o
            &&& ok && general ==> final(out).allocation() == old(out).allocation()
            &&& ok && !general ==> div_result::<T>(*a, *b, final(out).elems())
        }),
{
    proof {
        a.lemma_wf();
        b.lemma_wf();
    }
    let ghost o = broadcast_shape(a.shape(), b.shape());
    if resize_to_broadcast_target_size(a, b, out) != Error::Success {
        ctx.fail(Error::InvalidArgument);
        return;
    }
    proof {
        out.lemma_wf();
        lemma_broadcast_shape_facts(a.shape(), b.shape());
        if old(out).shape().len() == 0 {
            assert(o.len() == 0);
            assert(o =~= old(out).shape());
        }
        assert(out.shape() == o);
    }
    if a.numel() == 1 {
        // Each element of `b` divides the one of `a`.
        proof {
            lemma_broadcast_with_single(b.shape(), a.shape());
        }
        let av = a.at(0);
        map_with_scalar(BinaryKind::Div, T::zero(), b, av, true, out);
        return;
    } else if b.numel() == 1 {
        // Each element of `a` times the reciprocal of the one of `b`.
        proof {
            lemma_broadcast_with_single(a.shape(), b.shape());
        }
        let bv = b.at(0);
        proof {
            T::lemma_unit_quotient(bv);
        }
        let inv = T::one().div(bv);
        map_with_scalar(BinaryKind::Mul, T::zero(), a, inv, false, out);
        return;
    }
    let path = select_optimized_path(a, b, out);
    if path == ElementwiseOptimizedPath::KTreatAs1d {
        proof {
            crate::elementwise::lemma_flat_path_numel(a.shape(), b.shape());
        }
        map_1d(BinaryKind::Div, T::zero(), a, b, out);
    } else if path != ElementwiseOptimizedPath::KNone {
        map_broadcast(BinaryKind::Div, T::zero(), a, b, out);
    } else {
        ctx.fail(Error::InvalidArgument);
    }
}

/// Dividing by an operand that differs from the dividend only in a last
/// dimension of 1 (or dividing an operand with such a last dimension),
/// whatever the rank, never takes the general path: the path selector
/// finds a traversal, so `opt_div_out` divides (see `div_result`) instead of
/// refusing the output.
pub proof fn lemma_div_last_dim_broadcast<T: ElementwiseOp>(a: Seq<i32>, b: Seq<i32>)
    requires
        T::dtype_spec() != crate::tensor::ScalarType::Half,
        T::dtype_spec() != crate::tensor::ScalarType::BFloat16,
        a.len() == b.len(),
        a.len() >= 2,
        forall|p: int| 0 <= p < a.len() - 1 ==> a[p] == b[p] && a[p] >= 2,
        (b.last() == 1 && a.last() >= 2) || (a.last() == 1 && b.last() >= 2),
    ensures
        !div_general_path::<T>(a, b),
{
    crate::binary_ops::internal::lemma_last_dim_broadcast_path(a, b);
}

} // verus!
