//! Elementwise product `out = a * b` with broadcasting.

use vstd::prelude::*;

use crate::binary_ops::{select_optimized_path, select_optimized_path_spec, ElementwiseOptimizedPath};
use crate::elementwise::{
    broadcast_fits, broadcast_result, broadcast_shape, broadcastable, lemma_broadcast_shape_facts,
    lemma_broadcast_with_single, map_1d, map_broadcast, map_scalar_out, map_with_scalar,
    resize_to_broadcast_target_size, BinaryKind, ElementwiseOp, lemma_broadcast_symmetric,
};
use crate::tensor::{resize_allowed, shape_numel, Error, KernelRuntimeContext, Tensor};

verus! {

/// The traversal an elementwise kernel takes for operands of shapes `a`
/// and `b` broadcast to `o`, all of the element type `T`: flat, when the
/// path selector treats them as one-dimensional; broadcast otherwise.
pub open spec fn treated_as_1d<T: ElementwiseOp>(a: Seq<i32>, b: Seq<i32>, o: Seq<i32>) -> bool {
    select_optimized_path_spec(T::dtype_spec(), T::dtype_spec(), T::dtype_spec(), a, b, o)
        == ElementwiseOptimizedPath::KTreatAs1d
}

/// The products `opt_mul_out` forms fit in `T`: with `b` of one element,
/// `a[i] * b[0]`; with `a` of one element, `b[i] * a[0]`; on the flat
/// traversal `a[i] * b[i]`; otherwise the broadcast pairs.
pub open spec fn mul_fits<T: ElementwiseOp>(a: Tensor<T>, b: Tensor<T>) -> bool {
    let o = broadcast_shape(a.shape(), b.shape());
    let n = shape_numel(o);
    if shape_numel(b.shape()) == 1 {
        forall|i: int| 0 <= i < n ==> T::fits((#[trigger] a.elems()[i]).elem_val() * b.elems()[0].elem_val())
    } else if shape_numel(a.shape()) == 1 {
        forall|i: int| 0 <= i < n ==> T::fits((#[trigger] b.elems()[i]).elem_val() * a.elems()[0].elem_val())
    } else if treated_as_1d::<T>(a.shape(), b.shape(), o) {
        forall|i: int| 0 <= i < n ==> T::fits((#[trigger] a.elems()[i]).elem_val() * b.elems()[i].elem_val())
    } else {
        broadcast_fits::<T>(BinaryKind::Mul, 0, a, b, o)
    }
}

/// The elements of the product `out` (of shape `o`, the broadcast shape),
/// following the same cases as `mul_fits`.
pub open spec fn mul_result<T: ElementwiseOp>(a: Tensor<T>, b: Tensor<T>, out: Seq<T>) -> bool {
    let o = broadcast_shape(a.shape(), b.shape());
    let n = shape_numel(o);
    if shape_numel(b.shape()) == 1 {
        forall|i: int|
            0 <= i < n ==> (#[trigger] out[i]).elem_val() == a.elems()[i].elem_val() * b.elems()[0].elem_val()
    } else if shape_numel(a.shape()) == 1 {
        forall|i: int|
            0 <= i < n ==> (#[trigger] out[i]).elem_val() == b.elems()[i].elem_val() * a.elems()[0].elem_val()
    } else if treated_as_1d::<T>(a.shape(), b.shape(), o) {
        forall|i: int|
            0 <= i < n ==> (#[trigger] out[i]).elem_val() == a.elems()[i].elem_val() * b.elems()[i].elem_val()
    } else {
        broadcast_result::<T>(BinaryKind::Mul, 0, a, b, o, out)
    }
}

/// `out := a * b`, broadcasting `a` and `b` against each other.  Fails
/// with `InvalidArgument`, leaving `out` alone, when the shapes do not
/// broadcast together or `out` cannot take the broadcast shape; otherwise
/// `out` takes that shape and holds the products (see `mul_result`): with a
/// one-element `b` each element of `a` times it, with a one-element `a`
/// (the operands swapped) each element of `b` times it, elementwise on the
/// flat path, and pair by pair of the broadcast operands otherwise.
pub fn opt_mul_out<T: ElementwiseOp>(
    ctx: &mut KernelRuntimeContext,
    a: &Tensor<T>,
    b: &Tensor<T>,
    out: &mut Tensor<T>,
)
    requires
        a.wf(),
        b.wf(),
        old(out).wf(),
        a.dtype() == T::dtype_spec(),
        b.dtype() == T::dtype_spec(),
        old(out).dtype() == T::dtype_spec(),
        mul_fits::<T>(*a, *b),
    ensures
        final(out).wf(),
        final(out).dtype() == old(out).dtype(),
        final(out).dynamism_spec() == old(out).dynamism_spec(),
        final(out).capacity() == old(out).capacity(),
        ({
            let o = broadcast_shape(a.shape(), b.shape());
            let ok = broadcastable(a.shape(), b.shape()) && resize_allowed(
                old(out).shape(),
                old(out).dynamism_spec(),
                old(out).capacity(),
                o,
            );
            &&& final(ctx).failure_spec() == if ok {
                old(ctx).failure_spec()
            } else {
                Error::InvalidArgument
            }
            &&& !ok ==> final(out).shape() == old(out).shape() && final(out).elems()
                == old(out).elems()
            &&& ok ==> final(out).shape() == o && mul_result::<T>(*a, *b, final(out).elems())
        }),
{
    proof {
        a.lemma_wf();
        b.lemma_wf();
    }
    let ghost o = broadcast_shape(a.shape(), b.shape());
    if resize_to_broadcast_target_size(a, b, out) != Error::Success {
        ctx.fail(Error::InvalidArgument);
        return;
    }
    proof {
        out.lemma_wf();
        lemma_broadcast_shape_facts(a.shape(), b.shape());
        if old(out).shape().len() == 0 {
            assert(o.len() == 0);
            assert(o =~= old(out).shape());
        }
        assert(out.shape() == o);
    }
    if b.numel() == 1 {
        proof {
            lemma_broadcast_with_single(a.shape(), b.shape());
        }
        let bv = b.at(0);
        map_with_scalar(BinaryKind::Mul, T::zero(), a, bv, false, out);
        return;
    } else if a.numel() == 1 {
        // The operands swapped: each element of `b` times the one of `a`.
        proof {
            lemma_broadcast_with_single(b.shape(), a.shape());
        }
        let av = a.at(0);
        map_with_scalar(BinaryKind::Mul, T::zero(), b, av, false, out);
        return;
    }
    let path = select_optimized_path(a, b, out);
    if path == ElementwiseOptimizedPath::KTreatAs1d {
        proof {
            crate::elementwise::lemma_flat_path_numel(a.shape(), b.shape());
        }
        map_1d(BinaryKind::Mul, T::zero(), a, b, out);
    } else {
        map_broadcast(BinaryKind::Mul, T::zero(), a, b, out);
    }
}

/// `out := a * b` for a scalar `b`.  Fails with `InvalidArgument`, leaving
/// `out` alone, when `out` cannot take the shape of `a`; otherwise `out`
/// takes it and each element is that of `a` times `b`.
pub fn opt_mul_scalar_out<T: ElementwiseOp>(
    ctx: &mut KernelRuntimeContext,
    a: &Tensor<T>,
    b: T,
    out: &mut Tensor<T>,
)
    requires
        a.wf(),
        old(out).wf(),
        a.dtype() == T::dtype_spec(),
        old(out).dtype() == T::dtype_spec(),
        forall|i: int|
            0 <= i < shape_numel(a.shape()) ==> T::fits(
                (#[trigger] a.elems()[i]).elem_val() * b.elem_val(),
            ),
    ensures
        final(out).wf(),
        final(out).dtype() == old(out).dtype(),
        final(out).dynamism_spec() == old(out).dynamism_spec(),
        final(out).capacity() == old(out).capacity(),
        ({
            let ok = resize_allowed(
                old(out).shape(),
                old(out).dynamism_spec(),
                old(out).capacity(),
                a.shape(),
            );
            &&& final(ctx).failure_spec() == if ok {
                old(ctx).failure_spec()
            } else {
                Error::InvalidArgument
            }
            &&& !ok ==> final(out).shape() == old(out).shape() && final(out).elems()
                == old(out).elems()
            &&& ok ==> final(out).shape() == a.shape() && forall|i: int|
                0 <= i < shape_numel(a.shape()) ==> (#[trigger] final(out).elems()[i]).elem_val()
                    == a.elems()[i].elem_val() * b.elem_val()
        }),
{
    map_scalar_out(ctx, BinaryKind::Mul, T::zero(), a, b, out);
}

/// Multiplication does not depend on the order of its operands: `a` and
/// `b` broadcast together exactly when `b` and `a` do, to the same shape (so
/// `opt_mul_out` on either order, into outputs in the same state, fails or
/// succeeds alike and gives the output the same shape), and the products
/// of the two orders agree element by element.
pub proof fn lemma_mul_operand_order<T: ElementwiseOp>(a: Tensor<T>, b: Tensor<T>, out1: Seq<T>, out2: Seq<T>)
    requires
        a.wf(),
        b.wf(),
        mul_result::<T>(a, b, out1),
        mul_result::<T>(b, a, out2),
    ensures
        broadcastable(a.shape(), b.shape()) == broadcastable(b.shape(), a.shape()),
        broadcastable(a.shape(), b.shape()) ==> broadcast_shape(a.shape(), b.shape())
            == broadcast_shape(b.shape(), a.shape()),
        broadcastable(a.shape(), b.shape()) ==> forall|i: int|
            0 <= i < shape_numel(broadcast_shape(a.shape(), b.shape())) ==> (#[trigger] out1[i]).elem_val()
                == out2[i].elem_val(),
{
    a.lemma_wf();
    b.lemma_wf();
    lemma_broadcast_symmetric(a.shape(), b.shape());
    if broadcastable(a.shape(), b.shape()) {
        let o = broadcast_shape(a.shape(), b.shape());
        let n = shape_numel(o);
        if shape_numel(b.shape()) == 1 && shape_numel(a.shape()) == 1 {
            lemma_broadcast_with_single(a.shape(), b.shape());
            assert forall|i: int| 0 <= i < n implies (#[trigger] out1[i]).elem_val() == out2[i].elem_val() by {
                assert(i == 0);
                vstd::arithmetic::mul::lemma_mul_is_commutative(
                    a.elems()[0].elem_val(),
                    b.elems()[0].elem_val(),
                );
            }
        } else if shape_numel(b.shape()) == 1 || shape_numel(a.shape()) == 1 {
        } else if treated_as_1d::<T>(a.shape(), b.shape(), o) {
            assert forall|i: int| 0 <= i < n implies (#[trigger] out1[i]).elem_val() == out2[i].elem_val() by {
                vstd::arithmetic::mul::lemma_mul_is_commutative(
                    a.elems()[i].elem_val(),
                    b.elems()[i].elem_val(),
                );
            }
        } else {
            assert forall|i: int| 0 <= i < n implies (#[trigger] out1[i]).elem_val() == out2[i].elem_val() by {
                vstd::arithmetic::mul::lemma_mul_is_commutative(
                    a.elems()[crate::elementwise::broadcast_index(o, a.shape(), i)].elem_val(),
                    b.elems()[crate::elementwise::broadcast_index(o, b.shape(), i)].elem_val(),
                );
            }
        }
    }
}

} // verus!
