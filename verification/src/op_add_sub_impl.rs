//! The shared body of elementwise addition and subtraction,
//! `out = a ± alpha * b`, once `out` has the broadcast shape.

use vstd::prelude::*;

use crate::binary_ops::{select_optimized_path, select_optimized_path_spec, ElementwiseOptimizedPath};
use crate::elementwise::{
    broadcast_fits, broadcast_index, broadcast_result, broadcast_shape, broadcastable,
    broadcasts_to, lemma_broadcast_shape_facts, map_1d, map_broadcast, op_fits, op_value,
    BinaryKind, ElementwiseOp,
};
use crate::tensor::{shape_numel, KernelRuntimeContext, Tensor};

verus! {

/// `Sub` when `is_sub`, `Add` otherwise.
pub open spec fn add_sub_kind(is_sub: bool) -> BinaryKind {
    if is_sub {
        BinaryKind::Sub
    } else {
        BinaryKind::Add
    }
}

/// The scale the flat and general traversals add with: `-alpha` when
/// subtracting, `alpha` otherwise.
pub open spec fn signed_alpha(alpha: int, is_sub: bool) -> int {
    if is_sub {
        -alpha
    } else {
        alpha
    }
}

/// The path the selector picks for `a` and `b` into the shape `o`.
pub open spec fn path_of<T: ElementwiseOp>(a: Seq<i32>, b: Seq<i32>, o: Seq<i32>) -> ElementwiseOptimizedPath {
    select_optimized_path_spec(T::dtype_spec(), T::dtype_spec(), T::dtype_spec(), a, b, o)
}

/// The values `opt_add_sub_out_impl` forms fit in `T`: on the flat path
/// and on the general broadcast (no optimized path) it adds
/// `signed_alpha * b`, which needs `-alpha` when subtracting; on the
/// optimized broadcast paths it adds or subtracts `alpha * b`.
pub open spec fn add_sub_impl_fits<T: ElementwiseOp>(
    a: Tensor<T>,
    b: Tensor<T>,
    alpha: int,
    is_sub: bool,
) -> bool {
    let o = broadcast_shape(a.shape(), b.shape());
    let n = shape_numel(o);
    let path = path_of::<T>(a.shape(), b.shape(), o);
    let nal = signed_alpha(alpha, is_sub);
    if path == ElementwiseOptimizedPath::KTreatAs1d {
        &&& is_sub ==> T::fits(-alpha)
        &&& forall|i: int|
            0 <= i < n ==> op_fits::<T>(
                BinaryKind::Add,
                nal,
                (#[trigger] a.elems()[i]).elem_val(),
                b.elems()[i].elem_val(),
            )
    } else if path != ElementwiseOptimizedPath::KNone {
        broadcast_fits::<T>(add_sub_kind(is_sub), alpha, a, b, o)
    } else {
        &&& is_sub ==> T::fits(-alpha)
        &&& broadcast_fits::<T>(BinaryKind::Add, nal, a, b, o)
    }
}

/// The elements `opt_add_sub_out_impl` writes: `a[i] ± alpha * b[i]` on the
/// flat path, `a^[i] ± alpha * b^[i]` for the broadcast operands otherwise.
pub open spec fn add_sub_impl_result<T: ElementwiseOp>(
    a: Tensor<T>,
    b: Tensor<T>,
    alpha: int,
    is_sub: bool,
    out: Seq<T>,
) -> bool {
    let o = broadcast_shape(a.shape(), b.shape());
    let n = shape_numel(o);
    if path_of::<T>(a.shape(), b.shape(), o) == ElementwiseOptimizedPath::KTreatAs1d {
        forall|i: int|
            0 <= i < n ==> (#[trigger] out[i]).elem_val() == op_value(
                add_sub_kind(is_sub),
                alpha,
                a.elems()[i].elem_val(),
                b.elems()[i].elem_val(),
            )
    } else {
        broadcast_result::<T>(add_sub_kind(is_sub), alpha, a, b, o, out)
    }
}

/// `out := a + alpha * b`, or `a - alpha * b` when `is_sub`, for an `out`
/// already of the broadcast shape: flat on the flat path, pair by pair of
/// the broadcast operands otherwise (see `add_sub_impl_result`).
pub fn opt_add_sub_out_impl<T: ElementwiseOp>(
    ctx: &mut KernelRuntimeContext,
    a: &Tensor<T>,
    b: &Tensor<T>,
    alpha: T,
    out: &mut Tensor<T>,
    is_sub: bool,
)
    requires
        a.wf(),
        b.wf(),
        old(out).wf(),
        a.dtype() == T::dtype_spec(),
        b.dtype() == T::dtype_spec(),
        old(out).dtype() == T::dtype_spec(),
        broadcastable(a.shape(), b.shape()),
        old(out).shape() == broadcast_shape(a.shape(), b.shape()),
        add_sub_impl_fits::<T>(*a, *b, alpha.elem_val(), is_sub),
    ensures
        *final(ctx) == *old(ctx),
        final(out).wf(),
        final(out).shape() == old(out).shape(),
        final(out).dtype() == old(out).dtype(),
        final(out).dynamism_spec() == old(out).dynamism_spec(),
        final(out).capacity() == old(out).capacity(),
        add_sub_impl_result::<T>(*a, *b, alpha.elem_val(), is_sub, final(out).elems()),
{
    proof {
        a.lemma_wf();
        b.lemma_wf();
        old(out).lemma_wf();
        lemma_broadcast_shape_facts(a.shape(), b.shape());
    }
    let ghost o = old(out).shape();
    let ghost al = alpha.elem_val();
    let path = select_optimized_path(a, b, out);
    if path == ElementwiseOptimizedPath::KTreatAs1d {
        proof {
            crate::elementwise::lemma_flat_path_numel(a.shape(), b.shape());
        }
        let alpha_val = if is_sub {
            T::zero().sub(alpha)
        } else {
            alpha
        };
        map_1d(BinaryKind::Add, alpha_val, a, b, out);
        proof {
            assert forall|i: int| 0 <= i < shape_numel(o) implies (#[trigger] out.elems()[i]).elem_val()
                == op_value(add_sub_kind(is_sub), al, a.elems()[i].elem_val(), b.elems()[i].elem_val()) by {
                vstd::arithmetic::mul::lemma_mul_unary_negation(al, b.elems()[i].elem_val());
            }
        }
    } else if path != ElementwiseOptimizedPath::KNone {
        let kind = if is_sub {
            BinaryKind::Sub
        } else {
            BinaryKind::Add
        };
        map_broadcast(kind, alpha, a, b, out);
    } else {
        let alpha_val = if is_sub {
            T::zero().sub(alpha)
        } else {
            alpha
        };
        map_broadcast(BinaryKind::Add, alpha_val, a, b, out);
        proof {
            assert forall|i: int| 0 <= i < shape_numel(o) implies (#[trigger] out.elems()[i]).elem_val()
                == op_value(
                add_sub_kind(is_sub),
                al,
                a.elems()[broadcast_index(o, a.shape(), i)].elem_val(),
                b.elems()[broadcast_index(o, b.shape(), i)].elem_val(),
            ) by {
                vstd::arithmetic::mul::lemma_mul_unary_negation(
                    al,
                    b.elems()[broadcast_index(o, b.shape(), i)].elem_val(),
                );
            }
        }
    }
}

} // verus!
