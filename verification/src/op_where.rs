//! Elementwise selection `out = cond ? a : b`, broadcasting all three
//! operands against each other.

use vstd::prelude::*;

use crate::elementwise::{
    broadcast_index, broadcast_index_of, broadcast_shape3, broadcastable3,
    lemma_broadcast_shape3_facts, resize_to_broadcast_target_size3,
};
use crate::tensor::{resize_allowed, shape_numel, Error, KernelRuntimeContext, ScalarType, Tensor};

verus! {

/// Every position `i` of `out` (of shape `o`) holds `a^[i]` where `cond^[i]`
/// holds and `b^[i]` elsewhere, for `cond^`, `a^`, `b^` the operands
/// broadcast to `o`.
pub open spec fn where_result<T: Copy>(
    cond: Tensor<bool>,
    a: Tensor<T>,
    b: Tensor<T>,
    o: Seq<i32>,
    out: Seq<T>,
) -> bool {
    forall|i: int|
        0 <= i < shape_numel(o) ==> #[trigger] out[i] == if cond.elems()[broadcast_index(
            o,
            cond.shape(),
            i,
        )] {
            a.elems()[broadcast_index(o, a.shape(), i)]
        } else {
            b.elems()[broadcast_index(o, b.shape(), i)]
        }
}

/// `out := cond ? a : b`, broadcasting `a`, `b` and `cond` against each
/// other.  Fails with `InvalidArgument`, leaving `out` alone, when the three
/// shapes do not broadcast together or `out` cannot take their broadcast
/// shape; otherwise `out` takes that shape and each of its elements is the
/// one of `a` or of `b` that the condition picks (see `where_result`).
pub fn opt_where_out<T: Copy>(
    ctx: &mut KernelRuntimeContext,
    cond: &Tensor<bool>,
    a: &Tensor<T>,
    b: &Tensor<T>,
    out: &mut Tensor<T>,
)
    requires
        cond.wf(),
        a.wf(),
        b.wf(),
        old(out).wf(),
        cond.dtype() == ScalarType::Bool,
        a.dtype() == b.dtype(),
        old(out).dtype() == a.dtype(),
    ensures
        final(out).wf(),
        final(out).dtype() == old(out).dtype(),
        final(out).dynamism_spec() == old(out).dynamism_spec(),
        final(out).capacity() == old(out).capacity(),
        ({
            let o = broadcast_shape3(a.shape(), b.shape(), cond.shape());
            let ok = broadcastable3(a.shape(), b.shape(), cond.shape()) && resize_allowed(
                old(out).shape(),
                old(out).dynamism_spec(),
                old(out).capacity(),
                o,
            );
            &&& final(ctx).failure_spec() == if ok {
                old(ctx).failure_spec()
            } else {
                Error::InvalidArgument
            }
            &&& !ok ==> final(out).shape() == old(out).shape() && final(out).elems()
                == old(out).elems()
            &&& ok ==> final(out).shape() == o && where_result(*cond, *a, *b, o, final(out).elems())
        }),
{
    proof {
        cond.lemma_wf();
        a.lemma_wf();
        b.lemma_wf();
    }
    let ghost o = broadcast_shape3(a.shape(), b.shape(), cond.shape());
    if resize_to_broadcast_target_size3(a, b, cond, out) != Error::Success {
        ctx.fail(Error::InvalidArgument);
        return;
    }
    proof {
        out.lemma_wf();
        lemma_broadcast_shape3_facts(a.shape(), b.shape(), cond.shape());
    }
    let n = out.numel();
    let os: Vec<i32> = out.sizes().clone();
    proof {
        assert(os@ =~= o);
    }
    let mut i: usize = 0;
    while i < n
        invariant
            cond.wf(),
            a.wf(),
            b.wf(),
            out.wf(),
            os@ == o,
            out.shape() == o,
            n == shape_numel(o),
            n == out.elems().len(),
            i <= n,
            crate::tensor::shape_nonneg(o),
            crate::elementwise::broadcasts_to(a.shape(), o),
            crate::elementwise::broadcasts_to(b.shape(), o),
            crate::elementwise::broadcasts_to(cond.shape(), o),
            out.dtype() == old(out).dtype(),
            out.dynamism_spec() == old(out).dynamism_spec(),
            out.capacity() == old(out).capacity(),
            forall|j: int|
                0 <= j < i ==> #[trigger] out.elems()[j] == if cond.elems()[broadcast_index(
                    o,
                    cond.shape(),
                    j,
                )] {
                    a.elems()[broadcast_index(o, a.shape(), j)]
                } else {
                    b.elems()[broadcast_index(o, b.shape(), j)]
                },
        decreases n - i,
    {
        proof {
            a.lemma_wf();
            b.lemma_wf();
            cond.lemma_wf();
        }
        let ia = broadcast_index_of(&os, a.sizes(), i);
        let ib = broadcast_index_of(&os, b.sizes(), i);
        let ic = broadcast_index_of(&os, cond.sizes(), i);
        let v = if cond.at(ic) {
            a.at(ia)
        } else {
            b.at(ib)
        };
        let ghost before = out.elems();
        out.set(i, v);
        proof {
            assert forall|j: int| 0 <= j < i + 1 implies #[trigger] out.elems()[j] == if cond.elems()[broadcast_index(
                o,
                cond.shape(),
                j,
            )] {
                a.elems()[broadcast_index(o, a.shape(), j)]
            } else {
                b.elems()[broadcast_index(o, b.shape(), j)]
            } by {
                if j < i {
                    assert(before[j] == out.elems()[j]);
                }
            }
        }
        i = i + 1;
    }
}

} // verus!
