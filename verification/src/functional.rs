//! Broadcasting maps of a binary function over row-major blocks: a block
//! against the same block with its middle axis of size 1, a matrix against
//! a row vector, and a matrix against a column vector.

use vstd::prelude::*;

use crate::binary_ops::{
    broadcast3_result, flat2, flat3, last_dim_result, lemma_flat2_bounds, lemma_flat2_order,
    lemma_flat3_bounds, lemma_flat3_order,
};

verus! {

/// Applies `vec_fun` across `lhs`, a row-major `outer × broadcast × inner`
/// block, and `rhs`, an `outer × inner` block repeated along the middle
/// axis: entry `(o, b, i)` of the output is `vec_fun(lhs[o][b][i],
/// rhs[o][i])`.  Nothing is read or written when a size is not positive,
/// and entries of the output past the block stay as they are.
pub fn broadcasting_map_3d_and_unsqueezed_3d<T: Copy, Op: Fn(T, T) -> T>(
    vec_fun: &Op,
    output_data: &mut [T],
    lhs: &[T],
    rhs: &[T],
    outer_size: i64,
    broadcast_size: i64,
    inner_size: i64,
)
    requires
        forall|x: T, y: T| vec_fun.requires((x, y)),
        outer_size > 0 && broadcast_size > 0 && inner_size > 0 ==> {
            &&& outer_size * broadcast_size * inner_size <= lhs@.len()
            &&& outer_size * broadcast_size * inner_size <= old(output_data)@.len()
            &&& outer_size * inner_size <= rhs@.len()
        },
    ensures
        final(output_data)@.len() == old(output_data)@.len(),
        broadcast3_result(
            *vec_fun,
            lhs@,
            rhs@,
            final(output_data)@,
            outer_size as int,
            broadcast_size as int,
            inner_size as int,
        ),
        forall|idx: int|
            0 <= idx < old(output_data)@.len() && !(outer_size > 0 && broadcast_size > 0
                && inner_size > 0 && idx < outer_size * broadcast_size * inner_size)
                ==> #[trigger] final(output_data)@[idx] == old(output_data)@[idx],
{
    if outer_size <= 0 || broadcast_size <= 0 || inner_size <= 0 {
        return;
    }
    let ghost before = output_data@;
    // The buffer lengths bound the offsets computed below.
    let _lhs_len = lhs.len();
    let _out_len = output_data.len();
    let _rhs_len = rhs.len();
    let ghost os = outer_size as int;
    let ghost bs = broadcast_size as int;
    let ghost is = inner_size as int;
    proof {
        assert(os <= os * bs * is && os * bs <= os * bs * is && os * is <= os * bs * is && bs
            <= os * bs * is && is <= os * bs * is && bs * is <= os * bs * is && is * bs == bs * is)
            by (nonlinear_arith)
            requires
                os >= 1,
                bs >= 1,
                is >= 1,
        ;
    }
    let outer_n = outer_size as usize;
    let bcast_n = broadcast_size as usize;
    let inner_n = inner_size as usize;
    let outer_stride_lhs: usize = inner_n * bcast_n;
    let outer_stride_rhs: usize = inner_n;
    let broadcast_stride_lhs: usize = inner_n;
    let mut outer: usize = 0;
    while outer < outer_n
        invariant
            os == outer_n,
            bs == bcast_n,
            is == inner_n,
            os >= 1 && bs >= 1 && is >= 1,
            outer_stride_lhs == is * bs,
            outer_stride_rhs == is,
            broadcast_stride_lhs == is,
            os * bs * is <= lhs@.len(),
            os * bs * is <= before.len(),
            os * bs * is <= usize::MAX,
            os * is <= os * bs * is,
            os * is <= rhs@.len(),
            output_data@.len() == before.len(),
            outer <= outer_n,
            forall|x: T, y: T| vec_fun.requires((x, y)),
            broadcast3_result(*vec_fun, lhs@, rhs@, output_data@, outer as int, bs, is),
            forall|idx: int|
                0 <= idx < before.len() && idx >= flat3(outer as int, 0, 0, bs, is)
                    ==> #[trigger] output_data@[idx] == before[idx],
        decreases outer_n - outer,
    {
        proof {
            assert(outer * (is * bs) + bs * is <= os * bs * is && outer * is + is <= os * is
                && outer * (is * bs) == flat3(outer as int, 0, 0, bs, is)) by (nonlinear_arith)
                requires
                    outer < os,
                    bs >= 1,
                    is >= 1,
            ;
        }
        let lhs_outer: usize = outer * outer_stride_lhs;
        let rhs_outer: usize = outer * outer_stride_rhs;
        let mut bcast: usize = 0;
        while bcast < bcast_n
            invariant
                os == outer_n,
                bs == bcast_n,
                is == inner_n,
                os >= 1 && bs >= 1 && is >= 1,
                broadcast_stride_lhs == is,
                os * bs * is <= lhs@.len(),
                os * bs * is <= before.len(),
                os * bs * is <= usize::MAX,
            os * is <= os * bs * is,
                os * is <= rhs@.len(),
                output_data@.len() == before.len(),
                outer < outer_n,
                lhs_outer == flat3(outer as int, 0, 0, bs, is),
                lhs_outer + bs * is <= os * bs * is,
                rhs_outer == outer * is,
                rhs_outer + is <= os * is,
                bcast <= bcast_n,
                forall|x: T, y: T| vec_fun.requires((x, y)),
                broadcast3_result(*vec_fun, lhs@, rhs@, output_data@, outer as int, bs, is),
                forall|b: int, i: int|
                    0 <= b < bcast && 0 <= i < is ==> call_ensures(
                        *vec_fun,
                        (lhs@[#[trigger] flat3(outer as int, b, i, bs, is)], rhs@[flat2(outer as int, i, is)]),
                        output_data@[flat3(outer as int, b, i, bs, is)],
                    ),
                forall|idx: int|
                    0 <= idx < before.len() && idx >= flat3(outer as int, bcast as int, 0, bs, is)
                        ==> #[trigger] output_data@[idx] == before[idx],
            decreases bcast_n - bcast,
        {
            proof {
                assert(bcast * is + is <= bs * is) by (nonlinear_arith)
                    requires
                        bcast < bs,
                        is >= 1,
                ;
                assert(flat3(outer as int, 0, 0, bs, is) + bcast * is == flat3(
                    outer as int,
                    bcast as int,
                    0,
                    bs,
                    is,
                )) by (nonlinear_arith);
            }
            let lhs_row: usize = lhs_outer + bcast * broadcast_stride_lhs;
            let mut inner: usize = 0;
            while inner < inner_n
                invariant
                    os == outer_n,
                    bs == bcast_n,
                    is == inner_n,
                    os >= 1 && bs >= 1 && is >= 1,
                    os * bs * is <= lhs@.len(),
                    os * bs * is <= before.len(),
                    os * bs * is <= usize::MAX,
            os * is <= os * bs * is,
                    os * is <= rhs@.len(),
                    output_data@.len() == before.len(),
                    outer < outer_n,
                    bcast < bcast_n,
                    lhs_row == flat3(outer as int, bcast as int, 0, bs, is),
                    lhs_row + is <= os * bs * is,
                    rhs_outer == outer * is,
                    rhs_outer + is <= os * is,
                    inner <= inner_n,
                    forall|x: T, y: T| vec_fun.requires((x, y)),
                    broadcast3_result(*vec_fun, lhs@, rhs@, output_data@, outer as int, bs, is),
                    forall|b: int, i: int|
                        0 <= b < bcast && 0 <= i < is ==> call_ensures(
                            *vec_fun,
                            (lhs@[#[trigger] flat3(outer as int, b, i, bs, is)], rhs@[flat2(outer as int, i, is)]),
                            output_data@[flat3(outer as int, b, i, bs, is)],
                        ),
                    forall|i: int|
                        0 <= i < inner ==> call_ensures(
                            *vec_fun,
                            (lhs@[#[trigger] flat3(outer as int, bcast as int, i, bs, is)], rhs@[flat2(outer as int, i, is)]),
                            output_data@[flat3(outer as int, bcast as int, i, bs, is)],
                        ),
                    forall|idx: int|
                        0 <= idx < before.len() && idx >= lhs_row + inner ==> #[trigger] output_data@[idx]
                            == before[idx],
                decreases inner_n - inner,
            {
                let data = lhs[lhs_row + inner];
                let data2 = rhs[rhs_outer + inner];
                let output = vec_fun(data, data2);
                let ghost prev = output_data@;
                output_data[lhs_row + inner] = output;
                proof {
                    let k = flat3(outer as int, bcast as int, inner as int, bs, is);
                    assert(k == lhs_row + inner);
                    assert(flat2(outer as int, inner as int, is) == rhs_outer + inner);
                    assert forall|o: int, b: int, i: int|
                        0 <= o < outer && 0 <= b < bs && 0 <= i < is implies call_ensures(
                        *vec_fun,
                        (lhs@[#[trigger] flat3(o, b, i, bs, is)], rhs@[flat2(o, i, is)]),
                        output_data@[flat3(o, b, i, bs, is)],
                    ) by {
                        lemma_flat3_order(o, b, i, outer as int, bcast as int, inner as int, bs, is);
                        lemma_flat3_bounds(o, b, i, os, bs, is);
                        assert(output_data@[flat3(o, b, i, bs, is)] == prev[flat3(o, b, i, bs, is)]);
                    }
                    assert forall|b: int, i: int|
                        0 <= b < bcast && 0 <= i < is implies call_ensures(
                        *vec_fun,
                        (lhs@[#[trigger] flat3(outer as int, b, i, bs, is)], rhs@[flat2(outer as int, i, is)]),
                        output_data@[flat3(outer as int, b, i, bs, is)],
                    ) by {
                        lemma_flat3_order(outer as int, b, i, outer as int, bcast as int, inner as int, bs, is);
                        lemma_flat3_bounds(outer as int, b, i, os, bs, is);
                        assert(output_data@[flat3(outer as int, b, i, bs, is)] == prev[flat3(outer as int, b, i, bs, is)]);
                    }
                    assert forall|i: int|
                        0 <= i < inner + 1 implies call_ensures(
                        *vec_fun,
                        (lhs@[#[trigger] flat3(outer as int, bcast as int, i, bs, is)], rhs@[flat2(outer as int, i, is)]),
                        output_data@[flat3(outer as int, bcast as int, i, bs, is)],
                    ) by {
                        if i < inner {
                            lemma_flat3_order(outer as int, bcast as int, i, outer as int, bcast as int, inner as int, bs, is);
                            lemma_flat3_bounds(outer as int, bcast as int, i, os, bs, is);
                            assert(output_data@[flat3(outer as int, bcast as int, i, bs, is)] == prev[flat3(outer as int, bcast as int, i, bs, is)]);
                        }
                    }
                }
                inner = inner + 1;
            }
            proof {
                assert(flat3(outer as int, bcast as int, 0, bs, is) + is == flat3(
                    outer as int,
                    bcast as int + 1,
                    0,
                    bs,
                    is,
                )) by (nonlinear_arith);
            }
            bcast = bcast + 1;
        }
        proof {
            assert(flat3(outer as int, bs, 0, bs, is) == flat3(outer as int + 1, 0, 0, bs, is))
                by (nonlinear_arith);
            assert forall|o: int, b: int, i: int|
                0 <= o < outer + 1 && 0 <= b < bs && 0 <= i < is implies call_ensures(
                *vec_fun,
                (lhs@[#[trigger] flat3(o, b, i, bs, is)], rhs@[flat2(o, i, is)]),
                output_data@[flat3(o, b, i, bs, is)],
            ) by {
            }
        }
        outer = outer + 1;
    }
    proof {
        assert forall|idx: int|
            0 <= idx < before.len() && !(outer_size > 0 && broadcast_size > 0 && inner_size > 0
                && idx < outer_size * broadcast_size * inner_size) implies #[trigger] output_data@[idx]
            == before[idx] by {
            assert(flat3(os, 0, 0, bs, is) == os * bs * is) by (nonlinear_arith);
        }
    }
}

/// Applies `vec_fun` across `input_data`, a row-major `size × size2`
/// matrix, and `input_data2`, a row of `size2` repeated for every row:
/// entry `(r, j)` of the output is `vec_fun(input_data[r][j],
/// input_data2[j])`; the map of `broadcasting_map_3d_and_unsqueezed_3d`
/// with one outer block.
pub fn broadcasting_map_2d_by_1d<T: Copy, Op: Fn(T, T) -> T>(
    vec_fun: &Op,
    output_data: &mut [T],
    input_data: &[T],
    input_data2: &[T],
    size: i64,
    size2: i64,
)
    requires
        forall|x: T, y: T| vec_fun.requires((x, y)),
        size > 0 && size2 > 0 ==> {
            &&& size * size2 <= input_data@.len()
            &&& size * size2 <= old(output_data)@.len()
            &&& size2 <= input_data2@.len()
        },
    ensures
        final(output_data)@.len() == old(output_data)@.len(),
        forall|r: int, j: int|
            0 <= r < size && 0 <= j < size2 ==> call_ensures(
                *vec_fun,
                (input_data@[#[trigger] flat2(r, j, size2 as int)], input_data2@[j]),
                final(output_data)@[flat2(r, j, size2 as int)],
            ),
        forall|idx: int|
            0 <= idx < old(output_data)@.len() && !(size > 0 && size2 > 0 && idx < size * size2)
                ==> #[trigger] final(output_data)@[idx] == old(output_data)@[idx],
{
    proof {
        assert(1 * size * size2 == size * size2 && 1 * size2 == size2);
    }
    broadcasting_map_3d_and_unsqueezed_3d(vec_fun, output_data, input_data, input_data2, 1, size, size2);
    proof {
        assert forall|r: int, j: int|
            0 <= r < size && 0 <= j < size2 implies call_ensures(
            *vec_fun,
            (input_data@[#[trigger] flat2(r, j, size2 as int)], input_data2@[j]),
            output_data@[flat2(r, j, size2 as int)],
        ) by {
            assert(flat3(0, r, j, size as int, size2 as int) == flat2(r, j, size2 as int));
            assert(flat2(0, j, size2 as int) == j);
        }
    }
}

/// Applies `vec_fun` across `lhs`, a row-major `outer × broadcast` matrix,
/// and `rhs`, one element per row: entry `(o, j)` of the output is
/// `vec_fun(lhs[o][j], rhs[o])`.  Entries of the output past the matrix
/// stay as they are.
pub fn broadcasting_map_broadcast_last_dim<T: Copy, Op: Fn(T, T) -> T>(
    vec_fun: &Op,
    output_data: &mut [T],
    lhs: &[T],
    rhs: &[T],
    outer_size: i64,
    broadcast_size: i64,
)
    requires
        forall|x: T, y: T| vec_fun.requires((x, y)),
        outer_size > 0 ==> outer_size <= rhs@.len(),
        outer_size > 0 && broadcast_size > 0 ==> {
            &&& outer_size * broadcast_size <= lhs@.len()
            &&& outer_size * broadcast_size <= old(output_data)@.len()
        },
    ensures
        final(output_data)@.len() == old(output_data)@.len(),
        last_dim_result(
            *vec_fun,
            lhs@,
            rhs@,
            final(output_data)@,
            outer_size as int,
            broadcast_size as int,
        ),
        forall|idx: int|
            0 <= idx < old(output_data)@.len() && !(outer_size > 0 && broadcast_size > 0 && idx
                < outer_size * broadcast_size) ==> #[trigger] final(output_data)@[idx]
                == old(output_data)@[idx],
{
    let ghost before = output_data@;
    if outer_size <= 0 || broadcast_size <= 0 {
        return;
    }
    // The buffer lengths bound the offsets computed below.
    let _rhs_len = rhs.len();
    let _lhs_len = lhs.len();
    let _out_len = output_data.len();
    let ghost os = outer_size as int;
    let ghost bs = broadcast_size as int;
    proof {
        assert(os <= os * bs && bs <= os * bs) by (nonlinear_arith)
            requires
                os >= 1,
                bs >= 1,
        ;
    }
    let outer_n = outer_size as usize;
    let bcast_n = broadcast_size as usize;
    let outer_stride_lhs: usize = bcast_n;
    let mut outer: usize = 0;
    while outer < outer_n
        invariant
            os == outer_n,
            bs == bcast_n,
            os >= 1 && bs >= 1,
            outer_stride_lhs == bs,
            os <= rhs@.len(),
            os * bs <= lhs@.len(),
            os * bs <= before.len(),
            os * bs <= usize::MAX,
            output_data@.len() == before.len(),
            outer <= outer_n,
            forall|x: T, y: T| vec_fun.requires((x, y)),
            last_dim_result(*vec_fun, lhs@, rhs@, output_data@, outer as int, bs),
            forall|idx: int|
                0 <= idx < before.len() && idx >= outer * bs ==> #[trigger] output_data@[idx]
                    == before[idx],
        decreases outer_n - outer,
    {
        proof {
            assert(outer * bs + bs <= os * bs) by (nonlinear_arith)
                requires
                    outer < os,
                    bs >= 1,
            ;
        }
        let lhs_outer: usize = outer * outer_stride_lhs;
        let data2 = rhs[outer];
        let mut inner: usize = 0;
        while inner < bcast_n
            invariant
                os == outer_n,
                bs == bcast_n,
                os >= 1 && bs >= 1,
                os <= rhs@.len(),
                os * bs <= lhs@.len(),
                os * bs <= before.len(),
                os * bs <= usize::MAX,
                output_data@.len() == before.len(),
                outer < outer_n,
                lhs_outer == outer * bs,
                lhs_outer + bs <= os * bs,
                data2 == rhs@[outer as int],
                inner <= bcast_n,
                forall|x: T, y: T| vec_fun.requires((x, y)),
                last_dim_result(*vec_fun, lhs@, rhs@, output_data@, outer as int, bs),
                forall|jj: int|
                    0 <= jj < inner ==> call_ensures(
                        *vec_fun,
                        (lhs@[#[trigger] flat2(outer as int, jj, bs)], data2),
                        output_data@[flat2(outer as int, jj, bs)],
                    ),
                forall|idx: int|
                    0 <= idx < before.len() && idx >= lhs_outer + inner ==> #[trigger] output_data@[idx]
                        == before[idx],
            decreases bcast_n - inner,
        {
            let data = lhs[lhs_outer + inner];
            let output = vec_fun(data, data2);
            let ghost prev = output_data@;
            output_data[lhs_outer + inner] = output;
            proof {
                assert(flat2(outer as int, inner as int, bs) == lhs_outer + inner);
                assert forall|o: int, jj: int| 0 <= o < outer && 0 <= jj < bs implies call_ensures(
                    *vec_fun,
                    (lhs@[#[trigger] flat2(o, jj, bs)], rhs@[o]),
                    output_data@[flat2(o, jj, bs)],
                ) by {
                    lemma_flat2_order(o, jj, outer as int, inner as int, bs);
                    lemma_flat2_bounds(o, jj, os, bs);
                    assert(output_data@[flat2(o, jj, bs)] == prev[flat2(o, jj, bs)]);
                }
                assert forall|jj: int| 0 <= jj < inner + 1 implies call_ensures(
                    *vec_fun,
                    (lhs@[#[trigger] flat2(outer as int, jj, bs)], data2),
                    output_data@[flat2(outer as int, jj, bs)],
                ) by {
                    if jj < inner {
                        lemma_flat2_order(outer as int, jj, outer as int, inner as int, bs);
                        lemma_flat2_bounds(outer as int, jj, os, bs);
                        assert(output_data@[flat2(outer as int, jj, bs)] == prev[flat2(
                            outer as int,
                            jj,
                            bs,
                        )]);
                    }
                }
            }
            inner = inner + 1;
        }
        proof {
            assert(outer * bs + bs == (outer + 1) * bs) by (nonlinear_arith);
        }
        outer = outer + 1;
    }
}

} // verus!
