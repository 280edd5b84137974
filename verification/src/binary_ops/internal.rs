//! Broadcast-pattern classification of two shapes.

use vstd::prelude::*;

verus! {

use crate::tensor::{Tensor, shape_numel, KernelRuntimeContext, Error, resize_allowed};
use super::{ElementwiseOptimizedPath, get_normalized_tensor_size, range_products_fit_i32};

/// Index of the first size that is not 1, scanning from `i`; the length when
/// there is none.
pub open spec fn leading_ones_from(s: Seq<i32>, i: int) -> nat
    decreases s.len() - i,
{
    if i < 0 || i >= s.len() {
        s.len()
    } else if s[i] != 1 {
        i as nat
    } else {
        leading_ones_from(s, i + 1)
    }
}

/// Index of the first size that is not 1; the length when there is none.
pub open spec fn leading_ones_end_spec(s: Seq<i32>) -> nat {
    leading_ones_from(s, 0)
}

pub proof fn lemma_leading_ones_from(s: Seq<i32>, i: int)
    requires
        0 <= i <= s.len(),
    ensures
        i <= leading_ones_from(s, i) <= s.len(),
        forall|j: int| i <= j < leading_ones_from(s, i) ==> s[j] == 1,
        leading_ones_from(s, i) < s.len() ==> s[leading_ones_from(s, i) as int] != 1,
    decreases s.len() - i,
{
    if i < s.len() && s[i] == 1 {
        lemma_leading_ones_from(s, i + 1);
    }
}

/// The leading-ones boundary: everything before it is 1, the entry at it is
/// not.
pub proof fn lemma_leading_ones_end(s: Seq<i32>)
    ensures
        leading_ones_end_spec(s) <= s.len(),
        forall|j: int| 0 <= j < leading_ones_end_spec(s) ==> s[j] == 1,
        leading_ones_end_spec(s) < s.len() ==> s[leading_ones_end_spec(s) as int] != 1,
{
    lemma_leading_ones_from(s, 0);
}

/// Index of the first size that is not 1; the length when there is none.
pub fn leading_ones_end(s: &Vec<i32>) -> (r: usize)
    ensures
        r == leading_ones_end_spec(s@),
        r <= s.len(),
{
    let mut i: usize = 0;
    while i < s.len() && s[i] == 1
        invariant
            i <= s.len(),
            leading_ones_from(s@, i as int) == leading_ones_from(s@, 0),
        decreases s.len() - i,
    {
        i = i + 1;
    }
    proof {
        lemma_leading_ones_end(s@);
    }
    i
}

/// Both shapes consist of 1s only.
pub open spec fn both_effectively_scalar(l: Seq<i32>, r: Seq<i32>) -> bool {
    leading_ones_end_spec(l) == l.len() && leading_ones_end_spec(r) == r.len()
}

pub proof fn lemma_effectively_scalar_numel(s: Seq<i32>)
    requires
        leading_ones_end_spec(s) == s.len(),
    ensures
        shape_numel(s) == 1,
        super::effective_shape(s) =~= Seq::<i32>::empty(),
{
    lemma_leading_ones_end(s);
    lemma_all_ones_numel(s);
}

proof fn lemma_all_ones_numel(s: Seq<i32>)
    requires
        forall|j: int| 0 <= j < s.len() ==> s[j] == 1,
    ensures
        shape_numel(s) == 1,
    decreases s.len(),
{
    if s.len() > 0 {
        lemma_all_ones_numel(s.drop_last());
    }
}

/// Two aligned sizes neither of which is 1 and which differ.
pub open spec fn dims_conflict(x: i32, y: i32) -> bool {
    x != 1 && y != 1 && x != y
}

/// One of two aligned sizes is 1: a broadcast dimension.
pub open spec fn has_one(x: i32, y: i32) -> bool {
    x == 1 || y == 1
}

/// The effective sizes at effective position `p` conflict.
pub open spec fn conflict_at(l: Seq<i32>, r: Seq<i32>, p: int) -> bool {
    dims_conflict(l[leading_ones_end_spec(l) + p], r[leading_ones_end_spec(r) + p])
}

/// One of the effective sizes at effective position `p` is 1.
pub open spec fn one_at(l: Seq<i32>, r: Seq<i32>, p: int) -> bool {
    has_one(l[leading_ones_end_spec(l) + p], r[leading_ones_end_spec(r) + p])
}

/// `p` is the only effective position after the first that holds a 1.
pub open spec fn sole_one_at(l: Seq<i32>, r: Seq<i32>, n: int, p: int) -> bool {
    1 <= p < n && one_at(l, r, p) && (forall|q: int| 1 <= q < n && q != p ==> !#[trigger] one_at(l, r, q))
}

/// The broadcast dimension of two shapes with equally many effective sizes
/// (sizes after the leading 1s), as a negative offset from the end of `l`.
/// Effective positions after the first are compared: a pair of unequal
/// sizes neither of which is 1, or two positions with a 1, give 0; a single
/// position with a 1 is the broadcast dimension; none gives 0.
pub open spec fn broadcast_dim_spec(l: Seq<i32>, r: Seq<i32>) -> int {
    let lb = leading_ones_end_spec(l) as int;
    let rb = leading_ones_end_spec(r) as int;
    let n = l.len() - lb;
    if n != r.len() - rb {
        0
    } else if exists|p: int| 1 <= p < n && #[trigger] conflict_at(l, r, p) {
        0
    } else if exists|p: int| #[trigger] sole_one_at(l, r, n, p) {
        let p = choose|p: int| #[trigger] sole_one_at(l, r, n, p);
        lb + p - l.len()
    } else {
        0
    }
}

/// Given two tensors, returns their broadcast dimension as a negative offset
/// from the end of `lhs` (-1 for the last dimension), or 0 if there is none
/// or the pattern is not a single broadcast dimension. The shapes must not
/// both consist of 1s only.
pub fn get_broadcast_dim<A: Copy, B: Copy>(lhs: &Tensor<A>, rhs: &Tensor<B>) -> (r: i32)
    requires
        lhs.wf(),
        rhs.wf(),
        !both_effectively_scalar(lhs.shape(), rhs.shape()),
    ensures
        r == broadcast_dim_spec(lhs.shape(), rhs.shape()),
{
    let ls = lhs.sizes();
    let rs = rhs.sizes();
    proof {
        lhs.lemma_wf();
        rhs.lemma_wf();
    }
    let lb = leading_ones_end(ls);
    let rb = leading_ones_end(rs);
    let ghost l = ls@;
    let ghost r = rs@;
    let ghost n = l.len() - lb;
    if ls.len() - lb != rs.len() - rb {
        return 0;
    }
    // With equally many effective sizes, neither shape is all ones.
    let mut broadcast_dim: i32 = 0;
    let ghost mut one_pos: int = 0;
    let mut li: usize = ls.len() - 1;
    let mut ri: usize = rs.len() - 1;
    while li != lb
        invariant
            ls@ == l,
            rs@ == r,
            l == lhs.shape(),
            r == rhs.shape(),
            l.len() <= 16,
            lb == leading_ones_end_spec(l),
            rb == leading_ones_end_spec(r),
            n == l.len() - lb,
            n == r.len() - rb,
            n >= 1,
            lb <= li < l.len(),
            ri - rb == li - lb,
            forall|q: int| li - lb < q < n ==> !#[trigger] conflict_at(l, r, q),
            broadcast_dim == 0 ==> forall|q: int| li - lb < q < n ==> !#[trigger] one_at(l, r, q),
            broadcast_dim != 0 ==> {
                &&& li - lb < one_pos < n
                &&& one_at(l, r, one_pos)
                &&& broadcast_dim == lb + one_pos - l.len()
                &&& forall|q: int| li - lb < q < n && q != one_pos ==> !#[trigger] one_at(l, r, q)
            },
        decreases li,
    {
        let ghost p = li - lb;
        proof {
            assert(l[lb + p] == ls@[li as int]);
            assert(r[rb + p] == rs@[ri as int]);
        }
        if ls[li] == 1 || rs[ri] == 1 {
            // If more than one broadcast dim is found, return 0.
            if broadcast_dim != 0 {
                proof {
                    assert(one_at(l, r, p));
                    assert forall|p2: int| !#[trigger] sole_one_at(l, r, n, p2) by {
                        if p2 == one_pos {
                            assert(one_at(l, r, p));
                        } else {
                            assert(one_at(l, r, one_pos));
                        }
                    }
                }
                return 0;
            }
            broadcast_dim = (li as i32) - (ls.len() as i32);
            proof {
                one_pos = p;
            }
        } else if ls[li] != rs[ri] {
            proof {
                assert(conflict_at(l, r, p));
            }
            return 0;
        }
        li = li - 1;
        ri = ri - 1;
    }
    proof {
        if exists|p: int| 1 <= p < n && #[trigger] conflict_at(l, r, p) {
            let p = choose|p: int| 1 <= p < n && #[trigger] conflict_at(l, r, p);
            assert(!conflict_at(l, r, p));
        }
        if broadcast_dim != 0 {
            assert(sole_one_at(l, r, n, one_pos));
            let c = choose|p: int| #[trigger] sole_one_at(l, r, n, p);
            assert(c == one_pos) by {
                if c != one_pos {
                    assert(one_at(l, r, one_pos));
                }
            }
        } else {
            if exists|p: int| #[trigger] sole_one_at(l, r, n, p) {
                let p = choose|p: int| #[trigger] sole_one_at(l, r, n, p);
                assert(!one_at(l, r, p));
            }
        }
    }
    broadcast_dim
}

/// Number of sizes equal to 1.
pub open spec fn count_ones_spec(s: Seq<i32>) -> nat
    decreases s.len(),
{
    if s.len() == 0 {
        0
    } else {
        count_ones_spec(s.drop_last()) + if s.last() == 1 {
            1nat
        } else {
            0nat
        }
    }
}

/// Number of entries equal to 1 among `s[begin..end]`.
fn count_ones_in_range(s: &Vec<i32>, begin: usize, end: usize) -> (r: isize)
    requires
        begin <= end <= s.len() <= 16,
    ensures
        r == count_ones_spec(s@.subrange(begin as int, end as int)),
{
    let mut count: isize = 0;
    let mut p = begin;
    while p != end
        invariant
            begin <= p <= end <= s.len() <= 16,
            count == count_ones_spec(s@.subrange(begin as int, p as int)),
            count <= p - begin,
        decreases end - p,
    {
        proof {
            assert(s@.subrange(begin as int, p + 1).drop_last() =~= s@.subrange(
                begin as int,
                p as int,
            ));
        }
        if s[p] == 1 {
            count = count + 1;
        }
        p = p + 1;
    }
    count
}

/// The path `select_broadcast_optimized_path` picks.
pub open spec fn select_broadcast_path_spec(l: Seq<i32>, r: Seq<i32>) -> ElementwiseOptimizedPath {
    let lb = leading_ones_end_spec(l) as int;
    let rb = leading_ones_end_spec(r) as int;
    let ln = l.len() - lb;
    let rn = r.len() - rb;
    if ln == 2 && rn == 1 && l[lb + 1] == r[rb] {
        ElementwiseOptimizedPath::KBroadcast2dBy1d
    } else if ln == 1 && rn == 2 && r[rb + 1] == l[lb] {
        ElementwiseOptimizedPath::KBroadcast2dBy1dReverseArguments
    } else if broadcast_dim_spec(l, r) < -1 {
        if count_ones_spec(r.subrange(rb, r.len() as int)) == 1 {
            ElementwiseOptimizedPath::KBroadcastNdByNd
        } else {
            ElementwiseOptimizedPath::KBroadcastNdByNdReverseArguments
        }
    } else if broadcast_dim_spec(l, r) == -1 {
        if count_ones_spec(l.subrange(lb, l.len() as int)) == 1 {
            ElementwiseOptimizedPath::KBroadcastLastDimReverseArguments
        } else {
            ElementwiseOptimizedPath::KBroadcastLastDim
        }
    } else {
        ElementwiseOptimizedPath::KNone
    }
}

/// A shape with no size of 1 has no 1 to count; with one appended, one.
proof fn lemma_count_ones_none(s: Seq<i32>)
    requires
        forall|p: int| 0 <= p < s.len() ==> s[p] != 1,
    ensures
        count_ones_spec(s) == 0,
    decreases s.len(),
{
    if s.len() > 0 {
        lemma_count_ones_none(s.drop_last());
    }
}

/// A shape with a 1 at position `d` only has one 1.
proof fn lemma_count_ones_single(s: Seq<i32>, d: int)
    requires
        0 <= d < s.len(),
        s[d] == 1,
        forall|p: int| 0 <= p < s.len() && p != d ==> s[p] != 1,
    ensures
        count_ones_spec(s) == 1,
    decreases s.len(),
{
    if d == s.len() - 1 {
        lemma_count_ones_none(s.drop_last());
    } else {
        lemma_count_ones_single(s.drop_last(), d);
    }
}

/// Shapes of one rank that differ in a single dimension `d` after the
/// first, where one of them has a 1 (every other size being at least 2),
/// are broadcast along that dimension whatever their rank: along the last
/// dimension when `d` is the last, by the n-d pattern otherwise, with the
/// arguments reversed exactly when the 1 is in `l`.
pub proof fn lemma_single_broadcast_dim_path(l: Seq<i32>, r: Seq<i32>, d: int)
    requires
        l.len() == r.len(),
        1 <= d < l.len(),
        forall|p: int| 0 <= p < l.len() && p != d ==> l[p] == r[p] && l[p] >= 2,
        (r[d] == 1 && l[d] >= 2) || (l[d] == 1 && r[d] >= 2),
    ensures
        select_broadcast_path_spec(l, r) == if d == l.len() - 1 {
            if r[d] == 1 {
                ElementwiseOptimizedPath::KBroadcastLastDim
            } else {
                ElementwiseOptimizedPath::KBroadcastLastDimReverseArguments
            }
        } else if r[d] == 1 {
            ElementwiseOptimizedPath::KBroadcastNdByNd
        } else {
            ElementwiseOptimizedPath::KBroadcastNdByNdReverseArguments
        },
{
    let n = l.len() as int;
    assert(l[0] >= 2 && r[0] >= 2);
    assert(leading_ones_end_spec(l) == 0);
    assert(leading_ones_end_spec(r) == 0);
    assert(!(exists|p: int| 1 <= p < n && #[trigger] conflict_at(l, r, p))) by {
        assert forall|p: int| 1 <= p < n implies !#[trigger] conflict_at(l, r, p) by {
            if p != d {
                assert(l[p] == r[p]);
            }
        }
    }
    assert forall|q: int| 1 <= q < n && q != d implies !#[trigger] one_at(l, r, q) by {
        assert(l[q] == r[q] && l[q] >= 2);
    }
    assert(sole_one_at(l, r, n, d));
    let p = choose|p: int| #[trigger] sole_one_at(l, r, n, p);
    assert(p == d) by {
        if p != d {
            assert(!one_at(l, r, p));
        }
    }
    assert(broadcast_dim_spec(l, r) == d - n);
    assert(l.subrange(0, n) =~= l);
    assert(r.subrange(0, n) =~= r);
    if r[d] == 1 {
        lemma_count_ones_none(l);
        lemma_count_ones_single(r, d);
    } else {
        lemma_count_ones_none(r);
        lemma_count_ones_single(l, d);
    }
}

/// Shapes that differ only in their last dimension, where one of them has
/// a 1 (every other size being at least 2), are broadcast along the last
/// dimension, whatever their rank: `KBroadcastLastDim` when the 1 is in
/// `r`, `KBroadcastLastDimReverseArguments` when it is in `l`.
pub proof fn lemma_last_dim_broadcast_path(l: Seq<i32>, r: Seq<i32>)
    requires
        l.len() == r.len(),
        l.len() >= 2,
        forall|p: int| 0 <= p < l.len() - 1 ==> l[p] == r[p] && l[p] >= 2,
        (r.last() == 1 && l.last() >= 2) || (l.last() == 1 && r.last() >= 2),
    ensures
        r.last() == 1 ==> select_broadcast_path_spec(l, r)
            == ElementwiseOptimizedPath::KBroadcastLastDim,
        l.last() == 1 ==> select_broadcast_path_spec(l, r)
            == ElementwiseOptimizedPath::KBroadcastLastDimReverseArguments,
{
    lemma_single_broadcast_dim_path(l, r, l.len() - 1);
}

/// A matrix `(a, b)` against a vector `(b)` (or a vector against a matrix),
/// with sizes of at least 2, takes the 2-d by 1-d broadcast.
pub proof fn lemma_2d_by_1d_path(l: Seq<i32>, r: Seq<i32>)
    requires
        (l.len() == 2 && r.len() == 1 && l[0] >= 2 && l[1] >= 2 && r[0] == l[1]) || (r.len() == 2
            && l.len() == 1 && r[0] >= 2 && r[1] >= 2 && l[0] == r[1]),
    ensures
        l.len() == 2 ==> select_broadcast_path_spec(l, r) == ElementwiseOptimizedPath::KBroadcast2dBy1d,
        l.len() == 1 ==> select_broadcast_path_spec(l, r)
            == ElementwiseOptimizedPath::KBroadcast2dBy1dReverseArguments,
{
    assert(leading_ones_end_spec(l) == 0);
    assert(leading_ones_end_spec(r) == 0);
}

/// Swapping the operands of a 2-d by 1-d broadcast swaps which argument
/// is the 2-d one: the path for `(l, r)` is `KBroadcast2dBy1d` exactly when
/// the path for `(r, l)` is `KBroadcast2dBy1dReverseArguments`.
pub proof fn lemma_broadcast_2d_by_1d_swap(l: Seq<i32>, r: Seq<i32>)
    ensures
        (select_broadcast_path_spec(l, r) == ElementwiseOptimizedPath::KBroadcast2dBy1d) == (
        select_broadcast_path_spec(r, l) == ElementwiseOptimizedPath::KBroadcast2dBy1dReverseArguments),
{
}

/// Classifies the broadcast pattern of `lhs` and `rhs`: a 2-d by 1-d
/// broadcast (either way round), a single broadcast dimension before the
/// last (the `rhs`, or with reversed arguments the `lhs`, holding the 1), a
/// broadcast of the last dimension, or none. The shapes must not both
/// consist of 1s only.
pub fn select_broadcast_optimized_path<A: Copy, B: Copy>(lhs: &Tensor<A>, rhs: &Tensor<B>) -> (r:
    ElementwiseOptimizedPath)
    requires
        lhs.wf(),
        rhs.wf(),
        !both_effectively_scalar(lhs.shape(), rhs.shape()),
    ensures
        r == select_broadcast_path_spec(lhs.shape(), rhs.shape()),
{
    let ls = lhs.sizes();
    let rs = rhs.sizes();
    proof {
        lhs.lemma_wf();
        rhs.lemma_wf();
    }
    let lb = leading_ones_end(ls);
    let rb = leading_ones_end(rs);
    let lhs_size = ls.len() - lb;
    let rhs_size = rs.len() - rb;
    if lhs_size == 2 && rhs_size == 1 && ls[lb + 1] == rs[rb] {
        return ElementwiseOptimizedPath::KBroadcast2dBy1d;
    }
    if lhs_size == 1 && rhs_size == 2 && rs[rb + 1] == ls[lb] {
        return ElementwiseOptimizedPath::KBroadcast2dBy1dReverseArguments;
    }
    let broadcast_dim = get_broadcast_dim(lhs, rhs);
    // Right now we dont handle last dim broadcast
    if broadcast_dim < -1 {
        if count_ones_in_range(rs, rb, rs.len()) == 1 {
            ElementwiseOptimizedPath::KBroadcastNdByNd
        } else {
            ElementwiseOptimizedPath::KBroadcastNdByNdReverseArguments
        }
    } else if broadcast_dim == -1 {
        if count_ones_in_range(ls, lb, ls.len()) == 1 {
            ElementwiseOptimizedPath::KBroadcastLastDimReverseArguments
        } else {
            ElementwiseOptimizedPath::KBroadcastLastDim
        }
    } else {
        ElementwiseOptimizedPath::KNone
    }
}

/// The broadcast dimension does not depend on which operand comes first
/// being nonzero, and a nonzero one names a dimension of `l` after its first
/// effective one.
pub proof fn lemma_broadcast_dim_facts(l: Seq<i32>, r: Seq<i32>)
    ensures
        (broadcast_dim_spec(l, r) != 0) == (broadcast_dim_spec(r, l) != 0),
        broadcast_dim_spec(l, r) != 0 ==> leading_ones_end_spec(l) + 1 <= l.len()
            + broadcast_dim_spec(l, r) < l.len(),
{
    let lb = leading_ones_end_spec(l) as int;
    let rb = leading_ones_end_spec(r) as int;
    let n = l.len() - lb;
    assert forall|p: int| conflict_at(l, r, p) == conflict_at(r, l, p) by {}
    assert forall|p: int| one_at(l, r, p) == one_at(r, l, p) by {}
    assert forall|p: int| sole_one_at(l, r, n, p) == sole_one_at(r, l, n, p) by {
        if sole_one_at(l, r, n, p) {
            assert forall|q: int| 1 <= q < n && q != p implies !#[trigger] one_at(r, l, q) by {
                assert(!one_at(l, r, q));
            }
        }
        if sole_one_at(r, l, n, p) {
            assert forall|q: int| 1 <= q < n && q != p implies !#[trigger] one_at(l, r, q) by {
                assert(!one_at(r, l, q));
            }
        }
    }
    if broadcast_dim_spec(l, r) != 0 {
        let p = choose|p: int| #[trigger] sole_one_at(l, r, n, p);
        assert(sole_one_at(r, l, n, p));
        if exists|q: int| 1 <= q < n && #[trigger] conflict_at(r, l, q) {
            let q = choose|q: int| 1 <= q < n && #[trigger] conflict_at(r, l, q);
            assert(conflict_at(l, r, q));
        }
    }
    if broadcast_dim_spec(r, l) != 0 {
        let p = choose|p: int| #[trigger] sole_one_at(r, l, n, p);
        assert(sole_one_at(l, r, n, p));
        if exists|q: int| 1 <= q < n && #[trigger] conflict_at(l, r, q) {
            let q = choose|q: int| 1 <= q < n && #[trigger] conflict_at(l, r, q);
            assert(conflict_at(r, l, q));
        }
    }
}

/// The operands and the `[outer, broadcast, inner]` extents of a broadcast
/// traversal: `lhs` is read as an `outer x broadcast x inner` block, `rhs`
/// as an `outer x 1 x inner` block repeated along the broadcast axis.
pub struct BroadcastElementwisePlan<'a, T> {
    pub lhs: &'a Tensor<T>,
    pub rhs: &'a Tensor<T>,
    pub outer_size: i64,
    pub broadcast_size: i64,
    pub inner_size: i64,
}

/// The path swaps the operands.
pub open spec fn arguments_reversed(path: ElementwiseOptimizedPath) -> bool {
    path == ElementwiseOptimizedPath::KBroadcast2dBy1dReverseArguments || path
        == ElementwiseOptimizedPath::KBroadcastNdByNdReverseArguments
}

/// The path broadcasts one dimension before the last.
pub open spec fn is_nd_path(path: ElementwiseOptimizedPath) -> bool {
    path == ElementwiseOptimizedPath::KBroadcastNdByNd || path
        == ElementwiseOptimizedPath::KBroadcastNdByNdReverseArguments
}

/// The path broadcasts a 1-d operand over a 2-d one.
pub open spec fn is_2d_by_1d_path(path: ElementwiseOptimizedPath) -> bool {
    path == ElementwiseOptimizedPath::KBroadcast2dBy1d || path
        == ElementwiseOptimizedPath::KBroadcast2dBy1dReverseArguments
}

/// The lhs dimension along which an n-d plan broadcasts.
pub open spec fn nd_broadcast_axis(l: Seq<i32>, r: Seq<i32>) -> int {
    l.len() + broadcast_dim_spec(l, r)
}

/// The `[outer, broadcast, inner]` extents planned for operands of shapes
/// `l` (lhs) and `r` (rhs).
pub open spec fn planned_extents(l: Seq<i32>, r: Seq<i32>, path: ElementwiseOptimizedPath) -> (
    int,
    int,
    int,
) {
    if is_nd_path(path) {
        let d = nd_broadcast_axis(l, r);
        (
            shape_numel(l.subrange(0, d)),
            l[d] as int,
            shape_numel(l.subrange(d + 1, l.len() as int)),
        )
    } else {
        (1, l[l.len() - 2] as int, l[l.len() - 1] as int)
    }
}

/// A broadcast plan can be made for `a` and `b` along `path`: the selector
/// chose that path for them, it is a 2-d by 1-d or n-d path, and for an n-d
/// path the collapsed sizes fit in `i32`.
pub open spec fn plan_applicable(a: Seq<i32>, b: Seq<i32>, path: ElementwiseOptimizedPath) -> bool {
    let l = if arguments_reversed(path) { b } else { a };
    let r = if arguments_reversed(path) { a } else { b };
    &&& !both_effectively_scalar(a, b)
    &&& path == select_broadcast_path_spec(a, b)
    &&& (is_nd_path(path) || is_2d_by_1d_path(path))
    &&& is_nd_path(path) ==> {
        &&& range_products_fit_i32(l, 0, nd_broadcast_axis(l, r))
        &&& range_products_fit_i32(l, nd_broadcast_axis(l, r) + 1, l.len() as int)
    }
}

/// Plans a broadcast traversal along `path`: picks the full operand (lhs)
/// and the broadcast one (rhs), resizes `out` to the lhs sizes, and
/// collapses the lhs sizes into `[outer, broadcast, inner]`. When `out`
/// cannot take the lhs sizes, records `InvalidArgument` on `ctx` and gives
/// no plan.
pub fn plan_broadcast_elementwise<'a, T: Copy>(
    ctx: &mut KernelRuntimeContext,
    a: &'a Tensor<T>,
    b: &'a Tensor<T>,
    out: &mut Tensor<T>,
    selected_optimized_path: ElementwiseOptimizedPath,
) -> (r: Option<BroadcastElementwisePlan<'a, T>>)
    requires
        a.wf(),
        b.wf(),
        old(out).wf(),
        plan_applicable(a.shape(), b.shape(), selected_optimized_path),
    ensures
        ({
            let lhs = if arguments_reversed(selected_optimized_path) { b } else { a };
            let rhs = if arguments_reversed(selected_optimized_path) { a } else { b };
            &&& final(out).wf()
            &&& final(out).dtype() == old(out).dtype()
            &&& final(out).capacity() == old(out).capacity()
            &&& final(out).dynamism_spec() == old(out).dynamism_spec()
            &&& r is None <==> !resize_allowed(
                old(out).shape(),
                old(out).dynamism_spec(),
                old(out).capacity(),
                lhs.shape(),
            )
            &&& r is None ==> final(ctx).failure_spec() == Error::InvalidArgument
                && final(out).shape() == old(out).shape() && final(out).elems() == old(
                out,
            ).elems()
            &&& r matches Some(plan) ==> {
                &&& *final(ctx) == *old(ctx)
                &&& final(out).shape() == lhs.shape()
                &&& plan.lhs == lhs
                &&& plan.rhs == rhs
                &&& (plan.outer_size as int, plan.broadcast_size as int, plan.inner_size as int)
                    == planned_extents(lhs.shape(), rhs.shape(), selected_optimized_path)
            }
        }),
{
    let lhs: &'a Tensor<T>;
    let rhs: &'a Tensor<T>;
    if selected_optimized_path == ElementwiseOptimizedPath::KBroadcast2dBy1dReverseArguments
        || selected_optimized_path == ElementwiseOptimizedPath::KBroadcastNdByNdReverseArguments {
        lhs = b;
        rhs = a;
    } else {
        lhs = a;
        rhs = b;
    }
    proof {
        lhs.lemma_wf();
        rhs.lemma_wf();
        lemma_broadcast_dim_facts(a.shape(), b.shape());
        lemma_leading_ones_end(lhs.shape());
    }
    let error = out.resize(lhs.sizes());
    if error != Error::Success {
        ctx.fail(Error::InvalidArgument);
        return None;
    }
    let mut outer_size: i64 = 1;
    let broadcast_size: i64;
    let inner_size: i64;
    if selected_optimized_path == ElementwiseOptimizedPath::KBroadcastNdByNd
        || selected_optimized_path == ElementwiseOptimizedPath::KBroadcastNdByNdReverseArguments {
        proof {
            assert(!both_effectively_scalar(lhs.shape(), rhs.shape()));
        }
        let broadcast_dim = get_broadcast_dim(lhs, rhs);
        let broadcast_dim_lhs = lhs.dim() as i32 + broadcast_dim;
        let normalized_tensor_size_lhs = get_normalized_tensor_size(lhs, broadcast_dim_lhs);
        outer_size = normalized_tensor_size_lhs[0] as i64;
        broadcast_size = normalized_tensor_size_lhs[1] as i64;
        inner_size = normalized_tensor_size_lhs[2] as i64;
    } else {
        broadcast_size = lhs.size(lhs.dim() - 2) as i64;
        inner_size = lhs.size(lhs.dim() - 1) as i64;
    }
    Some(BroadcastElementwisePlan { lhs, rhs, outer_size, broadcast_size, inner_size })
}

} // verus!
