//! Shared machinery of the elementwise arithmetic kernels: integer element
//! arithmetic, the broadcast shape of two operands, resizing the output to
//! it, and the general broadcast traversal.

use vstd::prelude::*;

use crate::tensor::{
    lemma_shape_numel_nonneg, lemma_shape_numel_ones, lemma_shape_numel_split, resize_allowed, shape_nonneg, shape_numel, Error, KernelRuntimeContext, ScalarType,
    Tensor, MAX_DIMS,
};

verus! {

/// Integer element types with checked arithmetic: `+`, `-` and `*` are
/// only applied where the exact result is a value of the type.
/// `x / d` rounded toward zero, for `d != 0`.
pub open spec fn trunc_div(x: int, d: int) -> int {
    if x == 0 {
        0
    } else if x > 0 && d > 0 {
        x / d
    } else if x < 0 && d < 0 {
        (x * -1) / (d * -1)
    } else if x < 0 {
        ((x * -1) / d) * -1
    } else {
        (x / (d * -1)) * -1
    }
}

/// `1 / d` rounded toward zero is `1` for `d == 1`, `-1` for `d == -1`, and
/// `0` otherwise.
pub proof fn lemma_trunc_div_one(d: int)
    requires
        d != 0,
    ensures
        trunc_div(1, d) == if d == 1 {
            1int
        } else if d == -1 {
            -1int
        } else {
            0int
        },
{
    if d > 1 {
        vstd::arithmetic::div_mod::lemma_basic_div(1, d);
    } else if d < -1 {
        vstd::arithmetic::div_mod::lemma_basic_div(1, -d);
    }
}

pub trait ElementwiseOp: Copy {
    /// The value.
    spec fn elem_val(self) -> int;

    /// `v` is a value of the type.
    spec fn fits(v: int) -> bool;

    /// The type tag of the element type.
    spec fn dtype_spec() -> ScalarType;

    proof fn lemma_fits(x: Self)
        ensures
            Self::fits(x.elem_val()),
    ;

    /// The element `0`.
    fn zero() -> (r: Self)
        ensures
            r.elem_val() == 0,
    ;

    /// The element `1`.
    fn one() -> (r: Self)
        ensures
            r.elem_val() == 1,
    ;

    /// `1 / y` rounded toward zero is a value of the type.
    proof fn lemma_unit_quotient(y: Self)
        requires
            y.elem_val() != 0,
        ensures
            Self::fits(trunc_div(1, y.elem_val())),
    ;

    /// `self / rhs`, rounded toward zero.
    fn div(self, rhs: Self) -> (r: Self)
        requires
            rhs.elem_val() != 0,
            Self::fits(trunc_div(self.elem_val(), rhs.elem_val())),
        ensures
            r.elem_val() == trunc_div(self.elem_val(), rhs.elem_val()),
    ;

    fn add(self, rhs: Self) -> (r: Self)
        requires
            Self::fits(self.elem_val() + rhs.elem_val()),
        ensures
            r.elem_val() == self.elem_val() + rhs.elem_val(),
    ;

    fn sub(self, rhs: Self) -> (r: Self)
        requires
            Self::fits(self.elem_val() - rhs.elem_val()),
        ensures
            r.elem_val() == self.elem_val() - rhs.elem_val(),
    ;

    fn mul(self, rhs: Self) -> (r: Self)
        requires
            Self::fits(self.elem_val() * rhs.elem_val()),
        ensures
            r.elem_val() == self.elem_val() * rhs.elem_val(),
    ;

    /// `1` when `self <= rhs`, else `0`, as an element.
    fn le(self, rhs: Self) -> (r: Self)
        ensures
            r.elem_val() == if self.elem_val() <= rhs.elem_val() {
                1int
            } else {
                0int
            },
    ;
}

impl ElementwiseOp for bool {
    open spec fn elem_val(self) -> int {
        if self {
            1
        } else {
            0
        }
    }

    open spec fn fits(v: int) -> bool {
        0 <= v <= 1
    }

    open spec fn dtype_spec() -> ScalarType {
        ScalarType::Bool
    }

    proof fn lemma_fits(x: Self) {
    }

    fn zero() -> bool {
        false
    }

    fn one() -> bool {
        true
    }

    proof fn lemma_unit_quotient(y: bool) {
        lemma_trunc_div_one(y.elem_val());
    }

    fn div(self, rhs: bool) -> bool {
        ((self as i32) / (rhs as i32)) != 0
    }

    fn add(self, rhs: bool) -> bool {
        ((self as i32) + (rhs as i32)) != 0
    }

    fn sub(self, rhs: bool) -> bool {
        ((self as i32) - (rhs as i32)) != 0
    }

    fn mul(self, rhs: bool) -> bool {
        ((self as i32) * (rhs as i32)) != 0
    }

    fn le(self, rhs: bool) -> bool {
        !self || rhs
    }
}

impl ElementwiseOp for u8 {
    open spec fn elem_val(self) -> int {
        self as int
    }

    open spec fn fits(v: int) -> bool {
        0 <= v <= u8::MAX
    }

    open spec fn dtype_spec() -> ScalarType {
        ScalarType::Byte
    }

    proof fn lemma_fits(x: Self) {
    }

    fn zero() -> u8 {
        0
    }

    fn one() -> u8 {
        1
    }

    proof fn lemma_unit_quotient(y: u8) {
        lemma_trunc_div_one(y as int);
    }

    fn div(self, rhs: u8) -> u8 {
        self / rhs
    }

    fn add(self, rhs: u8) -> u8 {
        self + rhs
    }

    fn sub(self, rhs: u8) -> u8 {
        self - rhs
    }

    fn mul(self, rhs: u8) -> u8 {
        self * rhs
    }

    fn le(self, rhs: u8) -> u8 {
        if self <= rhs {
            1
        } else {
            0
        }
    }
}

impl ElementwiseOp for i8 {
    open spec fn elem_val(self) -> int {
        self as int
    }

    open spec fn fits(v: int) -> bool {
        i8::MIN <= v <= i8::MAX
    }

    open spec fn dtype_spec() -> ScalarType {
        ScalarType::Char
    }

    proof fn lemma_fits(x: Self) {
    }

    fn zero() -> i8 {
        0
    }

    fn one() -> i8 {
        1
    }

    proof fn lemma_unit_quotient(y: i8) {
        lemma_trunc_div_one(y as int);
    }

    fn div(self, rhs: i8) -> i8 {
        self.checked_div(rhs).unwrap()
    }

    fn add(self, rhs: i8) -> i8 {
        self + rhs
    }

    fn sub(self, rhs: i8) -> i8 {
        self - rhs
    }

    fn mul(self, rhs: i8) -> i8 {
        self * rhs
    }

    fn le(self, rhs: i8) -> i8 {
        if self <= rhs {
            1
        } else {
            0
        }
    }
}

impl ElementwiseOp for i16 {
    open spec fn elem_val(self) -> int {
        self as int
    }

    open spec fn fits(v: int) -> bool {
        i16::MIN <= v <= i16::MAX
    }

    open spec fn dtype_spec() -> ScalarType {
        ScalarType::Short
    }

    proof fn lemma_fits(x: Self) {
    }

    fn zero() -> i16 {
        0
    }

    fn one() -> i16 {
        1
    }

    proof fn lemma_unit_quotient(y: i16) {
        lemma_trunc_div_one(y as int);
    }

    fn div(self, rhs: i16) -> i16 {
        self.checked_div(rhs).unwrap()
    }

    fn add(self, rhs: i16) -> i16 {
        self + rhs
    }

    fn sub(self, rhs: i16) -> i16 {
        self - rhs
    }

    fn mul(self, rhs: i16) -> i16 {
        self * rhs
    }

    fn le(self, rhs: i16) -> i16 {
        if self <= rhs {
            1
        } else {
            0
        }
    }
}

impl ElementwiseOp for i32 {
    open spec fn elem_val(self) -> int {
        self as int
    }

    open spec fn fits(v: int) -> bool {
        i32::MIN <= v <= i32::MAX
    }

    open spec fn dtype_spec() -> ScalarType {
        ScalarType::Int
    }

    proof fn lemma_fits(x: Self) {
    }

    fn zero() -> i32 {
        0
    }

    fn one() -> i32 {
        1
    }

    proof fn lemma_unit_quotient(y: i32) {
        lemma_trunc_div_one(y as int);
    }

    fn div(self, rhs: i32) -> i32 {
        self.checked_div(rhs).unwrap()
    }

    fn add(self, rhs: i32) -> i32 {
        self + rhs
    }

    fn sub(self, rhs: i32) -> i32 {
        self - rhs
    }

    fn mul(self, rhs: i32) -> i32 {
        self * rhs
    }

    fn le(self, rhs: i32) -> i32 {
        if self <= rhs {
            1
        } else {
            0
        }
    }
}

impl ElementwiseOp for i64 {
    open spec fn elem_val(self) -> int {
        self as int
    }

    open spec fn fits(v: int) -> bool {
        i64::MIN <= v <= i64::MAX
    }

    open spec fn dtype_spec() -> ScalarType {
        ScalarType::Long
    }

    proof fn lemma_fits(x: Self) {
    }

    fn zero() -> i64 {
        0
    }

    fn one() -> i64 {
        1
    }

    proof fn lemma_unit_quotient(y: i64) {
        lemma_trunc_div_one(y as int);
    }

    fn div(self, rhs: i64) -> i64 {
        self.checked_div(rhs).unwrap()
    }

    fn add(self, rhs: i64) -> i64 {
        self + rhs
    }

    fn sub(self, rhs: i64) -> i64 {
        self - rhs
    }

    fn mul(self, rhs: i64) -> i64 {
        self * rhs
    }

    fn le(self, rhs: i64) -> i64 {
        if self <= rhs {
            1
        } else {
            0
        }
    }
}

/// Size `p` of the shape `s` aligned at the right with a shape of rank `n`
/// (1 where `s` has no size there).
pub open spec fn aligned_dim(s: Seq<i32>, n: int, p: int) -> i32 {
    let off = n - s.len();
    if p < off {
        1
    } else {
        s[p - off]
    }
}

/// The rank of the broadcast of `a` and `b`.
pub open spec fn broadcast_rank(a: Seq<i32>, b: Seq<i32>) -> int {
    if a.len() >= b.len() {
        a.len() as int
    } else {
        b.len() as int
    }
}

/// `a` and `b` broadcast together: at every aligned position their sizes
/// agree or one of them is 1.
pub open spec fn broadcastable(a: Seq<i32>, b: Seq<i32>) -> bool {
    let n = broadcast_rank(a, b);
    forall|p: int|
        0 <= p < n ==> #[trigger] aligned_dim(a, n, p) == aligned_dim(b, n, p) || aligned_dim(a, n, p)
            == 1 || aligned_dim(b, n, p) == 1
}

/// The broadcast shape of `a` and `b`: at every aligned position the size
/// that is not 1, or 1.
pub open spec fn broadcast_shape(a: Seq<i32>, b: Seq<i32>) -> Seq<i32> {
    let n = broadcast_rank(a, b);
    Seq::new(
        n as nat,
        |p: int|
            if aligned_dim(a, n, p) == 1 {
                aligned_dim(b, n, p)
            } else {
                aligned_dim(a, n, p)
            },
    )
}

/// `s` broadcasts to the shape `o`: it has no more dimensions, and each of
/// its sizes is 1 or the aligned size of `o`.
pub open spec fn broadcasts_to(s: Seq<i32>, o: Seq<i32>) -> bool {
    &&& s.len() <= o.len()
    &&& forall|k: int|
        0 <= k < s.len() ==> #[trigger] s[k] == 1 || s[k] == o[o.len() - s.len() + k]
}

pub proof fn lemma_broadcast_shape_facts(a: Seq<i32>, b: Seq<i32>)
    requires
        broadcastable(a, b),
    ensures
        broadcasts_to(a, broadcast_shape(a, b)),
        broadcasts_to(b, broadcast_shape(a, b)),
        shape_nonneg(a) && shape_nonneg(b) ==> shape_nonneg(broadcast_shape(a, b)),
{
    let n = broadcast_rank(a, b);
    let o = broadcast_shape(a, b);
    assert forall|k: int| 0 <= k < a.len() implies #[trigger] a[k] == 1 || a[k] == o[o.len()
        - a.len() + k] by {
        let p = n - a.len() + k;
        assert(aligned_dim(a, n, p) == a[k]);
        assert(aligned_dim(a, n, p) == aligned_dim(b, n, p) || aligned_dim(a, n, p) == 1
            || aligned_dim(b, n, p) == 1);
    }
    assert forall|k: int| 0 <= k < b.len() implies #[trigger] b[k] == 1 || b[k] == o[o.len()
        - b.len() + k] by {
        let p = n - b.len() + k;
        assert(aligned_dim(b, n, p) == b[k]);
        assert(aligned_dim(a, n, p) == aligned_dim(b, n, p) || aligned_dim(a, n, p) == 1
            || aligned_dim(b, n, p) == 1);
    }
    if shape_nonneg(a) && shape_nonneg(b) {
        assert forall|p: int| 0 <= p < o.len() implies o[p] >= 0 by {
            assert(aligned_dim(a, n, p) >= 0);
            assert(aligned_dim(b, n, p) >= 0);
        }
    }
}

/// The broadcast shape of the shapes `sa` and `sb`, or `None` when they do
/// not broadcast together.
fn broadcast_target(sa: &Vec<i32>, sb: &Vec<i32>) -> (r: Option<Vec<i32>>)
    ensures
        r is Some <==> broadcastable(sa@, sb@),
        r matches Some(t) ==> t@ == broadcast_shape(sa@, sb@),
{
    let la = sa.len();
    let lb = sb.len();
    let n: usize = if la >= lb {
        la
    } else {
        lb
    };
    let ghost ns = n as int;
    let mut target: Vec<i32> = Vec::new();
    let mut p: usize = 0;
    while p < n
        invariant
            la == sa@.len(),
            lb == sb@.len(),
            n == broadcast_rank(sa@, sb@),
            ns == n,
            p <= n,
            target@.len() == p,
            forall|q: int| 0 <= q < p ==> #[trigger] target@[q] == broadcast_shape(sa@, sb@)[q],
            forall|q: int|
                0 <= q < p ==> #[trigger] aligned_dim(sa@, ns, q) == aligned_dim(sb@, ns, q)
                    || aligned_dim(sa@, ns, q) == 1 || aligned_dim(sb@, ns, q) == 1,
        decreases n - p,
    {
        let da: i32 = if p < n - la {
            1
        } else {
            sa[p - (n - la)]
        };
        let db: i32 = if p < n - lb {
            1
        } else {
            sb[p - (n - lb)]
        };
        assert(da == aligned_dim(sa@, ns, p as int));
        assert(db == aligned_dim(sb@, ns, p as int));
        if da != db && da != 1 && db != 1 {
            return None;
        }
        if da == 1 {
            target.push(db);
        } else {
            target.push(da);
        }
        p = p + 1;
    }
    proof {
        assert(target@ =~= broadcast_shape(sa@, sb@));
    }
    Some(target)
}

/// Resizes `out` to the broadcast shape of `a` and `b`.  Fails with
/// `InvalidArgument`, leaving `out` alone, when `a` and `b` do not
/// broadcast together; otherwise returns what `Tensor::resize` returns.
pub fn resize_to_broadcast_target_size<A: Copy, B: Copy, C: Copy>(
    a: &Tensor<A>,
    b: &Tensor<B>,
    out: &mut Tensor<C>,
) -> (r: Error)
    requires
        a.wf(),
        b.wf(),
        old(out).wf(),
    ensures
        final(out).wf(),
        final(out).dtype() == old(out).dtype(),
        final(out).dynamism_spec() == old(out).dynamism_spec(),
        final(out).capacity() == old(out).capacity(),
        final(out).allocation() == old(out).allocation(),
        r == Error::Success <==> broadcastable(a.shape(), b.shape()) && resize_allowed(
            old(out).shape(),
            old(out).dynamism_spec(),
            old(out).capacity(),
            broadcast_shape(a.shape(), b.shape()),
        ),
        r == Error::Success ==> final(out).shape() == broadcast_shape(a.shape(), b.shape()) || (
        old(out).shape().len() == 0 && final(out).shape() == old(out).shape()),
        r != Error::Success ==> final(out).shape() == old(out).shape() && final(out).elems()
            == old(out).elems(),
{
    match broadcast_target(a.sizes(), b.sizes()) {
        Some(target) => out.resize(&target),
        None => Error::InvalidArgument,
    }
}


/// The broadcast shape of three operands, `a` and `b` first.
pub open spec fn broadcast_shape3(a: Seq<i32>, b: Seq<i32>, c: Seq<i32>) -> Seq<i32> {
    broadcast_shape(broadcast_shape(a, b), c)
}

/// Three operands broadcast together.
pub open spec fn broadcastable3(a: Seq<i32>, b: Seq<i32>, c: Seq<i32>) -> bool {
    broadcastable(a, b) && broadcastable(broadcast_shape(a, b), c)
}

/// Broadcasting is transitive: what broadcasts to `m` broadcasts to every
/// shape that `m` broadcasts to.
pub proof fn lemma_broadcasts_to_trans(s: Seq<i32>, m: Seq<i32>, o: Seq<i32>)
    requires
        broadcasts_to(s, m),
        broadcasts_to(m, o),
    ensures
        broadcasts_to(s, o),
{
    assert forall|k: int| 0 <= k < s.len() implies #[trigger] s[k] == 1 || s[k] == o[o.len()
        - s.len() + k] by {
        let k2 = m.len() - s.len() + k;
        assert(m[k2] == 1 || m[k2] == o[o.len() - m.len() + k2]);
    }
}

/// Each of three broadcastable operands broadcasts to their broadcast shape,
/// which has no negative size when theirs have none.
pub proof fn lemma_broadcast_shape3_facts(a: Seq<i32>, b: Seq<i32>, c: Seq<i32>)
    requires
        broadcastable3(a, b, c),
    ensures
        broadcasts_to(a, broadcast_shape3(a, b, c)),
        broadcasts_to(b, broadcast_shape3(a, b, c)),
        broadcasts_to(c, broadcast_shape3(a, b, c)),
        shape_nonneg(a) && shape_nonneg(b) && shape_nonneg(c) ==> shape_nonneg(
            broadcast_shape3(a, b, c),
        ),
{
    let ab = broadcast_shape(a, b);
    lemma_broadcast_shape_facts(a, b);
    lemma_broadcast_shape_facts(ab, c);
    lemma_broadcasts_to_trans(a, ab, broadcast_shape3(a, b, c));
    lemma_broadcasts_to_trans(b, ab, broadcast_shape3(a, b, c));
}

/// Resizes `out` to the broadcast shape of `a`, `b` and `c`.  Fails with
/// `InvalidArgument`, leaving `out` alone, when they do not broadcast
/// together; otherwise returns what `Tensor::resize` returns.
pub fn resize_to_broadcast_target_size3<A: Copy, B: Copy, C: Copy, D: Copy>(
    a: &Tensor<A>,
    b: &Tensor<B>,
    c: &Tensor<C>,
    out: &mut Tensor<D>,
) -> (r: Error)
    requires
        a.wf(),
        b.wf(),
        c.wf(),
        old(out).wf(),
    ensures
        final(out).wf(),
        final(out).dtype() == old(out).dtype(),
        final(out).dynamism_spec() == old(out).dynamism_spec(),
        final(out).capacity() == old(out).capacity(),
        r == Error::Success <==> broadcastable3(a.shape(), b.shape(), c.shape()) && resize_allowed(
            old(out).shape(),
            old(out).dynamism_spec(),
            old(out).capacity(),
            broadcast_shape3(a.shape(), b.shape(), c.shape()),
        ),
        r == Error::Success ==> final(out).shape() == broadcast_shape3(a.shape(), b.shape(), c.shape()),
        r != Error::Success ==> final(out).shape() == old(out).shape() && final(out).elems()
            == old(out).elems(),
{
    match broadcast_target(a.sizes(), b.sizes()) {
        Some(ab) => match broadcast_target(&ab, c.sizes()) {
            Some(target) => {
                let r = out.resize(&target);
                proof {
                    if r == Error::Success && old(out).shape().len() == 0 {
                        assert(target@ =~= old(out).shape());
                    }
                }
                r
            },
            None => Error::InvalidArgument,
        },
        None => Error::InvalidArgument,
    }
}

/// Resizes `out` to the shape of `a`.  Succeeds exactly when `out` can take
/// that shape, and leaves `out` alone otherwise.
pub fn resize_like<A: Copy, C: Copy>(a: &Tensor<A>, out: &mut Tensor<C>) -> (r: Error)
    requires
        a.wf(),
        old(out).wf(),
    ensures
        final(out).wf(),
        final(out).dtype() == old(out).dtype(),
        final(out).dynamism_spec() == old(out).dynamism_spec(),
        final(out).capacity() == old(out).capacity(),
        r == Error::Success <==> resize_allowed(
            old(out).shape(),
            old(out).dynamism_spec(),
            old(out).capacity(),
            a.shape(),
        ),
        r == Error::Success ==> final(out).shape() == a.shape(),
        r != Error::Success ==> final(out).shape() == old(out).shape() && final(out).elems()
            == old(out).elems(),
{
    let r = out.resize(a.sizes());
    proof {
        if r == Error::Success && old(out).shape().len() == 0 {
            assert(a.shape() =~= old(out).shape());
        }
    }
    r
}

/// The flat index into a row-major tensor of shape `s` of the element that
/// position `i` of the row-major shape `os` reads when `s` is broadcast to
/// `os` (aligned at the right; a size of 1 repeats its one entry).
pub open spec fn broadcast_index(os: Seq<i32>, s: Seq<i32>, i: int) -> int
    decreases os.len(),
{
    if os.len() == 0 {
        0
    } else {
        let d = os.last() as int;
        let sl: int = if s.len() > 0 {
            s.last() as int
        } else {
            1
        };
        let sd = if s.len() > 0 {
            s.drop_last()
        } else {
            s
        };
        let c = if sl == 1 {
            0
        } else {
            i % d
        };
        broadcast_index(os.drop_last(), sd, i / d) * sl + c
    }
}

proof fn lemma_numel_pos_entries(s: Seq<i32>)
    requires
        shape_nonneg(s),
        shape_numel(s) > 0,
    ensures
        forall|k: int| 0 <= k < s.len() ==> s[k] >= 1,
    decreases s.len(),
{
    if s.len() > 0 {
        lemma_shape_numel_nonneg(s.drop_last());
        assert(shape_numel(s.drop_last()) > 0 && s.last() > 0) by (nonlinear_arith)
            requires
                shape_numel(s) == shape_numel(s.drop_last()) * s.last(),
                shape_numel(s) > 0,
                shape_numel(s.drop_last()) >= 0,
                s.last() >= 0,
        ;
        lemma_numel_pos_entries(s.drop_last());
        assert forall|k: int| 0 <= k < s.len() implies s[k] >= 1 by {
            if k < s.len() - 1 {
                assert(s.drop_last()[k] == s[k]);
            }
        }
    }
}

proof fn lemma_entries_pos_numel(s: Seq<i32>)
    requires
        forall|k: int| 0 <= k < s.len() ==> s[k] >= 1,
    ensures
        shape_numel(s) >= 1,
    decreases s.len(),
{
    if s.len() > 0 {
        assert forall|k: int| 0 <= k < s.len() - 1 implies s.drop_last()[k] >= 1 by {
            assert(s.drop_last()[k] == s[k]);
        }
        lemma_entries_pos_numel(s.drop_last());
        assert(shape_numel(s.drop_last()) * s.last() >= 1) by (nonlinear_arith)
            requires
                shape_numel(s.drop_last()) >= 1,
                s.last() >= 1,
        ;
    }
}

/// The flat index into `s` that position `i` of `os` reads (see
/// `broadcast_index`); it lies inside `s`.
pub fn broadcast_index_of(os: &Vec<i32>, s: &Vec<i32>, i: usize) -> (r: usize)
    requires
        broadcasts_to(s@, os@),
        shape_nonneg(os@),
        i < shape_numel(os@),
        shape_numel(s@) <= usize::MAX,
    ensures
        r == broadcast_index(os@, s@, i as int),
        r < shape_numel(s@),
{
    let ghost o = os@;
    let ghost sv = s@;
    proof {
        lemma_numel_pos_entries(o);
        assert forall|k: int| 0 <= k < sv.len() implies sv[k] >= 1 by {
            assert(sv[k] == 1 || sv[k] == o[o.len() - sv.len() + k]);
        }
    }
    let mut p: usize = os.len();
    let mut q: usize = s.len();
    let mut rem: usize = i;
    let mut acc: usize = 0;
    let mut mul: usize = 1;
    proof {
        assert(o.take(p as int) =~= o);
        assert(sv.take(q as int) =~= sv);
        assert(sv.subrange(q as int, sv.len() as int) =~= Seq::<i32>::empty());
        assert(shape_numel(Seq::<i32>::empty()) == 1);
    }
    while p > 0
        invariant
            o == os@,
            sv == s@,
            broadcasts_to(sv, o),
            shape_nonneg(o),
            forall|k: int| 0 <= k < sv.len() ==> sv[k] >= 1,
            shape_numel(sv) <= usize::MAX,
            p <= o.len(),
            q <= sv.len(),
            sv.len() - q == o.len() - p || (q == 0 && sv.len() - q <= o.len() - p),
            rem < shape_numel(o.take(p as int)),
            acc < mul,
            mul == shape_numel(sv.subrange(q as int, sv.len() as int)),
            broadcast_index(o, sv, i as int) == broadcast_index(o.take(p as int), sv.take(q as int), rem as int) * mul + acc,
        decreases p,
    {
        let d = os[p - 1];
        let ghost op = o.take(p as int);
        let ghost sq = sv.take(q as int);
        let ghost qd: int = if q > 0 {
            q - 1
        } else {
            0
        };
        proof {
            assert(op.drop_last() =~= o.take(p - 1));
            assert(op.last() == d);
            lemma_shape_numel_nonneg(o.take(p - 1));
            assert(d >= 0);
            assert(shape_numel(op) == shape_numel(o.take(p - 1)) * d);
            assert(d > 0) by (nonlinear_arith)
                requires
                    shape_numel(op) == shape_numel(o.take(p - 1)) * d,
                    rem < shape_numel(op),
                    rem >= 0,
                    d >= 0,
            ;
        }
        let dd = d as usize;
        let c = rem % dd;
        let next = rem / dd;
        let sl: i32 = if q > 0 {
            s[q - 1]
        } else {
            1
        };
        proof {
            if q > 0 {
                assert(sq.drop_last() =~= sv.take(q - 1));
                assert(sq.last() == sl);
                assert(sl == 1 || sl == o[o.len() - sv.len() + (q - 1)]);
                assert(o.len() - sv.len() + (q - 1) == p - 1);
                assert(o.take(p as int)[p - 1] == o[p - 1]);
            }
            assert(sl == 1 || sl == d);
            assert(next < shape_numel(o.take(p - 1))) by (nonlinear_arith)
                requires
                    rem < shape_numel(o.take(p - 1)) * d,
                    d > 0,
                    next as int == (rem as int) / (d as int),
            ;
            let tail = sv.subrange(qd, sv.len() as int);
            if q > 0 {
                lemma_shape_numel_split(tail, 1);
                assert(tail.subrange(0, 1).drop_last() =~= Seq::<i32>::empty());
                assert(tail.subrange(0, 1).last() == sl);
                assert(shape_numel(tail.subrange(0, 1)) == shape_numel(
                    tail.subrange(0, 1).drop_last(),
                ) * tail.subrange(0, 1).last());
                assert(shape_numel(Seq::<i32>::empty()) == 1);
                assert(shape_numel(tail.subrange(0, 1)) == sl);
                assert(tail.subrange(1, tail.len() as int) =~= sv.subrange(q as int, sv.len() as int));
                assert(sl * mul == mul * sl) by (nonlinear_arith);
                assert(shape_numel(tail) == mul * sl);
            } else {
                assert(tail =~= sv.subrange(q as int, sv.len() as int));
                assert(shape_numel(tail) == mul * sl);
            }
            lemma_shape_numel_split(sv, qd);
            assert(sv.subrange(qd, sv.len() as int) =~= tail);
            assert forall|k: int| 0 <= k < qd implies sv.subrange(0, qd)[k] >= 1 by {
                assert(sv.subrange(0, qd)[k] == sv[k]);
            }
            lemma_entries_pos_numel(sv.subrange(0, qd));
        }
        let ci: usize = if sl == 1 {
            0
        } else {
            c
        };
        proof {
            assert(ci < sl);
            assert(acc + ci * mul < mul * sl) by (nonlinear_arith)
                requires
                    acc < mul,
                    ci < sl,
                    mul >= 1,
            ;
            assert(mul * sl <= shape_numel(sv)) by (nonlinear_arith)
                requires
                    shape_numel(sv) == shape_numel(sv.subrange(0, qd)) * (mul * sl),
                    shape_numel(sv.subrange(0, qd)) >= 1,
                    mul * sl >= 1,
            ;
            let ci_i: int = if sl == 1 {
                0
            } else {
                rem as int % d as int
            };
            assert(ci == ci_i);
            let sd = if q > 0 {
                sv.take(q - 1)
            } else {
                sq
            };
            assert(broadcast_index(op, sq, rem as int) == broadcast_index(o.take(p - 1), sd, next as int) * sl + ci_i);
            assert(sd =~= sv.take(qd));
            assert((broadcast_index(o.take(p - 1), sd, next as int) * sl + ci) * mul + acc
                == broadcast_index(o.take(p - 1), sd, next as int) * (mul * sl) + (acc + ci * mul))
                by (nonlinear_arith);
        }
        acc = acc + ci * mul;
        mul = mul * (sl as usize);
        rem = next;
        if q > 0 {
            q = q - 1;
        }
        p = p - 1;
    }
    proof {
        assert(o.take(0) =~= Seq::<i32>::empty());
        assert(sv.subrange(q as int, sv.len() as int) =~= sv) by {
            assert(q == 0);
        }
    }
    acc
}


/// The operation an elementwise kernel applies to a pair `(x, y)`:
/// `x * y`, `x + alpha * y`, `x - alpha * y`, the comparison `x <= y`
/// as `1` or `0`, or `x / y` rounded toward zero.
#[derive(Clone, Copy, Debug, PartialEq, Eq, Structural)]
pub enum BinaryKind {
    Mul,
    Add,
    Sub,
    Le,
    Div,
}

/// The value `kind` gives for `x` and `y` with scale `alpha`.
pub open spec fn op_value(kind: BinaryKind, alpha: int, x: int, y: int) -> int {
    match kind {
        BinaryKind::Mul => x * y,
        BinaryKind::Add => x + alpha * y,
        BinaryKind::Sub => x - alpha * y,
        BinaryKind::Le => if x <= y {
            1
        } else {
            0
        },
        BinaryKind::Div => trunc_div(x, y),
    }
}

/// Every intermediate value of `kind` on `x` and `y` is a value of `T`.
pub open spec fn op_fits<T: ElementwiseOp>(kind: BinaryKind, alpha: int, x: int, y: int) -> bool {
    match kind {
        BinaryKind::Mul => T::fits(x * y),
        BinaryKind::Add => T::fits(alpha * y) && T::fits(x + alpha * y),
        BinaryKind::Sub => T::fits(alpha * y) && T::fits(x - alpha * y),
        BinaryKind::Le => true,
        BinaryKind::Div => y != 0 && T::fits(trunc_div(x, y)),
    }
}

/// `kind` applied to `x` and `y` with scale `alpha`.
pub fn apply_op<T: ElementwiseOp>(kind: BinaryKind, alpha: T, x: T, y: T) -> (r: T)
    requires
        op_fits::<T>(kind, alpha.elem_val(), x.elem_val(), y.elem_val()),
    ensures
        r.elem_val() == op_value(kind, alpha.elem_val(), x.elem_val(), y.elem_val()),
{
    match kind {
        BinaryKind::Mul => x.mul(y),
        BinaryKind::Add => x.add(alpha.mul(y)),
        BinaryKind::Sub => x.sub(alpha.mul(y)),
        BinaryKind::Le => x.le(y),
        BinaryKind::Div => x.div(y),
    }
}

/// The values of the elements of `s`.
pub open spec fn elem_vals<T: ElementwiseOp>(s: Seq<T>) -> Seq<int> {
    s.map_values(|x: T| x.elem_val())
}

/// `out[i] := x[i] (kind) s` for the first `n` elements of `out`
/// (`kind` applied with `s` on the right), or `s (kind) x[i]` when
/// `scalar_left`.
pub fn map_with_scalar<T: ElementwiseOp>(
    kind: BinaryKind,
    alpha: T,
    x: &Tensor<T>,
    s: T,
    scalar_left: bool,
    out: &mut Tensor<T>,
)
    requires
        x.wf(),
        old(out).wf(),
        old(out).elems().len() <= x.elems().len(),
        forall|i: int|
            0 <= i < old(out).elems().len() ==> op_fits::<T>(
                kind,
                alpha.elem_val(),
                if scalar_left { s.elem_val() } else { (#[trigger] x.elems()[i]).elem_val() },
                if scalar_left { x.elems()[i].elem_val() } else { s.elem_val() },
            ),
    ensures
        final(out).wf(),
        final(out).shape() == old(out).shape(),
        final(out).dtype() == old(out).dtype(),
        final(out).dynamism_spec() == old(out).dynamism_spec(),
        final(out).capacity() == old(out).capacity(),
        forall|i: int|
            0 <= i < old(out).elems().len() ==> (#[trigger] final(out).elems()[i]).elem_val()
                == op_value(
                kind,
                alpha.elem_val(),
                if scalar_left { s.elem_val() } else { x.elems()[i].elem_val() },
                if scalar_left { x.elems()[i].elem_val() } else { s.elem_val() },
            ),
{
    proof {
        x.lemma_wf();
        old(out).lemma_wf();
    }
    let n = out.numel();
    let mut i: usize = 0;
    while i < n
        invariant
            x.wf(),
            out.wf(),
            n == out.elems().len(),
            n == old(out).elems().len(),
            n <= x.elems().len(),
            i <= n,
            out.shape() == old(out).shape(),
            out.dtype() == old(out).dtype(),
            out.dynamism_spec() == old(out).dynamism_spec(),
            out.capacity() == old(out).capacity(),
            forall|j: int|
                0 <= j < n ==> op_fits::<T>(
                    kind,
                    alpha.elem_val(),
                    if scalar_left { s.elem_val() } else { (#[trigger] x.elems()[j]).elem_val() },
                    if scalar_left { x.elems()[j].elem_val() } else { s.elem_val() },
                ),
            forall|j: int|
                0 <= j < i ==> (#[trigger] out.elems()[j]).elem_val() == op_value(
                    kind,
                    alpha.elem_val(),
                    if scalar_left { s.elem_val() } else { x.elems()[j].elem_val() },
                    if scalar_left { x.elems()[j].elem_val() } else { s.elem_val() },
                ),
        decreases n - i,
    {
        let xi = x.at(i);
        proof {
            assert(op_fits::<T>(
                kind,
                alpha.elem_val(),
                if scalar_left { s.elem_val() } else { x.elems()[i as int].elem_val() },
                if scalar_left { x.elems()[i as int].elem_val() } else { s.elem_val() },
            ));
        }
        let v = if scalar_left {
            apply_op(kind, alpha, s, xi)
        } else {
            apply_op(kind, alpha, xi, s)
        };
        out.set(i, v);
        i = i + 1;
    }
}

/// `out := a (kind) s` for a scalar `s`, with `s` on the right, after
/// `out` takes the shape of `a`.  Fails with `InvalidArgument`, leaving
/// `out` alone, when `out` cannot take that shape.
pub fn map_scalar_out<T: ElementwiseOp>(
    ctx: &mut KernelRuntimeContext,
    kind: BinaryKind,
    alpha: T,
    a: &Tensor<T>,
    s: T,
    out: &mut Tensor<T>,
)
    requires
        a.wf(),
        old(out).wf(),
        forall|i: int|
            0 <= i < shape_numel(a.shape()) ==> op_fits::<T>(
                kind,
                alpha.elem_val(),
                (#[trigger] a.elems()[i]).elem_val(),
                s.elem_val(),
            ),
    ensures
        final(out).wf(),
        final(out).dtype() == old(out).dtype(),
        final(out).dynamism_spec() == old(out).dynamism_spec(),
        final(out).capacity() == old(out).capacity(),
        ({
            let ok = resize_allowed(
                old(out).shape(),
                old(out).dynamism_spec(),
                old(out).capacity(),
                a.shape(),
            );
            &&& final(ctx).failure_spec() == if ok {
                old(ctx).failure_spec()
            } else {
                Error::InvalidArgument
            }
            &&& !ok ==> final(out).shape() == old(out).shape() && final(out).elems()
                == old(out).elems()
            &&& ok ==> final(out).shape() == a.shape() && forall|i: int|
                0 <= i < shape_numel(a.shape()) ==> (#[trigger] final(out).elems()[i]).elem_val()
                    == op_value(kind, alpha.elem_val(), a.elems()[i].elem_val(), s.elem_val())
        }),
{
    if resize_like(a, out) != Error::Success {
        ctx.fail(Error::InvalidArgument);
        return;
    }
    proof {
        a.lemma_wf();
        out.lemma_wf();
    }
    map_with_scalar(kind, alpha, a, s, false, out);
}

/// `out[i] := a[i] (kind) b[i]` for every element of `out`.
pub fn map_1d<T: ElementwiseOp>(kind: BinaryKind, alpha: T, a: &Tensor<T>, b: &Tensor<T>, out: &mut Tensor<T>)
    requires
        a.wf(),
        b.wf(),
        old(out).wf(),
        old(out).elems().len() <= a.elems().len(),
        old(out).elems().len() <= b.elems().len(),
        forall|i: int|
            0 <= i < old(out).elems().len() ==> op_fits::<T>(
                kind,
                alpha.elem_val(),
                (#[trigger] a.elems()[i]).elem_val(),
                b.elems()[i].elem_val(),
            ),
    ensures
        final(out).wf(),
        final(out).shape() == old(out).shape(),
        final(out).dtype() == old(out).dtype(),
        final(out).dynamism_spec() == old(out).dynamism_spec(),
        final(out).capacity() == old(out).capacity(),
        forall|i: int|
            0 <= i < old(out).elems().len() ==> (#[trigger] final(out).elems()[i]).elem_val()
                == op_value(kind, alpha.elem_val(), a.elems()[i].elem_val(), b.elems()[i].elem_val()),
{
    proof {
        old(out).lemma_wf();
    }
    let n = out.numel();
    let mut i: usize = 0;
    while i < n
        invariant
            a.wf(),
            b.wf(),
            out.wf(),
            n == out.elems().len(),
            n == old(out).elems().len(),
            n <= a.elems().len(),
            n <= b.elems().len(),
            i <= n,
            out.shape() == old(out).shape(),
            out.dtype() == old(out).dtype(),
            out.dynamism_spec() == old(out).dynamism_spec(),
            out.capacity() == old(out).capacity(),
            forall|j: int|
                0 <= j < n ==> op_fits::<T>(
                    kind,
                    alpha.elem_val(),
                    (#[trigger] a.elems()[j]).elem_val(),
                    b.elems()[j].elem_val(),
                ),
            forall|j: int|
                0 <= j < i ==> (#[trigger] out.elems()[j]).elem_val() == op_value(
                    kind,
                    alpha.elem_val(),
                    a.elems()[j].elem_val(),
                    b.elems()[j].elem_val(),
                ),
        decreases n - i,
    {
        let v = apply_op(kind, alpha, a.at(i), b.at(i));
        out.set(i, v);
        i = i + 1;
    }
}

/// Every position of the broadcast shape `o` reads elements of `a` and `b`
/// whose `kind` fits.
pub open spec fn broadcast_fits<T: ElementwiseOp>(
    kind: BinaryKind,
    alpha: int,
    a: Tensor<T>,
    b: Tensor<T>,
    o: Seq<i32>,
) -> bool {
    forall|i: int|
        0 <= i < shape_numel(o) ==> op_fits::<T>(
            kind,
            alpha,
            a.elems()[#[trigger] broadcast_index(o, a.shape(), i)].elem_val(),
            b.elems()[broadcast_index(o, b.shape(), i)].elem_val(),
        )
}

/// Every position `i` of `out` holds `a^[i] (kind) b^[i]`, for `a^`, `b^`
/// the operands broadcast to the shape `o` of `out`.
pub open spec fn broadcast_result<T: ElementwiseOp>(
    kind: BinaryKind,
    alpha: int,
    a: Tensor<T>,
    b: Tensor<T>,
    o: Seq<i32>,
    out: Seq<T>,
) -> bool {
    forall|i: int|
        0 <= i < shape_numel(o) ==> (#[trigger] out[i]).elem_val() == op_value(
            kind,
            alpha,
            a.elems()[broadcast_index(o, a.shape(), i)].elem_val(),
            b.elems()[broadcast_index(o, b.shape(), i)].elem_val(),
        )
}

/// `out[i] := a^[i] (kind) b^[i]` over the shape of `out`, where `a^` and
/// `b^` are `a` and `b` broadcast to it.
pub fn map_broadcast<T: ElementwiseOp>(
    kind: BinaryKind,
    alpha: T,
    a: &Tensor<T>,
    b: &Tensor<T>,
    out: &mut Tensor<T>,
)
    requires
        a.wf(),
        b.wf(),
        old(out).wf(),
        broadcasts_to(a.shape(), old(out).shape()),
        broadcasts_to(b.shape(), old(out).shape()),
        broadcast_fits::<T>(kind, alpha.elem_val(), *a, *b, old(out).shape()),
    ensures
        final(out).wf(),
        final(out).shape() == old(out).shape(),
        final(out).dtype() == old(out).dtype(),
        final(out).dynamism_spec() == old(out).dynamism_spec(),
        final(out).capacity() == old(out).capacity(),
        broadcast_result::<T>(kind, alpha.elem_val(), *a, *b, old(out).shape(), final(out).elems()),
{
    proof {
        a.lemma_wf();
        b.lemma_wf();
        old(out).lemma_wf();
    }
    let ghost o = old(out).shape();
    let n = out.numel();
    let os: Vec<i32> = out.sizes().clone();
    proof {
        assert(os@ =~= o);
    }
    let mut i: usize = 0;
    while i < n
        invariant
            a.wf(),
            b.wf(),
            out.wf(),
            os@ == o,
            o == old(out).shape(),
            shape_nonneg(o),
            n == shape_numel(o),
            n == out.elems().len(),
            shape_numel(a.shape()) == a.elems().len(),
            shape_numel(b.shape()) == b.elems().len(),
            a.elems().len() <= usize::MAX,
            b.elems().len() <= usize::MAX,
            broadcasts_to(a.shape(), o),
            broadcasts_to(b.shape(), o),
            broadcast_fits::<T>(kind, alpha.elem_val(), *a, *b, o),
            i <= n,
            out.shape() == old(out).shape(),
            out.dtype() == old(out).dtype(),
            out.dynamism_spec() == old(out).dynamism_spec(),
            out.capacity() == old(out).capacity(),
            forall|j: int|
                0 <= j < i ==> (#[trigger] out.elems()[j]).elem_val() == op_value(
                    kind,
                    alpha.elem_val(),
                    a.elems()[broadcast_index(o, a.shape(), j)].elem_val(),
                    b.elems()[broadcast_index(o, b.shape(), j)].elem_val(),
                ),
        decreases n - i,
    {
        let ia = broadcast_index_of(&os, a.sizes(), i);
        let ib = broadcast_index_of(&os, b.sizes(), i);
        proof {
            assert(op_fits::<T>(
                kind,
                alpha.elem_val(),
                a.elems()[broadcast_index(o, a.shape(), i as int)].elem_val(),
                b.elems()[broadcast_index(o, b.shape(), i as int)].elem_val(),
            ));
        }
        let v = apply_op(kind, alpha, a.at(ia), b.at(ib));
        out.set(i, v);
        i = i + 1;
    }
}


proof fn lemma_numel_one_entries(s: Seq<i32>)
    requires
        shape_nonneg(s),
        shape_numel(s) == 1,
    ensures
        forall|k: int| 0 <= k < s.len() ==> s[k] == 1,
    decreases s.len(),
{
    if s.len() > 0 {
        lemma_shape_numel_nonneg(s.drop_last());
        assert(shape_numel(s.drop_last()) == 1 && s.last() == 1) by (nonlinear_arith)
            requires
                shape_numel(s.drop_last()) * s.last() == 1,
                shape_numel(s.drop_last()) >= 0,
                s.last() >= 0,
        ;
        lemma_numel_one_entries(s.drop_last());
        assert forall|k: int| 0 <= k < s.len() implies s[k] == 1 by {
            if k < s.len() - 1 {
                assert(s.drop_last()[k] == s[k]);
            }
        }
    }
}

/// Broadcasting does not depend on the order of the operands.
pub proof fn lemma_broadcast_symmetric(a: Seq<i32>, b: Seq<i32>)
    ensures
        broadcastable(a, b) == broadcastable(b, a),
        broadcastable(a, b) ==> broadcast_shape(a, b) == broadcast_shape(b, a),
{
    let n = broadcast_rank(a, b);
    assert(broadcast_rank(b, a) == n);
    if broadcastable(a, b) {
        assert forall|p: int| 0 <= p < n implies #[trigger] aligned_dim(b, n, p) == aligned_dim(a, n, p)
            || aligned_dim(b, n, p) == 1 || aligned_dim(a, n, p) == 1 by {
            assert(aligned_dim(a, n, p) == aligned_dim(b, n, p) || aligned_dim(a, n, p) == 1
                || aligned_dim(b, n, p) == 1);
        }
        assert forall|p: int| 0 <= p < n implies #[trigger] broadcast_shape(a, b)[p] == broadcast_shape(
            b,
            a,
        )[p] by {
            assert(aligned_dim(a, n, p) == aligned_dim(b, n, p) || aligned_dim(a, n, p) == 1
                || aligned_dim(b, n, p) == 1);
        }
        assert(broadcast_shape(a, b) =~= broadcast_shape(b, a));
    }
    if broadcastable(b, a) {
        assert forall|p: int| 0 <= p < n implies #[trigger] aligned_dim(a, n, p) == aligned_dim(b, n, p)
            || aligned_dim(a, n, p) == 1 || aligned_dim(b, n, p) == 1 by {
            assert(aligned_dim(b, n, p) == aligned_dim(a, n, p) || aligned_dim(b, n, p) == 1
                || aligned_dim(a, n, p) == 1);
        }
    }
}

/// Broadcasting against a one-element shape keeps the element count.
pub proof fn lemma_broadcast_with_single(a: Seq<i32>, b: Seq<i32>)
    requires
        shape_nonneg(a),
        shape_nonneg(b),
        shape_numel(b) == 1,
    ensures
        broadcastable(a, b),
        broadcastable(b, a),
        shape_numel(broadcast_shape(a, b)) == shape_numel(a),
        shape_numel(broadcast_shape(b, a)) == shape_numel(a),
{
    lemma_numel_one_entries(b);
    let n = broadcast_rank(a, b);
    assert forall|p: int| 0 <= p < n implies #[trigger] aligned_dim(b, n, p) == 1 by {}
    assert(broadcast_rank(b, a) == n);
    let o = broadcast_shape(a, b);
    let o2 = broadcast_shape(b, a);
    let k = n - a.len();
    assert forall|p: int| 0 <= p < n implies o[p] == aligned_dim(a, n, p) && o2[p] == aligned_dim(a, n, p) by {
        assert(aligned_dim(b, n, p) == 1);
    }
    lemma_shape_numel_split(o, k);
    lemma_shape_numel_split(o2, k);
    lemma_shape_numel_ones(o.subrange(0, k));
    lemma_shape_numel_ones(o2.subrange(0, k));
    assert(o.subrange(k, n) =~= a);
    assert(o2.subrange(k, n) =~= a);
}


/// A shape of 1s followed by `e` has the element count of `e`.
proof fn lemma_ones_prefix_numel(s: Seq<i32>, k: int)
    requires
        0 <= k <= s.len(),
        forall|j: int| 0 <= j < k ==> s[j] == 1,
    ensures
        shape_numel(s) == shape_numel(s.subrange(k, s.len() as int)),
{
    lemma_shape_numel_split(s, k);
    lemma_shape_numel_ones(s.subrange(0, k));
}

/// When the path selector treats two broadcastable shapes of one element
/// type as flat, their broadcast has as many elements as each of them.
pub proof fn lemma_flat_path_numel(a: Seq<i32>, b: Seq<i32>)
    requires
        shape_nonneg(a),
        shape_nonneg(b),
        broadcastable(a, b),
        a == b || (shape_numel(a) == shape_numel(b) && (shape_numel(a) == shape_numel(
            broadcast_shape(a, b),
        ) || crate::binary_ops::effective_shape(a) == crate::binary_ops::effective_shape(b))),
    ensures
        shape_numel(broadcast_shape(a, b)) == shape_numel(a),
        shape_numel(broadcast_shape(a, b)) == shape_numel(b),
{
    let o = broadcast_shape(a, b);
    let n = broadcast_rank(a, b);
    if a == b {
        assert(o =~= a);
    } else if shape_numel(a) == shape_numel(o) {
    } else {
        crate::binary_ops::internal::lemma_leading_ones_end(a);
        crate::binary_ops::internal::lemma_leading_ones_end(b);
        let ea = crate::binary_ops::internal::leading_ones_end_spec(a) as int;
        let eb = crate::binary_ops::internal::leading_ones_end_spec(b) as int;
        let e = a.subrange(ea, a.len() as int);
        assert(e == b.subrange(eb, b.len() as int));
        let m = e.len() as int;
        assert forall|p: int| 0 <= p < n implies o[p] == (if p < n - m { 1i32 } else { e[p - (n - m)] }) by {
            if p >= n - m {
                assert(aligned_dim(a, n, p) == a[p - (n - a.len())]);
                assert(a[p - (n - a.len())] == e[p - (n - m)]);
                assert(aligned_dim(b, n, p) == b[p - (n - b.len())]);
                assert(b.subrange(eb, b.len() as int)[p - (n - m)] == b[p - (n - b.len())]);
            } else {
                if p >= n - a.len() {
                    assert(p - (n - a.len()) < ea);
                }
                if p >= n - b.len() {
                    assert(p - (n - b.len()) < eb);
                }
                assert(aligned_dim(a, n, p) == 1);
                assert(aligned_dim(b, n, p) == 1);
            }
        }
        lemma_ones_prefix_numel(o, n - m);
        assert(o.subrange(n - m, n) =~= e);
        lemma_ones_prefix_numel(a, ea);
        lemma_ones_prefix_numel(b, eb);
    }
}

} // verus!
