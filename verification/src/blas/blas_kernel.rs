//! GEMM micro-kernels and the reductions they are built from, for integer
//! element types.

use vstd::prelude::*;

pub mod internal;

verus! {

/// Sum of a sequence.
pub open spec fn seq_sum(s: Seq<int>) -> int
    decreases s.len(),
{
    if s.len() == 0 {
        0
    } else {
        seq_sum(s.drop_last()) + s.last()
    }
}

/// `|v|`.
pub open spec fn abs(v: int) -> int {
    if v < 0 {
        -v
    } else {
        v
    }
}

/// `v` is representable in a two's-complement accumulator whose largest
/// value is `bound` (its smallest is `-bound - 1`).
pub open spec fn within(v: int, bound: int) -> bool {
    -bound - 1 <= v <= bound
}

/// Sum of the magnitudes of a sequence.
pub open spec fn seq_abs_sum(s: Seq<int>) -> int
    decreases s.len(),
{
    if s.len() == 0 {
        0
    } else {
        seq_abs_sum(s.drop_last()) + abs(s.last())
    }
}

pub proof fn lemma_abs_sum_bounds(s: Seq<int>)
    ensures
        seq_abs_sum(s) >= 0,
        abs(seq_sum(s)) <= seq_abs_sum(s),
    decreases s.len(),
{
    if s.len() > 0 {
        lemma_abs_sum_bounds(s.drop_last());
    }
}

/// Accumulator arithmetic (the type a GEMM sums in), seen through its
/// integer value.
pub trait GemmOp: Copy {
    /// The value.
    spec fn op_val(self) -> int;

    /// The largest representable value; the smallest is `-bound() - 1`.
    spec fn bound() -> int;

    proof fn lemma_bound()
        ensures
            Self::bound() >= 1,
    ;

    fn zero() -> (r: Self)
        ensures
            r.op_val() == 0,
    ;

    fn one() -> (r: Self)
        ensures
            r.op_val() == 1,
    ;

    fn add(self, rhs: Self) -> (r: Self)
        requires
            within(self.op_val() + rhs.op_val(), Self::bound()),
        ensures
            r.op_val() == self.op_val() + rhs.op_val(),
    ;

    fn mul(self, rhs: Self) -> (r: Self)
        requires
            within(self.op_val() * rhs.op_val(), Self::bound()),
        ensures
            r.op_val() == self.op_val() * rhs.op_val(),
    ;

    fn add_assign(&mut self, rhs: Self)
        requires
            within(old(self).op_val() + rhs.op_val(), Self::bound()),
        ensures
            final(self).op_val() == old(self).op_val() + rhs.op_val(),
    ;

    fn mul_assign(&mut self, rhs: Self)
        requires
            within(old(self).op_val() * rhs.op_val(), Self::bound()),
        ensures
            final(self).op_val() == old(self).op_val() * rhs.op_val(),
    ;

    /// The two values are equal.
    fn op_eq(self, rhs: Self) -> (r: bool)
        ensures
            r == (self.op_val() == rhs.op_val()),
    ;
}

/// GEMM element types, with the accumulator type they are summed in.
pub trait GemmScalar: Copy {
    type Op: GemmOp;

    /// The value.
    spec fn scalar_val(self) -> int;

    /// The value an accumulator value `v` turns into when stored back as an
    /// element.
    spec fn narrow(v: int) -> int;

    /// Elements are summed in a wider accumulator type.
    spec fn reduced_spec() -> bool;

    proof fn lemma_roundtrip(x: Self)
        ensures
            Self::narrow(x.scalar_val()) == x.scalar_val(),
    ;

    /// Every element value is an accumulator value.
    proof fn lemma_scalar_within(x: Self)
        ensures
            within(x.scalar_val(), <Self::Op as GemmOp>::bound()),
    ;

    proof fn lemma_narrow(v: int)
        ensures
            v == 0 ==> Self::narrow(v) == 0,
            !Self::reduced_spec() && within(v, <Self::Op as GemmOp>::bound()) ==> Self::narrow(v)
                == v,
    ;

    /// Elements are summed in a wider accumulator type.
    fn reduced() -> (r: bool)
        ensures
            r == Self::reduced_spec(),
    ;

    fn to_op(self) -> (r: Self::Op)
        ensures
            r.op_val() == self.scalar_val(),
    ;

    fn from_op(v: Self::Op) -> (r: Self)
        ensures
            r.scalar_val() == Self::narrow(v.op_val()),
    ;

    fn mul_op(self, rhs: Self::Op) -> (r: Self::Op)
        requires
            within(self.scalar_val() * rhs.op_val(), <Self::Op as GemmOp>::bound()),
        ensures
            r.op_val() == self.scalar_val() * rhs.op_val(),
    ;
}

impl GemmOp for i32 {
    open spec fn op_val(self) -> int {
        self as int
    }

    open spec fn bound() -> int {
        i32::MAX as int
    }

    proof fn lemma_bound() {
    }

    fn zero() -> i32 {
        0
    }

    fn one() -> i32 {
        1
    }

    fn add(self, rhs: i32) -> i32 {
        self + rhs
    }

    fn mul(self, rhs: i32) -> i32 {
        self * rhs
    }

    fn add_assign(&mut self, rhs: i32) {
        *self = *self + rhs;
    }

    fn mul_assign(&mut self, rhs: i32) {
        *self = *self * rhs;
    }

    fn op_eq(self, rhs: i32) -> bool {
        self == rhs
    }
}

impl GemmOp for i64 {
    open spec fn op_val(self) -> int {
        self as int
    }

    open spec fn bound() -> int {
        i64::MAX as int
    }

    proof fn lemma_bound() {
    }

    fn zero() -> i64 {
        0
    }

    fn one() -> i64 {
        1
    }

    fn add(self, rhs: i64) -> i64 {
        self + rhs
    }

    fn mul(self, rhs: i64) -> i64 {
        self * rhs
    }

    fn add_assign(&mut self, rhs: i64) {
        *self = *self + rhs;
    }

    fn mul_assign(&mut self, rhs: i64) {
        *self = *self * rhs;
    }

    fn op_eq(self, rhs: i64) -> bool {
        self == rhs
    }
}

impl GemmScalar for i32 {
    type Op = i32;

    open spec fn scalar_val(self) -> int {
        self as int
    }

    open spec fn narrow(v: int) -> int {
        v
    }

    open spec fn reduced_spec() -> bool {
        false
    }

    proof fn lemma_roundtrip(x: i32) {
    }

    proof fn lemma_narrow(v: int) {
    }

    proof fn lemma_scalar_within(x: Self) {
    }

    fn reduced() -> bool {
        false
    }

    fn to_op(self) -> i32 {
        self
    }

    fn from_op(v: i32) -> i32 {
        v
    }

    fn mul_op(self, rhs: i32) -> i32 {
        self * rhs
    }
}

impl GemmScalar for i64 {
    type Op = i64;

    open spec fn scalar_val(self) -> int {
        self as int
    }

    open spec fn narrow(v: int) -> int {
        v
    }

    open spec fn reduced_spec() -> bool {
        false
    }

    proof fn lemma_roundtrip(x: i64) {
    }

    proof fn lemma_narrow(v: int) {
    }

    proof fn lemma_scalar_within(x: Self) {
    }

    fn reduced() -> bool {
        false
    }

    fn to_op(self) -> i64 {
        self
    }

    fn from_op(v: i64) -> i64 {
        v
    }

    fn mul_op(self, rhs: i64) -> i64 {
        self * rhs
    }
}

/// `v` reduced to a signed `2^bits`-wide two's complement value.
pub open spec fn wrap_signed(v: int, modulus: int) -> int {
    if v % modulus >= modulus / 2 {
        v % modulus - modulus
    } else {
        v % modulus
    }
}

impl GemmScalar for u8 {
    type Op = i32;

    open spec fn scalar_val(self) -> int {
        self as int
    }

    open spec fn narrow(v: int) -> int {
        v % 256
    }

    open spec fn reduced_spec() -> bool {
        true
    }

    proof fn lemma_roundtrip(x: u8) {
        vstd::arithmetic::div_mod::lemma_small_mod(x as nat, 256);
    }

    proof fn lemma_narrow(v: int) {
    }

    proof fn lemma_scalar_within(x: Self) {
    }

    fn reduced() -> bool {
        true
    }

    fn to_op(self) -> i32 {
        self as i32
    }

    fn from_op(v: i32) -> u8 {
        assert((v as u8) as int == (v as int) % 256) by (bit_vector);
        v as u8
    }

    fn mul_op(self, rhs: i32) -> i32 {
        (self as i32) * rhs
    }
}

impl GemmScalar for i8 {
    type Op = i32;

    open spec fn scalar_val(self) -> int {
        self as int
    }

    open spec fn narrow(v: int) -> int {
        wrap_signed(v, 256)
    }

    open spec fn reduced_spec() -> bool {
        true
    }

    proof fn lemma_roundtrip(x: i8) {
        if x >= 0 {
            vstd::arithmetic::div_mod::lemma_small_mod(x as nat, 256);
        } else {
            vstd::arithmetic::div_mod::lemma_fundamental_div_mod_converse(
                x as int,
                256,
                -1,
                x + 256,
            );
        }
    }

    proof fn lemma_narrow(v: int) {
    }

    proof fn lemma_scalar_within(x: Self) {
    }

    fn reduced() -> bool {
        true
    }

    fn to_op(self) -> i32 {
        self as i32
    }

    fn from_op(v: i32) -> i8 {
        assert((v as i8) as int == wrap_signed(v as int, 256)) by (bit_vector);
        v as i8
    }

    fn mul_op(self, rhs: i32) -> i32 {
        (self as i32) * rhs
    }
}

impl GemmScalar for i16 {
    type Op = i32;

    open spec fn scalar_val(self) -> int {
        self as int
    }

    open spec fn narrow(v: int) -> int {
        wrap_signed(v, 65536)
    }

    open spec fn reduced_spec() -> bool {
        true
    }

    proof fn lemma_roundtrip(x: i16) {
        if x >= 0 {
            vstd::arithmetic::div_mod::lemma_small_mod(x as nat, 65536);
        } else {
            vstd::arithmetic::div_mod::lemma_fundamental_div_mod_converse(
                x as int,
                65536,
                -1,
                x + 65536,
            );
        }
    }

    proof fn lemma_narrow(v: int) {
    }

    proof fn lemma_scalar_within(x: Self) {
    }

    fn reduced() -> bool {
        true
    }

    fn to_op(self) -> i32 {
        self as i32
    }

    fn from_op(v: i32) -> i16 {
        assert((v as i16) as int == wrap_signed(v as int, 65536)) by (bit_vector);
        v as i16
    }

    fn mul_op(self, rhs: i32) -> i32 {
        (self as i32) * rhs
    }
}


/// Offset of element `(r, c)` of a column-major matrix with leading dimension `ld`.
pub open spec fn cm(r: int, c: int, ld: int) -> int {
    c * ld + r
}

/// A buffer of length `len` holds every element of a `rows × cols` column-major
/// matrix with leading dimension `ld`.
pub open spec fn covers(len: int, rows: int, cols: int, ld: int) -> bool {
    rows <= 0 || cols <= 0 || (ld >= 0 && cm(rows - 1, cols - 1, ld) < len)
}

/// Offset `idx` is an element of the `rows × cols` block with leading
/// dimension `ld` (for `ld >= rows`).
pub open spec fn in_block(idx: int, rows: int, cols: int, ld: int) -> bool {
    ld > 0 && 0 <= idx && idx / ld < cols && idx % ld < rows
}

/// Offset `idx` is in the first `j` columns of the block, or among the first
/// `i` rows of column `j`.
pub open spec fn in_prefix(idx: int, rows: int, j: int, i: int, ld: int) -> bool {
    in_block(idx, rows, j, ld) || (ld > 0 && 0 <= idx && idx / ld == j && idx % ld < i)
}

pub proof fn lemma_cm_in_bounds(len: int, rows: int, cols: int, ld: int, r: int, c: int)
    requires
        covers(len, rows, cols, ld),
        0 <= r < rows,
        0 <= c < cols,
    ensures
        0 <= cm(r, c, ld) < len,
{
    vstd::arithmetic::mul::lemma_mul_inequality(c, cols - 1, ld);
    vstd::arithmetic::mul::lemma_mul_nonnegative(c, ld);
}

pub proof fn lemma_cm_block(rows: int, cols: int, ld: int, r: int, c: int)
    requires
        0 <= r < rows <= ld,
        0 <= c < cols,
    ensures
        in_block(cm(r, c, ld), rows, cols, ld),
        cm(r, c, ld) / ld == c,
        cm(r, c, ld) % ld == r,
{
    vstd::arithmetic::mul::lemma_mul_nonnegative(c, ld);
    vstd::arithmetic::div_mod::lemma_fundamental_div_mod_converse(cm(r, c, ld), ld, c, r);
}

pub proof fn lemma_block_cm(idx: int, rows: int, cols: int, ld: int)
    requires
        in_block(idx, rows, cols, ld),
    ensures
        idx == cm(idx % ld, idx / ld, ld),
        0 <= idx % ld < rows,
        0 <= idx / ld < cols,
{
    vstd::arithmetic::div_mod::lemma_fundamental_div_mod(idx, ld);
    vstd::arithmetic::div_mod::lemma_div_pos_is_pos(idx, ld);
    vstd::arithmetic::mul::lemma_mul_is_commutative(ld, idx / ld);
}

/// The offset of `(r, c)` as an index, for an offset that lies inside a buffer.
fn cm_index(r: i64, c: i64, ld: i64, Ghost(len): Ghost<int>) -> (idx: usize)
    requires
        0 <= r,
        0 <= c,
        0 <= ld,
        cm(r as int, c as int, ld as int) < len <= usize::MAX,
    ensures
        idx == cm(r as int, c as int, ld as int),
{
    proof {
        vstd::arithmetic::mul::lemma_mul_nonnegative(c as int, ld as int);
        vstd::arithmetic::mul::lemma_mul_basics(c as int);
        vstd::arithmetic::mul::lemma_mul_basics(ld as int);
        if c > 0 && ld > 0 {
            vstd::arithmetic::mul::lemma_mul_inequality(1, c as int, ld as int);
            vstd::arithmetic::mul::lemma_mul_inequality(1, ld as int, c as int);
            vstd::arithmetic::mul::lemma_mul_is_commutative(c as int, ld as int);
        }
    }
    if c == 0 || ld == 0 {
        r as usize
    } else {
        (c as usize) * (ld as usize) + (r as usize)
    }
}

/// Scales the `m × n` column-major block of `a` (leading dimension `lda`) by
/// `alpha` in place: `alpha == 1` leaves it as it is, `alpha == 0` zeroes it,
/// any other `alpha` multiplies every element.  Elements outside the block
/// (the padding rows of each column, and what follows) are untouched.
pub fn scale_<S: GemmScalar>(m: i64, n: i64, alpha: S::Op, a: &mut Vec<S>, lda: i64)
    requires
        m >= 0,
        n >= 0,
        m > 0 && n > 0 ==> lda >= m,
        covers(old(a).len() as int, m as int, n as int, lda as int),
        !(alpha.op_val() == 0 || alpha.op_val() == 1) ==> forall|i: int, j: int|
            #![trigger cm(i, j, lda as int)]
            0 <= i < m && 0 <= j < n ==> within(old(a)@[cm(i, j, lda as int)].scalar_val()
                * alpha.op_val(), <S::Op as GemmOp>::bound()),
    ensures
        final(a).len() == old(a).len(),
        alpha.op_val() == 1 ==> final(a)@ == old(a)@,
        forall|i: int, j: int|
            #![trigger cm(i, j, lda as int)]
            0 <= i < m && 0 <= j < n ==> final(a)@[cm(i, j, lda as int)].scalar_val() == S::narrow(
                old(a)@[cm(i, j, lda as int)].scalar_val() * alpha.op_val(),
            ),
        forall|idx: int|
            0 <= idx < old(a).len() && !in_block(idx, m as int, n as int, lda as int)
                ==> #[trigger] final(a)@[idx] == old(a)@[idx],
{
    if alpha.op_eq(<S::Op as GemmOp>::one()) {
        proof {
            assert forall|i: int, j: int|
                #![trigger cm(i, j, lda as int)]
                0 <= i < m && 0 <= j < n implies a@[cm(i, j, lda as int)].scalar_val()
                == S::narrow(a@[cm(i, j, lda as int)].scalar_val() * alpha.op_val()) by {
                S::lemma_roundtrip(a@[cm(i, j, lda as int)]);
            }
        }
        return;
    }
    let is_zero = alpha.op_eq(<S::Op as GemmOp>::zero());
    let ghost a0 = a@;
    let ghost ld = lda as int;
    let mut j: i64 = 0;
    while j < n
        invariant
            0 <= j <= n,
            m >= 0,
            m > 0 && n > 0 ==> lda >= m,
            covers(a0.len() as int, m as int, n as int, ld),
            ld == lda,
            a@.len() == a0.len(),
            is_zero == (alpha.op_val() == 0),
            alpha.op_val() != 1,
            !is_zero ==> forall|i: int, jj: int|
                #![trigger cm(i, jj, ld)]
                0 <= i < m && 0 <= jj < n ==> within(a0[cm(i, jj, ld)].scalar_val()
                    * alpha.op_val(), <S::Op as GemmOp>::bound()),
            forall|i: int, jj: int|
                #![trigger cm(i, jj, ld)]
                0 <= i < m && 0 <= jj < j ==> a@[cm(i, jj, ld)].scalar_val() == S::narrow(
                    a0[cm(i, jj, ld)].scalar_val() * alpha.op_val(),
                ),
            forall|idx: int|
                0 <= idx < a0.len() && !in_block(idx, m as int, j as int, ld)
                    ==> #[trigger] a@[idx] == a0[idx],
        decreases n - j,
    {
        let mut i: i64 = 0;
        while i < m
            invariant
                0 <= j < n,
                0 <= i <= m,
                m > 0 ==> lda >= m,
                covers(a0.len() as int, m as int, n as int, ld),
                ld == lda,
                a@.len() == a0.len(),
                is_zero == (alpha.op_val() == 0),
                alpha.op_val() != 1,
                !is_zero ==> forall|ii: int, jj: int|
                    #![trigger cm(ii, jj, ld)]
                    0 <= ii < m && 0 <= jj < n ==> within(a0[cm(ii, jj, ld)].scalar_val()
                        * alpha.op_val(), <S::Op as GemmOp>::bound()),
                forall|ii: int, jj: int|
                    #![trigger cm(ii, jj, ld)]
                    0 <= ii < m && 0 <= jj < n && (jj < j || (jj == j && ii < i))
                        ==> a@[cm(ii, jj, ld)].scalar_val() == S::narrow(
                        a0[cm(ii, jj, ld)].scalar_val() * alpha.op_val(),
                    ),
                forall|idx: int|
                    0 <= idx < a0.len() && !in_prefix(idx, m as int, j as int, i as int, ld)
                        ==> #[trigger] a@[idx] == a0[idx],
            decreases m - i,
        {
            proof {
                lemma_cm_in_bounds(a0.len() as int, m as int, n as int, ld, i as int, j as int);
                lemma_cm_block(m as int, n as int, ld, i as int, j as int);
                vstd::arithmetic::mul::lemma_mul_nonnegative(j as int, ld);
            }
            assert(a.len() == a0.len());
            let idx = cm_index(i, j, lda, Ghost(a0.len() as int));
            let ghost before = a@;
            assert(a@[idx as int] == a0[idx as int]);
            if is_zero {
                proof {
                    S::lemma_narrow(0);
                }
                a.set(idx, S::from_op(<S::Op as GemmOp>::zero()));
            } else {
                let cur = a[idx].to_op();
                a.set(idx, S::from_op(cur.mul(alpha)));
            }
            proof {
                assert forall|ii: int, jj: int|
                    #![trigger cm(ii, jj, ld)]
                    0 <= ii < m && 0 <= jj < n && (jj < j || (jj == j && ii < i + 1))
                        implies a@[cm(ii, jj, ld)].scalar_val() == S::narrow(
                        a0[cm(ii, jj, ld)].scalar_val() * alpha.op_val(),
                    ) by {
                    lemma_cm_block(m as int, n as int, ld, ii, jj);
                    lemma_cm_in_bounds(a0.len() as int, m as int, n as int, ld, ii, jj);
                    if ii != i || jj != j {
                        assert(before[cm(ii, jj, ld)] == a@[cm(ii, jj, ld)]);
                    }
                }
                assert forall|idx2: int|
                    0 <= idx2 < a0.len() && !in_prefix(idx2, m as int, j as int, i + 1, ld)
                        implies #[trigger] a@[idx2] == a0[idx2] by {
                    assert(idx2 != idx);
                    assert(before[idx2] == a@[idx2]);
                }
            }
            i = i + 1;
        }
        proof {
            assert forall|idx2: int|
                0 <= idx2 < a0.len() && !in_block(idx2, m as int, j + 1, ld)
                    implies #[trigger] a@[idx2] == a0[idx2] by {
                if in_prefix(idx2, m as int, j as int, m as int, ld) {
                    assert(in_block(idx2, m as int, j + 1, ld));
                }
            }
        }
        j = j + 1;
    }
}


/// `n` when it is positive, else `0`: how many terms a loop `0..n` visits.
pub open spec fn count(n: int) -> int {
    if n < 0 {
        0
    } else {
        n
    }
}

/// Where the blocks of four terms of a sum of `n` terms end: the terms from
/// there on are added one by one into the first partial sum.
pub open spec fn ilp_blocks_end(n: int) -> int {
    count(n) - count(n) % 4
}

/// Partial sum `j` (of four) after the first `k` terms `v`: the terms of
/// index `j` modulo 4 before `be`.
pub open spec fn lane_sum(v: Seq<int>, j: int, be: int, k: int) -> int
    decreases k,
{
    if k <= 0 {
        0
    } else {
        lane_sum(v, j, be, k - 1) + if (k - 1) % 4 == j && k - 1 < be {
            v[k - 1]
        } else {
            0
        }
    }
}

/// The terms from `be` up to (not including) `k`, added one by one.
pub open spec fn tail_sum(v: Seq<int>, be: int, k: int) -> int
    decreases k,
{
    if k <= be || k <= 0 {
        0
    } else {
        tail_sum(v, be, k - 1) + v[k - 1]
    }
}

/// Every value the four-way reduction of `sum` passes through, for the first
/// `v.len()` of its `n` terms, is representable (see `within`): each partial sum after
/// each of its terms; the first one after each remaining term; and, once all
/// terms are in, the first partial sum after each of the other three is
/// folded into it.
pub open spec fn ilp_prefix_fits(v: Seq<int>, n: int, bound: int) -> bool {
    let be = ilp_blocks_end(n);
    let c = count(n);
    &&& forall|k: int|
        1 <= k <= v.len() && k <= be ==> within(#[trigger] lane_sum(v, (k - 1) % 4, be, k), bound)
    &&& forall|k: int|
        be < k <= v.len() ==> within(lane_sum(v, 0, be, be) + #[trigger] tail_sum(v, be, k), bound)
    &&& v.len() == c ==> {
        let p0 = lane_sum(v, 0, be, be) + tail_sum(v, be, c);
        &&& within(p0 + lane_sum(v, 1, be, be), bound)
        &&& within(p0 + lane_sum(v, 1, be, be) + lane_sum(v, 2, be, be), bound)
        &&& within(p0 + lane_sum(v, 1, be, be) + lane_sum(v, 2, be, be) + lane_sum(v, 3, be, be), bound)
    }
}

/// The partial sums read only the first `k` terms.
proof fn lemma_lane_tail_prefix(v: Seq<int>, w: Seq<int>, be: int, k: int)
    requires
        0 <= k <= v.len(),
        k <= w.len(),
        v.take(k) == w.take(k),
    ensures
        forall|j: int| #[trigger] lane_sum(v, j, be, k) == lane_sum(w, j, be, k),
        tail_sum(v, be, k) == tail_sum(w, be, k),
    decreases k,
{
    if k > 0 {
        assert(v.take(k - 1) =~= w.take(k - 1)) by {
            assert forall|t: int| 0 <= t < k - 1 implies #[trigger] v.take(k - 1)[t] == w.take(k - 1)[t] by {
                assert(v.take(k)[t] == w.take(k)[t]);
            }
        }
        assert(v.take(k)[k - 1] == v[k - 1]);
        assert(w.take(k)[k - 1] == w[k - 1]);
        assert(v[k - 1] == w[k - 1]);
        lemma_lane_tail_prefix(v, w, be, k - 1);
        assert forall|j: int| #[trigger] lane_sum(v, j, be, k) == lane_sum(w, j, be, k) by {
            assert(lane_sum(v, j, be, k - 1) == lane_sum(w, j, be, k - 1));
        }
    }
}

/// The partial sums and the tail add up to the sum of the first `k` terms,
/// and their magnitudes to at most the magnitude sum of those terms.
proof fn lemma_lanes_add_up(v: Seq<int>, be: int, k: int)
    requires
        0 <= k <= v.len(),
        0 <= be,
    ensures
        lane_sum(v, 0, be, k) + lane_sum(v, 1, be, k) + lane_sum(v, 2, be, k) + lane_sum(v, 3, be, k)
            + tail_sum(v, be, k) == seq_sum(v.take(k)),
        abs(lane_sum(v, 0, be, k)) + abs(lane_sum(v, 1, be, k)) + abs(lane_sum(v, 2, be, k)) + abs(
            lane_sum(v, 3, be, k),
        ) + abs(tail_sum(v, be, k)) <= seq_abs_sum(v.take(k)),
    decreases k,
{
    if k > 0 {
        lemma_lanes_add_up(v, be, k - 1);
        assert(v.take(k).drop_last() =~= v.take(k - 1));
        assert(v.take(k).last() == v[k - 1]);
        let r = (k - 1) % 4;
        assert(0 <= r < 4);
    }
}

/// Adding the term `x` after the `k` terms `v`: it joins partial sum
/// `k % 4` inside the blocks, the tail after them.
proof fn lemma_ilp_step(v: Seq<int>, x: int, be: int, k: int)
    requires
        v.len() == k,
        0 <= be,
    ensures
        forall|j: int|
            #[trigger] lane_sum(v.push(x), j, be, k + 1) == lane_sum(v, j, be, k) + if k % 4 == j
                && k < be {
                x
            } else {
                0
            },
        tail_sum(v.push(x), be, k + 1) == tail_sum(v, be, k) + if k >= be {
            x
        } else {
            0
        },
{
    assert(v.take(k) =~= v.push(x).take(k));
    lemma_lane_tail_prefix(v, v.push(x), be, k);
    assert forall|j: int|
        #[trigger] lane_sum(v.push(x), j, be, k + 1) == lane_sum(v, j, be, k) + if k % 4 == j
            && k < be {
            x
        } else {
            0
        } by {
        assert(lane_sum(v.push(x), j, be, k) == lane_sum(v, j, be, k));
    }
}

/// A magnitude sum of all the terms of at most `bound` keeps every value of the
/// four-way reduction representable.
pub proof fn lemma_abs_sum_gives_ilp_fits(v: Seq<int>, n: int, bound: int)
    requires
        seq_abs_sum(v) <= bound,
        v.len() <= count(n),
    ensures
        ilp_prefix_fits(v, n, bound),
{
    let be = ilp_blocks_end(n);
    assert(0 <= be);
    assert forall|k: int| 1 <= k <= v.len() && k <= be implies within(
        #[trigger] lane_sum(v, (k - 1) % 4, be, k),
        bound,
    ) by {
        lemma_lanes_add_up(v, be, k);
        lemma_abs_sum_prefix(v, k);
        assert(0 <= (k - 1) % 4 < 4);
    }
    assert forall|k: int| be < k <= v.len() implies within(
        lane_sum(v, 0, be, be) + #[trigger] tail_sum(v, be, k),
        bound,
    ) by {
        lemma_lanes_add_up(v, be, k);
        lemma_abs_sum_prefix(v, k);
        lemma_lane_after_end(v, be, k);
    }
    if v.len() == count(n) {
        let c = count(n);
        lemma_lanes_add_up(v, be, c);
        lemma_abs_sum_prefix(v, c);
        lemma_lane_after_end(v, be, c);
    }
}

/// Past the end of the blocks the partial sums stay as they were.
proof fn lemma_lane_after_end(v: Seq<int>, be: int, k: int)
    requires
        0 <= be <= k,
    ensures
        forall|j: int| #[trigger] lane_sum(v, j, be, k) == lane_sum(v, j, be, be),
    decreases k - be,
{
    if k > be {
        lemma_lane_after_end(v, be, k - 1);
        assert forall|j: int| #[trigger] lane_sum(v, j, be, k) == lane_sum(v, j, be, be) by {
            assert(lane_sum(v, j, be, k) == lane_sum(v, j, be, k - 1));
        }
    }
}

/// The reduction of a prefix of the terms passes through the same values as
/// that of all of them, as far as the prefix reaches.
pub proof fn lemma_ilp_fits_prefix(v: Seq<int>, p: int, n: int, bound: int)
    requires
        ilp_prefix_fits(v, n, bound),
        v.len() == count(n),
        0 <= p <= v.len(),
    ensures
        ilp_prefix_fits(v.take(p), n, bound),
{
    let w = v.take(p);
    let be = ilp_blocks_end(n);
    assert forall|k: int| 1 <= k <= w.len() && k <= be implies within(
        #[trigger] lane_sum(w, (k - 1) % 4, be, k),
        bound,
    ) by {
        assert(w.take(k) =~= v.take(k));
        lemma_lane_tail_prefix(w, v, be, k);
        assert(lane_sum(w, (k - 1) % 4, be, k) == lane_sum(v, (k - 1) % 4, be, k));
    }
    assert forall|k: int| be < k <= w.len() implies within(
        lane_sum(w, 0, be, be) + #[trigger] tail_sum(w, be, k),
        bound,
    ) by {
        assert(w.take(k) =~= v.take(k));
        lemma_lane_tail_prefix(w, v, be, k);
        assert(w.take(be) =~= v.take(be));
        lemma_lane_tail_prefix(w, v, be, be);
        assert(lane_sum(w, 0, be, be) == lane_sum(v, 0, be, be));
    }
    if w.len() == count(n) {
        assert(w =~= v);
    }
}

/// The integer values of a sequence of accumulators.
pub open spec fn op_vals<A: GemmOp>(s: Seq<A>) -> Seq<int> {
    s.map_values(|x: A| x.op_val())
}

/// `s` lists, in order, values that `f` may return for `0, 1, ..., s.len() - 1`.
pub open spec fn outputs_of<A, F: Fn(i64) -> A>(f: F, s: Seq<A>) -> bool {
    forall|l: int| 0 <= l < s.len() ==> #[trigger] f.ensures((l as i64,), s[l])
}

pub proof fn lemma_op_vals_push<A: GemmOp>(s: Seq<A>, x: A)
    ensures
        op_vals(s.push(x)) == op_vals(s).push(x.op_val()),
        seq_sum(op_vals(s.push(x))) == seq_sum(op_vals(s)) + x.op_val(),
        seq_abs_sum(op_vals(s.push(x))) == seq_abs_sum(op_vals(s)) + abs(x.op_val()),
{
    assert(op_vals(s.push(x)) =~= op_vals(s).push(x.op_val()));
    assert(op_vals(s).push(x.op_val()).drop_last() =~= op_vals(s));
}

/// `f(0) + f(1) + ... + f(n - 1)`, accumulated in four independent partial sums
/// (blocks of four terms, then the remaining terms into the first partial sum,
/// then the four partial sums folded together).
///
/// Every value the accumulation passes through, in this order, must lie
/// within what `Acc` holds (see `ilp_prefix_fits`).
pub fn sum<Acc: GemmOp, F: Fn(i64) -> Acc>(n: i64, f: F) -> (r: Acc)
    requires
        forall|l: i64| 0 <= l < n ==> #[trigger] f.requires((l,)),
        forall|s: Seq<Acc>|
            s.len() <= count(n as int) && outputs_of(f, s) ==> #[trigger] ilp_prefix_fits(
                op_vals(s),
                n as int,
                Acc::bound(),
            ),
    ensures
        exists|s: Seq<Acc>|
            #![trigger outputs_of(f, s)]
            s.len() == count(n as int) && outputs_of(f, s) && r.op_val() == seq_sum(op_vals(s)),
{
    let ghost be = ilp_blocks_end(n as int);
    let ghost c = count(n as int);
    let mut p0 = Acc::zero();
    let mut p1 = Acc::zero();
    let mut p2 = Acc::zero();
    let mut p3 = Acc::zero();
    let ghost mut s: Seq<Acc> = Seq::empty();
    let mut i: i64 = 0;
    proof {
        assert(op_vals(s) =~= Seq::<int>::empty());
    }
    while n - i >= 4
        invariant
            be == ilp_blocks_end(n as int),
            c == count(n as int),
            0 <= i <= be,
            i % 4 == 0,
            s.len() == i,
            outputs_of(f, s),
            p0.op_val() == lane_sum(op_vals(s), 0, be, i as int),
            p1.op_val() == lane_sum(op_vals(s), 1, be, i as int),
            p2.op_val() == lane_sum(op_vals(s), 2, be, i as int),
            p3.op_val() == lane_sum(op_vals(s), 3, be, i as int),
            forall|l: i64| 0 <= l < n ==> #[trigger] f.requires((l,)),
            forall|s2: Seq<Acc>|
                s2.len() <= count(n as int) && outputs_of(f, s2) ==> #[trigger] ilp_prefix_fits(
                    op_vals(s2),
                    n as int,
                    Acc::bound(),
                ),
        decreases n - i,
    {
        assert(i + 4 <= be);
        let r0 = f(i);
        proof {
            lemma_ilp_step(op_vals(s), r0.op_val(), be, i as int);
            lemma_op_vals_push(s, r0);
            s = s.push(r0);
            assert(ilp_prefix_fits(op_vals(s), n as int, Acc::bound()));
            assert(within(lane_sum(op_vals(s), (i + 1 - 1) % 4, be, i + 1), Acc::bound()));
        }
        p0.add_assign(r0);
        let r1 = f(i + 1);
        proof {
            lemma_ilp_step(op_vals(s), r1.op_val(), be, i + 1);
            lemma_op_vals_push(s, r1);
            s = s.push(r1);
            assert(ilp_prefix_fits(op_vals(s), n as int, Acc::bound()));
            assert(within(lane_sum(op_vals(s), (i + 2 - 1) % 4, be, i + 2), Acc::bound()));
        }
        p1.add_assign(r1);
        let r2 = f(i + 2);
        proof {
            lemma_ilp_step(op_vals(s), r2.op_val(), be, i + 2);
            lemma_op_vals_push(s, r2);
            s = s.push(r2);
            assert(ilp_prefix_fits(op_vals(s), n as int, Acc::bound()));
            assert(within(lane_sum(op_vals(s), (i + 3 - 1) % 4, be, i + 3), Acc::bound()));
        }
        p2.add_assign(r2);
        let r3 = f(i + 3);
        proof {
            lemma_ilp_step(op_vals(s), r3.op_val(), be, i + 3);
            lemma_op_vals_push(s, r3);
            s = s.push(r3);
            assert(ilp_prefix_fits(op_vals(s), n as int, Acc::bound()));
            assert(within(lane_sum(op_vals(s), (i + 4 - 1) % 4, be, i + 4), Acc::bound()));
        }
        p3.add_assign(r3);
        i = i + 4;
    }
    assert(i == be);
    while i < n
        invariant
            be == ilp_blocks_end(n as int),
            c == count(n as int),
            0 <= be <= i <= c,
            s.len() == i,
            outputs_of(f, s),
            p0.op_val() == lane_sum(op_vals(s), 0, be, be) + tail_sum(op_vals(s), be, i as int),
            p1.op_val() == lane_sum(op_vals(s), 1, be, be),
            p2.op_val() == lane_sum(op_vals(s), 2, be, be),
            p3.op_val() == lane_sum(op_vals(s), 3, be, be),
            forall|l: i64| 0 <= l < n ==> #[trigger] f.requires((l,)),
            forall|s2: Seq<Acc>|
                s2.len() <= count(n as int) && outputs_of(f, s2) ==> #[trigger] ilp_prefix_fits(
                    op_vals(s2),
                    n as int,
                    Acc::bound(),
                ),
        decreases n - i,
    {
        let r = f(i);
        proof {
            let v = op_vals(s);
            lemma_ilp_step(v, r.op_val(), be, i as int);
            lemma_op_vals_push(s, r);
            s = s.push(r);
            assert(v.take(be) =~= op_vals(s).take(be));
            lemma_lane_tail_prefix(v, op_vals(s), be, be);
            assert(ilp_prefix_fits(op_vals(s), n as int, Acc::bound()));
            assert(within(lane_sum(op_vals(s), 0, be, be) + tail_sum(op_vals(s), be, i + 1), Acc::bound()));
        }
        p0.add_assign(r);
        i = i + 1;
    }
    proof {
        let v = op_vals(s);
        assert(ilp_prefix_fits(v, n as int, Acc::bound()));
        lemma_lanes_add_up(v, be, c);
        lemma_lane_after_end(v, be, c);
        assert(v.take(c) =~= v);
    }
    p0.add_assign(p1);
    p0.add_assign(p2);
    p0.add_assign(p3);
    p0
}


/// The integer values of a sequence of elements.
pub open spec fn scalar_vals<S: GemmScalar>(s: Seq<S>) -> Seq<int> {
    s.map_values(|x: S| x.scalar_val())
}

/// Element `(r, c)` of `op(X)`, for `X` stored column-major with leading
/// dimension `ld`; `op` transposes when `trans` holds.
pub open spec fn op_at(x: Seq<int>, ld: int, trans: bool, r: int, c: int) -> int {
    if trans {
        x[cm(c, r, ld)]
    } else {
        x[cm(r, c, ld)]
    }
}

/// The `k` products that make up element `(i, j)` of `op(A) · op(B)`.
pub open spec fn dot_terms(
    a: Seq<int>,
    lda: int,
    ta: bool,
    b: Seq<int>,
    ldb: int,
    tb: bool,
    k: int,
    i: int,
    j: int,
) -> Seq<int> {
    Seq::new(count(k) as nat, |l: int| op_at(a, lda, ta, i, l) * op_at(b, ldb, tb, l, j))
}

/// `beta * c + alpha * (sum of terms)`.
pub open spec fn blend(alpha: int, beta: int, c: int, terms: Seq<int>) -> int {
    beta * c + alpha * seq_sum(terms)
}

/// Every value the dot-product path meets for one element of `C` is
/// representable: each product, every value of the four-way reduction of the
/// products (see `ilp_prefix_fits`), `alpha` times the dot product and, unless
/// `beta == 0`, `beta * c` and the blend.
pub open spec fn dot_blend_fits(alpha: int, beta: int, c: int, terms: Seq<int>, bound: int) -> bool {
    &&& forall|l: int| 0 <= l < terms.len() ==> within(#[trigger] terms[l], bound)
    &&& ilp_prefix_fits(terms, terms.len() as int, bound)
    &&& within(alpha * seq_sum(terms), bound)
    &&& beta != 0 ==> within(beta * c, bound) && within(blend(alpha, beta, c, terms), bound)
}

/// Every value the rank-1 path meets for one element of `C` is
/// representable: `beta * c`, each product scaled by `alpha`, and the element
/// after each of its updates.
pub open spec fn rank1_blend_fits(alpha: int, beta: int, c: int, terms: Seq<int>, bound: int) -> bool {
    &&& within(beta * c, bound)
    &&& forall|l: int| 0 <= l < terms.len() ==> within(alpha * #[trigger] terms[l], bound)
    &&& forall|p: int|
        1 <= p <= terms.len() ==> within(#[trigger] blend(alpha, beta, c, terms.take(p)), bound)
}

/// The magnitude sum of a prefix is at most that of the whole sequence, and
/// each term is at most the magnitude sum.
pub proof fn lemma_abs_sum_prefix(s: Seq<int>, p: int)
    requires
        0 <= p <= s.len(),
    ensures
        seq_abs_sum(s.take(p)) <= seq_abs_sum(s),
        seq_abs_sum(s.take(p)) >= 0,
        p < s.len() ==> seq_abs_sum(s.take(p)) + abs(s[p]) <= seq_abs_sum(s),
    decreases s.len(),
{
    lemma_abs_sum_bounds(s.take(p));
    if p < s.len() {
        lemma_abs_sum_prefix(s.drop_last(), p);
        assert(s.drop_last().take(p) =~= s.take(p));
        if p < s.len() - 1 {
            assert(s.drop_last()[p] == s[p]);
        } else {
            assert(s.take(p) =~= s.drop_last());
        }
        lemma_abs_sum_bounds(s.drop_last());
    } else {
        assert(s.take(p) =~= s);
    }
}

/// Every value met while the GEMM path of an element type sums `terms` with
/// `alpha == 1` is representable: each term, and then each running sum on the
/// rank-1 path (`rank1`), every value of the four-way reduction (see
/// `ilp_prefix_fits`) on the dot-product path.
pub open spec fn sum_path_fits(rank1: bool, terms: Seq<int>, bound: int) -> bool {
    &&& forall|l: int| 0 <= l < terms.len() ==> within(#[trigger] terms[l], bound)
    &&& if rank1 {
        forall|p: int| 1 <= p <= terms.len() ==> within(#[trigger] seq_sum(terms.take(p)), bound)
    } else {
        ilp_prefix_fits(terms, terms.len() as int, bound)
    }
}

/// The four-way reduction ends on the sum of all the terms.
pub proof fn lemma_ilp_fits_total(v: Seq<int>, bound: int)
    requires
        ilp_prefix_fits(v, v.len() as int, bound),
    ensures
        within(seq_sum(v), bound),
{
    let c = v.len() as int;
    let be = ilp_blocks_end(c);
    lemma_lanes_add_up(v, be, c);
    lemma_lane_after_end(v, be, c);
    assert(v.take(c) =~= v);
}

/// Summing with `alpha == 1` and `beta == 0` meets no other values than the
/// terms and their partial sums.
pub proof fn lemma_sum_path_fits(rank1: bool, c: int, terms: Seq<int>, bound: int)
    requires
        sum_path_fits(rank1, terms, bound),
        within(c, bound),
    ensures
        rank1 ==> rank1_blend_fits(1, 0, c, terms, bound),
        !rank1 ==> dot_blend_fits(1, 0, c, terms, bound),
        !rank1 ==> dot_blend_fits(1, 1, c, terms, bound) || !within(c + seq_sum(terms), bound),
{
    vstd::arithmetic::mul::lemma_mul_basics(c);
    vstd::arithmetic::mul::lemma_mul_basics(seq_sum(terms));
    if rank1 {
        assert forall|l: int| 0 <= l < terms.len() implies within(1 * #[trigger] terms[l], bound) by {
            vstd::arithmetic::mul::lemma_mul_basics(terms[l]);
        }
        assert forall|p: int| 1 <= p <= terms.len() implies within(
            #[trigger] blend(1, 0, c, terms.take(p)),
            bound,
        ) by {
            vstd::arithmetic::mul::lemma_mul_basics(seq_sum(terms.take(p)));
            assert(within(seq_sum(terms.take(p)), bound));
        }
    } else {
        lemma_ilp_fits_total(terms, bound);
    }
}

/// Extending a prefix by one term adds that term.
pub proof fn lemma_sum_take_step(s: Seq<int>, p: int)
    requires
        0 <= p < s.len(),
    ensures
        seq_sum(s.take(p + 1)) == seq_sum(s.take(p)) + s[p],
        seq_abs_sum(s.take(p + 1)) == seq_abs_sum(s.take(p)) + abs(s[p]),
{
    assert(s.take(p + 1).drop_last() =~= s.take(p));
}

/// Shapes, buffer sizes and values under which the GEMM kernels compute
/// `C := beta * C + alpha * op(A) · op(B)` for an `m × n` matrix `C` and inner
/// dimension `k`, all column-major: `op(A)` is `m × k` (stored `k × m` when
/// `ta`), `op(B)` is `k × n` (stored `n × k` when `tb`), every buffer holds its
/// matrix, the columns of `C` do not overlap, and no value that the kernel
/// meets while computing an element leaves the range of the accumulator type:
/// the rank-1 path when `A` is read as stored and elements are summed in
/// their own type, the dot-product path otherwise.
pub open spec fn gemm_ok<S: GemmScalar, Out: GemmScalar>(
    ta: bool,
    tb: bool,
    m: int,
    n: int,
    k: int,
    alpha: int,
    a: Seq<S>,
    lda: int,
    b: Seq<S>,
    ldb: int,
    beta: int,
    c: Seq<Out>,
    ldc: int,
) -> bool {
    &&& 0 <= m && 0 <= n && 0 <= k
    &&& if ta {
        covers(a.len() as int, k, m, lda)
    } else {
        covers(a.len() as int, m, k, lda)
    }
    &&& if tb {
        covers(b.len() as int, n, k, ldb)
    } else {
        covers(b.len() as int, k, n, ldb)
    }
    &&& covers(c.len() as int, m, n, ldc)
    &&& (m > 0 && n > 0 ==> ldc >= m)
    &&& forall|i: int, j: int|
        #![trigger cm(i, j, ldc)]
        0 <= i < m && 0 <= j < n ==> if !ta && !S::reduced_spec() {
            rank1_blend_fits(
                alpha,
                beta,
                c[cm(i, j, ldc)].scalar_val(),
                dot_terms(scalar_vals(a), lda, ta, scalar_vals(b), ldb, tb, k, i, j),
                <S::Op as GemmOp>::bound(),
            )
        } else {
            dot_blend_fits(
                alpha,
                beta,
                c[cm(i, j, ldc)].scalar_val(),
                dot_terms(scalar_vals(a), lda, ta, scalar_vals(b), ldb, tb, k, i, j),
                <S::Op as GemmOp>::bound(),
            )
        }
}

/// `c1` is `c0` after `C := beta * C + alpha * op(A) · op(B)`: every element of
/// the `m × n` block is the blend of its old value with its dot product,
/// stored back as an `Out`; every other element is unchanged.
pub open spec fn gemm_result<S: GemmScalar, Out: GemmScalar>(
    ta: bool,
    tb: bool,
    m: int,
    n: int,
    k: int,
    alpha: int,
    a: Seq<S>,
    lda: int,
    b: Seq<S>,
    ldb: int,
    beta: int,
    c0: Seq<Out>,
    ldc: int,
    c1: Seq<Out>,
) -> bool {
    &&& c1.len() == c0.len()
    &&& forall|i: int, j: int|
        #![trigger cm(i, j, ldc)]
        0 <= i < m && 0 <= j < n ==> c1[cm(i, j, ldc)].scalar_val() == Out::narrow(
            blend(
                alpha,
                beta,
                c0[cm(i, j, ldc)].scalar_val(),
                dot_terms(scalar_vals(a), lda, ta, scalar_vals(b), ldb, tb, k, i, j),
            ),
        )
    &&& forall|idx: int|
        0 <= idx < c0.len() && !in_block(idx, m, n, ldc) ==> #[trigger] c1[idx] == c0[idx]
}

/// Offset `idx` is an element of the block visited before `(i, j)` when the
/// block is walked row by row.
pub open spec fn row_done(idx: int, rows: int, cols: int, ld: int, i: int, j: int) -> bool {
    in_block(idx, rows, cols, ld) && (idx % ld < i || (idx % ld == i && idx / ld < j))
}

/// The index of element `(r, c)` of `op(X)` in the buffer of `X`.
fn op_index(trans: bool, r: i64, c: i64, ld: i64, Ghost(len): Ghost<int>) -> (idx: usize)
    requires
        0 <= r,
        0 <= c,
        0 <= ld,
        (if trans {
            cm(c as int, r as int, ld as int)
        } else {
            cm(r as int, c as int, ld as int)
        }) < len <= usize::MAX,
    ensures
        idx == (if trans {
            cm(c as int, r as int, ld as int)
        } else {
            cm(r as int, c as int, ld as int)
        }),
{
    if trans {
        cm_index(c, r, ld, Ghost(len))
    } else {
        cm_index(r, c, ld, Ghost(len))
    }
}

/// Element `(r, c)` of `op(X)` lies inside the buffer of `X`.
proof fn lemma_op_in_bounds(len: int, trans: bool, rows: int, cols: int, ld: int, r: int, c: int)
    requires
        if trans {
            covers(len, cols, rows, ld)
        } else {
            covers(len, rows, cols, ld)
        },
        0 <= r < rows,
        0 <= c < cols,
    ensures
        0 <= ld,
        0 <= (if trans {
            cm(c, r, ld)
        } else {
            cm(r, c, ld)
        }) < len,
{
    if trans {
        lemma_cm_in_bounds(len, cols, rows, ld, c, r);
    } else {
        lemma_cm_in_bounds(len, rows, cols, ld, r, c);
    }
}

/// `C := beta * C + alpha * op(A) · op(B)`, one dot product per element of
/// `C`, walking `C` row by row; `beta == 0` writes `alpha * dot` without
/// reading the old element.
fn dot_kernel<S: GemmScalar, Out: GemmScalar<Op = S::Op>>(
    ta: bool,
    tb: bool,
    m: i64,
    n: i64,
    k: i64,
    alpha: S::Op,
    a: &[S],
    lda: i64,
    b: &[S],
    ldb: i64,
    beta: S::Op,
    c: &mut Vec<Out>,
    ldc: i64,
)
    requires
        ta || S::reduced_spec(),
        gemm_ok::<S, Out>(
            ta,
            tb,
            m as int,
            n as int,
            k as int,
            alpha.op_val(),
            a@,
            lda as int,
            b@,
            ldb as int,
            beta.op_val(),
            old(c)@,
            ldc as int,
        ),
    ensures
        gemm_result::<S, Out>(
            ta,
            tb,
            m as int,
            n as int,
            k as int,
            alpha.op_val(),
            a@,
            lda as int,
            b@,
            ldb as int,
            beta.op_val(),
            old(c)@,
            ldc as int,
            final(c)@,
        ),
{
    let ghost c0 = c@;
    let ghost av = scalar_vals(a@);
    let ghost bv = scalar_vals(b@);
    let ghost bound = <S::Op as GemmOp>::bound();
    let beta_zero = beta.op_eq(<S::Op as GemmOp>::zero());
    let mut i: i64 = 0;
    while i < m
        invariant
            0 <= i <= m,
            ta || S::reduced_spec(),
            gemm_ok::<S, Out>(
                ta,
                tb,
                m as int,
                n as int,
                k as int,
                alpha.op_val(),
                a@,
                lda as int,
                b@,
                ldb as int,
                beta.op_val(),
                c0,
                ldc as int,
            ),
            av == scalar_vals(a@),
            bv == scalar_vals(b@),
            bound == <S::Op as GemmOp>::bound(),
            beta_zero == (beta.op_val() == 0),
            c@.len() == c0.len(),
            forall|ii: int, jj: int|
                #![trigger cm(ii, jj, ldc as int)]
                0 <= ii < i && 0 <= jj < n ==> c@[cm(ii, jj, ldc as int)].scalar_val()
                    == Out::narrow(
                    blend(
                        alpha.op_val(),
                        beta.op_val(),
                        c0[cm(ii, jj, ldc as int)].scalar_val(),
                        dot_terms(av, lda as int, ta, bv, ldb as int, tb, k as int, ii, jj),
                    ),
                ),
            forall|idx: int|
                0 <= idx < c0.len() && !row_done(idx, m as int, n as int, ldc as int, i as int, 0)
                    ==> #[trigger] c@[idx] == c0[idx],
        decreases m - i,
    {
        let mut j: i64 = 0;
        while j < n
            invariant
                0 <= i < m,
                0 <= j <= n,
                ta || S::reduced_spec(),
                gemm_ok::<S, Out>(
                    ta,
                    tb,
                    m as int,
                    n as int,
                    k as int,
                    alpha.op_val(),
                    a@,
                    lda as int,
                    b@,
                    ldb as int,
                    beta.op_val(),
                    c0,
                    ldc as int,
                ),
                av == scalar_vals(a@),
                bv == scalar_vals(b@),
                bound == <S::Op as GemmOp>::bound(),
                beta_zero == (beta.op_val() == 0),
                c@.len() == c0.len(),
                forall|ii: int, jj: int|
                    #![trigger cm(ii, jj, ldc as int)]
                    0 <= ii < m && 0 <= jj < n && (ii < i || (ii == i && jj < j))
                        ==> c@[cm(ii, jj, ldc as int)].scalar_val() == Out::narrow(
                        blend(
                            alpha.op_val(),
                            beta.op_val(),
                            c0[cm(ii, jj, ldc as int)].scalar_val(),
                            dot_terms(av, lda as int, ta, bv, ldb as int, tb, k as int, ii, jj),
                        ),
                    ),
                forall|idx: int|
                    0 <= idx < c0.len() && !row_done(
                        idx,
                        m as int,
                        n as int,
                        ldc as int,
                        i as int,
                        j as int,
                    ) ==> #[trigger] c@[idx] == c0[idx],
            decreases n - j,
        {
            let ghost terms = dot_terms(av, lda as int, ta, bv, ldb as int, tb, k as int, i as int, j as int);
            proof {
                assert(dot_blend_fits(
                    alpha.op_val(),
                    beta.op_val(),
                    c0[cm(i as int, j as int, ldc as int)].scalar_val(),
                    terms,
                    bound,
                ));
                assert forall|l: int| 0 <= l < k implies within(
                    #[trigger] op_at(av, lda as int, ta, i as int, l) * op_at(bv, ldb as int, tb, l, j as int),
                    bound,
                ) by {
                    assert(within(terms[l], bound));
                }
            }
            let term = |l: i64| -> (t: S::Op)
                requires
                    0 <= l < k,
                    0 <= i < m,
                    0 <= j < n,
                    if ta {
                        covers(a@.len() as int, k as int, m as int, lda as int)
                    } else {
                        covers(a@.len() as int, m as int, k as int, lda as int)
                    },
                    if tb {
                        covers(b@.len() as int, n as int, k as int, ldb as int)
                    } else {
                        covers(b@.len() as int, k as int, n as int, ldb as int)
                    },
                    within(op_at(scalar_vals(a@), lda as int, ta, i as int, l as int) * op_at(scalar_vals(b@), ldb as int, tb, l as int, j as int), <S::Op as GemmOp>::bound()),
                ensures
                    t.op_val() == op_at(scalar_vals(a@), lda as int, ta, i as int, l as int) * op_at(
                        scalar_vals(b@),
                        ldb as int,
                        tb,
                        l as int,
                        j as int,
                    ),
                {
                    proof {
                        lemma_op_in_bounds(a@.len() as int, ta, m as int, k as int, lda as int, i as int, l as int);
                        lemma_op_in_bounds(b@.len() as int, tb, k as int, n as int, ldb as int, l as int, j as int);
                    }
                    let alen = a.len();
                    let blen = b.len();
                    let ia = op_index(ta, i, l, lda, Ghost(alen as int));
                    let ib = op_index(tb, l, j, ldb, Ghost(blen as int));
                    a[ia].to_op().mul(b[ib].to_op())
                };
            proof {
                assert forall|s2: Seq<S::Op>|
                    s2.len() <= count(k as int) && outputs_of(term, s2) implies #[trigger] ilp_prefix_fits(
                    op_vals(s2),
                    k as int,
                    bound,
                ) by {
                    assert forall|l: int| 0 <= l < s2.len() implies #[trigger] op_vals(s2)[l]
                        == terms.take(s2.len() as int)[l] by {
                        assert(term.ensures((l as i64,), s2[l]));
                    }
                    assert(op_vals(s2) =~= terms.take(s2.len() as int));
                    lemma_ilp_fits_prefix(terms, s2.len() as int, k as int, bound);
                }
            }
            let dot = sum(k, term);
            proof {
                let s = choose|s: Seq<S::Op>|
                    #![trigger outputs_of(term, s)]
                    s.len() == count(k as int) && outputs_of(term, s) && dot.op_val() == seq_sum(
                        op_vals(s),
                    );
                assert forall|l: int| 0 <= l < s.len() implies #[trigger] op_vals(s)[l]
                    == terms[l] by {
                    assert(term.ensures((l as i64,), s[l]));
                }
                assert(op_vals(s) =~= terms);
                lemma_cm_in_bounds(c0.len() as int, m as int, n as int, ldc as int, i as int, j as int);
                lemma_cm_block(m as int, n as int, ldc as int, i as int, j as int);
                vstd::arithmetic::mul::lemma_mul_basics(c0[cm(i as int, j as int, ldc as int)].scalar_val());
            }
            assert(c.len() == c0.len());
            let idx = cm_index(i, j, ldc, Ghost(c0.len() as int));
            let ghost before = c@;
            assert(c@[idx as int] == c0[idx as int]);
            if beta_zero {
                c.set(idx, Out::from_op(alpha.mul(dot)));
            } else {
                let cur = c[idx].to_op();
                c.set(idx, Out::from_op(beta.mul(cur).add(alpha.mul(dot))));
            }
            proof {
                assert forall|ii: int, jj: int|
                    #![trigger cm(ii, jj, ldc as int)]
                    0 <= ii < m && 0 <= jj < n && (ii < i || (ii == i && jj < j + 1))
                        implies c@[cm(ii, jj, ldc as int)].scalar_val() == Out::narrow(
                        blend(
                            alpha.op_val(),
                            beta.op_val(),
                            c0[cm(ii, jj, ldc as int)].scalar_val(),
                            dot_terms(av, lda as int, ta, bv, ldb as int, tb, k as int, ii, jj),
                        ),
                    ) by {
                    lemma_cm_block(m as int, n as int, ldc as int, ii, jj);
                    lemma_cm_in_bounds(c0.len() as int, m as int, n as int, ldc as int, ii, jj);
                    if ii != i || jj != j {
                        assert(before[cm(ii, jj, ldc as int)] == c@[cm(ii, jj, ldc as int)]);
                    }
                }
                assert forall|idx2: int|
                    0 <= idx2 < c0.len() && !row_done(
                        idx2,
                        m as int,
                        n as int,
                        ldc as int,
                        i as int,
                        j + 1,
                    ) implies #[trigger] c@[idx2] == c0[idx2] by {
                    assert(idx2 != idx);
                    assert(before[idx2] == c@[idx2]);
                }
            }
            j = j + 1;
        }
        proof {
            assert forall|idx2: int|
                0 <= idx2 < c0.len() && !row_done(idx2, m as int, n as int, ldc as int, i + 1, 0)
                    implies #[trigger] c@[idx2] == c0[idx2] by {
                if row_done(idx2, m as int, n as int, ldc as int, i as int, n as int) {
                    lemma_block_cm(idx2, m as int, n as int, ldc as int);
                }
            }
        }
        i = i + 1;
    }
    proof {
        assert forall|idx2: int|
            0 <= idx2 < c0.len() && !in_block(idx2, m as int, n as int, ldc as int)
                implies #[trigger] c@[idx2] == c0[idx2] by {
            if row_done(idx2, m as int, n as int, ldc as int, m as int, 0) {
            }
        }
    }
}


/// How many of the `k` rank-1 updates element `(ii, jj)` has received when the
/// update for `l` has reached element `(i, j)`.
pub open spec fn updates_done(ii: int, jj: int, l: int, j: int, i: int) -> int {
    if jj < j || (jj == j && ii < i) {
        l + 1
    } else {
        l
    }
}

/// One rank-1 step keeps an element within bounds and adds its next term.
proof fn lemma_rank1_step(alpha: int, beta: int, c: int, terms: Seq<int>, bound: int, l: int, av: int, bv: int)
    requires
        rank1_blend_fits(alpha, beta, c, terms, bound),
        0 <= l < terms.len(),
        terms[l] == av * bv,
    ensures
        av * (bv * alpha) == alpha * terms[l],
        within(av * (bv * alpha), bound),
        within(blend(alpha, beta, c, terms.take(l)) + av * (bv * alpha), bound),
        blend(alpha, beta, c, terms.take(l)) + av * (bv * alpha) == blend(
            alpha,
            beta,
            c,
            terms.take(l + 1),
        ),
{
    lemma_sum_take_step(terms, l);
    vstd::arithmetic::mul::lemma_mul_is_associative(av, bv, alpha);
    vstd::arithmetic::mul::lemma_mul_is_commutative(av * bv, alpha);
    vstd::arithmetic::mul::lemma_mul_is_distributive_add(alpha, seq_sum(terms.take(l)), terms[l]);
    assert(within(alpha * terms[l], bound));
    assert(within(blend(alpha, beta, c, terms.take(l + 1)), bound));
}

/// While the rank-1 update for `l` is at element `(i, j)`: every element of
/// the block holds the blend of its old value with the updates it has
/// received so far, and nothing outside the block has changed.
pub open spec fn rank1_state<S: GemmScalar, Out: GemmScalar>(
    c: Seq<Out>,
    c0: Seq<Out>,
    alpha: int,
    beta: int,
    a: Seq<S>,
    lda: int,
    b: Seq<S>,
    ldb: int,
    tb: bool,
    m: int,
    n: int,
    k: int,
    ldc: int,
    l: int,
    j: int,
    i: int,
) -> bool {
    &&& c.len() == c0.len()
    &&& forall|ii: int, jj: int|
        #![trigger cm(ii, jj, ldc)]
        0 <= ii < m && 0 <= jj < n ==> c[cm(ii, jj, ldc)].scalar_val() == blend(
            alpha,
            beta,
            c0[cm(ii, jj, ldc)].scalar_val(),
            dot_terms(scalar_vals(a), lda, false, scalar_vals(b), ldb, tb, k, ii, jj).take(
                updates_done(ii, jj, l, j, i),
            ),
        )
    &&& forall|idx: int|
        0 <= idx < c0.len() && !in_block(idx, m, n, ldc) ==> #[trigger] c[idx] == c0[idx]
}

/// Element `(i, j)` of `C` gains `op(A)[i, l] * val`, where `val` is
/// `op(B)[l, j] * alpha`.
fn rank1_step<S: GemmScalar, Out: GemmScalar<Op = S::Op>>(
    tb: bool,
    m: i64,
    n: i64,
    k: i64,
    alpha: S::Op,
    a: &[S],
    lda: i64,
    b: &[S],
    ldb: i64,
    beta: S::Op,
    c: &mut Vec<Out>,
    ldc: i64,
    l: i64,
    j: i64,
    i: i64,
    val: S::Op,
    Ghost(c0): Ghost<Seq<Out>>,
)
    requires
        0 <= l < k,
        0 <= j < n,
        0 <= i < m,
        gemm_ok::<S, Out>(
            false,
            tb,
            m as int,
            n as int,
            k as int,
            alpha.op_val(),
            a@,
            lda as int,
            b@,
            ldb as int,
            beta.op_val(),
            c0,
            ldc as int,
        ),
        !S::reduced_spec(),
        !Out::reduced_spec(),
        val.op_val() == op_at(scalar_vals(b@), ldb as int, tb, l as int, j as int) * alpha.op_val(),
        rank1_state::<S, Out>(
            old(c)@,
            c0,
            alpha.op_val(),
            beta.op_val(),
            a@,
            lda as int,
            b@,
            ldb as int,
            tb,
            m as int,
            n as int,
            k as int,
            ldc as int,
            l as int,
            j as int,
            i as int,
        ),
    ensures
        rank1_state::<S, Out>(
            final(c)@,
            c0,
            alpha.op_val(),
            beta.op_val(),
            a@,
            lda as int,
            b@,
            ldb as int,
            tb,
            m as int,
            n as int,
            k as int,
            ldc as int,
            l as int,
            j as int,
            i + 1,
        ),
{
    let ghost av = scalar_vals(a@);
    let ghost bv = scalar_vals(b@);
    let ghost ld = ldc as int;
    let ghost bound = <S::Op as GemmOp>::bound();
    let ghost terms = dot_terms(av, lda as int, false, bv, ldb as int, tb, k as int, i as int, j as int);
    let ghost cij = c0[cm(i as int, j as int, ld)].scalar_val();
    proof {
        lemma_cm_in_bounds(a@.len() as int, m as int, k as int, lda as int, i as int, l as int);
        lemma_cm_in_bounds(c0.len() as int, m as int, n as int, ld, i as int, j as int);
        lemma_cm_block(m as int, n as int, ld, i as int, j as int);
        assert(rank1_blend_fits(alpha.op_val(), beta.op_val(), cij, terms, bound));
        lemma_rank1_step(
            alpha.op_val(),
            beta.op_val(),
            cij,
            terms,
            bound,
            l as int,
            av[cm(i as int, l as int, lda as int)],
            op_at(bv, ldb as int, tb, l as int, j as int),
        );
        assert(updates_done(i as int, j as int, l as int, j as int, i as int) == l);
    }
    let alen = a.len();
    let ia = cm_index(i, l, lda, Ghost(alen as int));
    assert(c.len() == c0.len());
    let idx = cm_index(i, j, ldc, Ghost(c0.len() as int));
    let ghost before = c@;
    let cur = c[idx].to_op();
    let prod = a[ia].to_op().mul(val);
    proof {
        Out::lemma_narrow(cur.op_val() + prod.op_val());
    }
    c.set(idx, Out::from_op(cur.add(prod)));
    proof {
        assert forall|ii: int, jj: int|
            #![trigger cm(ii, jj, ld)]
            0 <= ii < m && 0 <= jj < n implies c@[cm(ii, jj, ld)].scalar_val() == blend(
                alpha.op_val(),
                beta.op_val(),
                c0[cm(ii, jj, ld)].scalar_val(),
                dot_terms(av, lda as int, false, bv, ldb as int, tb, k as int, ii, jj).take(
                    updates_done(ii, jj, l as int, j as int, i + 1),
                ),
            ) by {
            lemma_cm_block(m as int, n as int, ld, ii, jj);
            lemma_cm_in_bounds(c0.len() as int, m as int, n as int, ld, ii, jj);
            if ii != i || jj != j {
                assert(before[cm(ii, jj, ld)] == c@[cm(ii, jj, ld)]);
            }
        }
        assert forall|idx2: int|
            0 <= idx2 < c0.len() && !in_block(idx2, m as int, n as int, ld) implies #[trigger] c@[idx2]
            == c0[idx2] by {
            assert(idx2 != idx);
            assert(before[idx2] == c@[idx2]);
        }
    }
}

/// A finished pass over column `j` is the start of column `j + 1`, and a
/// finished pass over all columns for `l` is the start of `l + 1`.
proof fn lemma_rank1_state_advance<S: GemmScalar, Out: GemmScalar>(
    c: Seq<Out>,
    c0: Seq<Out>,
    alpha: int,
    beta: int,
    a: Seq<S>,
    lda: int,
    b: Seq<S>,
    ldb: int,
    tb: bool,
    m: int,
    n: int,
    k: int,
    ldc: int,
    l: int,
    j: int,
)
    requires
        0 <= j < n,
        rank1_state::<S, Out>(c, c0, alpha, beta, a, lda, b, ldb, tb, m, n, k, ldc, l, j, m),
    ensures
        rank1_state::<S, Out>(c, c0, alpha, beta, a, lda, b, ldb, tb, m, n, k, ldc, l, j + 1, 0),
        j + 1 == n ==> rank1_state::<S, Out>(
            c,
            c0,
            alpha,
            beta,
            a,
            lda,
            b,
            ldb,
            tb,
            m,
            n,
            k,
            ldc,
            l + 1,
            0,
            0,
        ),
{
    assert forall|ii: int, jj: int| 0 <= ii < m && 0 <= jj < n implies updates_done(ii, jj, l, j, m)
        == updates_done(ii, jj, l, j + 1, 0) && (j + 1 == n ==> updates_done(ii, jj, l, j + 1, 0)
        == updates_done(ii, jj, l + 1, 0, 0)) by {
    }
}

/// The same-type path: `C := beta * C` by `scale_`, then for each `l` and each
/// column `j`, column `j` of `C` gains column `l` of `A` times
/// `op(B)[l, j] * alpha`, four rows at a time and then the remaining rows.
fn rank1_kernel<S: GemmScalar, Out: GemmScalar<Op = S::Op>>(
    tb: bool,
    m: i64,
    n: i64,
    k: i64,
    alpha: S::Op,
    a: &[S],
    lda: i64,
    b: &[S],
    ldb: i64,
    beta: S::Op,
    c: &mut Vec<Out>,
    ldc: i64,
)
    requires
        gemm_ok::<S, Out>(
            false,
            tb,
            m as int,
            n as int,
            k as int,
            alpha.op_val(),
            a@,
            lda as int,
            b@,
            ldb as int,
            beta.op_val(),
            old(c)@,
            ldc as int,
        ),
        !Out::reduced_spec(),
        !S::reduced_spec(),
        forall|l: int, j: int|
            0 <= l < k && 0 <= j < n ==> within(
                #[trigger] op_at(scalar_vals(b@), ldb as int, tb, l, j) * alpha.op_val(),
                <S::Op as GemmOp>::bound(),
            ),
    ensures
        gemm_result::<S, Out>(
            false,
            tb,
            m as int,
            n as int,
            k as int,
            alpha.op_val(),
            a@,
            lda as int,
            b@,
            ldb as int,
            beta.op_val(),
            old(c)@,
            ldc as int,
            final(c)@,
        ),
{
    let ghost c0 = c@;
    let ghost av = scalar_vals(a@);
    let ghost bv = scalar_vals(b@);
    let ghost bound = <S::Op as GemmOp>::bound();
    let ghost ld = ldc as int;
    proof {
        assert forall|i: int, j: int|
            #![trigger cm(i, j, ld)]
            0 <= i < m && 0 <= j < n implies within(c0[cm(i, j, ld)].scalar_val() * beta.op_val(), bound) by {
            vstd::arithmetic::mul::lemma_mul_is_commutative(
                c0[cm(i, j, ld)].scalar_val(),
                beta.op_val(),
            );
            assert(rank1_blend_fits(
                alpha.op_val(),
                beta.op_val(),
                c0[cm(i, j, ld)].scalar_val(),
                dot_terms(av, lda as int, false, bv, ldb as int, tb, k as int, i, j),
                bound,
            ));
        }
    }
    scale_::<Out>(m, n, beta, c, ldc);
    proof {
        assert forall|i: int, j: int|
            #![trigger cm(i, j, ld)]
            0 <= i < m && 0 <= j < n implies c@[cm(i, j, ld)].scalar_val() == blend(
                alpha.op_val(),
                beta.op_val(),
                c0[cm(i, j, ld)].scalar_val(),
                dot_terms(av, lda as int, false, bv, ldb as int, tb, k as int, i, j).take(
                    updates_done(i, j, 0, 0, 0),
                ),
            ) by {
            let t = dot_terms(av, lda as int, false, bv, ldb as int, tb, k as int, i, j);
            assert(t.take(0) =~= Seq::<int>::empty());
            vstd::arithmetic::mul::lemma_mul_basics(alpha.op_val());
            vstd::arithmetic::mul::lemma_mul_is_commutative(
                c0[cm(i, j, ld)].scalar_val(),
                beta.op_val(),
            );
            assert(rank1_blend_fits(
                alpha.op_val(),
                beta.op_val(),
                c0[cm(i, j, ld)].scalar_val(),
                t,
                bound,
            ));
            Out::lemma_narrow(c0[cm(i, j, ld)].scalar_val() * beta.op_val());
        }
    }
    let mut l: i64 = 0;
    while l < k
        invariant
            0 <= l <= k,
            gemm_ok::<S, Out>(
                false,
                tb,
                m as int,
                n as int,
                k as int,
                alpha.op_val(),
                a@,
                lda as int,
                b@,
                ldb as int,
                beta.op_val(),
                c0,
                ld,
            ),
            !Out::reduced_spec(),
        !S::reduced_spec(),
            forall|ll: int, jj: int|
                0 <= ll < k && 0 <= jj < n ==> within(
                    #[trigger] op_at(bv, ldb as int, tb, ll, jj) * alpha.op_val(),
                    bound,
            ),
            av == scalar_vals(a@),
            bv == scalar_vals(b@),
            bound == <S::Op as GemmOp>::bound(),
            ld == ldc,
            n > 0 ==> rank1_state::<S, Out>(
                c@,
                c0,
                alpha.op_val(),
                beta.op_val(),
                a@,
                lda as int,
                b@,
                ldb as int,
                tb,
                m as int,
                n as int,
                k as int,
                ld,
                l as int,
                0,
                0,
            ),
            n == 0 ==> c@ == c0,
        decreases k - l,
    {
        let mut j: i64 = 0;
        while j < n
            invariant
                0 <= l < k,
                0 <= j <= n,
                gemm_ok::<S, Out>(
                    false,
                    tb,
                    m as int,
                    n as int,
                    k as int,
                    alpha.op_val(),
                    a@,
                    lda as int,
                    b@,
                    ldb as int,
                    beta.op_val(),
                    c0,
                    ld,
                ),
                !Out::reduced_spec(),
        !S::reduced_spec(),
                forall|ll: int, jj: int|
                    0 <= ll < k && 0 <= jj < n ==> within(
                        #[trigger] op_at(bv, ldb as int, tb, ll, jj) * alpha.op_val(),
                        bound,
                ),
                av == scalar_vals(a@),
                bv == scalar_vals(b@),
                bound == <S::Op as GemmOp>::bound(),
                ld == ldc,
                j < n ==> rank1_state::<S, Out>(
                    c@,
                    c0,
                    alpha.op_val(),
                    beta.op_val(),
                    a@,
                    lda as int,
                    b@,
                    ldb as int,
                    tb,
                    m as int,
                    n as int,
                    k as int,
                    ld,
                    l as int,
                    j as int,
                    0,
                ),
                j == n && n > 0 ==> rank1_state::<S, Out>(
                    c@,
                    c0,
                    alpha.op_val(),
                    beta.op_val(),
                    a@,
                    lda as int,
                    b@,
                    ldb as int,
                    tb,
                    m as int,
                    n as int,
                    k as int,
                    ld,
                    l + 1,
                    0,
                    0,
                ),
                n == 0 ==> c@ == c0,
            decreases n - j,
        {
            proof {
                lemma_op_in_bounds(b@.len() as int, tb, k as int, n as int, ldb as int, l as int, j as int);
                assert(within(op_at(bv, ldb as int, tb, l as int, j as int) * alpha.op_val(), bound));
            }
            let blen = b.len();
            let ib = op_index(tb, l, j, ldb, Ghost(blen as int));
            let val = b[ib].mul_op(alpha);
            let i_m = m / 4;
            let mut i_i: i64 = 0;
            while i_i < i_m
                invariant
                    0 <= l < k,
                    0 <= j < n,
                    i_m == m / 4,
                    0 <= i_i <= i_m,
                    gemm_ok::<S, Out>(
                        false,
                        tb,
                        m as int,
                        n as int,
                        k as int,
                        alpha.op_val(),
                        a@,
                        lda as int,
                        b@,
                        ldb as int,
                        beta.op_val(),
                        c0,
                        ld,
                    ),
                    !Out::reduced_spec(),
        !S::reduced_spec(),
                    val.op_val() == op_at(bv, ldb as int, tb, l as int, j as int) * alpha.op_val(),
                    bv == scalar_vals(b@),
                    ld == ldc,
                    rank1_state::<S, Out>(
                        c@,
                        c0,
                        alpha.op_val(),
                        beta.op_val(),
                        a@,
                        lda as int,
                        b@,
                        ldb as int,
                        tb,
                        m as int,
                        n as int,
                        k as int,
                        ld,
                        l as int,
                        j as int,
                        i_i * 4,
                    ),
                decreases i_m - i_i,
            {
                let mut off: i64 = 0;
                while off < 4
                    invariant
                        0 <= l < k,
                        0 <= j < n,
                        i_m == m / 4,
                        0 <= i_i < i_m,
                        0 <= off <= 4,
                        gemm_ok::<S, Out>(
                            false,
                            tb,
                            m as int,
                            n as int,
                            k as int,
                            alpha.op_val(),
                            a@,
                            lda as int,
                            b@,
                            ldb as int,
                            beta.op_val(),
                            c0,
                            ld,
                        ),
                        !Out::reduced_spec(),
        !S::reduced_spec(),
                        val.op_val() == op_at(bv, ldb as int, tb, l as int, j as int)
                            * alpha.op_val(),
                        bv == scalar_vals(b@),
                        ld == ldc,
                        rank1_state::<S, Out>(
                            c@,
                            c0,
                            alpha.op_val(),
                            beta.op_val(),
                            a@,
                            lda as int,
                            b@,
                            ldb as int,
                            tb,
                            m as int,
                            n as int,
                            k as int,
                            ld,
                            l as int,
                            j as int,
                            i_i * 4 + off,
                        ),
                    decreases 4 - off,
                {
                    rank1_step::<S, Out>(
                        tb,
                        m,
                        n,
                        k,
                        alpha,
                        a,
                        lda,
                        b,
                        ldb,
                        beta,
                        c,
                        ldc,
                        l,
                        j,
                        i_i * 4 + off,
                        val,
                        Ghost(c0),
                    );
                    off = off + 1;
                }
                i_i = i_i + 1;
            }
            let mut i: i64 = i_m * 4;
            while i < m
                invariant
                    0 <= l < k,
                    0 <= j < n,
                    0 <= i <= m,
                    gemm_ok::<S, Out>(
                        false,
                        tb,
                        m as int,
                        n as int,
                        k as int,
                        alpha.op_val(),
                        a@,
                        lda as int,
                        b@,
                        ldb as int,
                        beta.op_val(),
                        c0,
                        ld,
                    ),
                    !Out::reduced_spec(),
        !S::reduced_spec(),
                    val.op_val() == op_at(bv, ldb as int, tb, l as int, j as int) * alpha.op_val(),
                    bv == scalar_vals(b@),
                    ld == ldc,
                    rank1_state::<S, Out>(
                        c@,
                        c0,
                        alpha.op_val(),
                        beta.op_val(),
                        a@,
                        lda as int,
                        b@,
                        ldb as int,
                        tb,
                        m as int,
                        n as int,
                        k as int,
                        ld,
                        l as int,
                        j as int,
                        i as int,
                    ),
                decreases m - i,
            {
                rank1_step::<S, Out>(
                    tb,
                    m,
                    n,
                    k,
                    alpha,
                    a,
                    lda,
                    b,
                    ldb,
                    beta,
                    c,
                    ldc,
                    l,
                    j,
                    i,
                    val,
                    Ghost(c0),
                );
                i = i + 1;
            }
            proof {
                lemma_rank1_state_advance::<S, Out>(
                    c@,
                    c0,
                    alpha.op_val(),
                    beta.op_val(),
                    a@,
                    lda as int,
                    b@,
                    ldb as int,
                    tb,
                    m as int,
                    n as int,
                    k as int,
                    ld,
                    l as int,
                    j as int,
                );
            }
            j = j + 1;
        }
        l = l + 1;
    }
    proof {
        if n > 0 {
            assert forall|i: int, j: int|
                #![trigger cm(i, j, ld)]
                0 <= i < m && 0 <= j < n implies c@[cm(i, j, ld)].scalar_val() == Out::narrow(
                    blend(
                        alpha.op_val(),
                        beta.op_val(),
                        c0[cm(i, j, ld)].scalar_val(),
                        dot_terms(av, lda as int, false, bv, ldb as int, tb, k as int, i, j),
                    ),
                ) by {
                let t = dot_terms(av, lda as int, false, bv, ldb as int, tb, k as int, i, j);
                assert(updates_done(i, j, k as int, 0, 0) == k);
                assert(t.take(k as int) =~= t);
                assert(rank1_blend_fits(
                    alpha.op_val(),
                    beta.op_val(),
                    c0[cm(i, j, ld)].scalar_val(),
                    t,
                    bound,
                ));
                if k == 0 {
                    assert(t =~= Seq::<int>::empty());
                    vstd::arithmetic::mul::lemma_mul_basics(alpha.op_val());
                } else {
                    assert(within(blend(alpha.op_val(), beta.op_val(), c0[cm(i, j, ld)].scalar_val(), t.take(k as int)), bound));
                }
                Out::lemma_narrow(
                    blend(alpha.op_val(), beta.op_val(), c0[cm(i, j, ld)].scalar_val(), t),
                );
            }
        }
    }
}

/// `C := beta * C + alpha * A · B` for column-major `A` (`m × k`), `B`
/// (`k × n`) and `C` (`m × n`).  When elements are summed in their own type,
/// `C` is first scaled by `beta` and then gains one rank-1 update per column of
/// `A`; otherwise each element of `C` is one dot product, blended with its old
/// value (`beta == 0` overwrites it).
pub fn gemm_notrans_<S: GemmScalar, Out: GemmScalar<Op = S::Op>>(
    m: i64,
    n: i64,
    k: i64,
    alpha: S::Op,
    a: &[S],
    lda: i64,
    b: &[S],
    ldb: i64,
    beta: S::Op,
    c: &mut Vec<Out>,
    ldc: i64,
)
    requires
        gemm_ok::<S, Out>(
            false,
            false,
            m as int,
            n as int,
            k as int,
            alpha.op_val(),
            a@,
            lda as int,
            b@,
            ldb as int,
            beta.op_val(),
            old(c)@,
            ldc as int,
        ),
        !S::reduced_spec() ==> !Out::reduced_spec(),
        !S::reduced_spec() ==> forall|l: int, j: int|
            0 <= l < k && 0 <= j < n ==> within(
                #[trigger] op_at(scalar_vals(b@), ldb as int, false, l, j) * alpha.op_val(),
                <S::Op as GemmOp>::bound(),
            ),
    ensures
        gemm_result::<S, Out>(
            false,
            false,
            m as int,
            n as int,
            k as int,
            alpha.op_val(),
            a@,
            lda as int,
            b@,
            ldb as int,
            beta.op_val(),
            old(c)@,
            ldc as int,
            final(c)@,
        ),
{
    if !S::reduced() {
        rank1_kernel::<S, Out>(false, m, n, k, alpha, a, lda, b, ldb, beta, c, ldc);
    } else {
        dot_kernel::<S, Out>(false, false, m, n, k, alpha, a, lda, b, ldb, beta, c, ldc);
    }
}

/// `C := beta * C + alpha * Aᵀ · B`, where `A` is stored `k × m`: each element
/// of `C` is the dot product of a column of `A` with a column of `B`, blended
/// with its old value (`beta == 0` overwrites it).
pub fn gemm_transa_<S: GemmScalar, Out: GemmScalar<Op = S::Op>>(
    m: i64,
    n: i64,
    k: i64,
    alpha: S::Op,
    a: &[S],
    lda: i64,
    b: &[S],
    ldb: i64,
    beta: S::Op,
    c: &mut Vec<Out>,
    ldc: i64,
)
    requires
        gemm_ok::<S, Out>(
            true,
            false,
            m as int,
            n as int,
            k as int,
            alpha.op_val(),
            a@,
            lda as int,
            b@,
            ldb as int,
            beta.op_val(),
            old(c)@,
            ldc as int,
        ),
    ensures
        gemm_result::<S, Out>(
            true,
            false,
            m as int,
            n as int,
            k as int,
            alpha.op_val(),
            a@,
            lda as int,
            b@,
            ldb as int,
            beta.op_val(),
            old(c)@,
            ldc as int,
            final(c)@,
        ),
{
    dot_kernel::<S, Out>(true, false, m, n, k, alpha, a, lda, b, ldb, beta, c, ldc);
}

/// `C := beta * C + alpha * A · Bᵀ`, where `B` is stored `n × k`; the same two
/// paths as `gemm_notrans_`.
pub fn gemm_transb_<S: GemmScalar, Out: GemmScalar<Op = S::Op>>(
    m: i64,
    n: i64,
    k: i64,
    alpha: S::Op,
    a: &[S],
    lda: i64,
    b: &[S],
    ldb: i64,
    beta: S::Op,
    c: &mut Vec<Out>,
    ldc: i64,
)
    requires
        gemm_ok::<S, Out>(
            false,
            true,
            m as int,
            n as int,
            k as int,
            alpha.op_val(),
            a@,
            lda as int,
            b@,
            ldb as int,
            beta.op_val(),
            old(c)@,
            ldc as int,
        ),
        !S::reduced_spec() ==> !Out::reduced_spec(),
        !S::reduced_spec() ==> forall|l: int, j: int|
            0 <= l < k && 0 <= j < n ==> within(
                #[trigger] op_at(scalar_vals(b@), ldb as int, true, l, j) * alpha.op_val(),
                <S::Op as GemmOp>::bound(),
            ),
    ensures
        gemm_result::<S, Out>(
            false,
            true,
            m as int,
            n as int,
            k as int,
            alpha.op_val(),
            a@,
            lda as int,
            b@,
            ldb as int,
            beta.op_val(),
            old(c)@,
            ldc as int,
            final(c)@,
        ),
{
    if !S::reduced() {
        rank1_kernel::<S, Out>(true, m, n, k, alpha, a, lda, b, ldb, beta, c, ldc);
    } else {
        dot_kernel::<S, Out>(false, true, m, n, k, alpha, a, lda, b, ldb, beta, c, ldc);
    }
}

/// `C := beta * C + alpha * Aᵀ · Bᵀ`, where `A` is stored `k × m` and `B`
/// `n × k`: one dot product per element of `C`.
pub fn gemm_transab_<S: GemmScalar, Out: GemmScalar<Op = S::Op>>(
    m: i64,
    n: i64,
    k: i64,
    alpha: S::Op,
    a: &[S],
    lda: i64,
    b: &[S],
    ldb: i64,
    beta: S::Op,
    c: &mut Vec<Out>,
    ldc: i64,
)
    requires
        gemm_ok::<S, Out>(
            true,
            true,
            m as int,
            n as int,
            k as int,
            alpha.op_val(),
            a@,
            lda as int,
            b@,
            ldb as int,
            beta.op_val(),
            old(c)@,
            ldc as int,
        ),
    ensures
        gemm_result::<S, Out>(
            true,
            true,
            m as int,
            n as int,
            k as int,
            alpha.op_val(),
            a@,
            lda as int,
            b@,
            ldb as int,
            beta.op_val(),
            old(c)@,
            ldc as int,
            final(c)@,
        ),
{
    dot_kernel::<S, Out>(true, true, m, n, k, alpha, a, lda, b, ldb, beta, c, ldc);
}


/// With `beta == 0` the old contents of `C` do not matter: two GEMMs that
/// differ only in the old `C` give the same block.
pub proof fn lemma_gemm_beta_zero_overwrites<S: GemmScalar, Out: GemmScalar>(
    ta: bool,
    tb: bool,
    m: int,
    n: int,
    k: int,
    alpha: int,
    a: Seq<S>,
    lda: int,
    b: Seq<S>,
    ldb: int,
    c0: Seq<Out>,
    d0: Seq<Out>,
    ldc: int,
    c1: Seq<Out>,
    d1: Seq<Out>,
)
    requires
        gemm_result::<S, Out>(ta, tb, m, n, k, alpha, a, lda, b, ldb, 0, c0, ldc, c1),
        gemm_result::<S, Out>(ta, tb, m, n, k, alpha, a, lda, b, ldb, 0, d0, ldc, d1),
    ensures
        forall|i: int, j: int|
            #![trigger cm(i, j, ldc)]
            0 <= i < m && 0 <= j < n ==> c1[cm(i, j, ldc)].scalar_val() == d1[cm(
                i,
                j,
                ldc,
            )].scalar_val(),
{
    assert forall|i: int, j: int|
        #![trigger cm(i, j, ldc)]
        0 <= i < m && 0 <= j < n implies c1[cm(i, j, ldc)].scalar_val() == d1[cm(
            i,
            j,
            ldc,
        )].scalar_val() by {
        vstd::arithmetic::mul::lemma_mul_basics(c0[cm(i, j, ldc)].scalar_val());
        vstd::arithmetic::mul::lemma_mul_basics(d0[cm(i, j, ldc)].scalar_val());
    }
}

/// With `alpha == 0` and `beta == 1` a GEMM leaves the values of `C` as they
/// are.
pub proof fn lemma_gemm_keeps_c<S: GemmScalar, Out: GemmScalar>(
    ta: bool,
    tb: bool,
    m: int,
    n: int,
    k: int,
    a: Seq<S>,
    lda: int,
    b: Seq<S>,
    ldb: int,
    c0: Seq<Out>,
    ldc: int,
    c1: Seq<Out>,
)
    requires
        gemm_result::<S, Out>(ta, tb, m, n, k, 0, a, lda, b, ldb, 1, c0, ldc, c1),
    ensures
        forall|i: int, j: int|
            #![trigger cm(i, j, ldc)]
            0 <= i < m && 0 <= j < n ==> c1[cm(i, j, ldc)].scalar_val() == c0[cm(
                i,
                j,
                ldc,
            )].scalar_val(),
{
    assert forall|i: int, j: int|
        #![trigger cm(i, j, ldc)]
        0 <= i < m && 0 <= j < n implies c1[cm(i, j, ldc)].scalar_val() == c0[cm(
            i,
            j,
            ldc,
        )].scalar_val() by {
        let t = dot_terms(scalar_vals(a), lda, ta, scalar_vals(b), ldb, tb, k, i, j);
        vstd::arithmetic::mul::lemma_mul_basics(seq_sum(t));
        vstd::arithmetic::mul::lemma_mul_basics(c0[cm(i, j, ldc)].scalar_val());
        Out::lemma_roundtrip(c0[cm(i, j, ldc)]);
    }
}

} // verus!
