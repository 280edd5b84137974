//! Bookkeeping shared by the FFT kernels: the extents of a tensor as a shape,
//! and the normalisation factor a transform is scaled by.

use vstd::prelude::*;

use crate::tensor::{Error, KernelRuntimeContext, Tensor};

verus! {

/// The sizes of `t`, one entry per dimension.
pub fn shape_from_tensor<T: Copy>(t: &Tensor<T>) -> (r: Vec<usize>)
    requires
        t.wf(),
    ensures
        r@.len() == t.shape().len(),
        forall|i: int| 0 <= i < r@.len() ==> #[trigger] r@[i] == t.shape()[i] as int,
{
    proof {
        t.lemma_wf();
    }
    let sizes = t.sizes();
    let mut shape: Vec<usize> = Vec::new();
    let mut i: usize = 0;
    while i < sizes.len()
        invariant
            sizes@ == t.shape(),
            crate::tensor::shape_nonneg(t.shape()),
            i <= sizes@.len(),
            shape@.len() == i,
            forall|j: int| 0 <= j < i ==> #[trigger] shape@[j] == t.shape()[j] as int,
        decreases sizes@.len() - i,
    {
        shape.push(sizes[i] as usize);
        i = i + 1;
    }
    shape
}

/// How a transform is normalised: not at all, by `1 / sqrt(n)`, or by `1 / n`
/// for a signal of `n` samples.  The modes are numbered `0`, `1` and `2`.
#[derive(Clone, Copy, Debug, PartialEq, Eq, Structural)]
pub enum FftNormMode {
    /// Mode `0`: no normalisation.
    NoNorm,
    /// Mode `1`: divide by `sqrt(n)`.
    ByRootN,
    /// Mode `2`: divide by `n`.
    ByN,
}

/// The mode numbered `v`, if there is one.
pub open spec fn norm_mode_of(v: i64) -> Option<FftNormMode> {
    if v == 0 {
        Some(FftNormMode::NoNorm)
    } else if v == 1 {
        Some(FftNormMode::ByRootN)
    } else if v == 2 {
        Some(FftNormMode::ByN)
    } else {
        None
    }
}

impl FftNormMode {
    /// The mode numbered `v` (`0`, `1` or `2`), or `None`.
    pub fn from_i64(v: i64) -> (r: Option<FftNormMode>)
        ensures
            r == norm_mode_of(v),
    {
        if v == 0 {
            Some(FftNormMode::NoNorm)
        } else if v == 1 {
            Some(FftNormMode::ByRootN)
        } else if v == 2 {
            Some(FftNormMode::ByN)
        } else {
            None
        }
    }
}

/// The arithmetic a normalisation factor is computed with.  Each operation
/// is a function of its arguments, named by a spec function that an
/// implementation defines.
pub trait ComputeFct: Copy {
    /// The value `1`.
    spec fn one_spec() -> Self;

    /// The value of the integer `v`.
    spec fn from_i64_spec(v: i64) -> Self;

    /// `a / b`.
    spec fn div_spec(a: Self, b: Self) -> Self;

    /// The square root of `x`.
    spec fn sqrt_spec(x: Self) -> Self;

    fn one() -> (r: Self)
        ensures
            r == Self::one_spec(),
    ;

    fn from_i64(v: i64) -> (r: Self)
        ensures
            r == Self::from_i64_spec(v),
    ;

    fn div(a: Self, b: Self) -> (r: Self)
        ensures
            r == Self::div_spec(a, b),
    ;

    fn sqrt(self) -> (r: Self)
        ensures
            r == Self::sqrt_spec(self),
    ;
}

/// The factor a transform over `size` samples is scaled by in mode
/// `normalization`: `1`, `1 / sqrt(size)` or `1 / size`; `None` for any
/// other mode.
pub open spec fn fct_of_size<T: ComputeFct>(size: i64, normalization: i64) -> Option<T> {
    match norm_mode_of(normalization) {
        Some(FftNormMode::NoNorm) => Some(T::one_spec()),
        Some(FftNormMode::ByRootN) => Some(
            T::div_spec(T::one_spec(), T::sqrt_spec(T::from_i64_spec(size))),
        ),
        Some(FftNormMode::ByN) => Some(T::div_spec(T::one_spec(), T::from_i64_spec(size))),
        None => None,
    }
}

/// The factor a transform over `size` samples is scaled by: `1` for mode `0`,
/// `1 / sqrt(size)` for mode `1`, `1 / size` for mode `2`.  Any other mode
/// fails the kernel with `InvalidArgument` and gives `None`.
pub fn compute_fct_size<T: ComputeFct>(
    ctx: &mut KernelRuntimeContext,
    size: i64,
    normalization: i64,
) -> (r: Option<T>)
    ensures
        r == fct_of_size::<T>(size, normalization),
        final(ctx).failure_spec() == if r is Some {
            old(ctx).failure_spec()
        } else {
            Error::InvalidArgument
        },
{
    let one = T::one();
    match FftNormMode::from_i64(normalization) {
        Some(FftNormMode::NoNorm) => Some(one),
        Some(FftNormMode::ByN) => Some(T::div(one, T::from_i64(size))),
        Some(FftNormMode::ByRootN) => Some(T::div(one, T::from_i64(size).sqrt())),
        None => {
            ctx.fail(Error::InvalidArgument);
            None
        },
    }
}

/// Product of the sizes of `shape` at the positions listed in `dims`.
pub open spec fn signal_size(shape: Seq<i32>, dims: Seq<i64>) -> int
    decreases dims.len(),
{
    if dims.len() == 0 {
        1
    } else {
        signal_size(shape, dims.drop_last()) * shape[dims.last() as int]
    }
}

/// Every prefix of the products making up `signal_size` fits in an `i64`.
pub open spec fn signal_size_fits(shape: Seq<i32>, dims: Seq<i64>) -> bool {
    forall|p: int|
        0 <= p <= dims.len() ==> i64::MIN <= #[trigger] signal_size(shape, dims.take(p))
            <= i64::MAX
}

/// The normalisation factor of a transform of `t` over the dimensions `dim`:
/// mode `0` gives `1` at once; otherwise the signal size is the product of the
/// sizes of `t` at `dim`, and `compute_fct_size` decides.
pub fn compute_fct<T: ComputeFct, E: Copy>(
    ctx: &mut KernelRuntimeContext,
    t: &Tensor<E>,
    dim: &[i64],
    normalization: i64,
) -> (r: Option<T>)
    requires
        normalization != 0 ==> forall|i: int|
            0 <= i < dim@.len() ==> 0 <= #[trigger] dim@[i] < t.shape().len(),
        normalization != 0 ==> signal_size_fits(t.shape(), dim@),
    ensures
        normalization == 0 ==> r == Some(T::one_spec()),
        normalization != 0 ==> r == fct_of_size::<T>(
            signal_size(t.shape(), dim@) as i64,
            normalization,
        ),
        final(ctx).failure_spec() == if r is Some {
            old(ctx).failure_spec()
        } else {
            Error::InvalidArgument
        },
{
    if normalization == 0 {
        return Some(T::one());
    }
    let sizes = t.sizes();
    let mut n: i64 = 1;
    let mut i: usize = 0;
    proof {
        assert(dim@.take(0) =~= Seq::<i64>::empty());
    }
    while i < dim.len()
        invariant
            sizes@ == t.shape(),
            forall|j: int| 0 <= j < dim@.len() ==> 0 <= #[trigger] dim@[j] < t.shape().len(),
            signal_size_fits(t.shape(), dim@),
            i <= dim@.len(),
            n == signal_size(t.shape(), dim@.take(i as int)),
        decreases dim@.len() - i,
    {
        let idx = dim[i];
        proof {
            assert(dim@.take(i as int + 1).drop_last() =~= dim@.take(i as int));
            assert(dim@.take(i as int + 1).last() == idx);
            assert(i64::MIN <= signal_size(t.shape(), dim@.take(i as int + 1)) <= i64::MAX);
        }
        assert(0 <= idx < sizes.len());
        let s = sizes[idx as usize];
        assert(s == t.shape()[idx as int]);
        assert(signal_size(t.shape(), dim@.take(i as int + 1)) == n * s);
        n = n * (s as i64);
        i = i + 1;
    }
    proof {
        assert(dim@.take(dim@.len() as int) =~= dim@);
    }
    compute_fct_size::<T>(ctx, n, normalization)
}

} // verus!
