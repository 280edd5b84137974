//! A contiguous tensor (element type, sizes, shape dynamism and elements),
//! the error codes kernels report, and the kernel runtime context that
//! records a kernel's failure.

use vstd::prelude::*;

verus! {

/// Element type tags of tensors.
#[derive(Clone, Copy, Debug, PartialEq, Eq, Structural)]
pub enum ScalarType {
    Byte,
    Char,
    Short,
    Int,
    Long,
    Half,
    Float,
    Double,
    ComplexHalf,
    ComplexFloat,
    ComplexDouble,
    Bool,
    BFloat16,
}

/// Whether, and how far, a tensor's shape may change after creation.
#[derive(Clone, Copy, Debug, PartialEq, Eq, Structural)]
pub enum TensorShapeDynamism {
    /// The shape never changes.
    Static,
    /// The shape may change as long as the element count stays within the
    /// allocation.
    DynamicBound,
    /// The shape may change; the element count is still bounded by the
    /// allocation.
    DynamicUnbound,
}

/// Status codes returned by runtime and kernel operations.
#[derive(Clone, Copy, Debug, PartialEq, Eq, Structural)]
pub enum Error {
    Success,
    Internal,
    InvalidState,
    NotSupported,
    NotImplemented,
    InvalidArgument,
    InvalidType,
    RegistrationExceedingMaxKernels,
}

/// Per-call kernel state: the failure a kernel reported, if any.
pub struct KernelRuntimeContext {
    failure: Error,
}

impl KernelRuntimeContext {
    pub closed spec fn failure_spec(&self) -> Error {
        self.failure
    }

    /// A context with no failure recorded.
    pub fn new() -> (r: Self)
        ensures
            r.failure_spec() == Error::Success,
    {
        KernelRuntimeContext { failure: Error::Success }
    }

    /// Records that the running kernel failed with `error`.
    pub fn fail(&mut self, error: Error)
        ensures
            final(self).failure_spec() == error,
    {
        self.failure = error;
    }

    /// The failure the kernel reported, `Error::Success` if none.
    pub fn failure_state(&self) -> (r: Error)
        ensures
            r == self.failure_spec(),
    {
        self.failure
    }
}

/// The most dimensions a tensor can have.
pub const MAX_DIMS: usize = 16;

/// Product of the sizes of a shape (1 for the empty shape).
pub open spec fn shape_numel(s: Seq<i32>) -> int
    decreases s.len(),
{
    if s.len() == 0 {
        1
    } else {
        shape_numel(s.drop_last()) * s.last()
    }
}

/// No size of the shape is negative.
pub open spec fn shape_nonneg(s: Seq<i32>) -> bool {
    forall|i: int| 0 <= i < s.len() ==> s[i] >= 0
}

pub proof fn lemma_shape_numel_nonneg(s: Seq<i32>)
    requires
        shape_nonneg(s),
    ensures
        shape_numel(s) >= 0,
    decreases s.len(),
{
    if s.len() > 0 {
        lemma_shape_numel_nonneg(s.drop_last());
        assert(shape_numel(s.drop_last()) * s.last() >= 0) by (nonlinear_arith)
            requires
                shape_numel(s.drop_last()) >= 0,
                s.last() >= 0,
        ;
    }
}

/// The element count of a shape is the product of the counts of any prefix
/// and the matching suffix.
pub proof fn lemma_shape_numel_split(s: Seq<i32>, k: int)
    requires
        0 <= k <= s.len(),
    ensures
        shape_numel(s) == shape_numel(s.subrange(0, k)) * shape_numel(s.subrange(k, s.len() as int)),
    decreases s.len(),
{
    if k == s.len() {
        assert(s.subrange(0, k) =~= s);
        assert(s.subrange(k, s.len() as int) =~= Seq::<i32>::empty());
    } else {
        let d = s.drop_last();
        lemma_shape_numel_split(d, k);
        assert(d.subrange(0, k) =~= s.subrange(0, k));
        assert(s.subrange(k, s.len() as int).drop_last() =~= d.subrange(k, d.len() as int));
        assert(s.subrange(k, s.len() as int).last() == s.last());
        let a = shape_numel(s.subrange(0, k));
        let b = shape_numel(d.subrange(k, d.len() as int));
        assert(a * b * s.last() == a * (b * s.last())) by (nonlinear_arith);
    }
}

/// A shape of 1s has one element.
pub proof fn lemma_shape_numel_ones(s: Seq<i32>)
    requires
        forall|j: int| 0 <= j < s.len() ==> s[j] == 1,
    ensures
        shape_numel(s) == 1,
    decreases s.len(),
{
    if s.len() > 0 {
        lemma_shape_numel_ones(s.drop_last());
    }
}

/// Product of the first `d` sizes, or `None` when it does not fit in a
/// `usize`.
pub fn leading_dims_product(sizes: &Vec<i32>, d: usize) -> (r: Option<usize>)
    requires
        d <= sizes.len(),
        shape_nonneg(sizes@),
    ensures
        r is Some <==> shape_numel(sizes@.subrange(0, d as int)) <= usize::MAX,
        r matches Some(n) ==> n == shape_numel(sizes@.subrange(0, d as int)),
{
    let mut prefix: Vec<i32> = Vec::new();
    let mut i: usize = 0;
    while i < d
        invariant
            i <= d <= sizes.len(),
            prefix@ == sizes@.subrange(0, i as int),
        decreases d - i,
    {
        prefix.push(sizes[i]);
        proof {
            assert(prefix@ =~= sizes@.subrange(0, i as int + 1));
        }
        i = i + 1;
    }
    proof {
        assert(shape_nonneg(prefix@));
    }
    compute_numel(&prefix)
}

/// Number of elements of a shape, or `None` when it has a negative size or
/// the count does not fit in a `usize`.
pub fn compute_numel(sizes: &Vec<i32>) -> (r: Option<usize>)
    ensures
        r is Some <==> shape_nonneg(sizes@) && shape_numel(sizes@) <= usize::MAX,
        r matches Some(n) ==> n == shape_numel(sizes@),
{
    let mut acc: usize = 1;
    let mut i: usize = 0;
    let mut overflowed = false;
    while i < sizes.len()
        invariant
            i <= sizes.len(),
            shape_nonneg(sizes@.take(i as int)),
            overflowed ==> shape_numel(sizes@.take(i as int)) > usize::MAX,
            !overflowed ==> acc == shape_numel(sizes@.take(i as int)),
        decreases sizes.len() - i,
    {
        let s = sizes[i];
        if s < 0 {
            proof {
                assert(!shape_nonneg(sizes@)) by {
                    assert(sizes@[i as int] < 0);
                }
            }
            return None;
        }
        proof {
            assert(sizes@.take(i as int + 1).drop_last() =~= sizes@.take(i as int));
            assert(sizes@.take(i as int + 1).last() == s);
            lemma_shape_numel_nonneg(sizes@.take(i as int));
        }
        if !overflowed {
            match acc.checked_mul(s as usize) {
                Some(v) => {
                    acc = v;
                },
                None => {
                    overflowed = true;
                },
            }
        } else {
            proof {
                let p = shape_numel(sizes@.take(i as int));
                if s > 0 {
                    assert(p * s >= p) by (nonlinear_arith)
                        requires
                            p >= 0,
                            s >= 1,
                    ;
                } else {
                    // A zero size makes the count zero again.
                }
            }
            if s == 0 {
                overflowed = false;
                acc = 0;
            }
        }
        i = i + 1;
    }
    proof {
        assert(sizes@.take(sizes.len() as int) =~= sizes@);
    }
    if overflowed {
        None
    } else {
        Some(acc)
    }
}

/// A contiguous tensor: element type tag, sizes, shape dynamism, and an
/// allocation of elements whose first `numel` entries are the tensor's
/// contents.
pub struct Tensor<T> {
    scalar_type: ScalarType,
    sizes: Vec<i32>,
    dynamism: TensorShapeDynamism,
    numel: usize,
    data: Vec<T>,
}

impl<T: Copy> Tensor<T> {
    /// The sizes of the tensor.
    pub closed spec fn shape(&self) -> Seq<i32> {
        self.sizes@
    }

    /// The element type tag.
    pub closed spec fn dtype(&self) -> ScalarType {
        self.scalar_type
    }

    /// The shape dynamism.
    pub closed spec fn dynamism_spec(&self) -> TensorShapeDynamism {
        self.dynamism
    }

    /// Number of elements the allocation holds.
    pub closed spec fn capacity(&self) -> nat {
        self.data@.len()
    }

    /// The whole allocation; the elements are its first `numel` entries.
    pub closed spec fn allocation(&self) -> Seq<T> {
        self.data@
    }

    /// The elements, in row-major order.
    pub closed spec fn elems(&self) -> Seq<T> {
        self.data@.take(self.numel as int)
    }

    /// Sizes are non-negative and the elements fill the shape.
    pub closed spec fn wf(&self) -> bool {
        &&& shape_nonneg(self.sizes@)
        &&& self.sizes@.len() <= MAX_DIMS
        &&& self.numel == shape_numel(self.sizes@)
        &&& self.numel <= self.data@.len()
        &&& self.data@.len() <= usize::MAX
    }

    pub proof fn lemma_wf(&self)
        requires
            self.wf(),
        ensures
            shape_nonneg(self.shape()),
            self.shape().len() <= MAX_DIMS,
            self.elems().len() == shape_numel(self.shape()),
            shape_numel(self.shape()) <= self.capacity(),
            self.capacity() <= usize::MAX,
            self.capacity() == self.allocation().len(),
            self.elems() == self.allocation().take(self.elems().len() as int),
    {
    }

    /// A tensor of the given sizes holding `data`, or `None` when a size is
    /// negative or `data` does not hold exactly one element per entry.
    pub fn from_parts(
        scalar_type: ScalarType,
        sizes: Vec<i32>,
        data: Vec<T>,
        dynamism: TensorShapeDynamism,
    ) -> (r: Option<Self>)
        ensures
            r is Some <==> shape_nonneg(sizes@) && sizes@.len() <= MAX_DIMS && shape_numel(sizes@)
                == data@.len(),
            r matches Some(t) ==> {
                &&& t.wf()
                &&& t.shape() == sizes@
                &&& t.elems() == data@
                &&& t.dtype() == scalar_type
                &&& t.dynamism_spec() == dynamism
                &&& t.capacity() == data@.len()
            },
    {
        let len = data.len();
        if sizes.len() > MAX_DIMS {
            return None;
        }
        match compute_numel(&sizes) {
            Some(n) => {
                if n == data.len() {
                    proof {
                        assert(data@.take(n as int) =~= data@);
                    }
                    Some(Tensor { scalar_type, sizes, dynamism, numel: n, data })
                } else {
                    None
                }
            },
            None => None,
        }
    }

    /// Number of dimensions.
    pub fn dim(&self) -> (r: usize)
        ensures
            r == self.shape().len(),
    {
        self.sizes.len()
    }

    /// The sizes.
    pub fn sizes(&self) -> (r: &Vec<i32>)
        ensures
            r@ == self.shape(),
    {
        &self.sizes
    }

    /// Size of dimension `d`.
    pub fn size(&self, d: usize) -> (r: i32)
        requires
            d < self.shape().len(),
        ensures
            r == self.shape()[d as int],
    {
        self.sizes[d]
    }

    /// Number of elements.
    pub fn numel(&self) -> (r: usize)
        requires
            self.wf(),
        ensures
            r == shape_numel(self.shape()),
            r == self.elems().len(),
    {
        self.numel
    }

    /// The element type tag.
    pub fn scalar_type(&self) -> (r: ScalarType)
        ensures
            r == self.dtype(),
    {
        self.scalar_type
    }

    /// The shape dynamism.
    pub fn shape_dynamism(&self) -> (r: TensorShapeDynamism)
        ensures
            r == self.dynamism_spec(),
    {
        self.dynamism
    }

    /// Element `i` in row-major order.
    pub fn at(&self, i: usize) -> (r: T)
        requires
            self.wf(),
            i < self.elems().len(),
        ensures
            r == self.elems()[i as int],
    {
        self.data[i]
    }

    /// Overwrites element `i`.
    pub fn set(&mut self, i: usize, v: T)
        requires
            old(self).wf(),
            i < old(self).elems().len(),
        ensures
            final(self).wf(),
            final(self).elems() == old(self).elems().update(i as int, v),
            final(self).shape() == old(self).shape(),
            final(self).dtype() == old(self).dtype(),
            final(self).dynamism_spec() == old(self).dynamism_spec(),
            final(self).capacity() == old(self).capacity(),
    {
        self.data.set(i, v);
        proof {
            assert(self.data@.take(self.numel as int) =~= old(self).data@.take(
                self.numel as int,
            ).update(i as int, v));
        }
    }

    /// The elements, in row-major order.
    pub fn as_slice(&self) -> (r: &[T])
        requires
            self.wf(),
        ensures
            r@ == self.elems(),
    {
        vstd::slice::slice_subrange(self.data.as_slice(), 0, self.numel)
    }

    /// A copy of the elements, in row-major order.
    pub fn to_vec(&self) -> (r: Vec<T>)
        requires
            self.wf(),
        ensures
            r@ == self.elems(),
    {
        let mut v: Vec<T> = Vec::new();
        let mut i: usize = 0;
        while i < self.numel
            invariant
                self.wf(),
                i <= self.numel,
                v@ == self.data@.take(i as int),
            decreases self.numel - i,
        {
            v.push(self.data[i]);
            proof {
                assert(self.data@.take(i as int + 1) =~= self.data@.take(i as int).push(
                    self.data@[i as int],
                ));
            }
            i = i + 1;
        }
        v
    }

    /// Gives the tensor the sizes `new_sizes`, as far as its dynamism allows:
    /// the rank must stay the same; a static tensor accepts only its current
    /// sizes; a dynamic one any sizes whose element count fits its
    /// allocation. The elements in the allocation are kept.
    pub fn resize(&mut self, new_sizes: &Vec<i32>) -> (r: Error)
        requires
            old(self).wf(),
        ensures
            final(self).wf(),
            final(self).dtype() == old(self).dtype(),
            final(self).dynamism_spec() == old(self).dynamism_spec(),
            final(self).capacity() == old(self).capacity(),
            final(self).allocation() == old(self).allocation(),
            r == Error::Success || r == Error::NotSupported,
            r == Error::Success <==> resize_allowed(
                old(self).shape(),
                old(self).dynamism_spec(),
                old(self).capacity(),
                new_sizes@,
            ),
            r == Error::Success ==> final(self).shape() == new_sizes@ || (old(self).shape().len() == 0
                && final(self).shape() == old(self).shape()),
            r != Error::Success ==> final(self).shape() == old(self).shape() && final(self).elems()
                == old(self).elems(),
    {
        if new_sizes.len() != self.sizes.len() {
            return Error::NotSupported;
        }
        if self.sizes.len() == 0 {
            return Error::Success;
        }
        match self.dynamism {
            TensorShapeDynamism::Static => {
                if sizes_equal(&self.sizes, new_sizes) {
                    proof {
                        assert(new_sizes@ == old(self).shape());
                    }
                    Error::Success
                } else {
                    proof {
                        assert(new_sizes@ != old(self).shape());
                    }
                    Error::NotSupported
                }
            },
            _ => {
                match compute_numel(new_sizes) {
                    Some(n) => {
                        if n <= self.data.len() {
                            self.sizes = new_sizes.clone();
                            self.numel = n;
                            Error::Success
                        } else {
                            Error::NotSupported
                        }
                    },
                    None => Error::NotSupported,
                }
            },
        }
    }
}

/// Whether `resize` accepts `new_sizes` for a tensor of the given shape,
/// dynamism and allocation.
pub open spec fn resize_allowed(
    shape: Seq<i32>,
    dynamism: TensorShapeDynamism,
    capacity: nat,
    new_sizes: Seq<i32>,
) -> bool {
    &&& new_sizes.len() == shape.len()
    &&& (shape.len() == 0 || if dynamism == TensorShapeDynamism::Static {
        new_sizes == shape
    } else {
        shape_nonneg(new_sizes) && shape_numel(new_sizes) <= capacity
    })
}

/// Complex element types.
pub open spec fn is_complex_spec(t: ScalarType) -> bool {
    t == ScalarType::ComplexHalf || t == ScalarType::ComplexFloat || t == ScalarType::ComplexDouble
}

/// Whether `t` is a complex element type.
pub fn is_complex_type(t: ScalarType) -> (r: bool)
    ensures
        r == is_complex_spec(t),
{
    match t {
        ScalarType::ComplexHalf | ScalarType::ComplexFloat | ScalarType::ComplexDouble => true,
        _ => false,
    }
}

/// Real element types (integer and floating point, `Bool` excluded), `Half`
/// and `BFloat16` included.
pub open spec fn is_realhbf16_spec(t: ScalarType) -> bool {
    !is_complex_spec(t) && t != ScalarType::Bool
}

/// Whether `t` is a real element type, `Half` and `BFloat16` included.
pub fn is_realhbf16_type(t: ScalarType) -> (r: bool)
    ensures
        r == is_realhbf16_spec(t),
{
    match t {
        ScalarType::ComplexHalf | ScalarType::ComplexFloat | ScalarType::ComplexDouble
        | ScalarType::Bool => false,
        _ => true,
    }
}

/// Element-by-element equality of two size lists.
pub fn sizes_equal(a: &Vec<i32>, b: &Vec<i32>) -> (r: bool)
    ensures
        r == (a@ == b@),
{
    if a.len() != b.len() {
        return false;
    }
    let mut i: usize = 0;
    while i < a.len()
        invariant
            a.len() == b.len(),
            i <= a.len(),
            forall|j: int| 0 <= j < i ==> a@[j] == b@[j],
        decreases a.len() - i,
    {
        if a[i] != b[i] {
            return false;
        }
        i = i + 1;
    }
    proof {
        assert(a@ =~= b@);
    }
    true
}

/// The three tensors share an element type.
pub fn tensors_have_same_dtype<A: Copy, B: Copy, C: Copy>(
    a: &Tensor<A>,
    b: &Tensor<B>,
    c: &Tensor<C>,
) -> (r: bool)
    ensures
        r == (a.dtype() == b.dtype() && a.dtype() == c.dtype()),
{
    a.scalar_type() == b.scalar_type() && a.scalar_type() == c.scalar_type()
}

} // verus!
