# executorch_kernels

Building blocks of ExecuTorch's optimized CPU kernels, written in Verus and
proved against their contracts.

- `bits`, `llvm_math_extras` — bit scans, masks, range checks, logarithms,
  alignment, sign extension and saturating arithmetic on fixed-width words,
  with the identities that relate them (`llvm_math_extras::identities`).
- `math_utils` — rounding-up division, the ceiling logarithm, and the
  arithmetic type of an element type.
- `blas` — column-major GEMM: the accumulation traits, `scale_`, the ILP
  reduction `sum`, the four transpose kernels, the transpose bookkeeping and
  the dispatch of `cpu_blas`, all for integer element types.
- `opt_gemm`, `op_mm`, `op_bmm` — per-type GEMM dispatch, and the matrix
  product and batched matrix product on tensors.
- `tensor` — a contiguous tensor, error codes and the kernel runtime context.
- `binary_ops` — path selection and broadcasting of elementwise binary
  operations.
- `functional` — broadcasting maps of a binary function over row-major
  blocks.
- `op_linear` — the linear layer `in · weightᵀ + bias` and its output
  initialisation.
- `elementwise` — element types with checked arithmetic, broadcast shapes
  and indices, and the flat, scalar and broadcast traversals of binary
  operations.
- `op_mul`, `op_add_sub_impl`, `op_add`, `op_sub`, `op_div`, `op_le`,
  `op_where` — the elementwise product, sum, difference, quotient, `<=`
  comparison (tensor and scalar forms) and selection, with broadcasting.
- `register` — the kernel table, the list of the optimized kernels, and
  their registration ahead of the portable ones.
- `fft_utils`, `unroll` — FFT normalisation bookkeeping, and a
  call-per-index helper.

`app/` holds what works on floating-point numbers: GEMM on `f32`, `f64` and
complex numbers through the `gemm` crate, and the scalar types of FFT
normalisation factors.

Not in this crate, neither verified nor in `app/`: the kernels that compute
in floating point whatever their element types — exponential, ELU, GELU,
log-softmax, layer norm, the 2-d grid sampler, row-wise moments, the FFTs
(only their normalisation bookkeeping is here), the sum over dimensions
(which accumulates in `f32`) and division by a scalar — as well as the
half-precision and bfloat16 GEMMs and every kernel's handling of complex
and half-precision elements.  Boolean elements are covered where their
arithmetic stays within `0` and `1`; a boolean sum of `true` and `true`
(stored back as `true`) is outside the contracts.
