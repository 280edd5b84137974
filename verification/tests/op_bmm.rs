use executorch_kernels::op_bmm::{check_bmm_out_args, opt_bmm_out, resize_out_tensor};
use executorch_kernels::opt_gemm::OptGemm;
use executorch_kernels::tensor::{
    Error, KernelRuntimeContext, ScalarType, Tensor, TensorShapeDynamism,
};

fn make<T: Copy>(st: ScalarType, sizes: Vec<i32>, data: Vec<T>) -> Tensor<T> {
    Tensor::from_parts(st, sizes, data, TensorShapeDynamism::Static).unwrap()
}

fn full_dyn<T: Copy>(
    st: ScalarType,
    sizes: Vec<i32>,
    v: T,
    dynamism: TensorShapeDynamism,
) -> Tensor<T> {
    let n: i32 = sizes.iter().product();
    Tensor::from_parts(st, sizes, vec![v; n as usize], dynamism).unwrap()
}

fn full<T: Copy>(st: ScalarType, sizes: Vec<i32>, v: T) -> Tensor<T> {
    full_dyn(st, sizes, v, TensorShapeDynamism::Static)
}

fn ones_f(sizes: Vec<i32>) -> Tensor<f32> {
    full(ScalarType::Float, sizes, 1.0f32)
}

fn zeros_f(sizes: Vec<i32>) -> Tensor<f32> {
    full(ScalarType::Float, sizes, 0.0f32)
}

fn ones_i(sizes: Vec<i32>) -> Tensor<i32> {
    full(ScalarType::Int, sizes, 1i32)
}

// Gives 4 * 2 * 3 = 24, shape (10, 3, 5).
fn test_dtype<T: OptGemm + PartialEq + core::fmt::Debug>(st: ScalarType, two: T, three: T, want: T) {
    let x = full(st, vec![10, 3, 4], two);
    let y = full(st, vec![10, 4, 5], three);
    let mut out = full(st, vec![10, 3, 5], T::zero());
    let mut ctx = KernelRuntimeContext::new();
    opt_bmm_out(&mut ctx, &x, &y, &mut out);
    assert_eq!(ctx.failure_state(), Error::Success);
    assert_eq!(out.sizes(), &vec![10, 3, 5]);
    assert!(out.to_vec().iter().all(|v| *v == want));
}

#[test]
fn check_bmm_out_args_validates_operands() {
    // Self-consistent 3-D operands pass.
    let x = ones_f(vec![2, 3, 4]);
    let y = ones_f(vec![2, 4, 5]);
    let out = zeros_f(vec![2, 3, 5]);
    assert!(check_bmm_out_args(&x, &y, &out));

    // Rank mismatch between self and mat2.
    let y_2d = ones_f(vec![4, 5]);
    assert!(!check_bmm_out_args(&x, &y_2d, &out));

    // Rank 2 everywhere (dim() != 3).
    let x_2d = ones_f(vec![3, 4]);
    let out_2d = zeros_f(vec![3, 5]);
    assert!(!check_bmm_out_args(&x_2d, &y_2d, &out_2d));

    // Batch mismatch between self and mat2.
    let y_wrong_batch = ones_f(vec![3, 4, 5]);
    assert!(!check_bmm_out_args(&x, &y_wrong_batch, &out));

    // Batch mismatch between self and out.
    let out_wrong_batch = zeros_f(vec![3, 3, 5]);
    assert!(!check_bmm_out_args(&x, &y, &out_wrong_batch));

    // out.size(2) must match mat2.size(2).
    let out_wrong_cols = zeros_f(vec![2, 3, 6]);
    assert!(!check_bmm_out_args(&x, &y, &out_wrong_cols));

    // out.size(1) must match self.size(1).
    let out_wrong_rows = zeros_f(vec![2, 4, 5]);
    assert!(!check_bmm_out_args(&x, &y, &out_wrong_rows));

    // dtype mismatch.
    let out_int = full(ScalarType::Int, vec![2, 3, 5], 0i32);
    assert!(!check_bmm_out_args(&x, &y, &out_int));
}

#[test]
fn resize_out_tensor_resizes_to_bmm_shape() {
    let x = ones_f(vec![2, 3, 4]);
    let y = ones_f(vec![2, 4, 5]);

    // Dynamic-bound out resizes from a smaller compatible bound.
    let mut out = full_dyn(
        ScalarType::Float,
        vec![2, 3, 5],
        0.0f32,
        TensorShapeDynamism::DynamicBound,
    );
    assert_eq!(resize_out_tensor(&x, &y, &mut out), Error::Success);
    assert_eq!(out.size(0), 2);
    assert_eq!(out.size(1), 3);
    assert_eq!(out.size(2), 5);

    // Static out with the exact target shape is a no-op success.
    let mut out_static = zeros_f(vec![2, 3, 5]);
    assert_eq!(resize_out_tensor(&x, &y, &mut out_static), Error::Success);

    // Static out with a different shape cannot be resized.
    let mut out_wrong = zeros_f(vec![2, 3, 6]);
    assert_ne!(resize_out_tensor(&x, &y, &mut out_wrong), Error::Success);

    // mat2 with too few dims: n_dim >= mat2.dim() -> InvalidArgument.
    let y_2d = ones_f(vec![4, 5]);
    assert_eq!(
        resize_out_tensor(&x, &y_2d, &mut out_static),
        Error::InvalidArgument
    );
}

#[test]
fn op_bmm_out_test_output_dim() {
    let x = ones_i(vec![10, 3, 4]);
    let y = ones_i(vec![10, 4, 5]);
    let mut out = full(ScalarType::Int, vec![10, 3, 5], 0i32);

    let mut ctx = KernelRuntimeContext::new();
    opt_bmm_out(&mut ctx, &x, &y, &mut out);
    assert_eq!(ctx.failure_state(), Error::Success);

    assert_eq!(out.sizes(), &vec![10, 3, 5]);
    assert_eq!(out.to_vec(), vec![4i32; 150]);
}

#[test]
fn op_bmm_out_test_output_dim_float() {
    // The integer-valued operands of the floating-point case, in i32.
    let x = make(ScalarType::Int, vec![2, 4, 5], vec![
        4, 3, 1, 1, 1,
        3, 1, 4, 4, 2,
        1, 1, 1, 3, 3,
        4, 2, 2, 2, 3,

        1, 3, 1, 4, 4,
        1, 1, 2, 4, 3,
        4, 3, 4, 1, 2,
        1, 4, 4, 4, 4,
    ]);

    let y = make(ScalarType::Int, vec![2, 5, 3], vec![
        4, 4, 4,
        2, 3, 1,
        1, 4, 4,
        3, 1, 2,
        1, 4, 3,

        1, 4, 4,
        4, 4, 4,
        2, 1, 4,
        1, 4, 3,
        1, 4, 4,
    ]);

    let mut out = full(ScalarType::Int, vec![2, 4, 3], 0i32);

    let mut ctx = KernelRuntimeContext::new();
    opt_bmm_out(&mut ctx, &x, &y, &mut out);
    assert_eq!(ctx.failure_state(), Error::Success);

    let expected = vec![
        27, 34, 28,
        32, 43, 43,
        19, 26, 24,
        31, 44, 39,

        23, 49, 48,
        16, 38, 40,
        27, 44, 55,
        33, 56, 64,
    ];
    assert_eq!(out.to_vec(), expected);
}

#[test]
fn op_bmm_out_test_all_real_dtypes_supported() {
    test_dtype::<u8>(ScalarType::Byte, 2, 3, 24);
    test_dtype::<i8>(ScalarType::Char, 2, 3, 24);
    test_dtype::<i16>(ScalarType::Short, 2, 3, 24);
    test_dtype::<i32>(ScalarType::Int, 2, 3, 24);
    test_dtype::<i64>(ScalarType::Long, 2, 3, 24);
}

#[test]
fn op_bmm_out_test_empty_input_with_empty_out_tensor_passes() {
    let x = full(ScalarType::Int, vec![2, 2, 2], 3i32);
    let y = make(ScalarType::Int, vec![2, 2, 0], Vec::<i32>::new());
    let mut out = make(ScalarType::Int, vec![2, 2, 0], Vec::<i32>::new());

    assert_eq!(out.numel(), 0);

    let mut ctx = KernelRuntimeContext::new();
    opt_bmm_out(&mut ctx, &x, &y, &mut out);
    assert_eq!(ctx.failure_state(), Error::Success);
    assert_eq!(out.numel(), 0);
}

#[test]
fn op_bmm_out_test_mismatched_dimensions_dies() {
    let x = ones_i(vec![2, 10, 3]);
    let wrong_y = ones_i(vec![3, 7, 4]);
    let right_y = ones_i(vec![2, 3, 4]);
    let mut out = ones_i(vec![2, 10, 4]);

    let mut ctx = KernelRuntimeContext::new();
    opt_bmm_out(&mut ctx, &x, &wrong_y, &mut out);
    assert_ne!(ctx.failure_state(), Error::Success);

    let mut ctx = KernelRuntimeContext::new();
    opt_bmm_out(&mut ctx, &x, &right_y, &mut out);
    assert_eq!(out.to_vec(), vec![3i32; 80]);
}

#[test]
fn op_bmm_out_test_mismatched_dimension_size_dies() {
    let x = ones_i(vec![2, 10, 3]);
    let wrong_y = ones_i(vec![7, 4]);
    let right_y = ones_i(vec![2, 3, 4]);
    let mut right_out = ones_i(vec![2, 10, 4]);
    let mut wrong_out = ones_i(vec![7, 5]);

    let mut ctx = KernelRuntimeContext::new();
    opt_bmm_out(&mut ctx, &x, &right_y, &mut wrong_out);
    assert_ne!(ctx.failure_state(), Error::Success);

    let mut ctx = KernelRuntimeContext::new();
    opt_bmm_out(&mut ctx, &x, &wrong_y, &mut right_out);
    assert_ne!(ctx.failure_state(), Error::Success);
}

#[test]
fn op_bmm_out_test_wrong_out_shape_dies() {
    let x = ones_i(vec![2, 10, 3]);
    let y = ones_i(vec![2, 3, 4]);
    let mut right_out = ones_i(vec![2, 10, 4]);
    let mut wrong_out = ones_i(vec![3, 7, 5]);

    let mut ctx = KernelRuntimeContext::new();
    opt_bmm_out(&mut ctx, &x, &y, &mut wrong_out);
    assert_ne!(ctx.failure_state(), Error::Success);

    let mut ctx = KernelRuntimeContext::new();
    opt_bmm_out(&mut ctx, &x, &y, &mut right_out);
    assert_eq!(right_out.to_vec(), vec![3i32; 80]);
}

#[test]
fn op_bmm_out_wraps_narrow_elements() {
    // u8 products are summed in i32 and stored modulo 256: 4 * (10 * 10) = 400 -> 144.
    let x = full(ScalarType::Byte, vec![1, 1, 4], 10u8);
    let y = full(ScalarType::Byte, vec![1, 4, 1], 10u8);
    let mut out = full(ScalarType::Byte, vec![1, 1, 1], 0u8);
    let mut ctx = KernelRuntimeContext::new();
    opt_bmm_out(&mut ctx, &x, &y, &mut out);
    assert_eq!(out.to_vec(), vec![144u8]);
}

#[test]
fn op_bmm_out_rejects_bool_and_complex_tags() {
    let x = full(ScalarType::Bool, vec![1, 2, 2], 1u8);
    let y = full(ScalarType::Bool, vec![1, 2, 2], 1u8);
    let mut out = full(ScalarType::Bool, vec![1, 2, 2], 0u8);
    let mut ctx = KernelRuntimeContext::new();
    opt_bmm_out(&mut ctx, &x, &y, &mut out);
    assert_eq!(ctx.failure_state(), Error::InvalidArgument);

    let x = full(ScalarType::ComplexFloat, vec![1, 2, 2], 1i64);
    let y = full(ScalarType::ComplexFloat, vec![1, 2, 2], 1i64);
    let mut out = full(ScalarType::ComplexFloat, vec![1, 2, 2], 0i64);
    let mut ctx = KernelRuntimeContext::new();
    opt_bmm_out(&mut ctx, &x, &y, &mut out);
    assert_eq!(ctx.failure_state(), Error::InvalidArgument);
}

#[test]
fn op_bmm_out_zero_inner_dimension_leaves_out() {
    // k == 0: nothing is computed and the output keeps its contents.
    let x = make(ScalarType::Int, vec![1, 2, 0], Vec::<i32>::new());
    let y = make(ScalarType::Int, vec![1, 0, 2], Vec::<i32>::new());
    let mut out = make(ScalarType::Int, vec![1, 2, 2], vec![5i32, 6, 7, 8]);
    let mut ctx = KernelRuntimeContext::new();
    opt_bmm_out(&mut ctx, &x, &y, &mut out);
    assert_eq!(ctx.failure_state(), Error::Success);
    assert_eq!(out.to_vec(), vec![5, 6, 7, 8]);
}

#[test]
fn opt_bmm_out_cancelling_products_and_min_elements() {
    // [2^30, 2^30] · [1, -1]^T = 0; [i32::MIN] · [1] = i32::MIN.
    let x = make(ScalarType::Int, vec![2, 1, 2], vec![1 << 30, 1 << 30, i32::MIN, 0]);
    let y = make(ScalarType::Int, vec![2, 2, 1], vec![1, -1, 1, 5]);
    let mut out = make(ScalarType::Int, vec![2, 1, 1], vec![9, 9]);
    let mut ctx = KernelRuntimeContext::new();
    opt_bmm_out(&mut ctx, &x, &y, &mut out);
    assert_eq!(ctx.failure_state(), Error::Success);
    assert_eq!(out.to_vec(), vec![0, i32::MIN]);
}
