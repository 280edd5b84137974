use executorch_kernels::op_mm::opt_mm_out;
use executorch_kernels::op_linear::{
    check_linear_args, get_linear_out_target_size, initialize_scalar, initialize_to_vector,
    opt_linear_out,
};
use executorch_kernels::opt_gemm::OptGemm;
use executorch_kernels::tensor::{
    Error, KernelRuntimeContext, ScalarType, Tensor, TensorShapeDynamism,
};

fn make<T: Copy>(st: ScalarType, sizes: Vec<i32>, data: Vec<T>) -> Tensor<T> {
    Tensor::from_parts(st, sizes, data, TensorShapeDynamism::Static).unwrap()
}

fn full_dyn<T: Copy>(
    st: ScalarType,
    sizes: Vec<i32>,
    v: T,
    dynamism: TensorShapeDynamism,
) -> Tensor<T> {
    let n: i32 = sizes.iter().product();
    Tensor::from_parts(st, sizes, vec![v; n as usize], dynamism).unwrap()
}

fn full<T: Copy>(st: ScalarType, sizes: Vec<i32>, v: T) -> Tensor<T> {
    full_dyn(st, sizes, v, TensorShapeDynamism::Static)
}

// full(2) [3, 19] @ full(3) [5, 19]^T = full(114), no bias.
fn test_linear_dtype<T: OptGemm + PartialEq + core::fmt::Debug>(
    st: ScalarType,
    two: T,
    three: T,
    want: T,
) {
    let x = full(st, vec![3, 19], two);
    let y = full(st, vec![5, 19], three);
    let mut out = full(st, vec![3, 5], T::zero());

    let mut ctx = KernelRuntimeContext::new();
    opt_linear_out(&mut ctx, &x, &y, &None, &mut out);
    assert_eq!(ctx.failure_state(), Error::Success);
    assert_eq!(out.sizes(), &vec![3, 5]);
    assert_eq!(out.to_vec(), vec![want; 15]);
}

// Fill a buffer with a scalar.
#[test]
fn initialize_scalar_fills_buffer() {
    let mut buf = [0.0f32; 7];
    initialize_scalar::<f32>(7, 3.5, &mut buf);
    assert_eq!(buf, [3.5f32; 7]);

    let mut ibuf = [0i32; 3];
    initialize_scalar::<i32>(3, -4, &mut ibuf);
    assert_eq!(ibuf, [-4, -4, -4]);
}

// Replicate an m-vector bias into each of n rows.
#[test]
fn initialize_to_vector_replicates_rows() {
    let bias = [10i32, 20];
    let mut out = [0i32; 6];
    initialize_to_vector::<i32>(3, 2, &bias, &mut out);
    assert_eq!(out, [10, 20, 10, 20, 10, 20]);
}

#[test]
fn initialize_scalar_prefix_only() {
    let mut buf = [1i64, 2, 3, 4, 5];
    initialize_scalar::<i64>(2, 9, &mut buf);
    assert_eq!(buf, [9, 9, 3, 4, 5]);
    // A non-positive count writes nothing.
    initialize_scalar::<i64>(-3, 0, &mut buf);
    assert_eq!(buf, [9, 9, 3, 4, 5]);
}

#[test]
fn initialize_to_vector_leaves_tail_alone() {
    let bias = [7u8, 8, 9];
    let mut out = [0u8; 8];
    initialize_to_vector::<u8>(2, 3, &bias, &mut out);
    assert_eq!(out, [7, 8, 9, 7, 8, 9, 0, 0]);
}

#[test]
fn opt_linear_out_all_dtypes_supported() {
    test_linear_dtype::<u8>(ScalarType::Byte, 2, 3, 114);
    test_linear_dtype::<i8>(ScalarType::Char, 2, 3, 114);
    test_linear_dtype::<i16>(ScalarType::Short, 2, 3, 114);
    test_linear_dtype::<i32>(ScalarType::Int, 2, 3, 114);
    test_linear_dtype::<i64>(ScalarType::Long, 2, 3, 114);
}

#[test]
fn opt_linear_out_hand_computed_with_vector_bias() {
    // The integer-valued operands of the floating-point case, in i32.
    let x = make(ScalarType::Int, vec![3, 2], vec![1, 2, 3, 4, 5, 6]);
    let w = make(ScalarType::Int, vec![3, 2], vec![1, 0, 0, 1, 1, 1]);
    let bias = make(ScalarType::Int, vec![3], vec![10, 20, 30]);
    let mut out = full(ScalarType::Int, vec![3, 3], 0i32);

    let mut ctx = KernelRuntimeContext::new();
    opt_linear_out(&mut ctx, &x, &w, &Some(bias), &mut out);
    assert_eq!(ctx.failure_state(), Error::Success);
    assert_eq!(out.to_vec(), vec![11, 22, 33, 13, 24, 37, 15, 26, 41]);
}

#[test]
fn opt_linear_out_bias_test() {
    let x = full(ScalarType::Int, vec![3, 4], 1i32);
    let y = full(ScalarType::Int, vec![2, 4], 2i32);
    let b = make(ScalarType::Int, vec![2], vec![4, 7]);
    let mut out = full(ScalarType::Int, vec![3, 2], 0i32);

    let mut ctx = KernelRuntimeContext::new();
    opt_linear_out(&mut ctx, &x, &y, &Some(b), &mut out);
    // 1*2*4 + bias
    assert_eq!(out.to_vec(), vec![12, 15, 12, 15, 12, 15]);
}

#[test]
fn opt_linear_out_bias_broadcast_test() {
    let x = full(ScalarType::Int, vec![3, 4], 1i32);
    let y = full(ScalarType::Int, vec![5, 4], 2i32);
    let b = full(ScalarType::Int, vec![1], 4i32);
    let mut out = full(ScalarType::Int, vec![3, 5], 0i32);

    let mut ctx = KernelRuntimeContext::new();
    opt_linear_out(&mut ctx, &x, &y, &Some(b), &mut out);
    // 1*2*4 + 4 = 12
    assert_eq!(out.to_vec(), vec![12i32; 15]);
}

#[test]
fn opt_linear_out_bias_dtype_mismatch_dies() {
    let x = full(ScalarType::Int, vec![3, 4], 1i32);
    let y = full(ScalarType::Int, vec![5, 4], 2i32);
    // A bias tagged as 16-bit integers next to a 32-bit output.
    let b = full(ScalarType::Short, vec![5], 4i32);
    let mut out = full(ScalarType::Int, vec![3, 5], 0i32);

    let mut ctx = KernelRuntimeContext::new();
    opt_linear_out(&mut ctx, &x, &y, &Some(b), &mut out);
    assert_ne!(ctx.failure_state(), Error::Success);
}

#[test]
fn opt_linear_out_mismatched_dimension_size_dies() {
    let x = full(ScalarType::Int, vec![2, 2], 3i32);
    let wrong_y = full(ScalarType::Int, vec![5, 3], 1i32);
    let mut out = full(ScalarType::Int, vec![2, 5], 0i32);

    let mut ctx = KernelRuntimeContext::new();
    opt_linear_out(&mut ctx, &x, &wrong_y, &None, &mut out);
    assert_ne!(ctx.failure_state(), Error::Success);
}

#[test]
fn opt_linear_out_empty_input_passes() {
    let x = make(ScalarType::Int, vec![0, 3], Vec::<i32>::new());
    let y = make(ScalarType::Int, vec![2, 3], vec![1, 2, 3, 4, 5, 6]);
    let mut out = make(ScalarType::Int, vec![0, 2], Vec::<i32>::new());

    let mut ctx = KernelRuntimeContext::new();
    opt_linear_out(&mut ctx, &x, &y, &None, &mut out);
    assert_eq!(ctx.failure_state(), Error::Success);
    assert_eq!(out.sizes(), &vec![0, 2]);
    assert_eq!(out.to_vec(), Vec::<i32>::new());
}

#[test]
fn check_linear_args_validates_operands() {
    let x = full(ScalarType::Int, vec![2, 3, 4], 1i32);
    let w = full(ScalarType::Int, vec![5, 4], 1i32);
    let out = full(ScalarType::Int, vec![2, 3, 5], 0i32);
    assert!(check_linear_args(&x, &w, &out));

    // The reduced sizes disagree.
    let w_bad = full(ScalarType::Int, vec![5, 3], 1i32);
    assert!(!check_linear_args(&x, &w_bad, &out));

    // Input and output ranks differ.
    let out2 = full(ScalarType::Int, vec![6, 5], 0i32);
    assert!(!check_linear_args(&x, &w, &out2));

    // A rank-1 input.
    let x1 = full(ScalarType::Int, vec![4], 1i32);
    let out1 = full(ScalarType::Int, vec![5], 0i32);
    assert!(!check_linear_args(&x1, &w, &out1));

    // Element types differ.
    let w_long = full(ScalarType::Long, vec![5, 4], 1i64);
    assert!(!check_linear_args(&x, &w_long, &out));
}

#[test]
fn get_linear_out_target_size_keeps_leading_dims() {
    let x = full(ScalarType::Int, vec![2, 3, 4], 1i32);
    let w = full(ScalarType::Int, vec![7, 4], 1i32);
    assert_eq!(get_linear_out_target_size(&x, &w), vec![2, 3, 7]);
}

#[test]
fn opt_linear_out_flattens_leading_dims() {
    // in (2, 1, 2) · wᵀ with w (2, 2) = [[1, 1], [1, -1]]: rows [a, b] -> [a + b, a - b].
    let x = make(ScalarType::Int, vec![2, 1, 2], vec![5, 3, 2, 7]);
    let w = make(ScalarType::Int, vec![2, 2], vec![1, 1, 1, -1]);
    let mut out = full_dyn(ScalarType::Int, vec![4, 4, 4], 0i32, TensorShapeDynamism::DynamicBound);

    let mut ctx = KernelRuntimeContext::new();
    opt_linear_out(&mut ctx, &x, &w, &None, &mut out);
    assert_eq!(ctx.failure_state(), Error::Success);
    assert_eq!(out.sizes(), &vec![2, 1, 2]);
    assert_eq!(out.to_vec(), vec![8, 2, 9, -5]);
}

#[test]
fn opt_linear_out_bad_bias_shape_dies() {
    let x = full(ScalarType::Int, vec![3, 4], 1i32);
    let y = full(ScalarType::Int, vec![5, 4], 2i32);
    let b = full(ScalarType::Int, vec![2], 4i32);
    let mut out = make(ScalarType::Int, vec![3, 5], vec![1i32; 15]);

    let mut ctx = KernelRuntimeContext::new();
    opt_linear_out(&mut ctx, &x, &y, &Some(b), &mut out);
    assert_eq!(ctx.failure_state(), Error::InvalidArgument);
    assert_eq!(out.to_vec(), vec![1i32; 15]);
}

#[test]
fn opt_linear_out_wraps_narrow_elements() {
    // u8 sums are taken in i32 and stored modulo 256: 4 * (10 * 10) + 50 = 450 -> 194.
    let x = full(ScalarType::Byte, vec![1, 4], 10u8);
    let y = full(ScalarType::Byte, vec![1, 4], 10u8);
    let b = full(ScalarType::Byte, vec![1], 50u8);
    let mut out = full(ScalarType::Byte, vec![1, 1], 0u8);

    let mut ctx = KernelRuntimeContext::new();
    opt_linear_out(&mut ctx, &x, &y, &Some(b), &mut out);
    assert_eq!(ctx.failure_state(), Error::Success);
    assert_eq!(out.to_vec(), vec![194u8]);
}

#[test]
fn opt_linear_out_matches_mm_with_transposed_weight() {
    let x = make(ScalarType::Int, vec![2, 3], vec![1, -2, 3, 4, 5, -6]);
    let w = make(ScalarType::Int, vec![2, 3], vec![7, 8, 9, -1, 0, 2]);
    let wt = make(ScalarType::Int, vec![3, 2], vec![7, -1, 8, 0, 9, 2]);
    let mut lin = full(ScalarType::Int, vec![2, 2], 0i32);
    let mut mm = full(ScalarType::Int, vec![2, 2], 0i32);

    let mut ctx = KernelRuntimeContext::new();
    opt_linear_out(&mut ctx, &x, &w, &None, &mut lin);
    opt_mm_out(&mut ctx, &x, &wt, &mut mm);
    assert_eq!(ctx.failure_state(), Error::Success);
    assert_eq!(lin.to_vec(), mm.to_vec());
    assert_eq!(lin.to_vec(), vec![18, 5, 14, -16]);
}

#[test]
fn opt_linear_out_cancelling_products() {
    // 2^30 * 1 + 2^30 * (-1): every running value fits in i32.
    let x = make(ScalarType::Int, vec![1, 2], vec![1 << 30, 1 << 30]);
    let w = make(ScalarType::Int, vec![1, 2], vec![1, -1]);
    let mut out = full(ScalarType::Int, vec![1, 1], 7i32);
    let mut ctx = KernelRuntimeContext::new();
    opt_linear_out(&mut ctx, &x, &w, &None, &mut out);
    assert_eq!(ctx.failure_state(), Error::Success);
    assert_eq!(out.to_vec(), vec![0]);
}
