use executorch_kernels::op_bmm::opt_bmm_out;
use executorch_kernels::op_mm::{check_mm_args, get_mm_out_target_size, opt_mm_out};
use executorch_kernels::opt_gemm::OptGemm;
use executorch_kernels::tensor::{
    Error, KernelRuntimeContext, ScalarType, Tensor, TensorShapeDynamism,
};

fn make<T: Copy>(st: ScalarType, sizes: Vec<i32>, data: Vec<T>) -> Tensor<T> {
    Tensor::from_parts(st, sizes, data, TensorShapeDynamism::Static).unwrap()
}

fn full_dyn<T: Copy>(
    st: ScalarType,
    sizes: Vec<i32>,
    v: T,
    dynamism: TensorShapeDynamism,
) -> Tensor<T> {
    let n: i32 = sizes.iter().product();
    Tensor::from_parts(st, sizes, vec![v; n as usize], dynamism).unwrap()
}

fn full<T: Copy>(st: ScalarType, sizes: Vec<i32>, v: T) -> Tensor<T> {
    full_dyn(st, sizes, v, TensorShapeDynamism::Static)
}

// full(2) [3, 4] @ full(3) [4, 5] = full(24).
fn test_mm_dtype<T: OptGemm + PartialEq + core::fmt::Debug>(st: ScalarType, two: T, three: T, want: T) {
    let x = full(st, vec![3, 4], two);
    let y = full(st, vec![4, 5], three);
    let mut out = full(st, vec![3, 5], T::zero());

    let mut ctx = KernelRuntimeContext::new();
    opt_mm_out(&mut ctx, &x, &y, &mut out);
    assert_eq!(ctx.failure_state(), Error::Success);
    assert_eq!(out.sizes(), &vec![3, 5]);
    assert_eq!(out.to_vec(), vec![want; 15]);
}

#[test]
fn opt_mm_out_all_dtypes_supported() {
    test_mm_dtype::<u8>(ScalarType::Byte, 2, 3, 24);
    test_mm_dtype::<i8>(ScalarType::Char, 2, 3, 24);
    test_mm_dtype::<i16>(ScalarType::Short, 2, 3, 24);
    test_mm_dtype::<i32>(ScalarType::Int, 2, 3, 24);
    test_mm_dtype::<i64>(ScalarType::Long, 2, 3, 24);
}

#[test]
fn opt_mm_out_hand_computed_values() {
    // The integer-valued operands of the floating-point case, in i32.
    let a = make(ScalarType::Int, vec![2, 3], vec![1, 2, 3, 4, 5, 6]);
    let b = make(ScalarType::Int, vec![3, 2], vec![7, 8, 9, 10, 11, 12]);
    let mut out = full(ScalarType::Int, vec![2, 2], 0i32);

    let mut ctx = KernelRuntimeContext::new();
    opt_mm_out(&mut ctx, &a, &b, &mut out);
    assert_eq!(ctx.failure_state(), Error::Success);
    // [[1*7+2*9+3*11, 1*8+2*10+3*12], [4*7+5*9+6*11, 4*8+5*10+6*12]]
    assert_eq!(out.to_vec(), vec![58, 64, 139, 154]);
}

#[test]
fn opt_mm_out_empty_input_passes() {
    let x = make(ScalarType::Int, vec![0, 3], Vec::<i32>::new());
    let y = make(ScalarType::Int, vec![3, 0], Vec::<i32>::new());
    let mut out = make(ScalarType::Int, vec![0, 0], Vec::<i32>::new());

    let mut ctx = KernelRuntimeContext::new();
    opt_mm_out(&mut ctx, &x, &y, &mut out);
    assert_eq!(ctx.failure_state(), Error::Success);
    assert_eq!(out.sizes(), &vec![0, 0]);
    assert_eq!(out.to_vec(), Vec::<i32>::new());
}

#[test]
fn opt_mm_out_mismatched_dimension_size_dies() {
    let x = full(ScalarType::Int, vec![2, 2], 3i32);
    let wrong_y = full(ScalarType::Int, vec![3, 1], 1i32);
    let mut out = full(ScalarType::Int, vec![2, 2], 0i32);

    let mut ctx = KernelRuntimeContext::new();
    opt_mm_out(&mut ctx, &x, &wrong_y, &mut out);
    assert_ne!(ctx.failure_state(), Error::Success);
}

#[test]
fn opt_mm_out_mismatched_dimensions_dies() {
    let x = full(ScalarType::Int, vec![2, 2], 3i32);
    let y = full(ScalarType::Int, vec![4], 1i32);
    let mut out = full(ScalarType::Int, vec![2, 2], 0i32);

    let mut ctx = KernelRuntimeContext::new();
    opt_mm_out(&mut ctx, &x, &y, &mut out);
    assert_ne!(ctx.failure_state(), Error::Success);
}

#[test]
fn check_mm_args_validates_operands() {
    let x = full(ScalarType::Int, vec![2, 3], 1i32);
    let y = full(ScalarType::Int, vec![3, 4], 1i32);
    let out = full(ScalarType::Int, vec![2, 4], 0i32);
    assert!(check_mm_args(&x, &y, &out));

    // Inner sizes disagree.
    let y_bad = full(ScalarType::Int, vec![2, 4], 1i32);
    assert!(!check_mm_args(&x, &y_bad, &out));

    // A rank-3 output.
    let out3 = full(ScalarType::Int, vec![1, 2, 4], 0i32);
    assert!(!check_mm_args(&x, &y, &out3));

    // Element types differ.
    let y_long = full(ScalarType::Long, vec![3, 4], 1i64);
    assert!(!check_mm_args(&x, &y_long, &out));
}

#[test]
fn get_mm_out_target_size_is_rows_by_columns() {
    let x = full(ScalarType::Int, vec![2, 3], 1i32);
    let y = full(ScalarType::Int, vec![3, 7], 1i32);
    assert_eq!(get_mm_out_target_size(&x, &y), vec![2, 7]);
}

#[test]
fn opt_mm_out_resizes_dynamic_out() {
    let x = make(ScalarType::Int, vec![2, 2], vec![1, 2, 3, 4]);
    let y = make(ScalarType::Int, vec![2, 1], vec![5, 6]);
    let mut out = full_dyn(ScalarType::Int, vec![3, 3], 0i32, TensorShapeDynamism::DynamicBound);

    let mut ctx = KernelRuntimeContext::new();
    opt_mm_out(&mut ctx, &x, &y, &mut out);
    assert_eq!(ctx.failure_state(), Error::Success);
    assert_eq!(out.sizes(), &vec![2, 1]);
    assert_eq!(out.to_vec(), vec![17, 39]);
}

#[test]
fn opt_mm_out_static_out_of_wrong_shape_dies() {
    let x = full(ScalarType::Int, vec![2, 3], 1i32);
    let y = full(ScalarType::Int, vec![3, 4], 1i32);
    let mut out = make(ScalarType::Int, vec![2, 2], vec![9, 9, 9, 9]);

    let mut ctx = KernelRuntimeContext::new();
    opt_mm_out(&mut ctx, &x, &y, &mut out);
    assert_eq!(ctx.failure_state(), Error::InvalidArgument);
    assert_eq!(out.to_vec(), vec![9, 9, 9, 9]);
}

#[test]
fn opt_mm_out_zero_inner_dimension_gives_zeros() {
    // k == 0: every element is the empty sum.
    let x = make(ScalarType::Int, vec![2, 0], Vec::<i32>::new());
    let y = make(ScalarType::Int, vec![0, 2], Vec::<i32>::new());
    let mut out = make(ScalarType::Int, vec![2, 2], vec![5, 6, 7, 8]);

    let mut ctx = KernelRuntimeContext::new();
    opt_mm_out(&mut ctx, &x, &y, &mut out);
    assert_eq!(ctx.failure_state(), Error::Success);
    assert_eq!(out.to_vec(), vec![0, 0, 0, 0]);
}

#[test]
fn opt_mm_out_rejects_bool_tag() {
    let x = full(ScalarType::Bool, vec![2, 2], 1u8);
    let y = full(ScalarType::Bool, vec![2, 2], 1u8);
    let mut out = full(ScalarType::Bool, vec![2, 2], 0u8);

    let mut ctx = KernelRuntimeContext::new();
    opt_mm_out(&mut ctx, &x, &y, &mut out);
    assert_eq!(ctx.failure_state(), Error::InvalidArgument);
    assert_eq!(out.to_vec(), vec![0u8; 4]);
}

#[test]
fn opt_bmm_out_batches_match_opt_mm_out() {
    let x = make(ScalarType::Int, vec![2, 2, 2], vec![1, 2, 3, 4, -1, 0, 2, 5]);
    let y = make(ScalarType::Int, vec![2, 2, 1], vec![3, -2, 4, 1]);
    let mut batched = full(ScalarType::Int, vec![2, 2, 1], 0i32);
    let mut ctx = KernelRuntimeContext::new();
    opt_bmm_out(&mut ctx, &x, &y, &mut batched);
    assert_eq!(ctx.failure_state(), Error::Success);

    let x1 = make(ScalarType::Int, vec![2, 2], vec![-1, 0, 2, 5]);
    let y1 = make(ScalarType::Int, vec![2, 1], vec![4, 1]);
    let mut single = full(ScalarType::Int, vec![2, 1], 0i32);
    opt_mm_out(&mut ctx, &x1, &y1, &mut single);
    assert_eq!(batched.to_vec()[2..].to_vec(), single.to_vec());
    assert_eq!(batched.to_vec(), vec![-1, 1, -4, 13]);
}

#[test]
fn opt_mm_out_cancelling_products() {
    let x = Tensor::from_parts(ScalarType::Int, vec![1, 2], vec![1 << 30, 1 << 30], TensorShapeDynamism::Static).unwrap();
    let y = Tensor::from_parts(ScalarType::Int, vec![2, 1], vec![1, -1], TensorShapeDynamism::Static).unwrap();
    let mut out = full(ScalarType::Int, vec![1, 1], 3i32);
    let mut ctx = KernelRuntimeContext::new();
    opt_mm_out(&mut ctx, &x, &y, &mut out);
    assert_eq!(ctx.failure_state(), Error::Success);
    assert_eq!(out.to_vec(), vec![0]);
}
