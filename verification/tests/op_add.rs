use executorch_kernels::op_add::{opt_add_out, opt_add_scalar_out};
use executorch_kernels::elementwise::ElementwiseOp;
use executorch_kernels::tensor::{
    Error, KernelRuntimeContext, ScalarType, Tensor, TensorShapeDynamism,
};

fn make<T: Copy>(st: ScalarType, sizes: Vec<i32>, data: Vec<T>) -> Tensor<T> {
    Tensor::from_parts(st, sizes, data, TensorShapeDynamism::Static).unwrap()
}

fn full<T: Copy>(st: ScalarType, sizes: Vec<i32>, v: T) -> Tensor<T> {
    let n: i32 = sizes.iter().product();
    Tensor::from_parts(st, sizes, vec![v; n as usize], TensorShapeDynamism::Static).unwrap()
}

fn ints(sizes: Vec<i32>, data: Vec<i32>) -> Tensor<i32> {
    make(ScalarType::Int, sizes, data)
}

fn int_zeros(sizes: Vec<i32>) -> Tensor<i32> {
    full(ScalarType::Int, sizes, 0i32)
}

// [1, 2, 4, 8] + ones, alpha 1: the flat path.
fn test_add<T: ElementwiseOp + PartialEq + core::fmt::Debug>(st: ScalarType, vals: [T; 4], one: T, want: [T; 4]) {
    let mut out = full(st, vec![2, 2], T::zero());
    let mut ctx = KernelRuntimeContext::new();
    opt_add_out(&mut ctx, &make(st, vec![2, 2], vals.to_vec()), &full(st, vec![2, 2], one), one, &mut out);
    assert_eq!(ctx.failure_state(), Error::Success);
    assert_eq!(out.to_vec(), want.to_vec());
}

#[test]
fn op_add_out_kernel_test_all_real_dtypes_supported() {
    test_add::<u8>(ScalarType::Byte, [1, 2, 4, 8], 1, [2, 3, 5, 9]);
    test_add::<i8>(ScalarType::Char, [1, 2, 4, 8], 1, [2, 3, 5, 9]);
    test_add::<i16>(ScalarType::Short, [1, 2, 4, 8], 1, [2, 3, 5, 9]);
    test_add::<i32>(ScalarType::Int, [1, 2, 4, 8], 1, [2, 3, 5, 9]);
    test_add::<i64>(ScalarType::Long, [1, 2, 4, 8], 1, [2, 3, 5, 9]);
}

#[test]
fn op_add_out_kernel_test_broadcast_one_element_rank0_tensor() {
    let a = ints(vec![1], vec![5]);
    let b = ints(vec![], vec![2]);
    let mut out = int_zeros(vec![1]);
    let mut ctx = KernelRuntimeContext::new();
    opt_add_out(&mut ctx, &a, &b, 1, &mut out);
    assert_eq!(out.to_vec(), vec![7]);
    opt_add_out(&mut ctx, &b, &a, 1, &mut out);
    assert_eq!(out.to_vec(), vec![7]);
    assert_eq!(ctx.failure_state(), Error::Success);
}

#[test]
fn op_add_out_kernel_test_broadcast_nd() {
    // The integer-valued operands of the floating-point case, alpha 1.
    let a = ints(vec![2, 2, 3], vec![1, 2, 3, 4, 5, 6, 7, 8, 9, 10, 11, 12]);
    let b = ints(vec![2, 1, 3], vec![2, 3, 4, 5, 6, 7]);
    let mut out = int_zeros(vec![2, 2, 3]);
    let mut ctx = KernelRuntimeContext::new();
    opt_add_out(&mut ctx, &a, &b, 1, &mut out);
    assert_eq!(out.to_vec(), vec![3, 5, 7, 6, 8, 10, 12, 14, 16, 15, 17, 19]);
}

#[test]
fn op_add_out_kernel_test_broadcast_last_dim() {
    let a = ints(vec![4, 3], vec![1, 2, 3, 4, 5, 6, 7, 8, 9, 10, 11, 12]);
    let b = ints(vec![4, 1], vec![2, 3, 4, 5]);
    let mut out = int_zeros(vec![4, 3]);
    let expected = vec![3, 4, 5, 7, 8, 9, 11, 12, 13, 15, 16, 17];
    let mut ctx = KernelRuntimeContext::new();
    opt_add_out(&mut ctx, &a, &b, 1, &mut out);
    assert_eq!(out.to_vec(), expected);
    opt_add_out(&mut ctx, &b, &a, 1, &mut out);
    assert_eq!(out.to_vec(), expected);
}

#[test]
fn op_add_out_kernel_test_broadcast_supported() {
    let a = int_zeros(vec![5, 1, 3, 1]);
    let b = full(ScalarType::Int, vec![2, 1, 4], 1i32);
    let mut out = int_zeros(vec![5, 2, 3, 4]);
    let mut ctx = KernelRuntimeContext::new();
    opt_add_out(&mut ctx, &a, &b, 1, &mut out);
    assert_eq!(ctx.failure_state(), Error::Success);
    assert_eq!(out.to_vec(), vec![1; 120]);
}

#[test]
fn op_add_out_kernel_test_mismatched_non_broadcastable_input_shapes_dies() {
    let a = full(ScalarType::Int, vec![4, 2], 1i32);
    let b = full(ScalarType::Int, vec![2, 2], 1i32);
    let mut out = int_zeros(vec![4, 2]);
    let mut ctx = KernelRuntimeContext::new();
    opt_add_out(&mut ctx, &a, &b, 1, &mut out);
    assert_ne!(ctx.failure_state(), Error::Success);
}

#[test]
fn op_add_out_scales_the_swapped_one_element_operand() {
    // With a one-element `a` the operands are swapped: b[i] + alpha * a[0].
    let a = ints(vec![1], vec![10]);
    let b = ints(vec![3], vec![1, 2, 3]);
    let mut out = int_zeros(vec![3]);
    let mut ctx = KernelRuntimeContext::new();
    opt_add_out(&mut ctx, &a, &b, 2, &mut out);
    assert_eq!(out.to_vec(), vec![21, 22, 23]);
    opt_add_out(&mut ctx, &b, &a, 2, &mut out);
    assert_eq!(out.to_vec(), vec![21, 22, 23]);
}

#[test]
fn op_add_scalar_out_kernel_test_sanity_check() {
    // The boolean scalar `true` is the integer 1.
    let a = make(ScalarType::Int, vec![2, 2], vec![1, 2, 4, 8]);
    let mut out = full(ScalarType::Int, vec![2, 2], 0i32);
    let mut ctx = KernelRuntimeContext::new();
    opt_add_scalar_out(&mut ctx, &a, 1, 2, &mut out);
    assert_eq!(ctx.failure_state(), Error::Success);
    assert_eq!(out.to_vec(), vec![3, 4, 6, 10]);
}

#[test]
fn opt_add_scalar_out_resize_failure_leaves_out() {
    let a = make(ScalarType::Int, vec![4], vec![1, 2, 3, 4]);
    let mut out = full(ScalarType::Int, vec![2, 2], 9i32);
    let mut ctx = KernelRuntimeContext::new();
    opt_add_scalar_out(&mut ctx, &a, 1, 1, &mut out);
    assert_eq!(ctx.failure_state(), Error::InvalidArgument);
    assert_eq!(out.to_vec(), vec![9, 9, 9, 9]);
}
