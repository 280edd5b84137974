use executorch_kernels::op_mul::{opt_mul_out, opt_mul_scalar_out};
use executorch_kernels::tensor::{
    Error, KernelRuntimeContext, ScalarType, Tensor, TensorShapeDynamism,
};

fn make<T: Copy>(st: ScalarType, sizes: Vec<i32>, data: Vec<T>) -> Tensor<T> {
    Tensor::from_parts(st, sizes, data, TensorShapeDynamism::Static).unwrap()
}

fn full<T: Copy>(st: ScalarType, sizes: Vec<i32>, v: T) -> Tensor<T> {
    let n: i32 = sizes.iter().product();
    Tensor::from_parts(st, sizes, vec![v; n as usize], TensorShapeDynamism::Static).unwrap()
}

fn ints(sizes: Vec<i32>, data: Vec<i32>) -> Tensor<i32> {
    make(ScalarType::Int, sizes, data)
}

fn int_zeros(sizes: Vec<i32>) -> Tensor<i32> {
    full(ScalarType::Int, sizes, 0i32)
}

#[test]
fn opt_mul_out_broadcast_nd() {
    // The integer-valued operands of the floating-point case.
    let a = ints(vec![2, 2, 3], vec![1, 2, 3, 4, 5, 6, 7, 8, 9, 10, 11, 12]);
    let b = ints(vec![2, 1, 3], vec![2, 3, 4, 5, 6, 7]);
    let mut out = int_zeros(vec![2, 2, 3]);
    let mut ctx = KernelRuntimeContext::new();
    opt_mul_out(&mut ctx, &a, &b, &mut out);
    assert_eq!(out.to_vec(), vec![2, 6, 12, 8, 15, 24, 35, 48, 63, 50, 66, 84]);
}

#[test]
fn opt_mul_out_broadcast_ab2c() {
    let a = ints(vec![2, 1], vec![1, 2]);
    let b = ints(vec![2, 1, 2], vec![1, 2, 3, 4]);
    let mut out = int_zeros(vec![2, 2, 2]);
    let mut ctx = KernelRuntimeContext::new();
    opt_mul_out(&mut ctx, &a, &b, &mut out);
    assert_eq!(out.to_vec(), vec![1, 2, 2, 4, 3, 4, 6, 8]);
}

#[test]
fn opt_mul_out_mismatched_input_shapes_dies() {
    let a = full(ScalarType::Int, vec![4, 2], 1i32);
    let b = full(ScalarType::Int, vec![2, 2], 1i32);
    let mut out = int_zeros(vec![8]);
    let mut ctx = KernelRuntimeContext::new();
    opt_mul_out(&mut ctx, &a, &b, &mut out);
    assert_ne!(ctx.failure_state(), Error::Success);
}

#[test]
fn opt_mul_out_scalar_operand_either_side() {
    let a = ints(vec![2, 2], vec![1, -2, 3, 4]);
    let b = ints(vec![1], vec![3]);
    let mut out = int_zeros(vec![2, 2]);
    let mut ctx = KernelRuntimeContext::new();
    opt_mul_out(&mut ctx, &a, &b, &mut out);
    assert_eq!(out.to_vec(), vec![3, -6, 9, 12]);
    opt_mul_out(&mut ctx, &b, &a, &mut out);
    assert_eq!(out.to_vec(), vec![3, -6, 9, 12]);
    assert_eq!(ctx.failure_state(), Error::Success);
}

#[test]
fn opt_mul_out_flat_and_last_dim_paths() {
    let a = ints(vec![2, 2], vec![1, 2, 3, 4]);
    let b = ints(vec![2, 2], vec![5, 6, 7, 8]);
    let mut out = int_zeros(vec![2, 2]);
    let mut ctx = KernelRuntimeContext::new();
    opt_mul_out(&mut ctx, &a, &b, &mut out);
    assert_eq!(out.to_vec(), vec![5, 12, 21, 32]);

    let c = ints(vec![2, 1], vec![10, -1]);
    opt_mul_out(&mut ctx, &a, &c, &mut out);
    assert_eq!(out.to_vec(), vec![10, 20, -3, -4]);
}

#[test]
fn opt_mul_out_resizes_dynamic_out() {
    let a = ints(vec![3, 1], vec![1, 2, 3]);
    let b = ints(vec![1, 2], vec![10, 100]);
    let mut out = Tensor::from_parts(ScalarType::Int, vec![4, 4], vec![0i32; 16], TensorShapeDynamism::DynamicBound).unwrap();
    let mut ctx = KernelRuntimeContext::new();
    opt_mul_out(&mut ctx, &a, &b, &mut out);
    assert_eq!(ctx.failure_state(), Error::Success);
    assert_eq!(out.sizes(), &vec![3, 2]);
    assert_eq!(out.to_vec(), vec![10, 100, 20, 200, 30, 300]);
}

#[test]
fn opt_mul_scalar_out_int_fast_path() {
    let a = ints(vec![2, 2], vec![1, 2, 4, 8]);
    let mut out = int_zeros(vec![2, 2]);
    let mut ctx = KernelRuntimeContext::new();
    opt_mul_scalar_out(&mut ctx, &a, 3, &mut out);
    assert_eq!(ctx.failure_state(), Error::Success);
    assert_eq!(out.to_vec(), vec![3, 6, 12, 24]);
}

#[test]
fn opt_mul_out_operand_order_does_not_matter() {
    let a = ints(vec![2, 1], vec![2, 3]);
    let b = ints(vec![1, 3], vec![5, 7, 11]);
    let mut out1 = int_zeros(vec![2, 3]);
    let mut out2 = int_zeros(vec![2, 3]);
    let mut ctx1 = KernelRuntimeContext::new();
    let mut ctx2 = KernelRuntimeContext::new();
    opt_mul_out(&mut ctx1, &a, &b, &mut out1);
    opt_mul_out(&mut ctx2, &b, &a, &mut out2);
    assert_eq!(ctx1.failure_state(), ctx2.failure_state());
    assert_eq!(out1.to_vec(), vec![10, 14, 22, 15, 21, 33]);
    assert_eq!(out1.to_vec(), out2.to_vec());
    // And through the one-element fast path.
    let s = ints(vec![1], vec![4]);
    let mut out3 = int_zeros(vec![2, 1]);
    let mut out4 = int_zeros(vec![2, 1]);
    opt_mul_out(&mut ctx1, &a, &s, &mut out3);
    opt_mul_out(&mut ctx2, &s, &a, &mut out4);
    assert_eq!(out3.to_vec(), vec![8, 12]);
    assert_eq!(out3.to_vec(), out4.to_vec());
}

#[test]
fn opt_mul_out_bool_tensors() {
    let a = make(ScalarType::Bool, vec![2, 2], vec![true, false, true, true]);
    let b = make(ScalarType::Bool, vec![2, 2], vec![false, false, true, false]);
    let mut out = full(ScalarType::Bool, vec![2, 2], false);
    let mut ctx = KernelRuntimeContext::new();
    opt_mul_out(&mut ctx, &a, &b, &mut out);
    assert_eq!(ctx.failure_state(), Error::Success);
    assert_eq!(out.to_vec(), vec![false, false, true, false]);
}
