use executorch_kernels::op_le::{opt_le_scalar_out, opt_le_tensor_out};
use executorch_kernels::tensor::{
    Error, KernelRuntimeContext, ScalarType, Tensor, TensorShapeDynamism,
};

fn ints(sizes: Vec<i32>, data: Vec<i32>) -> Tensor<i32> {
    Tensor::from_parts(ScalarType::Int, sizes, data, TensorShapeDynamism::Static).unwrap()
}

fn int_full(sizes: Vec<i32>, v: i32) -> Tensor<i32> {
    let n: i32 = sizes.iter().product();
    ints(sizes, vec![v; n as usize])
}

#[test]
fn opt_le_tensor_out_treat_as_1d_int() {
    let a = ints(vec![2, 2], vec![2, 3, 2, 4]);
    let b = ints(vec![2, 2], vec![1, 4, 2, 3]);
    let mut out = int_full(vec![2, 2], 0);
    let mut ctx = KernelRuntimeContext::new();
    opt_le_tensor_out(&mut ctx, &a, &b, &mut out);
    assert_eq!(ctx.failure_state(), Error::Success);
    assert_eq!(out.to_vec(), vec![0, 1, 1, 0]);
}

#[test]
fn opt_le_tensor_out_broadcast_last_dim() {
    let a = ints(vec![3, 4], vec![1, 2, 3, 4, 5, 6, 7, 8, 9, 10, 11, 12]);
    let b = ints(vec![3, 1], vec![2, 5, 50]);
    let mut out = int_full(vec![3, 4], 0);
    let mut ctx = KernelRuntimeContext::new();
    opt_le_tensor_out(&mut ctx, &a, &b, &mut out);
    assert_eq!(ctx.failure_state(), Error::Success);
    assert_eq!(out.to_vec(), vec![1, 1, 0, 0, 1, 0, 0, 0, 1, 1, 1, 1]);
}

#[test]
fn opt_le_tensor_out_mismatched_shapes_dies() {
    let a = int_full(vec![4], 1);
    let b = int_full(vec![2, 2], 1);
    let mut out = int_full(vec![4], 1);
    let mut ctx = KernelRuntimeContext::new();
    opt_le_tensor_out(&mut ctx, &a, &b, &mut out);
    assert_ne!(ctx.failure_state(), Error::Success);
}

#[test]
fn opt_le_scalar_out_int_fast_path() {
    let a = ints(vec![2, 2], vec![3, 1, 2, 4]);
    let mut out = int_full(vec![2, 2], 1);
    let mut ctx = KernelRuntimeContext::new();
    opt_le_scalar_out(&mut ctx, &a, 2, &mut out);
    assert_eq!(ctx.failure_state(), Error::Success);
    assert_eq!(out.to_vec(), vec![0, 1, 1, 0]);
}

#[test]
fn opt_le_scalar_out_mismatched_out_shape_dies() {
    let a = int_full(vec![4], 1);
    let mut out = int_full(vec![2, 2], 1);
    let mut ctx = KernelRuntimeContext::new();
    opt_le_scalar_out(&mut ctx, &a, 3, &mut out);
    assert_ne!(ctx.failure_state(), Error::Success);
}

#[test]
fn opt_le_tensor_out_broadcast_both_operands() {
    // [2, 1] against [1, 3]: every pair of a row value and a column value.
    let a = ints(vec![2, 1], vec![2, 5]);
    let b = ints(vec![1, 3], vec![1, 2, 6]);
    let mut out = int_full(vec![2, 3], 7);
    let mut ctx = KernelRuntimeContext::new();
    opt_le_tensor_out(&mut ctx, &a, &b, &mut out);
    assert_eq!(ctx.failure_state(), Error::Success);
    assert_eq!(out.to_vec(), vec![0, 1, 1, 0, 0, 1]);
}

#[test]
fn opt_le_tensor_out_bool_elements() {
    let a = Tensor::from_parts(ScalarType::Bool, vec![4], vec![false, false, true, true], TensorShapeDynamism::Static).unwrap();
    let b = Tensor::from_parts(ScalarType::Bool, vec![4], vec![false, true, false, true], TensorShapeDynamism::Static).unwrap();
    let mut out = Tensor::from_parts(ScalarType::Bool, vec![4], vec![false; 4], TensorShapeDynamism::Static).unwrap();
    let mut ctx = KernelRuntimeContext::new();
    opt_le_tensor_out(&mut ctx, &a, &b, &mut out);
    assert_eq!(ctx.failure_state(), Error::Success);
    assert_eq!(out.to_vec(), vec![true, true, false, true]);
}
