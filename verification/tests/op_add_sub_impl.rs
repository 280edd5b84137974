use executorch_kernels::op_add_sub_impl::opt_add_sub_out_impl;
use executorch_kernels::tensor::{
    Error, KernelRuntimeContext, ScalarType, Tensor, TensorShapeDynamism,
};

fn make<T: Copy>(st: ScalarType, sizes: Vec<i32>, data: Vec<T>) -> Tensor<T> {
    Tensor::from_parts(st, sizes, data, TensorShapeDynamism::Static).unwrap()
}

fn full<T: Copy>(st: ScalarType, sizes: Vec<i32>, v: T) -> Tensor<T> {
    let n: i32 = sizes.iter().product();
    Tensor::from_parts(st, sizes, vec![v; n as usize], TensorShapeDynamism::Static).unwrap()
}

fn ints(sizes: Vec<i32>, data: Vec<i32>) -> Tensor<i32> {
    make(ScalarType::Int, sizes, data)
}

fn int_zeros(sizes: Vec<i32>) -> Tensor<i32> {
    full(ScalarType::Int, sizes, 0i32)
}

#[test]
fn opt_add_sub_out_impl_add_treat_as_1d() {
    let a = ints(vec![2, 2], vec![1, 2, 4, 8]);
    let b = ints(vec![2, 2], vec![3, 5, 7, 9]);
    let mut out = int_zeros(vec![2, 2]);
    let mut ctx = KernelRuntimeContext::new();
    opt_add_sub_out_impl(&mut ctx, &a, &b, 2, &mut out, false);
    assert_eq!(ctx.failure_state(), Error::Success);
    assert_eq!(out.to_vec(), vec![7, 12, 18, 26]);
}

#[test]
fn opt_add_sub_out_impl_sub_treat_as_1d() {
    let a = ints(vec![2, 2], vec![1, 2, 4, 8]);
    let b = ints(vec![2, 2], vec![3, 5, 7, 9]);
    let mut out = int_zeros(vec![2, 2]);
    let mut ctx = KernelRuntimeContext::new();
    opt_add_sub_out_impl(&mut ctx, &a, &b, 2, &mut out, true);
    assert_eq!(ctx.failure_state(), Error::Success);
    assert_eq!(out.to_vec(), vec![-5, -8, -10, -10]);
}

#[test]
fn opt_add_sub_out_impl_int_treat_as_1d() {
    let a = ints(vec![4], vec![10, 20, 30, 40]);
    let b = ints(vec![4], vec![1, 2, 3, 4]);
    let mut out = int_zeros(vec![4]);
    let mut ctx = KernelRuntimeContext::new();
    opt_add_sub_out_impl(&mut ctx, &a, &b, 3, &mut out, true);
    assert_eq!(out.to_vec(), vec![7, 14, 21, 28]);
}

#[test]
fn opt_add_sub_out_impl_broadcast_2d_by_1d() {
    let a = ints(vec![2, 3], vec![1, 2, 3, 4, 5, 6]);
    let b = ints(vec![3], vec![10, 20, 30]);
    let mut out = int_zeros(vec![2, 3]);

    let mut ctx = KernelRuntimeContext::new();
    opt_add_sub_out_impl(&mut ctx, &a, &b, 2, &mut out, false);
    assert_eq!(out.to_vec(), vec![21, 42, 63, 24, 45, 66]);

    opt_add_sub_out_impl(&mut ctx, &b, &a, 2, &mut out, false);
    assert_eq!(out.to_vec(), vec![12, 24, 36, 18, 30, 42]);

    opt_add_sub_out_impl(&mut ctx, &a, &b, 2, &mut out, true);
    assert_eq!(out.to_vec(), vec![-19, -38, -57, -16, -35, -54]);

    opt_add_sub_out_impl(&mut ctx, &b, &a, 2, &mut out, true);
    assert_eq!(out.to_vec(), vec![8, 16, 24, 2, 10, 18]);
}

#[test]
fn opt_add_sub_out_impl_broadcast_last_dim() {
    let a = ints(vec![2, 3], vec![1, 2, 3, 4, 5, 6]);
    let b = ints(vec![2, 1], vec![10, 20]);
    let mut out = int_zeros(vec![2, 3]);

    let mut ctx = KernelRuntimeContext::new();
    opt_add_sub_out_impl(&mut ctx, &a, &b, 1, &mut out, false);
    assert_eq!(out.to_vec(), vec![11, 12, 13, 24, 25, 26]);

    opt_add_sub_out_impl(&mut ctx, &b, &a, 1, &mut out, true);
    assert_eq!(out.to_vec(), vec![9, 8, 7, 16, 15, 14]);
}

#[test]
fn opt_add_sub_out_impl_broadcast_nd_by_nd() {
    let a = ints(vec![2, 2, 3], vec![1, 2, 3, 4, 5, 6, 7, 8, 9, 10, 11, 12]);
    let b = ints(vec![2, 1, 3], vec![2, 3, 4, 5, 6, 7]);
    let mut out = int_zeros(vec![2, 2, 3]);

    let mut ctx = KernelRuntimeContext::new();
    opt_add_sub_out_impl(&mut ctx, &a, &b, 1, &mut out, false);
    assert_eq!(out.to_vec(), vec![3, 5, 7, 6, 8, 10, 12, 14, 16, 15, 17, 19]);

    opt_add_sub_out_impl(&mut ctx, &b, &a, 1, &mut out, true);
    assert_eq!(out.to_vec(), vec![1, 1, 1, -2, -2, -2, -2, -2, -2, -5, -5, -5]);
}
