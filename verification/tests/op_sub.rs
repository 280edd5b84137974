use executorch_kernels::op_sub::{opt_sub_out, opt_sub_scalar_out};
use executorch_kernels::tensor::{
    Error, KernelRuntimeContext, ScalarType, Tensor, TensorShapeDynamism,
};

fn make<T: Copy>(st: ScalarType, sizes: Vec<i32>, data: Vec<T>) -> Tensor<T> {
    Tensor::from_parts(st, sizes, data, TensorShapeDynamism::Static).unwrap()
}

fn full<T: Copy>(st: ScalarType, sizes: Vec<i32>, v: T) -> Tensor<T> {
    let n: i32 = sizes.iter().product();
    Tensor::from_parts(st, sizes, vec![v; n as usize], TensorShapeDynamism::Static).unwrap()
}

fn ints(sizes: Vec<i32>, data: Vec<i32>) -> Tensor<i32> {
    make(ScalarType::Int, sizes, data)
}

fn int_zeros(sizes: Vec<i32>) -> Tensor<i32> {
    full(ScalarType::Int, sizes, 0i32)
}

#[test]
fn opt_sub_out_broadcast_scalar_operand() {
    let a = ints(vec![1, 1, 1], vec![8]);
    let b = ints(vec![3, 1, 1], vec![2, 4, 8]);
    let mut out = int_zeros(vec![3, 1, 1]);
    let mut ctx = KernelRuntimeContext::new();
    opt_sub_out(&mut ctx, &a, &b, 1, &mut out);
    assert_eq!(out.to_vec(), vec![6, 4, 0]);

    let mut out2 = int_zeros(vec![3, 1, 1]);
    opt_sub_out(&mut ctx, &b, &a, 1, &mut out2);
    assert_eq!(out2.to_vec(), vec![-6, -4, 0]);
}

#[test]
fn opt_sub_out_broadcast_3d() {
    let a = ints(vec![2, 2, 3], vec![1, 2, 3, 4, 5, 6, 7, 8, 9, 10, 11, 12]);
    let b = ints(vec![2, 1, 3], vec![2, 3, 4, 5, 6, 7]);
    let mut out = int_zeros(vec![2, 2, 3]);
    let mut ctx = KernelRuntimeContext::new();
    opt_sub_out(&mut ctx, &a, &b, 1, &mut out);
    assert_eq!(out.to_vec(), vec![-1, -1, -1, 2, 2, 2, 2, 2, 2, 5, 5, 5]);
}

#[test]
fn opt_sub_out_scales_by_alpha() {
    let a = ints(vec![2, 2], vec![10, 20, 30, 40]);
    let b = ints(vec![2, 2], vec![1, 2, 3, 4]);
    let mut out = int_zeros(vec![2, 2]);
    let mut ctx = KernelRuntimeContext::new();
    opt_sub_out(&mut ctx, &a, &b, 3, &mut out);
    assert_eq!(out.to_vec(), vec![7, 14, 21, 28]);

    // The general broadcast: [2, 1] against [1, 2].
    let c = ints(vec![2, 1], vec![100, 200]);
    let d = ints(vec![1, 2], vec![1, 2]);
    opt_sub_out(&mut ctx, &c, &d, 2, &mut out);
    assert_eq!(out.to_vec(), vec![98, 96, 198, 196]);
    assert_eq!(ctx.failure_state(), Error::Success);
}

#[test]
fn opt_sub_out_mismatched_shapes_die() {
    let a = full(ScalarType::Int, vec![3], 1i32);
    let b = full(ScalarType::Int, vec![2], 1i32);
    let mut out = int_zeros(vec![3]);
    let mut ctx = KernelRuntimeContext::new();
    opt_sub_out(&mut ctx, &a, &b, 1, &mut out);
    assert_eq!(ctx.failure_state(), Error::InvalidArgument);
    assert_eq!(out.to_vec(), vec![0, 0, 0]);
}

#[test]
fn opt_sub_scalar_out_int_values() {
    // a[i] - alpha * b with alpha = 3, b = 2.
    let a = make(ScalarType::Int, vec![2, 2], vec![1, 2, 4, 8]);
    let mut out = full(ScalarType::Int, vec![2, 2], 0i32);
    let mut ctx = KernelRuntimeContext::new();
    opt_sub_scalar_out(&mut ctx, &a, 2, 3, &mut out);
    assert_eq!(ctx.failure_state(), Error::Success);
    assert_eq!(out.to_vec(), vec![-5, -4, -2, 2]);
}

#[test]
fn opt_sub_out_bool_inputs_die() {
    let a = make(ScalarType::Bool, vec![2, 2], vec![false, true, false, true]);
    let b = make(ScalarType::Bool, vec![2, 2], vec![false, true, true, true]);
    let mut out = full(ScalarType::Bool, vec![2, 2], false);
    let mut ctx = KernelRuntimeContext::new();
    opt_sub_out(&mut ctx, &a, &b, true, &mut out);
    assert_ne!(ctx.failure_state(), Error::Success);
}
