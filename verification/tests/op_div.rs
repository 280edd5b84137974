use executorch_kernels::op_div::opt_div_out;
use executorch_kernels::tensor::{
    Error, KernelRuntimeContext, ScalarType, Tensor, TensorShapeDynamism,
};

fn ints(sizes: Vec<i32>, data: Vec<i32>) -> Tensor<i32> {
    Tensor::from_parts(ScalarType::Int, sizes, data, TensorShapeDynamism::Static).unwrap()
}

fn int_full(sizes: Vec<i32>, v: i32) -> Tensor<i32> {
    let n: i32 = sizes.iter().product();
    ints(sizes, vec![v; n as usize])
}

fn run(a: Tensor<i32>, b: Tensor<i32>, out_sizes: Vec<i32>) -> (Error, Vec<i32>) {
    let mut out = int_full(out_sizes, 0);
    let mut ctx = KernelRuntimeContext::new();
    opt_div_out(&mut ctx, &a, &b, &mut out);
    (ctx.failure_state(), out.to_vec())
}

#[test]
fn opt_div_out_flat_rounds_toward_zero() {
    let (e, got) = run(ints(vec![2, 2], vec![7, -7, 9, -9]), ints(vec![2, 2], vec![2, 2, -2, -2]), vec![2, 2]);
    assert_eq!(e, Error::Success);
    assert_eq!(got, vec![3, -3, -4, 4]);
}

#[test]
fn opt_div_out_one_element_dividend() {
    let (e, got) = run(ints(vec![1], vec![10]), ints(vec![3], vec![3, -4, 5]), vec![3]);
    assert_eq!(e, Error::Success);
    assert_eq!(got, vec![3, -2, 2]);
}

#[test]
fn opt_div_out_one_element_divisor_uses_the_reciprocal() {
    let (e, got) = run(ints(vec![3], vec![5, 6, 7]), ints(vec![1], vec![-1]), vec![3]);
    assert_eq!(e, Error::Success);
    assert_eq!(got, vec![-5, -6, -7]);
    // The reciprocal of 2 rounds to 0.
    let (e, got) = run(ints(vec![3], vec![5, 6, 7]), ints(vec![1], vec![2]), vec![3]);
    assert_eq!(e, Error::Success);
    assert_eq!(got, vec![0, 0, 0]);
}

#[test]
fn opt_div_out_broadcast_last_dim() {
    let (e, got) = run(ints(vec![2, 3], vec![6, 8, 10, 12, 14, 16]), ints(vec![2, 1], vec![2, 4]), vec![2, 3]);
    assert_eq!(e, Error::Success);
    assert_eq!(got, vec![3, 4, 5, 3, 3, 4]);
}

#[test]
fn opt_div_out_general_path_needs_a_float_output() {
    let (e, _) = run(ints(vec![2, 1], vec![6, 8]), ints(vec![1, 3], vec![1, 2, 3]), vec![2, 3]);
    assert_eq!(e, Error::InvalidArgument);
}

#[test]
fn opt_div_out_mismatched_shapes_fail() {
    let (e, got) = run(ints(vec![4], vec![1, 2, 3, 4]), ints(vec![2, 2], vec![1, 1, 1, 1]), vec![4]);
    assert_eq!(e, Error::InvalidArgument);
    assert_eq!(got, vec![0, 0, 0, 0]);
}
