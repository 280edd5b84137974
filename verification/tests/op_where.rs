use executorch_kernels::op_where::opt_where_out;
use executorch_kernels::tensor::{
    Error, KernelRuntimeContext, ScalarType, Tensor, TensorShapeDynamism,
};

fn make<T: Copy>(st: ScalarType, sizes: Vec<i32>, data: Vec<T>) -> Tensor<T> {
    Tensor::from_parts(st, sizes, data, TensorShapeDynamism::Static).unwrap()
}

fn zeros<T: Copy>(st: ScalarType, sizes: Vec<i32>, zero: T, dynamism: TensorShapeDynamism) -> Tensor<T> {
    let n: i32 = sizes.iter().product();
    Tensor::from_parts(st, sizes, vec![zero; n as usize], dynamism).unwrap()
}

fn conds(sizes: Vec<i32>, data: Vec<bool>) -> Tensor<bool> {
    make(ScalarType::Bool, sizes, data)
}

fn floats(sizes: Vec<i32>, data: Vec<f32>) -> Tensor<f32> {
    make(ScalarType::Float, sizes, data)
}

fn test_where<T: Copy + PartialEq + core::fmt::Debug>(st: ScalarType, conv: fn(i64) -> T) {
    let vals = |v: &[i64]| -> Vec<T> { v.iter().map(|&x| conv(x)).collect() };
    let cond_data: Vec<bool> = [0, 1, 0, 1, 1, 0, 0, 1, 0, 1, 1, 0].iter().map(|&v| v != 0).collect();
    let a = make(st, vec![1, 12], vals(&[1, 2, 3, 4, 5, 6, 6, 5, 4, 3, 2, 1]));
    let b = make(st, vec![1, 12], vals(&[6, 5, 4, 3, 2, 1, 1, 2, 3, 4, 5, 6]));
    let mut out = zeros(st, vec![1, 12], conv(0), TensorShapeDynamism::Static);
    let mut ctx = KernelRuntimeContext::new();
    opt_where_out(&mut ctx, &conds(vec![12], cond_data), &a, &b, &mut out);
    assert_eq!(ctx.failure_state(), Error::Success);
    assert_eq!(out.to_vec(), vals(&[6, 2, 4, 4, 5, 1, 1, 5, 3, 3, 2, 6]));
}

#[test]
fn op_where_out_test_all_real_dtypes_supported() {
    // The byte and char outputs are skipped, as in the original.
    test_where::<i16>(ScalarType::Short, |v| v as i16);
    test_where::<i32>(ScalarType::Int, |v| v as i32);
    test_where::<i64>(ScalarType::Long, |v| v);
    test_where::<f32>(ScalarType::Float, |v| v as f32);
    test_where::<f64>(ScalarType::Double, |v| v as f64);
}

fn run(cond: Tensor<bool>, a: Tensor<f32>, b: Tensor<f32>, out_sizes: Vec<i32>) -> (Error, Vec<f32>) {
    let mut out = zeros(ScalarType::Float, out_sizes, 0.0f32, TensorShapeDynamism::Static);
    let mut ctx = KernelRuntimeContext::new();
    opt_where_out(&mut ctx, &cond, &a, &b, &mut out);
    (ctx.failure_state(), out.to_vec())
}

const X12: [f32; 12] = [0.0, 1.0, 2.0, 3.0, 4.0, 5.0, 6.0, 7.0, 8.0, 9.0, 10.0, 100.0];
const Y12: [f32; 12] = [0.1, 1.1, 2.1, 3.1, 4.1, 5.1, 6.1, 7.1, 8.1, 9.1, 10.1, 100.1];

#[test]
fn op_where_out_test_all_true_test() {
    let (e, got) = run(conds(vec![1], vec![true]), floats(vec![1, 12], X12.to_vec()), floats(vec![1, 12], Y12.to_vec()), vec![1, 12]);
    assert_eq!(e, Error::Success);
    assert_eq!(got, X12.to_vec());
}

#[test]
fn op_where_out_test_all_false_test() {
    let (e, got) = run(conds(vec![1], vec![false]), floats(vec![1, 12], X12.to_vec()), floats(vec![1, 12], Y12.to_vec()), vec![1, 12]);
    assert_eq!(e, Error::Success);
    assert_eq!(got, Y12.to_vec());
}

#[test]
fn op_where_out_test_mixed_true_false_test() {
    let c = vec![false, true, false, true, true, false, false, true, false, true, true, false];
    let (e, got) = run(conds(vec![12], c), floats(vec![1, 12], X12.to_vec()), floats(vec![1, 12], Y12.to_vec()), vec![1, 12]);
    assert_eq!(e, Error::Success);
    assert_eq!(got, vec![0.1, 1.0, 2.1, 3.0, 4.0, 5.1, 6.1, 7.0, 8.1, 9.0, 10.0, 100.1]);
}

#[test]
fn op_where_out_test_broadcast_condition_test() {
    let (e, got) = run(conds(vec![3, 1], vec![false, true, false]), floats(vec![3, 4], X12.to_vec()), floats(vec![3, 4], Y12.to_vec()), vec![3, 4]);
    assert_eq!(e, Error::Success);
    assert_eq!(got, vec![0.1, 1.1, 2.1, 3.1, 4.0, 5.0, 6.0, 7.0, 8.1, 9.1, 10.1, 100.1]);
}

#[test]
fn op_where_out_test_broadcast_condition_and_broad_cast_y_test() {
    let (e, got) = run(conds(vec![3, 1], vec![false, true, false]), floats(vec![3, 4], X12.to_vec()), floats(vec![3, 1], vec![0.1, 4.1, 8.1]), vec![3, 4]);
    assert_eq!(e, Error::Success);
    assert_eq!(got, vec![0.1, 0.1, 0.1, 0.1, 4.0, 5.0, 6.0, 7.0, 8.1, 8.1, 8.1, 8.1]);
}

#[test]
fn op_where_out_test_double_type_test() {
    let x: Vec<f64> = X12.iter().map(|&v| v as f64).collect();
    let cond = conds(vec![3, 1], vec![false, true, false]);
    let a = make(ScalarType::Double, vec![3, 4], x);
    let b = make(ScalarType::Double, vec![3, 1], vec![0.1f64, 4.1, 8.1]);
    let mut out = zeros(ScalarType::Double, vec![3, 4], 0.0f64, TensorShapeDynamism::Static);
    let mut ctx = KernelRuntimeContext::new();
    opt_where_out(&mut ctx, &cond, &a, &b, &mut out);
    assert_eq!(ctx.failure_state(), Error::Success);
    assert_eq!(out.to_vec(), vec![0.1, 0.1, 0.1, 0.1, 4.0, 5.0, 6.0, 7.0, 8.1, 8.1, 8.1, 8.1]);
}

#[test]
fn op_where_out_test_mismatched_shape_test() {
    let (e, _) = run(conds(vec![3, 1], vec![false, true, false]), floats(vec![3, 4], X12.to_vec()), floats(vec![4, 1], vec![0.1, 4.1, 8.1, 11.1]), vec![3, 4]);
    assert_ne!(e, Error::Success);
}

#[test]
fn op_where_out_test_dynamic_shape_upper_bound_same_as_expected() {
    let cond = conds(vec![2, 3, 4], vec![true, false, true, true, true, false, false, true, false, true, true, false, false, false, false, false, false, false, true, true, false, false, true, true]);
    let a = floats(vec![2, 3, 4], vec![0.41940832138061523, 0.5529070496559143, 0.9527381062507629, 0.036164820194244385, 0.1852310299873352, 0.37341737747192383, 0.3051000237464905, 0.9320003986358643, 0.17591017484664917, 0.2698335647583008, 0.15067976713180542, 0.03171950578689575, 0.20812976360321045, 0.9297990202903748, 0.7231091856956482, 0.7423362731933594, 0.5262957811355591, 0.24365824460983276, 0.584592342376709, 0.033152639865875244, 0.13871687650680542, 0.242235004901886, 0.815468966960907, 0.793160617351532]);
    let b = floats(vec![2, 3, 4], vec![0.2782524824142456, 0.48195880651474, 0.8197803497314453, 0.9970665574073792, 0.6984410881996155, 0.5675464272499084, 0.8352431654930115, 0.2055988311767578, 0.593172013759613, 0.11234724521636963, 0.1534569263458252, 0.24170821905136108, 0.7262365221977234, 0.7010802030563354, 0.2038237452507019, 0.6510535478591919, 0.7744860053062439, 0.4368913173675537, 0.5190907716751099, 0.6158523559570312, 0.8101882934570312, 0.9800970554351807, 0.1146882176399231, 0.3167651295661926]);
    let mut out = zeros(ScalarType::Float, vec![2, 3, 4], 0.0f32, TensorShapeDynamism::DynamicBound);
    let mut ctx = KernelRuntimeContext::new();
    opt_where_out(&mut ctx, &cond, &a, &b, &mut out);
    assert_eq!(ctx.failure_state(), Error::Success);
    assert_eq!(out.to_vec(), vec![0.41940832138061523, 0.48195880651474, 0.9527381062507629, 0.036164820194244385, 0.1852310299873352, 0.5675464272499084, 0.8352431654930115, 0.9320003986358643, 0.593172013759613, 0.2698335647583008, 0.15067976713180542, 0.24170821905136108, 0.7262365221977234, 0.7010802030563354, 0.2038237452507019, 0.6510535478591919, 0.7744860053062439, 0.4368913173675537, 0.584592342376709, 0.033152639865875244, 0.8101882934570312, 0.9800970554351807, 0.815468966960907, 0.793160617351532]);
}

#[test]
fn op_where_out_test_fast_path_broadcast_all_inputs() {
    let (e, got) = run(conds(vec![2, 1], vec![true, false]), floats(vec![1, 3], vec![1.0, 2.0, 3.0]), floats(vec![2, 3], vec![10.0, 20.0, 30.0, 40.0, 50.0, 60.0]), vec![2, 3]);
    assert_eq!(e, Error::Success);
    assert_eq!(got, vec![1.0, 2.0, 3.0, 40.0, 50.0, 60.0]);
}
