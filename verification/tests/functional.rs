use executorch_kernels::functional::{
    broadcasting_map_2d_by_1d, broadcasting_map_3d_and_unsqueezed_3d,
    broadcasting_map_broadcast_last_dim,
};

// lhs [outer=2, broadcast=2, inner=3] against rhs [outer=2, 1, inner=3]:
// out[o][b][i] = f(lhs[o][b][i], rhs[o][i]). A non-commutative op
// (2*a + b) pins the (lhs, rhs) argument order.
#[test]
fn broadcasting_map_3d_and_unsqueezed_3d_broadcasts_middle_dim() {
    let lhs: Vec<f32> = (1..=12).map(|v| v as f32).collect();
    let rhs: Vec<f32> = vec![10.0, 20.0, 30.0, 100.0, 200.0, 300.0];
    let mut out = vec![0.0f32; 12];
    let f = |a: f32, b: f32| a * 2.0 + b;
    broadcasting_map_3d_and_unsqueezed_3d(&f, &mut out, &lhs, &rhs, 2, 2, 3);
    let expected: Vec<f32> = vec![
        12.0, 24.0, 36.0, // o=0, b=0: 2*[1,2,3] + [10,20,30]
        18.0, 30.0, 42.0, // o=0, b=1: 2*[4,5,6] + [10,20,30]
        114.0, 216.0, 318.0, // o=1, b=0: 2*[7,8,9] + [100,200,300]
        120.0, 222.0, 324.0, // o=1, b=1: 2*[10,11,12] + [100,200,300]
    ];
    assert_eq!(out, expected);

    // Same bookkeeping over an integer element type, broadcast_size=1
    // degenerate case: pure elementwise over [outer, 1, inner].
    let lhs_i: Vec<i32> = vec![1, 2, 3, 4];
    let rhs_i: Vec<i32> = vec![10, 20, 30, 40];
    let mut out_i = vec![0i32; 4];
    let add = |a: i32, b: i32| a + b;
    broadcasting_map_3d_and_unsqueezed_3d(&add, &mut out_i, &lhs_i, &rhs_i, 2, 1, 2);
    assert_eq!(out_i, vec![11, 22, 33, 44]);
}

// [size, size2] x [size2]: each row of the 2d input is combined with the
// single 1d row, i.e. the 3d mapping with outer_size=1.
#[test]
fn broadcasting_map_2d_by_1d_applies_row_to_each() {
    let input: Vec<i32> = (1..=12).collect();
    let input2: Vec<i32> = vec![2, 3, 4, 5];
    let mut out = vec![0i32; 12];
    let mul = |a: i32, b: i32| a * b;
    broadcasting_map_2d_by_1d(&mul, &mut out, &input, &input2, 3, 4);
    let expected: Vec<i32> = vec![
        2, 6, 12, 20, // [1,2,3,4] * [2,3,4,5]
        10, 18, 28, 40, // [5,6,7,8] * [2,3,4,5]
        18, 30, 44, 60, // [9,10,11,12] * [2,3,4,5]
    ];
    assert_eq!(out, expected);
}

// lhs [outer, broadcast] against rhs [outer, 1]: every element of row o is
// combined with the scalar rhs[o]. Subtraction pins the argument order
// f(lhs_elem, rhs[o]).
#[test]
fn broadcasting_map_broadcast_last_dim_scalar_per_row() {
    let lhs: Vec<i32> = (1..=12).collect();
    let rhs: Vec<i32> = vec![1, 10, 100];
    let mut out = vec![0i32; 12];
    let sub = |a: i32, b: i32| a - b;
    broadcasting_map_broadcast_last_dim(&sub, &mut out, &lhs, &rhs, 3, 4);
    let expected: Vec<i32> = vec![
        0, 1, 2, 3, // [1,2,3,4] - 1
        -5, -4, -3, -2, // [5,6,7,8] - 10
        -91, -90, -89, -88, // [9,10,11,12] - 100
    ];
    assert_eq!(out, expected);

    // f32 with a single row (outer_size=1).
    let lhs_f: Vec<f32> = vec![0.5, 1.5, 2.5];
    let rhs_f: Vec<f32> = vec![2.0];
    let mut out_f = vec![0.0f32; 3];
    let div = |a: f32, b: f32| a / b;
    broadcasting_map_broadcast_last_dim(&div, &mut out_f, &lhs_f, &rhs_f, 1, 3);
    assert_eq!(out_f, vec![0.25, 0.75, 1.25]);
}

#[test]
fn broadcasting_maps_leave_the_tail_alone() {
    let lhs: Vec<i32> = vec![1, 2, 3, 4];
    let rhs: Vec<i32> = vec![10, 20];
    let add = |a: i32, b: i32| a + b;

    let mut out = vec![-1i32; 6];
    broadcasting_map_3d_and_unsqueezed_3d(&add, &mut out, &lhs, &rhs, 1, 2, 2);
    assert_eq!(out, vec![11, 22, 13, 24, -1, -1]);

    let mut out = vec![-1i32; 6];
    broadcasting_map_broadcast_last_dim(&add, &mut out, &lhs, &rhs, 2, 2);
    assert_eq!(out, vec![11, 12, 23, 24, -1, -1]);
}

#[test]
fn broadcasting_maps_with_an_empty_extent_write_nothing() {
    let lhs: Vec<i32> = vec![1, 2, 3, 4];
    let rhs: Vec<i32> = vec![10, 20];
    let add = |a: i32, b: i32| a + b;

    let mut out = vec![7i32; 4];
    broadcasting_map_3d_and_unsqueezed_3d(&add, &mut out, &lhs, &rhs, 2, 0, 2);
    assert_eq!(out, vec![7; 4]);

    broadcasting_map_2d_by_1d(&add, &mut out, &lhs, &rhs, -1, 2);
    assert_eq!(out, vec![7; 4]);

    broadcasting_map_broadcast_last_dim(&add, &mut out, &lhs, &rhs, 2, 0);
    assert_eq!(out, vec![7; 4]);
}
