use executorch_kernels::fft_utils::{
    compute_fct, compute_fct_size, shape_from_tensor, ComputeFct, FftNormMode,
};
use executorch_kernels::tensor::{
    Error, KernelRuntimeContext, ScalarType, Tensor, TensorShapeDynamism,
};

/// Single-precision normalisation factors.
#[derive(Clone, Copy, Debug, PartialEq)]
struct Fct32(f32);

impl ComputeFct for Fct32 {
    // The value of each operation is the operation itself.
    fn one_spec() -> Self {
        Self::one()
    }
    fn from_i64_spec(v: i64) -> Self {
        Self::from_i64(v)
    }
    fn div_spec(a: Self, b: Self) -> Self {
        Self::div(a, b)
    }
    fn sqrt_spec(x: Self) -> Self {
        x.sqrt()
    }
    fn one() -> Self {
        Fct32(1.0)
    }
    fn from_i64(v: i64) -> Self {
        Fct32(v as f32)
    }
    fn div(a: Self, b: Self) -> Self {
        Fct32(a.0 / b.0)
    }
    fn sqrt(self) -> Self {
        Fct32(self.0.sqrt())
    }
}

/// Double-precision normalisation factors.
#[derive(Clone, Copy, Debug, PartialEq)]
struct Fct64(f64);

impl ComputeFct for Fct64 {
    // The value of each operation is the operation itself.
    fn one_spec() -> Self {
        Self::one()
    }
    fn from_i64_spec(v: i64) -> Self {
        Self::from_i64(v)
    }
    fn div_spec(a: Self, b: Self) -> Self {
        Self::div(a, b)
    }
    fn sqrt_spec(x: Self) -> Self {
        x.sqrt()
    }
    fn one() -> Self {
        Fct64(1.0)
    }
    fn from_i64(v: i64) -> Self {
        Fct64(v as f64)
    }
    fn div(a: Self, b: Self) -> Self {
        Fct64(a.0 / b.0)
    }
    fn sqrt(self) -> Self {
        Fct64(self.0.sqrt())
    }
}

fn zeros_f(sizes: Vec<i32>) -> Tensor<f32> {
    let n: i32 = sizes.iter().product();
    Tensor::from_parts(
        ScalarType::Float,
        sizes,
        vec![0.0; n as usize],
        TensorShapeDynamism::Static,
    )
    .unwrap()
}

#[test]
fn fft_utils_shape_from_tensor() {
    let t = zeros_f(vec![2, 3, 4]);
    assert_eq!(shape_from_tensor(&t), vec![2usize, 3, 4]);

    let vec1d = zeros_f(vec![5]);
    assert_eq!(shape_from_tensor(&vec1d), vec![5usize]);

    // 0-D (scalar) tensor: empty sizes -> empty shape.
    let scalar = zeros_f(vec![]);
    assert_eq!(shape_from_tensor(&scalar), Vec::<usize>::new());
}

#[test]
fn fft_utils_compute_fct_invalid_normalization() {
    // Out-of-range normalization: InvalidArgument recorded on ctx, None
    // returned.
    let mut ctx = KernelRuntimeContext::new();
    assert_eq!(compute_fct_size::<Fct32>(&mut ctx, 4, 3), None);
    assert_eq!(ctx.failure_state(), Error::InvalidArgument);

    let mut ctx = KernelRuntimeContext::new();
    assert_eq!(compute_fct_size::<Fct64>(&mut ctx, 4, -1), None);
    assert_eq!(ctx.failure_state(), Error::InvalidArgument);
}

#[test]
fn fft_utils_compute_fct_size_modes() {
    let mut ctx = KernelRuntimeContext::new();
    // none -> 1, by_n (2) -> 1/size, by_root_n (1) -> 1/sqrt(size).
    assert_eq!(compute_fct_size::<Fct32>(&mut ctx, 10, 0), Some(Fct32(1.0)));
    assert_eq!(compute_fct_size::<Fct32>(&mut ctx, 10, 2), Some(Fct32(0.1)));
    assert_eq!(compute_fct_size::<Fct32>(&mut ctx, 16, 1), Some(Fct32(0.25)));
    assert_eq!(compute_fct_size::<Fct64>(&mut ctx, 10, 0), Some(Fct64(1.0)));
    assert_eq!(compute_fct_size::<Fct64>(&mut ctx, 8, 2), Some(Fct64(0.125)));
    let got = compute_fct_size::<Fct64>(&mut ctx, 2, 1).unwrap();
    assert!((got.0 - 1.0 / 2.0f64.sqrt()).abs() <= 1e-12, "got {got:?}");
    assert_eq!(ctx.failure_state(), Error::Success);
}

#[test]
fn fft_utils_compute_fct_tensor_overload() {
    let t = zeros_f(vec![3, 4, 5]);
    let dim: [i64; 2] = [1, 2];

    let mut ctx = KernelRuntimeContext::new();
    // by_n over dims {1,2}: n = 4*5 = 20 -> 1/20.
    assert_eq!(compute_fct::<Fct32, f32>(&mut ctx, &t, &dim, 2), Some(Fct32(0.05)));
    // by_root_n -> 1/sqrt(20).
    let got = compute_fct::<Fct32, f32>(&mut ctx, &t, &dim, 1).unwrap();
    assert!((got.0 - 1.0 / 20.0f32.sqrt()).abs() <= 1e-7, "got {got:?}");
    // none returns 1 immediately, before dim is consulted (empty dim ok).
    let empty: [i64; 0] = [];
    assert_eq!(compute_fct::<Fct32, f32>(&mut ctx, &t, &empty, 0), Some(Fct32(1.0)));
    assert_eq!(ctx.failure_state(), Error::Success);

    // Invalid normalization flows through to the size-overload failure.
    let mut ctx = KernelRuntimeContext::new();
    assert_eq!(compute_fct::<Fct64, f32>(&mut ctx, &t, &dim, 5), None);
    assert_eq!(ctx.failure_state(), Error::InvalidArgument);
}

#[test]
fn fft_norm_mode_numbering() {
    assert_eq!(FftNormMode::from_i64(0), Some(FftNormMode::NoNorm));
    assert_eq!(FftNormMode::from_i64(1), Some(FftNormMode::ByRootN));
    assert_eq!(FftNormMode::from_i64(2), Some(FftNormMode::ByN));
    assert_eq!(FftNormMode::from_i64(3), None);
    assert_eq!(FftNormMode::from_i64(-1), None);
}
