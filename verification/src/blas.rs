//! Column-major GEMM building blocks and entry points.

pub mod blas_kernel;
pub mod cpu_blas;
