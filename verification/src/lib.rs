#![allow(non_snake_case)]

pub mod bits;
pub mod llvm_math_extras;
pub mod math_utils;
pub mod blas;
pub mod opt_gemm;
pub mod op_bmm;
pub mod op_mm;
pub mod unroll;
pub mod op_linear;
pub mod fft_utils;
pub mod tensor;
pub mod binary_ops;
pub mod elementwise;
pub mod op_mul;
pub mod op_add_sub_impl;
pub mod op_add;
pub mod op_sub;
pub mod op_le;
pub mod op_where;
pub mod op_div;
pub mod functional;
pub mod register;
