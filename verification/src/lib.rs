//! A dense multi-dimensional array with an explicit memory layout, its index
//! arithmetic, and matrix multiplication over a generic scalar type.

pub mod array;
pub mod array_display;
pub mod array_slice;
pub mod error;
pub mod layout;
pub mod matrix;
pub mod matrix_simd;
pub mod scalar;
