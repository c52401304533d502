//! Sparse linear algebra: the compressed-sparse-column matrix and the
//! primitives that assemble one out of blocks.

pub mod counting;
pub mod discipline;
pub mod filling;
pub mod matrix;

pub use matrix::{same_indices, structural_zero, CscMatrix, MatrixShape, MatrixTriangle};
