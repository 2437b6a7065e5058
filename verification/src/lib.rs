//! Matrix multiplication with pre-packed weights.
//!
//! Computes `C = beta * C + A * B` for row-major matrices `A` (M×K) and `C` (M×N) and a K×N matrix
//! `B` that is packed once, for any number of multiplications with different `A`:
//!
//! - [`PackedMatrix`] keeps the elements of `B` as they are, in a blocked layout; [`sgemm`] and
//!   [`sgemm_simple`] multiply with it.
//! - [`PackedMatrixBf16`] keeps the upper half of each element, in half the memory;
//!   [`sgemm_bf16`] and [`sgemm_bf16_simple`] multiply with it.
//! - [`PackedBMatrixI8`] keeps weights as signed bytes. The multiplications in
//!   [`quantized::gemm`] quantize each row of `A` to bytes and multiply in 32-bit integers.
//!
//! The element type of the first two is any [`Scalar`], that of the third any [`Activation`]:
//! every contract gives the exact expression of element operations that a result is.
//!
//! What their results are, in terms of the operands alone, stands in [`meaning`] and
//! [`quantized::meaning`]; what holds of the multiplications as a whole, in [`laws`] and
//! [`quantized::laws`].

pub mod arith;
pub mod bf16;
pub mod blocks;
pub mod gemm;
pub mod kernels;
pub mod laws;
pub mod layout;
pub mod meaning;
pub mod pack;
mod parallel;
pub mod partition;
pub mod product;
pub mod quantized;
pub mod row_group;
mod rows;
pub mod scalar;

pub use bf16::{sgemm_bf16, sgemm_bf16_simple, PackedMatrixBf16};
pub use gemm::{sgemm, sgemm_simple};
pub use pack::{FbgemmPackedMatrix, PackedMatrix};
pub use quantized::pack::PackedBMatrixI8;
pub use scalar::{Activation, Scalar};
