//! Quantized matrix multiplication: unsigned 8-bit activations against signed 8-bit weights,
//! accumulated in 32-bit integers.

pub mod avx2;
pub mod avx512_vnni;
pub mod block;
pub mod gemm;
pub mod laws;
pub mod meaning;
pub mod pack;
pub mod quantize;
pub mod reference;
pub mod tile;
