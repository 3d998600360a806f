//! Kernels in the arithmetic of x86-64 AVX2.

pub mod color;
pub mod dct;
pub mod encode;
pub mod huffman;
pub mod quant;
pub mod sample;
