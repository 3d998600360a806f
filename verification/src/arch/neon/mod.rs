//! Kernels in the arithmetic of AArch64 NEON.

pub mod color;
pub mod dct;
pub mod huffman;
pub mod quant;
