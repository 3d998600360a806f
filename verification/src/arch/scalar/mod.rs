//! Architecture-independent reference kernels.

pub mod color;
pub mod dct;
pub mod huffman;
pub mod quant;
pub mod sample;
