//! A JPEG decoder and the kernels of a JPEG codec, with contracts on every
//! function. [`decode::decode`] is the way in.

pub mod arch;
pub mod bench;
pub mod color;
pub mod dct;
pub mod decode;
pub mod fixed;
pub mod quant;
pub mod tables;

pub use color::PixelFormat;
