//! Kernels by architecture. [`scalar`] holds the reference; [`neon`] and
//! [`x86_64`] compute the same in vector lanes, and [`lanes`] says when
//! lanes suffice. [`backend`] is the one that the library uses.

pub mod lanes;
pub mod neon;
pub mod scalar;
pub mod x86_64;

pub use scalar as backend;
