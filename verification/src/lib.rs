//! Spectral image convolution: the exact, integer-indexed core of an
//! FFT-based 2-D convolution pipeline.
//!
//! The numerically heavy steps (the 1-D Fourier transforms themselves, the
//! complex multiplication, kernel weight evaluation) run on floating-point
//! data outside this crate; what is verified here is everything whose
//! correctness is exact index arithmetic: centering and alignment of a
//! source grid inside a target grid, the centering shift applied after each
//! transform pass, matrix transposition, channel splitting and joining, and
//! the radial squared-distance grid that kernel synthesis is built on.

pub mod convolve;
pub mod kernel;
pub mod transform;
