//! Radix-2 fast Fourier transforms over a pair of buffers whose roles alternate from one
//! level of the recursion to the next, so that no bit-reversal pass is needed; and the
//! two-dimensional transform of a square grid built from them.
//!
//! The element type is generic: the arithmetic of a butterfly is handed in as a closure.
pub mod fft;
pub mod grid;
pub mod swapspace;

pub use fft::fft_inplace;
pub use grid::{fft2d_inplace, transpose_to};
pub use swapspace::{Swap, Swappable, FFT, FFT2D};
