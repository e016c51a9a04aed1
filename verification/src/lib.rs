//! Sobel edge detection over 8-bit grayscale grids.
//!
//! The library computes an edge-intensity image from a grayscale input:
//! for every output pixel it estimates horizontal and vertical intensity
//! change by convolving a 3x3 neighborhood with the two fixed Sobel
//! kernels, then combines the two gradient estimates into a scalar
//! edge-strength sample.
//!
//! All arithmetic is exact integer arithmetic. The classical formulation
//! normalizes each sample by 255, divides each convolution by 8, takes
//! `sqrt(gx^2 + gy^2)`, and converts back to 8 bits by multiplying by 255
//! and truncating. Both scale factors cancel against the final conversion,
//! so the written sample is exactly `floor(sqrt(X*X + Y*Y)) / 8` where `X`
//! and `Y` are the raw integer convolutions of the 8-bit samples; that
//! quotient is what this crate computes, with no rounding drift.

pub mod filter;
pub mod grid;
