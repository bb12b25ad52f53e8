//! Escape-time fractal rendering: the iteration-count bookkeeping, a PPM
//! raster buffer with its text encoding, and the bookkeeping of a bounded
//! job runner.
pub mod codec;
pub mod fractals;
pub mod par;
pub mod ppm;
