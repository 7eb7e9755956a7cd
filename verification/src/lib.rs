//! A verified core for an adaptive Mandelbrot-set field renderer.
//!
//! The parameter plane is modelled in signed fixed-point arithmetic
//! (an `i64` holding a real value scaled by 2^32), so every component —
//! complex arithmetic, the smoothed escape-time evaluator, the
//! boundary-tracing subdivision scheduler, the pixel/parameter mapping
//! and the raster consumer — is ordinary integer code with exact
//! contracts.

pub mod cplx;
pub mod events;
pub mod fixed;
pub mod log2;
pub mod mandel;
pub mod raster;
pub mod sched;
pub mod vec2;
pub mod viewport;
