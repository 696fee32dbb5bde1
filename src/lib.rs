//! Per-pixel compositing pipeline: frame buffers, a temporal median background
//! estimator, a separable box blur, additive glow kernels, software drawing and
//! the per-frame decisions of the interactive loop.
pub mod background;
pub mod blur;
pub mod draw;
pub mod error;
pub mod fx;
pub mod session;
pub mod types;
