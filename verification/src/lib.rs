//! Fallback font descriptors for optimized webfonts.
//!
//! Given the metrics of a webfont, the crate picks a widely installed system
//! font as its stand-in and computes the metric overrides that make the
//! stand-in occupy the same space, so that text does not shift when the real
//! font arrives.

pub mod adjustment;
pub mod binary64;
pub mod fallback;
pub mod laws;
pub mod metrics;
pub mod rounding;
