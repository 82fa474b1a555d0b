//! A time-windowed series of histograms.
//!
//! A `Heatmap` partitions a bounded time span into equal-duration slices,
//! each slice holding a full value-distribution histogram, so that callers
//! can record `(timestamp, value, count)` observations and later query
//! per-slice distributions, merge windows together, or encode the whole
//! state as text.  The per-slice histograms come from the `histogram`
//! crate; everything around them is specified and verified here.

pub mod codec;
pub mod config;
pub mod errors;
pub mod heatmap;
pub mod hist;
pub mod laws;
pub mod quant;

mod clock;
