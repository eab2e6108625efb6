//! Color quantization: reduce the distinct colors of an RGBA pixel stream to a
//! bounded palette and map every original color to its representative.
//!
//! The library is organized as:
//! - [`color`]: the `Color` value type, reduced-bit-depth channel
//!   approximation, the weighted color-distance metric, and RGB5A3-style
//!   hardware packing;
//! - [`k_means`]: weighted color aggregates, histograms, and the weighted
//!   k-means clustering engine;
//! - [`quantize`]: the pipeline that turns a pixel sequence into a
//!   color-to-representative map.

pub mod color;
pub mod k_means;
pub mod quantize;

pub use color::Color;
pub use k_means::Grouped;
pub use quantize::{quantize, quantize_image, QuantizationMap, QuantizeError};

