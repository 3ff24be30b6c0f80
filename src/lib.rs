//! Face detection with a cascade of pixel-comparison decision trees.
//!
//! Scores, leaf values and thresholds are fixed-point numbers with 16
//! fractional bits: the model's f32 values are cut to multiples of 1/65536,
//! truncated toward zero, and the cascade sums them exactly, so a running
//! total very close to a threshold may prune differently from an f32 sum.
//! Window sizes and run parameters are in thousandths.

pub mod fixed;
pub mod model;
pub mod image;
pub mod classifier;
pub mod scanner;
pub mod cluster;
pub mod detector;

pub use classifier::{classify_region, REJECT};
pub use cluster::{calculate_iou, cluster, stable_order, Cluster};
pub use detector::{Pico, MEMORY_SLOTS};
pub use fixed::{fixed_from_f32_bits, FIXED_ONE};
pub use image::{Image, RunParams};
pub use model::{parse_cascade, Cascade, FormatError};
pub use scanner::{scan, Detection, ScanError};
