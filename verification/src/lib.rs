//! Randomized-rotation vector quantization for approximate nearest-neighbor
//! distance estimation.
//!
//! Vectors are handled as fixed-point coordinates (plain `i64` values; the
//! embedding application chooses the scale).  A rotator applies a
//! deterministic, exactly norm-preserving transform; a quantizer turns a
//! rotated vector into a one-bit sign code plus an optional extended
//! magnitude code; the estimator family scores candidate codes against a
//! rotated query, returning a distance estimate, a lower bound and a raw
//! inner-product estimate.

pub mod estimator;
pub mod mathspec;
pub mod quantizer;
pub mod rotator;

pub use estimator::{BatchBinEstimator, SingleEstimator, SplitBatchEstimator};
pub use quantizer::{MetricType, RabitqConfig, quantize_full_single, reconstruct_vec};
pub use rotator::Rotator;
