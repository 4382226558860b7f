//! Detection of peak events — locally extreme samples — in multichannel
//! voltage-trace recordings.
//!
//! A peak is a threshold-crossing sample that dominates, in both time and
//! space, every sample within a configured spatial radius and temporal
//! exclusion window. The crate builds a spatial neighbor relation from
//! channel geometry, applies per-channel absolute thresholds, and enforces
//! spatiotemporal local exclusivity with two engines that agree exactly: an
//! exhaustive batch engine (the correctness oracle) and a streaming engine
//! based on per-channel monotonic deques (the production path).

pub mod batch;
pub mod collector;
pub mod compare;
pub mod events;
pub mod graph;
pub mod laws;
pub mod model;
pub mod pipeline;
pub mod signal;
pub mod streaming;
pub mod threshold;
pub mod window;
