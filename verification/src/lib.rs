//! Core logic of a batch wildlife-camera media-analysis pipeline.
//!
//! The crate holds the decision and data logic of the pipeline: indexing a
//! media tree, reconciling a prior run's checkpoint, letterbox geometry,
//! sampling video frames, batching frames under a wait deadline,
//! post-processing raw detections (confidence filter, rescale, clip,
//! non-maximum suppression, labelling) and encoding result records.
//! Decoding, inference and file traffic stay with the binary around it.

pub mod detect;
pub mod dispatch;
pub mod export;
pub mod media;
pub mod reconcile;
pub mod utils;

pub use utils::{sample_evenly, sample_even_indices};
