//! Concept space: dynamic label set management and pruning.
//!
//! The concept space manages candidate concept labels and prunes them by
//! frequency, overlap and entropy.
pub mod space;

pub use space::{ConceptSpace, Label, PruningConfig};
