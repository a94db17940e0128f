//! Toy experiments: the four-direction command dataset.
pub mod data;
pub mod agent;
