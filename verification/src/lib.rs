//! Experiments for modeling language-like composition through mappings
//! between a feature set `T` and a state set `S`.
pub mod concept;
pub mod engine;
pub mod math;
pub mod feature;
pub mod mapping;
pub mod probability;
pub mod state;
pub mod toy;
