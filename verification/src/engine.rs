//! Training and optimization engine: the schedule of the training loops.
pub mod trainer;
