//! Mathematical core: amplitude states, operators, and activation functions.
//!
//! The amplitude type `A` is a parameter; this module holds the structure of
//! states and operators, independent of the arithmetic on amplitudes.
pub mod activation;
pub mod amplitude;

pub use activation::BornRule;
pub use amplitude::{AmplitudeState, Operator, OperatorSuperposition};
