use vstd::prelude::*;

verus! {

/// Standard Born rule: P(i) = |α_i|² / Σ|α_j|².
///
/// This is the quantum measurement postulate: probability is the squared
/// modulus of the amplitude.
#[derive(Clone, Copy, Debug)]
pub struct BornRule;

} // verus!
