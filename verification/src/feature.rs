//! Feature elements of the feature set `T`.
use vstd::prelude::*;

verus! {

/// Identifier for an element in the feature set `T`.
#[derive(Debug, Clone, Copy, PartialEq, Eq, PartialOrd, Ord, Hash, Structural)]
pub struct FeatureId(pub usize);

/// A feature element in `T`.
///
/// Features carry no similarity information; the similarity space lives on
/// the state set `S`. A feature is simply an external input/output identifier.
#[derive(Debug, Clone, PartialEq, Eq, Structural)]
pub struct Feature {
    /// Stable feature identifier.
    pub id: FeatureId,
}

impl Feature {
    /// Create a feature from its identifier.
    pub fn new(id: FeatureId) -> (f: Feature)
        ensures
            f.id == id,
    {
        Feature { id }
    }
}

} // verus!
