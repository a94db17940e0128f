//! Selection over measured distributions.
//!
//! A distribution is measured into entries, each with an item key and a rank
//! that orders the entries by probability (a higher rank is a higher
//! probability). Selection picks among these entries.
pub mod distribution;

pub use distribution::AmplitudeDistribution;

use vstd::prelude::*;

verus! {

/// How a target is chosen from a measured distribution.
#[derive(Debug, Clone, Copy, PartialEq, Eq, Structural)]
pub enum SelectionMode {
    /// The most probable item.
    Argmax,
    /// An item drawn at random with its probability.
    Sample,
}

/// Entry `i` is preferred to entry `j`: it has the higher rank, or the same
/// rank and the smaller key.
pub open spec fn outranks(ranks: Seq<i64>, keys: Seq<usize>, i: int, j: int) -> bool {
    ranks[i] > ranks[j] || (ranks[i] == ranks[j] && keys[i] < keys[j])
}

/// An item key passes the optional restriction to a subset of keys.
pub open spec fn admits(allowed: Option<Seq<usize>>, key: usize) -> bool {
    match allowed {
        Some(a) => a.contains(key),
        None => true,
    }
}

/// The view of an optional key subset.
pub open spec fn allowed_view(allowed: Option<&[usize]>) -> Option<Seq<usize>> {
    match allowed {
        Some(a) => Some(a@),
        None => None,
    }
}

/// Whether `key` occurs in `keys`.
fn contains_key(keys: &[usize], key: usize) -> (b: bool)
    ensures
        b == keys@.contains(key),
{
    let mut i: usize = 0;
    while i < keys.len()
        invariant
            i <= keys@.len(),
            forall|j: int| 0 <= j < i ==> keys@[j] != key,
        decreases keys@.len() - i,
    {
        if keys[i] == key {
            return true;
        }
        i = i + 1;
    }
    false
}

/// Select the highest-ranked entry, optionally restricted to entries whose
/// key is in `allowed`; ties in rank go to the smaller key, and among entries
/// equal in both, to the last one. Returns the entry's index, or `None` when
/// no entry is admitted.
pub fn select_argmax(ranks: &[i64], keys: &[usize], allowed: Option<&[usize]>) -> (r: Option<usize>)
    requires
        ranks@.len() == keys@.len(),
    ensures
        r is None <==> forall|j: int| 0 <= j < keys@.len() ==> !admits(allowed_view(allowed), #[trigger] keys@[j]),
        r matches Some(i) ==> {
            &&& i < keys@.len()
            &&& admits(allowed_view(allowed), keys@[i as int])
            &&& forall|j: int| 0 <= j < i && admits(allowed_view(allowed), #[trigger] keys@[j])
                ==> !outranks(ranks@, keys@, j, i as int)
            &&& forall|j: int| i < j < keys@.len() && admits(allowed_view(allowed), #[trigger] keys@[j])
                ==> outranks(ranks@, keys@, i as int, j)
        },
{
    let mut best: Option<usize> = None;
    let mut i: usize = 0;
    while i < keys.len()
        invariant
            i <= keys@.len(),
            ranks@.len() == keys@.len(),
            best is None <==> forall|j: int| 0 <= j < i ==> !admits(allowed_view(allowed), #[trigger] keys@[j]),
            best matches Some(b) ==> {
                &&& b < i
                &&& admits(allowed_view(allowed), keys@[b as int])
                &&& forall|j: int| 0 <= j < b && admits(allowed_view(allowed), #[trigger] keys@[j])
                    ==> !outranks(ranks@, keys@, j, b as int)
                &&& forall|j: int| b < j < i && admits(allowed_view(allowed), #[trigger] keys@[j])
                    ==> outranks(ranks@, keys@, b as int, j)
            },
        decreases keys@.len() - i,
    {
        let admitted = match allowed {
            Some(a) => contains_key(a, keys[i]),
            None => true,
        };
        if admitted {
            match best {
                None => {
                    best = Some(i);
                },
                Some(b) => {
                    if ranks[b] < ranks[i] || (ranks[b] == ranks[i] && keys[i] <= keys[b]) {
                        best = Some(i);
                    }
                },
            }
        }
        i = i + 1;
    }
    best
}

} // verus!
