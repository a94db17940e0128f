//! Sparse amplitude distributions keyed by item.
use std::collections::BTreeMap;

use vstd::prelude::*;

verus! {

/// Sparse amplitudes of type `V`, accumulated per item key.
#[derive(Debug, Clone, PartialEq)]
pub struct AmplitudeDistribution<V> {
    amplitudes: BTreeMap<usize, V>,
}

impl<V> View for AmplitudeDistribution<V> {
    type V = Map<usize, V>;

    closed spec fn view(&self) -> Map<usize, V> {
        self.amplitudes@
    }
}

impl<V> Default for AmplitudeDistribution<V> {
    fn default() -> (d: Self)
        ensures
            d@ == Map::<usize, V>::empty(),
    {
        AmplitudeDistribution { amplitudes: BTreeMap::new() }
    }
}

impl<V: Copy> AmplitudeDistribution<V> {
    /// Create an empty amplitude distribution.
    pub fn new() -> (d: Self)
        ensures
            d@ == Map::<usize, V>::empty(),
    {
        AmplitudeDistribution { amplitudes: BTreeMap::new() }
    }

    /// Add one amplitude contribution to an item: the item's amplitude `a`,
    /// or `zero` when it has none yet, becomes `plus(a, amplitude)`. Other
    /// items keep theirs.
    pub fn add<F: Fn(V, V) -> V>(&mut self, item: usize, amplitude: V, zero: V, plus: F)
        requires
            forall|a: V, b: V| plus.requires((a, b)),
        ensures
            final(self)@.dom() == old(self)@.dom().insert(item),
            forall|k: usize| k != item && #[trigger] old(self)@.contains_key(k) ==> final(self)@[k] == old(self)@[k],
            plus.ensures(
                (if old(self)@.contains_key(item) { old(self)@[item] } else { zero }, amplitude),
                final(self)@[item],
            ),
    {
        let prior = match self.amplitudes.get(&item) {
            Some(a) => *a,
            None => zero,
        };
        let sum = plus(prior, amplitude);
        self.amplitudes.insert(item, sum);
    }

    /// The entries in increasing key order.
    pub fn entries(&self) -> (e: Vec<(usize, V)>)
        ensures
            e@.len() == self@.dom().len(),
            forall|i: int, j: int| 0 <= i < j < e@.len() ==> e@[i].0 < e@[j].0,
            forall|i: int| 0 <= i < e@.len() ==> self@.contains_key(#[trigger] e@[i].0) && self@[e@[i].0] == e@[i].1,
    {
        let mut e: Vec<(usize, V)> = Vec::new();
        let iter = self.amplitudes.iter();
        let ghost entries = vstd::std_specs::iter::IteratorSpec::remaining(&iter);
        proof {
            assert(vstd::laws_cmp::obeys_cmp::<usize>());
            assert(vstd::std_specs::btree::key_obeys_cmp_spec::<usize>());
            let keys = entries.map_values(|kv: (&usize, &V)| *kv.0);
            assert(vstd::std_specs::btree::increasing_seq(keys));
            assert forall|i: int, j: int| 0 <= i < j < entries.len() implies *entries[i].0 < *entries[j].0 by {
                assert(keys[i] == *entries[i].0);
                assert(keys[j] == *entries[j].0);
                assert(vstd::std_specs::cmp::OrdSpec::cmp_spec(&keys[i], &keys[j]) is Less);
            }
        }
        for kv in it: iter
            invariant
                it.seq() == entries,
                entries.len() == self@.dom().len(),
                forall|i: int, j: int| 0 <= i < j < entries.len() ==> *entries[i].0 < *entries[j].0,
                forall|i: int| 0 <= i < entries.len() ==> self@.contains_key(*entries[i].0) && self@[*entries[i].0] == *entries[i].1,
                e@.len() == it.index(),
                forall|i: int| 0 <= i < e@.len() ==> e@[i] == (*entries[i].0, *entries[i].1),
        {
            e.push((*kv.0, *kv.1));
        }
        e
    }
}

} // verus!
