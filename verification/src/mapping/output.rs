use vstd::prelude::*;

use crate::feature::FeatureId;
use crate::state::{StateId, Type1Link, Type2Link};

verus! {

/// A feature amplitude or probability (of type `W`) in an output distribution over `T`.
#[derive(Debug, Clone, Copy, PartialEq)]
pub struct FeatureWeight<W> {
    /// Output feature.
    pub feature: FeatureId,
    /// Coefficient for this feature.
    pub weight: W,
}

/// Output distribution from one state element in `S` back to features in `T`.
#[derive(Debug, Clone, PartialEq)]
pub struct StateOutputDistribution<W> {
    /// Source state.
    pub state: StateId,
    /// Candidate output features and their weights.
    pub features: Vec<FeatureWeight<W>>,
}

impl<W> StateOutputDistribution<W> {
    /// Create a state-to-feature output distribution.
    pub fn new(state: StateId, features: Vec<FeatureWeight<W>>) -> (d: Self)
        ensures
            d.state == state,
            d.features@ == features@,
    {
        StateOutputDistribution { state, features }
    }
}

/// Index of the first output distribution in `outputs` for state `state`, if any.
pub open spec fn first_output_index<W>(outputs: Seq<StateOutputDistribution<W>>, state: StateId) -> Option<int>
    decreases outputs.len(),
{
    if outputs.len() == 0 {
        None
    } else if outputs.last().state == state && first_output_index(outputs.drop_last(), state) is None {
        Some(outputs.len() - 1)
    } else {
        first_output_index(outputs.drop_last(), state)
    }
}

/// `first_output_index` is the least index holding `state`.
pub proof fn lemma_first_output_index<W>(outputs: Seq<StateOutputDistribution<W>>, state: StateId)
    ensures
        match first_output_index(outputs, state) {
            Some(i) => 0 <= i < outputs.len() && outputs[i].state == state
                && forall|j: int| 0 <= j < i ==> outputs[j].state != state,
            None => forall|j: int| 0 <= j < outputs.len() ==> outputs[j].state != state,
        },
    decreases outputs.len(),
{
    if outputs.len() > 0 {
        lemma_first_output_index(outputs.drop_last(), state);
        assert forall|j: int| 0 <= j < outputs.len() - 1 implies outputs.drop_last()[j] == outputs[j] by {}
    }
}

/// The output contributions of `links` through `outputs`: for each type-1
/// link in order whose target has an output distribution (the first one
/// recorded for it), one entry `(feature, link coefficient, feature weight)`
/// per feature of that distribution, in order.
pub open spec fn output_contributions<C, W>(
    outputs: Seq<StateOutputDistribution<W>>,
    links: Seq<Type1Link<C>>,
) -> Seq<(FeatureId, C, W)>
    decreases links.len(),
{
    if links.len() == 0 {
        Seq::empty()
    } else {
        let l = links.last();
        output_contributions(outputs, links.drop_last()) + match first_output_index(outputs, l.target) {
            None => Seq::empty(),
            Some(i) => outputs[i].features@.map_values(|f: FeatureWeight<W>| (f.feature, l.coefficient, f.weight)),
        }
    }
}

/// What a single type-1 link emits, whatever its source: when its target
/// has an output distribution (the first recorded), one entry per feature of
/// it, in order, carrying the feature, the link's coefficient and the
/// feature's weight; otherwise nothing.
pub proof fn lemma_output_contributions_single<C, W>(outputs: Seq<StateOutputDistribution<W>>, l: Type1Link<C>)
    ensures
        ({
            let c = output_contributions(outputs, seq![l]);
            match first_output_index(outputs, l.target) {
                None => c.len() == 0,
                Some(i) => {
                    &&& c.len() == outputs[i].features@.len()
                    &&& forall|k: int| 0 <= k < c.len() ==> #[trigger] c[k] == (
                        outputs[i].features@[k].feature,
                        l.coefficient,
                        outputs[i].features@[k].weight,
                    )
                },
            }
        }),
{
    lemma_first_output_index(outputs, l.target);
    assert(seq![l].drop_last() =~= Seq::<Type1Link<C>>::empty());
    assert(seq![l].last() == l);
    let tail = match first_output_index(outputs, l.target) {
        None => Seq::empty(),
        Some(i) => outputs[i].features@.map_values(|f: FeatureWeight<W>| (f.feature, l.coefficient, f.weight)),
    };
    assert(output_contributions(outputs, Seq::<Type1Link<C>>::empty()) == Seq::<(FeatureId, C, W)>::empty());
    assert(output_contributions(outputs, seq![l]) =~= tail);
}

/// The contributions of links one after another are those of the first
/// links followed by those of the others.
pub proof fn lemma_output_contributions_concat<C, W>(
    outputs: Seq<StateOutputDistribution<W>>,
    a: Seq<Type1Link<C>>,
    b: Seq<Type1Link<C>>,
)
    ensures
        output_contributions(outputs, a + b) == output_contributions(outputs, a) + output_contributions(outputs, b),
    decreases b.len(),
{
    if b.len() == 0 {
        assert(a + b =~= a);
        assert(output_contributions(outputs, a) + output_contributions(outputs, b) =~= output_contributions(outputs, a));
    } else {
        lemma_output_contributions_concat(outputs, a, b.drop_last());
        assert((a + b).drop_last() =~= a + b.drop_last());
        assert((a + b).last() == b.last());
        let tail = match first_output_index(outputs, b.last().target) {
            None => Seq::empty(),
            Some(i) => outputs[i].features@.map_values(|f: FeatureWeight<W>| (f.feature, b.last().coefficient, f.weight)),
        };
        assert(output_contributions(outputs, a) + output_contributions(outputs, b.drop_last()) + tail
            =~= output_contributions(outputs, a) + (output_contributions(outputs, b.drop_last()) + tail));
    }
}

/// The contributions depend on the links' targets and coefficients only, not
/// on their sources: links that agree on those emit the same entries.
pub proof fn lemma_output_contributions_ignore_sources<C, W>(
    outputs: Seq<StateOutputDistribution<W>>,
    a: Seq<Type1Link<C>>,
    b: Seq<Type1Link<C>>,
)
    requires
        a.len() == b.len(),
        forall|i: int| 0 <= i < a.len() ==> #[trigger] a[i].target == b[i].target && a[i].coefficient == b[i].coefficient,
    ensures
        output_contributions(outputs, a) == output_contributions(outputs, b),
    decreases a.len(),
{
    if a.len() > 0 {
        assert forall|i: int| 0 <= i < a.drop_last().len() implies #[trigger] a.drop_last()[i].target == b.drop_last()[i].target
            && a.drop_last()[i].coefficient == b.drop_last()[i].coefficient by {
            assert(a[i].target == b[i].target);
        }
        lemma_output_contributions_ignore_sources(outputs, a.drop_last(), b.drop_last());
        assert(a.last().target == b.last().target && a.last().coefficient == b.last().coefficient) by {
            assert(a[a.len() - 1].target == b[a.len() - 1].target);
        }
    }
}

/// Mapping from `S` back to observable features in `T`.
#[derive(Debug, Clone, PartialEq)]
pub struct OutputMapping<W> {
    /// Output distributions for basic states.
    pub state_outputs: Vec<StateOutputDistribution<W>>,
}

impl<W> Default for OutputMapping<W> {
    fn default() -> (m: Self)
        ensures
            m.state_outputs@.len() == 0,
    {
        OutputMapping { state_outputs: Vec::new() }
    }
}

impl<W> OutputMapping<W> {
    /// Create an empty output mapping.
    pub fn new() -> (m: Self)
        ensures
            m.state_outputs@.len() == 0,
    {
        OutputMapping { state_outputs: Vec::new() }
    }

    /// Add an output distribution for one state.
    pub fn add_state_output(&mut self, output: StateOutputDistribution<W>)
        ensures
            final(self).state_outputs@ == old(self).state_outputs@.push(output),
    {
        self.state_outputs.push(output);
    }

    /// Return the output distribution for one state: the first one recorded for it.
    pub fn state_output(&self, state: StateId) -> (r: Option<&StateOutputDistribution<W>>)
        ensures
            match first_output_index(self.state_outputs@, state) {
                Some(i) => r == Some(&self.state_outputs@[i]),
                None => r is None,
            },
    {
        proof {
            lemma_first_output_index(self.state_outputs@, state);
        }
        let mut i: usize = 0;
        while i < self.state_outputs.len()
            invariant
                i <= self.state_outputs@.len(),
                forall|j: int| 0 <= j < i ==> self.state_outputs@[j].state != state,
                match first_output_index(self.state_outputs@, state) {
                    Some(f) => 0 <= f < self.state_outputs@.len() && self.state_outputs@[f].state == state
                        && forall|j: int| 0 <= j < f ==> self.state_outputs@[j].state != state,
                    None => forall|j: int| 0 <= j < self.state_outputs@.len() ==> self.state_outputs@[j].state != state,
                },
            decreases self.state_outputs@.len() - i,
        {
            if self.state_outputs[i].state == state {
                return Some(&self.state_outputs[i]);
            }
            i = i + 1;
        }
        None
    }
}

impl<W: Copy> OutputMapping<W> {
    /// The amplitude contributions that a type-2 link emits over features:
    /// for each type-1 link in order whose target has an output distribution,
    /// one `(feature, link coefficient, feature weight)` entry per feature of
    /// that distribution, in order. The emitted amplitude of each entry is the
    /// product of its two coefficients.
    pub fn link_contributions<C: Copy>(&self, link: &Type2Link<C>) -> (c: Vec<(FeatureId, C, W)>)
        ensures
            c@ == output_contributions(self.state_outputs@, link.type1_links@),
    {
        let mut c: Vec<(FeatureId, C, W)> = Vec::new();
        let mut i: usize = 0;
        while i < link.type1_links.len()
            invariant
                i <= link.type1_links@.len(),
                c@ == output_contributions(self.state_outputs@, link.type1_links@.take(i as int)),
            decreases link.type1_links@.len() - i,
        {
            let l = link.type1_links[i];
            let ghost before = c@;
            proof {
                assert(link.type1_links@.take(i + 1).drop_last() =~= link.type1_links@.take(i as int));
                assert(link.type1_links@.take(i + 1).last() == l);
            }
            match self.state_output(l.target) {
                Some(out) => {
                    let mut j: usize = 0;
                    while j < out.features.len()
                        invariant
                            j <= out.features@.len(),
                            c@ == before + out.features@.take(j as int).map_values(
                                |f: FeatureWeight<W>| (f.feature, l.coefficient, f.weight),
                            ),
                        decreases out.features@.len() - j,
                    {
                        let f = out.features[j];
                        c.push((f.feature, l.coefficient, f.weight));
                        proof {
                            assert(out.features@.take(j + 1) =~= out.features@.take(j as int).push(f));
                        }
                        j = j + 1;
                        assert(c@ =~= before + out.features@.take(j as int).map_values(
                            |f: FeatureWeight<W>| (f.feature, l.coefficient, f.weight),
                        ));
                    }
                    assert(out.features@.take(out.features@.len() as int) =~= out.features@);
                },
                None => {
                    assert(c@ =~= before + Seq::<(FeatureId, C, W)>::empty());
                },
            }
            i = i + 1;
        }
        assert(link.type1_links@.take(link.type1_links@.len() as int) =~= link.type1_links@);
        c
    }
}

} // verus!
