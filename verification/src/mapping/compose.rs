use vstd::prelude::*;

use crate::state::link::bipartite_link;
use crate::state::space::{first_link_index, first_neighborhood_index};
use crate::state::{LinkId, NeighborhoodId, StateId, StateSpace, Type2Link};

verus! {

/// A training observation for composition: `operator + argument -> result`.
#[derive(Debug, Clone, Copy, PartialEq, Eq, Structural)]
pub struct CompositionExample {
    /// Operator-like state, such as the state induced by "turn".
    pub operator: StateId,
    /// Argument state, such as the state induced by a direction symbol.
    pub argument: StateId,
    /// The observed result link.
    pub result_link: LinkId,
}

/// Learns and applies minimal composition transfer rules.
#[derive(Debug, Clone, PartialEq)]
pub struct CompositionLearner<C> {
    /// Observed composition examples.
    pub examples: Vec<CompositionExample>,
    /// Required state similarity for transferring an observed composition.
    pub similarity_threshold: C,
}

/// What example `q` transfers for `operator`: the source neighborhood and its
/// members, when the example has that operator, its result link exists and
/// has a single target, its argument is similar enough (`similar[q]`), and
/// the link's source neighborhood exists.
pub open spec fn transfer_source<C>(
    examples: Seq<CompositionExample>,
    q: int,
    operator: StateId,
    space: StateSpace<C>,
    similar: Seq<bool>,
) -> Option<(NeighborhoodId, Seq<StateId>)> {
    let e = examples[q];
    if e.operator != operator {
        None
    } else {
        match first_link_index(space.links@, e.result_link) {
            None => None,
            Some(li) => {
                let link = space.links@[li];
                if link.target@.len() != 1 || !similar[q] {
                    None
                } else {
                    match first_neighborhood_index(space.neighborhoods@, link.source) {
                        None => None,
                        Some(ni) => Some((link.source, space.neighborhoods@[ni].members@)),
                    }
                }
            },
        }
    }
}

impl<C: Copy> CompositionLearner<C> {
    /// Create a learner with a similarity threshold.
    pub fn new(similarity_threshold: C) -> (l: Self)
        ensures
            l.examples@.len() == 0,
            l.similarity_threshold == similarity_threshold,
    {
        CompositionLearner { examples: Vec::new(), similarity_threshold }
    }

    /// Add an observed composition example.
    pub fn add_example(&mut self, example: CompositionExample)
        ensures
            final(self).examples@ == old(self).examples@.push(example),
            final(self).similarity_threshold == old(self).similarity_threshold,
    {
        self.examples.push(example);
    }

    /// Generate a candidate transferred link for `operator + argument`.
    ///
    /// Supports single-target links. `similar[q]` tells whether the argument
    /// of example `q` is at least `similarity_threshold` similar to
    /// `argument`. The first example that transfers yields a link from its
    /// result link's source neighborhood, completed over that neighborhood's
    /// members, to the single target `argument`, with `coefficient` on every
    /// type-1 link.
    pub fn transfer_single_target(
        &self,
        operator: StateId,
        argument: StateId,
        new_link_id: LinkId,
        state_space: &StateSpace<C>,
        similar: &[bool],
        coefficient: C,
    ) -> (r: Option<Type2Link<C>>)
        requires
            similar@.len() == self.examples@.len(),
        ensures
            r is None <==> forall|q: int| 0 <= q < self.examples@.len()
                ==> transfer_source(self.examples@, q, operator, *state_space, similar@) is None,
            r matches Some(link) ==> exists|q: int| {
                &&& 0 <= q < self.examples@.len()
                &&& forall|p: int| 0 <= p < q
                    ==> transfer_source(self.examples@, p, operator, *state_space, similar@) is None
                &&& #[trigger] transfer_source(self.examples@, q, operator, *state_space, similar@) matches Some(found)
                &&& link.id == new_link_id
                &&& link.source == found.0
                &&& link.target@ == seq![argument]
                &&& link.target_neighborhoods@.len() == 0
                &&& link.type1_links@.len() == found.1.len()
                &&& forall|k: int| 0 <= k < link.type1_links@.len()
                    ==> #[trigger] link.type1_links@[k] == bipartite_link(found.1, seq![argument], coefficient, k)
            },
    {
        let mut q: usize = 0;
        while q < self.examples.len()
            invariant
                q <= self.examples@.len(),
                similar@.len() == self.examples@.len(),
                forall|p: int| 0 <= p < q
                    ==> transfer_source(self.examples@, p, operator, *state_space, similar@) is None,
            decreases self.examples@.len() - q,
        {
            let example = self.examples[q];
            if example.operator == operator {
                if let Some(li) = state_space.link_index(example.result_link) {
                    let result_link = &state_space.links[li];
                    if result_link.target.len() == 1 && similar[q] {
                        if let Some(source_nh) = state_space.neighborhood(result_link.source) {
                            proof {
                                crate::state::space::lemma_first_neighborhood_index(
                                    state_space.neighborhoods@,
                                    result_link.source,
                                );
                            }
                            let target = vec![argument];
                            assert(target@.len() == 1);
                            let members = source_nh.members.as_slice();
                            assert(members@ == source_nh.members@);
                            let link = Type2Link::complete(
                                new_link_id,
                                result_link.source,
                                members,
                                target,
                                coefficient,
                            );
                            let ghost found = transfer_source(self.examples@, q as int, operator, *state_space, similar@);
                            assert(found == Some((result_link.source, source_nh.members@)));
                            assert(link.target@ == seq![argument]);
                            assert(link.type1_links@.len() == source_nh.members@.len());
                            return Some(link);
                        }
                    }
                }
            }
            q = q + 1;
        }
        None
    }
}

} // verus!
