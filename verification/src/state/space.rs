use vstd::prelude::*;

use crate::feature::FeatureId;
use super::link::{LinkId, Type2Link};
use super::generation::{all_wf, chain_step, generation_chain, generation_step, appended_ids, attach_members, confidences_recorded, creations_ordered, distribution_targets, extended_with, first_generated_index, id_in_use, in_order_within, lemma_add_link_start, lemma_assigned_step, lemma_confidences_step, lemma_creations_create, lemma_creations_reuse, lemma_first_generated_index, lemma_ids_in_use_bound, lemma_memberships_in_order_step, lemma_memberships_step, lemma_neighborhoods_create, lemma_neighborhoods_reuse, lemma_nonmembers_step, members_of, memberships_extended, memberships_in_order, neighborhoods_extended, nonmembers_unchanged, same_ids, targets_assigned};

verus! {

/// Identifier for an element in the state set `S`.
#[derive(Debug, Clone, Copy, PartialEq, Eq, PartialOrd, Ord, Hash, Structural)]
pub struct StateId(pub usize);

/// Identifier for a neighborhood in the similarity space over `S`.
#[derive(Debug, Clone, Copy, PartialEq, Eq, PartialOrd, Ord, Hash, Structural)]
pub struct NeighborhoodId(pub usize);

/// Reference from a state to one of its neighborhoods.
#[derive(Debug, Clone, Copy, PartialEq, Eq, Structural)]
pub struct NeighborhoodRef {
    /// The referenced neighborhood.
    pub id: NeighborhoodId,
}

impl From<NeighborhoodId> for NeighborhoodRef {
    fn from(id: NeighborhoodId) -> (r: NeighborhoodRef) {
        NeighborhoodRef { id }
    }
}

impl vstd::std_specs::convert::FromSpecImpl<NeighborhoodId> for NeighborhoodRef {
    open spec fn obeys_from_spec() -> bool {
        true
    }

    open spec fn from_spec(v: NeighborhoodId) -> NeighborhoodRef {
        NeighborhoodRef { id: v }
    }
}

/// A state element in `S`.
///
/// A state carries no hand-written semantic tag. It stores the neighborhoods
/// it belongs to and a confidence (of type `C`) for each membership.
#[derive(Debug, Clone, PartialEq)]
pub struct State<C> {
    /// Stable state identifier.
    pub id: StateId,
    /// Feature elements that support this state.
    pub support_features: Vec<FeatureId>,
    /// Neighborhood memberships for this state.
    pub neighborhoods: Vec<NeighborhoodRef>,
    /// Confidence values aligned with `neighborhoods`.
    pub confidences: Vec<C>,
}

impl<C> State<C> {
    /// Memberships and confidences are aligned.
    pub open spec fn wf(&self) -> bool {
        self.neighborhoods@.len() == self.confidences@.len()
    }

    /// Create a state from its supporting features and neighborhood memberships.
    pub fn new(
        id: StateId,
        support_features: Vec<FeatureId>,
        neighborhoods: Vec<NeighborhoodRef>,
        confidences: Vec<C>,
    ) -> (s: Self)
        requires
            neighborhoods@.len() == confidences@.len(),
        ensures
            s.id == id,
            s.support_features@ == support_features@,
            s.neighborhoods@ == neighborhoods@,
            s.confidences@ == confidences@,
            s.wf(),
    {
        State { id, support_features, neighborhoods, confidences }
    }
}

/// A neighborhood in the similarity space over `S`.
///
/// The neighborhood records its members; membership confidence is stored on
/// each `State`. A neighborhood generated by `StateSpace::add_link` also
/// records the links that produced it and the (source neighborhood, target
/// state) pair it stands for.
#[derive(Debug, Clone, PartialEq, Eq)]
pub struct Neighborhood {
    /// Stable neighborhood identifier.
    pub id: NeighborhoodId,
    /// States that belong to this neighborhood.
    pub members: Vec<StateId>,
    /// Links whose activation produced this neighborhood.
    pub source_links: Vec<LinkId>,
    /// The (source neighborhood, target state) pair this neighborhood was
    /// generated for, if it was generated by a link.
    pub generated_from: Option<(NeighborhoodId, StateId)>,
}

impl Neighborhood {
    /// Create a neighborhood from its members.
    pub fn new(id: NeighborhoodId, members: Vec<StateId>) -> (n: Neighborhood)
        ensures
            n.id == id,
            n.members@ == members@,
            n.source_links@.len() == 0,
            n.generated_from is None,
    {
        Neighborhood { id, members, source_links: Vec::new(), generated_from: None }
    }
}

/// Index of the first state in `states` with identifier `id`, if any.
pub open spec fn first_state_index<C>(states: Seq<State<C>>, id: StateId) -> Option<int>
    decreases states.len(),
{
    if states.len() == 0 {
        None
    } else if states.last().id == id && first_state_index(states.drop_last(), id) is None {
        Some(states.len() - 1)
    } else {
        first_state_index(states.drop_last(), id)
    }
}

/// Index of the first neighborhood in `nhs` with identifier `id`, if any.
pub open spec fn first_neighborhood_index(nhs: Seq<Neighborhood>, id: NeighborhoodId) -> Option<int>
    decreases nhs.len(),
{
    if nhs.len() == 0 {
        None
    } else if nhs.last().id == id && first_neighborhood_index(nhs.drop_last(), id) is None {
        Some(nhs.len() - 1)
    } else {
        first_neighborhood_index(nhs.drop_last(), id)
    }
}

/// Index of the first link in `links` with identifier `id`, if any.
pub open spec fn first_link_index<C>(links: Seq<Type2Link<C>>, id: LinkId) -> Option<int>
    decreases links.len(),
{
    if links.len() == 0 {
        None
    } else if links.last().id == id && first_link_index(links.drop_last(), id) is None {
        Some(links.len() - 1)
    } else {
        first_link_index(links.drop_last(), id)
    }
}

/// `first_link_index` is the least index holding `id`.
pub proof fn lemma_first_link_index<C>(links: Seq<Type2Link<C>>, id: LinkId)
    ensures
        match first_link_index(links, id) {
            Some(i) => 0 <= i < links.len() && links[i].id == id
                && forall|j: int| 0 <= j < i ==> links[j].id != id,
            None => forall|j: int| 0 <= j < links.len() ==> links[j].id != id,
        },
    decreases links.len(),
{
    if links.len() > 0 {
        lemma_first_link_index(links.drop_last(), id);
        assert forall|j: int| 0 <= j < links.len() - 1 implies links.drop_last()[j] == links[j] by {}
    }
}

/// `first_state_index` is the least index holding `id`.
pub proof fn lemma_first_state_index<C>(states: Seq<State<C>>, id: StateId)
    ensures
        match first_state_index(states, id) {
            Some(i) => 0 <= i < states.len() && states[i].id == id
                && forall|j: int| 0 <= j < i ==> states[j].id != id,
            None => forall|j: int| 0 <= j < states.len() ==> states[j].id != id,
        },
    decreases states.len(),
{
    if states.len() > 0 {
        lemma_first_state_index(states.drop_last(), id);
        assert forall|j: int| 0 <= j < states.len() - 1 implies states.drop_last()[j] == states[j] by {}
    }
}

/// `first_neighborhood_index` is the least index holding `id`.
pub proof fn lemma_first_neighborhood_index(nhs: Seq<Neighborhood>, id: NeighborhoodId)
    ensures
        match first_neighborhood_index(nhs, id) {
            Some(i) => 0 <= i < nhs.len() && nhs[i].id == id
                && forall|j: int| 0 <= j < i ==> nhs[j].id != id,
            None => forall|j: int| 0 <= j < nhs.len() ==> nhs[j].id != id,
        },
    decreases nhs.len(),
{
    if nhs.len() > 0 {
        lemma_first_neighborhood_index(nhs.drop_last(), id);
        assert forall|j: int| 0 <= j < nhs.len() - 1 implies nhs.drop_last()[j] == nhs[j] by {}
    }
}

/// State space containing state elements, type-2 links, and the similarity
/// space (neighborhoods over `S`).
#[derive(Debug, Clone, PartialEq)]
pub struct StateSpace<C> {
    /// All known state elements.
    pub states: Vec<State<C>>,
    /// All known type-2 links.
    pub links: Vec<Type2Link<C>>,
    /// All known neighborhoods in the similarity space over `S`.
    pub neighborhoods: Vec<Neighborhood>,
}

impl<C> Default for StateSpace<C> {
    fn default() -> (s: Self)
        ensures
            s.states@.len() == 0,
            s.links@.len() == 0,
            s.neighborhoods@.len() == 0,
    {
        StateSpace { states: Vec::new(), links: Vec::new(), neighborhoods: Vec::new() }
    }
}

impl<C> StateSpace<C> {
    /// Create an empty state space.
    pub fn new() -> (s: Self)
        ensures
            s.states@.len() == 0,
            s.links@.len() == 0,
            s.neighborhoods@.len() == 0,
    {
        StateSpace { states: Vec::new(), links: Vec::new(), neighborhoods: Vec::new() }
    }

    /// Add a state.
    pub fn add_state(&mut self, state: State<C>)
        ensures
            final(self).states@ == old(self).states@.push(state),
            final(self).links@ == old(self).links@,
            final(self).neighborhoods@ == old(self).neighborhoods@,
    {
        self.states.push(state);
    }

    /// Add a neighborhood to the similarity space.
    pub fn add_neighborhood(&mut self, neighborhood: Neighborhood)
        ensures
            final(self).states@ == old(self).states@,
            final(self).links@ == old(self).links@,
            final(self).neighborhoods@ == old(self).neighborhoods@.push(neighborhood),
    {
        self.neighborhoods.push(neighborhood);
    }

    /// Index of the first state with identifier `id`.
    pub fn state_index(&self, id: StateId) -> (r: Option<usize>)
        ensures
            r matches Some(i) ==> first_state_index(self.states@, id) == Some(i as int)
                && i < self.states@.len(),
            r is None ==> first_state_index(self.states@, id) is None,
    {
        proof {
            lemma_first_state_index(self.states@, id);
        }
        let mut i: usize = 0;
        while i < self.states.len()
            invariant
                i <= self.states@.len(),
                forall|j: int| 0 <= j < i ==> self.states@[j].id != id,
                match first_state_index(self.states@, id) {
                    Some(f) => 0 <= f < self.states@.len() && self.states@[f].id == id
                        && forall|j: int| 0 <= j < f ==> self.states@[j].id != id,
                    None => forall|j: int| 0 <= j < self.states@.len() ==> self.states@[j].id != id,
                },
            decreases self.states@.len() - i,
        {
            if self.states[i].id == id {
                return Some(i);
            }
            i = i + 1;
        }
        None
    }

    /// Return a state by identifier: the first state with that identifier.
    pub fn state(&self, id: StateId) -> (r: Option<&State<C>>)
        ensures
            match first_state_index(self.states@, id) {
                Some(i) => r == Some(&self.states@[i]),
                None => r is None,
            },
    {
        proof {
            lemma_first_state_index(self.states@, id);
        }
        match self.state_index(id) {
            Some(i) => Some(&self.states[i]),
            None => None,
        }
    }

    /// Index of the first neighborhood with identifier `id`.
    pub fn neighborhood_index(&self, id: NeighborhoodId) -> (r: Option<usize>)
        ensures
            r matches Some(i) ==> first_neighborhood_index(self.neighborhoods@, id) == Some(i as int)
                && i < self.neighborhoods@.len(),
            r is None ==> first_neighborhood_index(self.neighborhoods@, id) is None,
    {
        proof {
            lemma_first_neighborhood_index(self.neighborhoods@, id);
        }
        let mut i: usize = 0;
        while i < self.neighborhoods.len()
            invariant
                i <= self.neighborhoods@.len(),
                forall|j: int| 0 <= j < i ==> self.neighborhoods@[j].id != id,
                match first_neighborhood_index(self.neighborhoods@, id) {
                    Some(f) => 0 <= f < self.neighborhoods@.len() && self.neighborhoods@[f].id == id
                        && forall|j: int| 0 <= j < f ==> self.neighborhoods@[j].id != id,
                    None => forall|j: int| 0 <= j < self.neighborhoods@.len() ==> self.neighborhoods@[j].id != id,
                },
            decreases self.neighborhoods@.len() - i,
        {
            if self.neighborhoods[i].id == id {
                return Some(i);
            }
            i = i + 1;
        }
        None
    }

    /// Index of the first link with identifier `id`.
    pub fn link_index(&self, id: LinkId) -> (r: Option<usize>)
        ensures
            r matches Some(i) ==> first_link_index(self.links@, id) == Some(i as int)
                && i < self.links@.len(),
            r is None ==> first_link_index(self.links@, id) is None,
    {
        proof {
            lemma_first_link_index(self.links@, id);
        }
        let mut i: usize = 0;
        while i < self.links.len()
            invariant
                i <= self.links@.len(),
                forall|j: int| 0 <= j < i ==> self.links@[j].id != id,
                match first_link_index(self.links@, id) {
                    Some(f) => 0 <= f < self.links@.len() && self.links@[f].id == id
                        && forall|j: int| 0 <= j < f ==> self.links@[j].id != id,
                    None => forall|j: int| 0 <= j < self.links@.len() ==> self.links@[j].id != id,
                },
            decreases self.links@.len() - i,
        {
            if self.links[i].id == id {
                return Some(i);
            }
            i = i + 1;
        }
        None
    }

    /// Index of the first neighborhood generated for `key`.
    pub fn generated_index(&self, key: (NeighborhoodId, StateId)) -> (r: Option<usize>)
        ensures
            r matches Some(i) ==> first_generated_index(self.neighborhoods@, key) == Some(i as int)
                && i < self.neighborhoods@.len(),
            r is None ==> first_generated_index(self.neighborhoods@, key) is None,
    {
        proof {
            lemma_first_generated_index(self.neighborhoods@, key);
        }
        let mut i: usize = 0;
        while i < self.neighborhoods.len()
            invariant
                i <= self.neighborhoods@.len(),
                forall|j: int| 0 <= j < i ==> self.neighborhoods@[j].generated_from != Some(key),
                match first_generated_index(self.neighborhoods@, key) {
                    Some(f) => 0 <= f < self.neighborhoods@.len() && self.neighborhoods@[f].generated_from == Some(key)
                        && forall|j: int| 0 <= j < f ==> self.neighborhoods@[j].generated_from != Some(key),
                    None => forall|j: int| 0 <= j < self.neighborhoods@.len() ==> self.neighborhoods@[j].generated_from != Some(key),
                },
            decreases self.neighborhoods@.len() - i,
        {
            let matches = match self.neighborhoods[i].generated_from {
                Some(g) => g.0 == key.0 && g.1 == key.1,
                None => false,
            };
            if matches {
                return Some(i);
            }
            i = i + 1;
        }
        None
    }

    /// The smallest neighborhood identifier not in use.
    pub fn fresh_neighborhood_id(&self) -> (id: NeighborhoodId)
        ensures
            !id_in_use(self.neighborhoods@, id),
            forall|x: usize| x < id.0 ==> id_in_use(self.neighborhoods@, NeighborhoodId(x)),
    {
        let n = self.neighborhoods.len();
        let mut c: usize = 0;
        loop
            invariant
                n == self.neighborhoods@.len(),
                forall|x: usize| x < c ==> id_in_use(self.neighborhoods@, NeighborhoodId(x)),
                c <= self.neighborhoods@.len(),
            decreases self.neighborhoods@.len() - c,
        {
            proof {
                lemma_first_neighborhood_index(self.neighborhoods@, NeighborhoodId(c));
            }
            match self.neighborhood_index(NeighborhoodId(c)) {
                Some(j) => {
                    proof {
                        assert(id_in_use(self.neighborhoods@, NeighborhoodId(c)));
                        lemma_ids_in_use_bound(self.neighborhoods@, c + 1);
                    }
                    c = c + 1;
                },
                None => {
                    return NeighborhoodId(c);
                },
            }
        }
    }

    /// Add a type-2 link, generating its target neighborhoods.
    ///
    /// `distribution` is the Born distribution over the link's targets when
    /// every member of its source neighborhood is active: one
    /// `(target, probability)` entry per target state. For each entry in
    /// order, the target neighborhood of the pair (link source, target) is the
    /// first neighborhood generated for that pair; if there is none, a new one
    /// is created with the smallest unused identifier and the members of the
    /// source neighborhood. The link is recorded among its source links, and
    /// every member state receives a membership in it with the entry's
    /// probability as confidence: an existing membership's confidence `c`
    /// becomes `merge(c, probability, n)`, where `n` is the number of links
    /// the neighborhood had before (so `merge` can average). The link records
    /// the target neighborhoods in order, and is then appended to `links`.
    pub fn add_link<F: Fn(C, C, usize) -> C>(&mut self, link: Type2Link<C>, distribution: &[(StateId, C)], merge: F)
        where C: Copy,
        requires
            all_wf(old(self).states@),
            forall|a: C, b: C, k: usize| merge.requires((a, b, k)),
        ensures
            ({
                let targets = distribution_targets(distribution@);
                let added = final(self).links@.last();
                let assigned = added.target_neighborhoods@.skip(link.target_neighborhoods@.len() as int);
                &&& final(self).links@.len() == old(self).links@.len() + 1
                &&& final(self).links@.drop_last() == old(self).links@
                &&& added.id == link.id
                &&& added.source == link.source
                &&& added.target@ == link.target@
                &&& added.type1_links@ == link.type1_links@
                &&& added.target_neighborhoods@.len() == link.target_neighborhoods@.len() + distribution@.len()
                &&& added.target_neighborhoods@.take(link.target_neighborhoods@.len() as int) == link.target_neighborhoods@
                &&& neighborhoods_extended(
                    old(self).neighborhoods@,
                    final(self).neighborhoods@,
                    link.id,
                    link.source,
                    members_of(old(self).neighborhoods@, link.source),
                    targets,
                )
                &&& targets_assigned(final(self).neighborhoods@, link.id, link.source, targets, assigned)
                &&& memberships_extended(
                    old(self).states@,
                    final(self).states@,
                    final(self).neighborhoods@,
                    link.source,
                    targets,
                    assigned,
                )
                &&& creations_ordered(old(self).neighborhoods@.len(), final(self).neighborhoods@, assigned)
                &&& memberships_in_order(old(self).states@, final(self).states@, assigned)
                &&& nonmembers_unchanged(old(self).states@, final(self).states@, final(self).neighborhoods@, link.source, targets)
                &&& confidences_recorded(
                    old(self).states@,
                    final(self).states@,
                    old(self).neighborhoods@,
                    final(self).neighborhoods@,
                    link.source,
                    distribution@,
                    assigned,
                    merge,
                )
                &&& exists|nhs: Seq<Seq<Neighborhood>>, sts: Seq<Seq<State<C>>>| {
                    &&& #[trigger] generation_chain(
                        nhs,
                        sts,
                        link.id,
                        link.source,
                        members_of(old(self).neighborhoods@, link.source),
                        distribution@,
                        assigned,
                        merge,
                    )
                    &&& nhs[0] == old(self).neighborhoods@
                    &&& sts[0] == old(self).states@
                    &&& nhs.last() == final(self).neighborhoods@
                    &&& sts.last() == final(self).states@
                }
            }),
            all_wf(final(self).states@),
    {
        let ghost s0 = *old(self);
        let ghost tn0 = link.target_neighborhoods@;
        let ghost link0 = link;
        let ghost targets = distribution_targets(distribution@);
        let mut link = link;
        proof {
            lemma_first_neighborhood_index(self.neighborhoods@, link.source);
        }
        let members: Vec<StateId> = match self.neighborhood(link.source) {
            Some(nh) => nh.members.clone(),
            None => Vec::new(),
        };
        assert(members@ =~= members_of(s0.neighborhoods@, link.source));
        proof {
            lemma_add_link_start(self.neighborhoods@, self.states@, link.id, link.source, members@);
            assert(targets.take(0) =~= Seq::<StateId>::empty());
            assert(distribution@.take(0) =~= Seq::<(StateId, C)>::empty());
            assert(link.target_neighborhoods@.skip(tn0.len() as int) =~= Seq::<NeighborhoodId>::empty());
            assert(link.target_neighborhoods@.take(tn0.len() as int) =~= tn0);
            assert(self.neighborhoods@.len() == s0.neighborhoods@.len());
            assert forall|i: int| 0 <= i < s0.states@.len() && i < self.states@.len()
                implies in_order_within(appended_ids(s0.states@[i], #[trigger] self.states@[i]), Seq::<NeighborhoodId>::empty()) by {
                let f = Seq::<int>::empty();
                assert(appended_ids(s0.states@[i], self.states@[i]) =~= Seq::<NeighborhoodId>::empty());
                assert(f.len() == 0);
                assert(forall|k: int, l: int| 0 <= k < l < f.len() ==> #[trigger] f[k] < #[trigger] f[l]);
                assert(forall|k: int| 0 <= k < f.len() ==> 0 <= #[trigger] f[k] < 0);
            }
        }
        let ghost mut nch: Seq<Seq<Neighborhood>> = seq![self.neighborhoods@];
        let ghost mut sch: Seq<Seq<State<C>>> = seq![self.states@];
        let mut q: usize = 0;
        while q < distribution.len()
            invariant
                q <= distribution@.len(),
                nch.len() == q + 1,
                sch.len() == q + 1,
                nch[0] == s0.neighborhoods@,
                sch[0] == s0.states@,
                nch[q as int] == self.neighborhoods@,
                sch[q as int] == self.states@,
                forall|q2: int| 0 <= q2 < q ==> #[trigger] chain_step(
                    nch,
                    sch,
                    q2,
                    link.id,
                    link.source,
                    members@,
                    distribution@,
                    link.target_neighborhoods@.skip(tn0.len() as int),
                    merge,
                ),
                targets == distribution_targets(distribution@),
                forall|a: C, b: C, k: usize| merge.requires((a, b, k)),
                members@ == members_of(s0.neighborhoods@, link.source),
                self.links@ == s0.links@,
                link.id == link0.id,
                link.source == link0.source,
                link.target@ == link0.target@,
                link.type1_links@ == link0.type1_links@,
                link.target_neighborhoods@.len() == tn0.len() + q,
                link.target_neighborhoods@.take(tn0.len() as int) == tn0,
                all_wf(self.states@),
                all_wf(s0.states@),
                neighborhoods_extended(s0.neighborhoods@, self.neighborhoods@, link.id, link.source, members@, targets.take(q as int)),
                targets_assigned(self.neighborhoods@, link.id, link.source, targets.take(q as int), link.target_neighborhoods@.skip(tn0.len() as int)),
                memberships_extended(s0.states@, self.states@, self.neighborhoods@, link.source, targets.take(q as int), link.target_neighborhoods@.skip(tn0.len() as int)),
                confidences_recorded(s0.states@, self.states@, s0.neighborhoods@, self.neighborhoods@, link.source, distribution@.take(q as int), link.target_neighborhoods@.skip(tn0.len() as int), merge),
                creations_ordered(s0.neighborhoods@.len(), self.neighborhoods@, link.target_neighborhoods@.skip(tn0.len() as int)),
                memberships_in_order(s0.states@, self.states@, link.target_neighborhoods@.skip(tn0.len() as int)),
                nonmembers_unchanged(s0.states@, self.states@, self.neighborhoods@, link.source, targets.take(q as int)),
                forall|j: int| 0 <= j < self.neighborhoods@.len()
                    && (#[trigger] self.neighborhoods@[j]).source_links@.len() > (if j < s0.neighborhoods@.len() { s0.neighborhoods@[j].source_links@.len() } else { 0 })
                    ==> link.target_neighborhoods@.skip(tn0.len() as int).contains(self.neighborhoods@[j].id),
            decreases distribution@.len() - q,
        {
            let (t, p) = distribution[q];
            let key = (link.source, t);
            let ghost n1 = self.neighborhoods@;
            let ghost st1 = self.states@;
            let ghost a1 = link.target_neighborhoods@.skip(tn0.len() as int);
            let ghost t1 = targets.take(q as int);
            let ghost d1 = distribution@.take(q as int);
            proof {
                assert(targets.take(q + 1) =~= t1.push(t));
                assert(targets[q as int] == t);
                assert(distribution@.take(q + 1) =~= d1.push((t, p)));
                assert(distribution_targets(d1) =~= t1);
            }
            match self.generated_index(key) {
                Some(j) => {
                    proof {
                        lemma_first_generated_index(n1, key);
                    }
                    let nid = self.neighborhoods[j].id;
                    let prior = self.neighborhoods[j].source_links.len();
                    self.neighborhoods[j].source_links.push(link.id);
                    let mems = self.neighborhoods[j].members.clone();
                    assert(mems@ =~= self.neighborhoods@[j as int].members@);
                    attach_members(&mut self.states, &mems, nid, p, prior, &merge);
                    link.target_neighborhoods.push(nid);
                    proof {
                        let n2 = self.neighborhoods@;
                        lemma_first_generated_index(n1, key);
                        assert(generation_step(n1, st1, n2, self.states@, link.id, link.source, members@, (t, p), nid, merge));
                        lemma_neighborhoods_reuse(s0.neighborhoods@, n1, n2, link.id, link.source, members@, t1, t, j as int);
                        assert(n2[j as int].source_links@[n2[j as int].source_links@.len() - 1] == link.id);
                        assert forall|q2: int| 0 <= q2 < t1.len() implies {
                            &&& #[trigger] first_generated_index(n2, (link.source, t1[q2])) == first_generated_index(n1, (link.source, t1[q2]))
                            &&& first_generated_index(n1, (link.source, t1[q2])) matches Some(k) ==> {
                                &&& n2[k].id == n1[k].id
                                &&& n1[k].source_links@.contains(link.id) ==> n2[k].source_links@.contains(link.id)
                            }
                        } by {
                            lemma_first_generated_index(n1, (link.source, t1[q2]));
                            match first_generated_index(n1, (link.source, t1[q2])) {
                                Some(k) => {
                                    if k == j && n1[k].source_links@.contains(link.id) {
                                        let w = choose|w: int| 0 <= w < n1[k].source_links@.len() && n1[k].source_links@[w] == link.id;
                                        assert(n2[k].source_links@[w] == link.id);
                                    }
                                },
                                None => {},
                            }
                        }
                        assert(link.target_neighborhoods@.skip(tn0.len() as int) =~= a1.push(nid));
                        lemma_assigned_step(n1, n2, link.id, link.source, t1, a1, t, nid, j as int);
                        assert(same_ids(n1, n2));
                        lemma_creations_reuse(s0.neighborhoods@.len(), n1, n2, a1, nid);
                        assert forall|q2: int| 0 <= q2 < t1.len() implies {
                            &&& #[trigger] first_generated_index(n2, (link.source, t1[q2])) == first_generated_index(n1, (link.source, t1[q2]))
                            &&& first_generated_index(n1, (link.source, t1[q2])) matches Some(k) ==> n2[k].members@ == n1[k].members@
                        } by {
                            lemma_first_generated_index(n1, (link.source, t1[q2]));
                        }
                        lemma_memberships_step(s0.states@, st1, self.states@, n1, n2, link.source, t1, a1, t, nid, mems@, j as int, p, prior, merge);
                        lemma_memberships_in_order_step(s0.states@, st1, self.states@, a1, mems@, nid, p, prior, merge);
                        lemma_nonmembers_step(s0.states@, st1, self.states@, n1, n2, link.source, t1, t, nid, mems@, j as int, p, prior, merge);
                        let base = if (j as int) < s0.neighborhoods@.len() { s0.neighborhoods@[j as int].source_links@.len() } else { 0 };
                        if !a1.contains(nid) {
                            assert(n1[j as int].source_links@.len() <= base);
                            if (j as int) < s0.neighborhoods@.len() {
                                assert(extended_with(s0.neighborhoods@[j as int].source_links@, n1[j as int].source_links@, link.id));
                            }
                        }
                        assert forall|q2: int| 0 <= q2 < d1.len() implies {
                            &&& #[trigger] first_generated_index(n2, (link.source, d1[q2].0)) == first_generated_index(n1, (link.source, d1[q2].0))
                            &&& first_generated_index(n1, (link.source, d1[q2].0)) matches Some(k) ==> n2[k].members@ == n1[k].members@
                        } by {
                            assert(d1[q2].0 == t1[q2]);
                            lemma_first_generated_index(n1, (link.source, t1[q2]));
                        }
                        lemma_confidences_step(s0.states@, st1, self.states@, s0.neighborhoods@, n1, n2, link.source, d1, a1, t, p, nid, mems@, j as int, prior, merge);
                        let a2 = a1.push(nid);
                        assert forall|k: int| 0 <= k < n2.len()
                            && (#[trigger] n2[k]).source_links@.len() > (if k < s0.neighborhoods@.len() { s0.neighborhoods@[k].source_links@.len() } else { 0 })
                            implies a2.contains(n2[k].id) by {
                            if k == j {
                                assert(a2[a1.len() as int] == nid);
                            } else {
                                assert(n2[k] == n1[k]);
                                let w = choose|w: int| 0 <= w < a1.len() && a1[w] == n1[k].id;
                                assert(a2[w] == a1[w]);
                            }
                        }
                    }
                },
                None => {
                    let nid = self.fresh_neighborhood_id();
                    let nh = Neighborhood {
                        id: nid,
                        members: members.clone(),
                        source_links: vec![link.id],
                        generated_from: Some(key),
                    };
                    assert(nh.members@ =~= members@);
                    assert(nh.source_links@ =~= seq![link.id]);
                    self.neighborhoods.push(nh);
                    attach_members(&mut self.states, &members, nid, p, 0, &merge);
                    link.target_neighborhoods.push(nid);
                    proof {
                        let n2 = self.neighborhoods@;
                        assert(n2 == n1.push(nh));
                        assert(n2.drop_last() =~= n1);
                        assert(generation_step(n1, st1, n2, self.states@, link.id, link.source, members@, (t, p), nid, merge));
                        lemma_neighborhoods_create(s0.neighborhoods@, n1, nh, link.id, link.source, members@, t1, t);
                        assert(nh.source_links@[0] == link.id);
                        assert forall|q2: int| 0 <= q2 < t1.len() implies {
                            &&& #[trigger] first_generated_index(n2, (link.source, t1[q2])) == first_generated_index(n1, (link.source, t1[q2]))
                            &&& first_generated_index(n1, (link.source, t1[q2])) matches Some(k) ==> {
                                &&& n2[k].id == n1[k].id
                                &&& n1[k].source_links@.contains(link.id) ==> n2[k].source_links@.contains(link.id)
                            }
                        } by {
                            let k2 = (link.source, t1[q2]);
                            assert(first_generated_index(n1, k2) is Some);
                            if k2 == key {
                                assert(false);
                            }
                            match first_generated_index(n1, k2) {
                                Some(k) => {
                                    lemma_first_generated_index(n1, k2);
                                    assert(n2[k] == n1[k]);
                                },
                                None => {},
                            }
                        }
                        assert(link.target_neighborhoods@.skip(tn0.len() as int) =~= a1.push(nid));
                        lemma_assigned_step(n1, n2, link.id, link.source, t1, a1, t, nid, n1.len() as int);
                        assert(!a1.contains(nid)) by {
                            if a1.contains(nid) {
                                let w = choose|w: int| 0 <= w < a1.len() && a1[w] == nid;
                                let kw = first_generated_index(n1, (link.source, t1[w]))->0;
                                lemma_first_generated_index(n1, (link.source, t1[w]));
                                assert(n1[kw].id == nid);
                                assert(id_in_use(n1, nid));
                            }
                        }
                        lemma_creations_create(s0.neighborhoods@.len(), n1, nh, a1);
                        assert forall|q2: int| 0 <= q2 < t1.len() implies {
                            &&& #[trigger] first_generated_index(n2, (link.source, t1[q2])) == first_generated_index(n1, (link.source, t1[q2]))
                            &&& first_generated_index(n1, (link.source, t1[q2])) matches Some(j) ==> n2[j].members@ == n1[j].members@
                        } by {
                            let k2 = (link.source, t1[q2]);
                            match first_generated_index(n1, k2) {
                                Some(k) => {
                                    lemma_first_generated_index(n1, k2);
                                    assert(n2[k] == n1[k]);
                                },
                                None => {},
                            }
                        }
                        lemma_memberships_step(s0.states@, st1, self.states@, n1, n2, link.source, t1, a1, t, nid, members@, n1.len() as int, p, 0, merge);
                        lemma_memberships_in_order_step(s0.states@, st1, self.states@, a1, members@, nid, p, 0, merge);
                        lemma_nonmembers_step(s0.states@, st1, self.states@, n1, n2, link.source, t1, t, nid, members@, n1.len() as int, p, 0, merge);
                        assert forall|q2: int| 0 <= q2 < d1.len() implies {
                            &&& #[trigger] first_generated_index(n2, (link.source, d1[q2].0)) == first_generated_index(n1, (link.source, d1[q2].0))
                            &&& first_generated_index(n1, (link.source, d1[q2].0)) matches Some(k) ==> n2[k].members@ == n1[k].members@
                        } by {
                            assert(d1[q2].0 == t1[q2]);
                        }
                        assert(s0.neighborhoods@.len() <= n1.len());
                        lemma_confidences_step(s0.states@, st1, self.states@, s0.neighborhoods@, n1, n2, link.source, d1, a1, t, p, nid, members@, n1.len() as int, 0, merge);
                        let a2 = a1.push(nid);
                        assert forall|k: int| 0 <= k < n2.len()
                            && (#[trigger] n2[k]).source_links@.len() > (if k < s0.neighborhoods@.len() { s0.neighborhoods@[k].source_links@.len() } else { 0 })
                            implies a2.contains(n2[k].id) by {
                            if k == n1.len() {
                                assert(a2[a1.len() as int] == nid);
                            } else {
                                assert(n2[k] == n1[k]);
                                let w = choose|w: int| 0 <= w < a1.len() && a1[w] == n1[k].id;
                                assert(a2[w] == a1[w]);
                            }
                        }
                    }
                },
            }
            proof {
                let a2 = link.target_neighborhoods@.skip(tn0.len() as int);
                assert(a2 =~= a1.push(a2.last()));
                let nch2 = nch.push(self.neighborhoods@);
                let sch2 = sch.push(self.states@);
                assert(distribution@[q as int] == (t, p));
                assert(chain_step(nch2, sch2, q as int, link.id, link.source, members@, distribution@, a2, merge));
                assert forall|q2: int| 0 <= q2 < q + 1 implies #[trigger] chain_step(
                    nch2,
                    sch2,
                    q2,
                    link.id,
                    link.source,
                    members@,
                    distribution@,
                    a2,
                    merge,
                ) by {
                    if q2 < q {
                        assert(chain_step(nch, sch, q2, link.id, link.source, members@, distribution@, a1, merge));
                        assert(nch2[q2] == nch[q2] && nch2[q2 + 1] == nch[q2 + 1]);
                        assert(sch2[q2] == sch[q2] && sch2[q2 + 1] == sch[q2 + 1]);
                        assert(a2[q2] == a1[q2]);
                    }
                }
                nch = nch2;
                sch = sch2;
            }
            q = q + 1;
        }
        proof {
            assert(generation_chain(nch, sch, link.id, link.source, members@, distribution@, link.target_neighborhoods@.skip(tn0.len() as int), merge));
            assert(targets.take(distribution@.len() as int) =~= targets);
            assert(distribution@.take(distribution@.len() as int) =~= distribution@);
        }
        self.links.push(link);
    }

    /// Return a neighborhood by identifier: the first one with that identifier.
    pub fn neighborhood(&self, id: NeighborhoodId) -> (r: Option<&Neighborhood>)
        ensures
            match first_neighborhood_index(self.neighborhoods@, id) {
                Some(i) => r == Some(&self.neighborhoods@[i]),
                None => r is None,
            },
    {
        proof {
            lemma_first_neighborhood_index(self.neighborhoods@, id);
        }
        match self.neighborhood_index(id) {
            Some(i) => Some(&self.neighborhoods[i]),
            None => None,
        }
    }
}

} // verus!
