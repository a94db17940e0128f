use vstd::prelude::*;

use super::space::{NeighborhoodId, StateId};

verus! {

/// Identifier for a type-2 link in the state set `S`.
#[derive(Debug, Clone, Copy, PartialEq, Eq, PartialOrd, Ord, Hash, Structural)]
pub struct LinkId(pub usize);

/// A type-1 link from one state element to another, carrying a coefficient
/// of type `C`.
#[derive(Debug, Clone, Copy, PartialEq)]
pub struct Type1Link<C> {
    /// Source state.
    pub source: StateId,
    /// Target state.
    pub target: StateId,
    /// Coefficient carried by this link.
    pub coefficient: C,
}

/// A type-2 link from a subset of `S` to another subset of `S`.
#[derive(Debug, Clone, PartialEq)]
pub struct Type2Link<C> {
    /// Stable link identifier.
    pub id: LinkId,
    /// Source neighborhood (the subset of `S` this link activates from).
    pub source: NeighborhoodId,
    /// Target subset.
    pub target: Vec<StateId>,
    /// Type-1 links between source and target states.
    pub type1_links: Vec<Type1Link<C>>,
    /// Target neighborhoods generated from this link.
    pub target_neighborhoods: Vec<NeighborhoodId>,
}

/// Entry `k` of the complete bipartite links from `sources` to `targets`:
/// source `k / |targets|` paired with target `k % |targets|`.
pub open spec fn bipartite_link<C>(sources: Seq<StateId>, targets: Seq<StateId>, coefficient: C, k: int) -> Type1Link<C> {
    Type1Link {
        source: sources[k / targets.len() as int],
        target: targets[k % targets.len() as int],
        coefficient,
    }
}

/// The complete bipartite links pair every source with every target: entry
/// `a * |targets| + b` links source `a` to target `b`.
pub proof fn lemma_bipartite_covers_pairs<C>(sources: Seq<StateId>, targets: Seq<StateId>, coefficient: C, a: int, b: int)
    requires
        0 <= a < sources.len(),
        0 <= b < targets.len(),
    ensures
        0 <= a * targets.len() + b < sources.len() * targets.len(),
        bipartite_link(sources, targets, coefficient, a * targets.len() + b)
            == (Type1Link { source: sources[a], target: targets[b], coefficient }),
{
    let n = targets.len() as int;
    let k = a * n + b;
    assert(k / n == a && k % n == b) by (nonlinear_arith)
        requires k == a * n + b, 0 <= b < n;
    assert(0 <= a * n + b < sources.len() * n) by (nonlinear_arith)
        requires 0 <= a < sources.len(), 0 <= b < n;
}

impl<C: Copy> Type2Link<C> {
    /// Create a type-2 link and generate all source-target type-1 links, each
    /// carrying `coefficient`: for each source member in order, one link to
    /// each target in order.
    ///
    /// `target_neighborhoods` starts empty and is filled by `StateSpace::add_link`.
    pub fn complete(
        id: LinkId,
        source: NeighborhoodId,
        source_members: &[StateId],
        target: Vec<StateId>,
        coefficient: C,
    ) -> (link: Self)
        ensures
            link.id == id,
            link.source == source,
            link.target@ == target@,
            link.target_neighborhoods@.len() == 0,
            link.type1_links@.len() == source_members@.len() * target@.len(),
            forall|k: int| 0 <= k < link.type1_links@.len()
                ==> #[trigger] link.type1_links@[k] == bipartite_link(source_members@, target@, coefficient, k),
    {
        let mut type1_links: Vec<Type1Link<C>> = Vec::new();
        let n = target.len();
        let mut i: usize = 0;
        while i < source_members.len()
            invariant
                i <= source_members@.len(),
                n == target@.len(),
                type1_links@.len() == i * n,
                forall|k: int| 0 <= k < type1_links@.len()
                    ==> #[trigger] type1_links@[k] == bipartite_link(source_members@, target@, coefficient, k),
            decreases source_members@.len() - i,
        {
            let src = source_members[i];
            let mut j: usize = 0;
            while j < n
                invariant
                    i < source_members@.len(),
                    j <= n,
                    n == target@.len(),
                    src == source_members@[i as int],
                    type1_links@.len() == i * n + j,
                    forall|k: int| 0 <= k < type1_links@.len()
                        ==> #[trigger] type1_links@[k] == bipartite_link(source_members@, target@, coefficient, k),
                decreases n - j,
            {
                let ghost k = i * n + j;
                assert(k / (n as int) == i && k % (n as int) == j) by (nonlinear_arith)
                    requires k == i * n + j, 0 <= j < n;
                type1_links.push(Type1Link { source: src, target: target[j], coefficient });
                j = j + 1;
            }
            assert((i + 1) * n == i * n + n) by (nonlinear_arith);
            i = i + 1;
        }
        Type2Link { id, source, target, type1_links, target_neighborhoods: Vec::new() }
    }

    /// The type-1 links whose source is among `active_sources`, in order.
    pub fn active_links(&self, active_sources: &[StateId]) -> (active: Vec<Type1Link<C>>)
        ensures
            active@ == active_filter(self.type1_links@, active_sources@),
    {
        let mut active: Vec<Type1Link<C>> = Vec::new();
        let mut i: usize = 0;
        while i < self.type1_links.len()
            invariant
                i <= self.type1_links@.len(),
                active@ == active_filter(self.type1_links@.take(i as int), active_sources@),
            decreases self.type1_links@.len() - i,
        {
            let link = self.type1_links[i];
            proof {
                assert(self.type1_links@.take(i + 1) =~= self.type1_links@.take(i as int).push(link));
                self.type1_links@.take(i as int).lemma_filter_push(link, |l: Type1Link<C>| active_sources@.contains(l.source));
            }
            if contains_state(active_sources, link.source) {
                active.push(link);
            }
            i = i + 1;
        }
        assert(self.type1_links@.take(self.type1_links@.len() as int) =~= self.type1_links@);
        active
    }
}

/// The links of `links` whose source is among `sources`, in order.
pub open spec fn active_filter<C>(links: Seq<Type1Link<C>>, sources: Seq<StateId>) -> Seq<Type1Link<C>> {
    links.filter(|l: Type1Link<C>| sources.contains(l.source))
}

/// Activation keeps exactly the links whose source is active, in order: no
/// link of an empty sequence, and a link appended after others is kept, at
/// the end, exactly when its source is active.
pub proof fn lemma_active_filter_push<C>(links: Seq<Type1Link<C>>, sources: Seq<StateId>, l: Type1Link<C>)
    ensures
        active_filter(Seq::<Type1Link<C>>::empty(), sources) == Seq::<Type1Link<C>>::empty(),
        active_filter(links.push(l), sources) == if sources.contains(l.source) {
            active_filter(links, sources).push(l)
        } else {
            active_filter(links, sources)
        },
{
    links.lemma_filter_push(l, |x: Type1Link<C>| sources.contains(x.source));
    assert(active_filter(Seq::<Type1Link<C>>::empty(), sources) =~= Seq::<Type1Link<C>>::empty());
}

/// A link is activated exactly when it is one of the links and its source is
/// active; and when every source is active, every link is, in order.
pub proof fn lemma_active_filter_members<C>(links: Seq<Type1Link<C>>, sources: Seq<StateId>)
    ensures
        forall|l: Type1Link<C>| #[trigger] active_filter(links, sources).contains(l)
            <==> links.contains(l) && sources.contains(l.source),
        (forall|i: int| 0 <= i < links.len() ==> sources.contains(#[trigger] links[i].source))
            ==> active_filter(links, sources) == links,
    decreases links.len(),
{
    if links.len() > 0 {
        let init = links.drop_last();
        let l = links.last();
        lemma_active_filter_members(init, sources);
        lemma_active_filter_push(init, sources, l);
        assert(init.push(l) =~= links);
        assert forall|x: Type1Link<C>| #[trigger] active_filter(links, sources).contains(x)
            <==> links.contains(x) && sources.contains(x.source) by {
            if links.contains(x) {
                let w = choose|w: int| 0 <= w < links.len() && links[w] == x;
                if w < links.len() - 1 {
                    assert(init[w] == x);
                }
            }
            if init.contains(x) {
                let w = choose|w: int| 0 <= w < init.len() && init[w] == x;
                assert(links[w] == x);
            }
            if active_filter(init, sources).contains(x) {
                let w = choose|w: int| 0 <= w < active_filter(init, sources).len() && active_filter(init, sources)[w] == x;
                if sources.contains(l.source) {
                    assert(active_filter(links, sources)[w] == x);
                }
            }
            if sources.contains(l.source) && active_filter(links, sources).contains(x) {
                let w = choose|w: int| 0 <= w < active_filter(links, sources).len() && active_filter(links, sources)[w] == x;
                if w < active_filter(init, sources).len() {
                    assert(active_filter(init, sources)[w] == x);
                }
            }
            if sources.contains(l.source) && x == l {
                assert(active_filter(links, sources)[active_filter(init, sources).len() as int] == x);
            }
        }
        if forall|i: int| 0 <= i < links.len() ==> sources.contains(#[trigger] links[i].source) {
            assert forall|i: int| 0 <= i < init.len() implies sources.contains(#[trigger] init[i].source) by {
                assert(init[i] == links[i]);
            }
            assert(sources.contains(links[links.len() - 1].source));
        }
    } else {
        assert(active_filter(links, sources) =~= links);
    }
}

/// Whether `id` occurs in `ids`.
pub(crate) fn contains_state(ids: &[StateId], id: StateId) -> (b: bool)
    ensures
        b == ids@.contains(id),
{
    let mut i: usize = 0;
    while i < ids.len()
        invariant
            i <= ids@.len(),
            forall|j: int| 0 <= j < i ==> ids@[j] != id,
        decreases ids@.len() - i,
    {
        if ids[i] == id {
            return true;
        }
        i = i + 1;
    }
    false
}

} // verus!
