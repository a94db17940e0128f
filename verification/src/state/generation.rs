//! Generation of target neighborhoods by links: what `StateSpace::add_link`
//! establishes, step by step, and the laws it keeps.
use vstd::prelude::*;

use super::link::LinkId;
use super::space::{first_neighborhood_index, Neighborhood, NeighborhoodId, NeighborhoodRef, State, StateId};

verus! {

/// Index of the first neighborhood in `nhs` generated for `key`, if any.
pub open spec fn first_generated_index(nhs: Seq<Neighborhood>, key: (NeighborhoodId, StateId)) -> Option<int>
    decreases nhs.len(),
{
    if nhs.len() == 0 {
        None
    } else if nhs.last().generated_from == Some(key) && first_generated_index(nhs.drop_last(), key) is None {
        Some(nhs.len() - 1)
    } else {
        first_generated_index(nhs.drop_last(), key)
    }
}

/// `first_generated_index` is the least index generated for `key`.
pub proof fn lemma_first_generated_index(nhs: Seq<Neighborhood>, key: (NeighborhoodId, StateId))
    ensures
        match first_generated_index(nhs, key) {
            Some(i) => 0 <= i < nhs.len() && nhs[i].generated_from == Some(key)
                && forall|j: int| 0 <= j < i ==> nhs[j].generated_from != Some(key),
            None => forall|j: int| 0 <= j < nhs.len() ==> nhs[j].generated_from != Some(key),
        },
    decreases nhs.len(),
{
    if nhs.len() > 0 {
        lemma_first_generated_index(nhs.drop_last(), key);
        assert forall|j: int| 0 <= j < nhs.len() - 1 implies nhs.drop_last()[j] == nhs[j] by {}
    }
}

/// Appending a neighborhood changes the first one generated for a key only
/// when there was none and the appended one is generated for it.
pub proof fn lemma_first_generated_index_push(nhs: Seq<Neighborhood>, nh: Neighborhood, key: (NeighborhoodId, StateId))
    ensures
        first_generated_index(nhs.push(nh), key) == match first_generated_index(nhs, key) {
            Some(i) => Some(i),
            None => if nh.generated_from == Some(key) {
                Some(nhs.len() as int)
            } else {
                None
            },
        },
{
    assert(nhs.push(nh).drop_last() =~= nhs);
}

/// The first neighborhood generated for a key depends only on what each
/// neighborhood was generated for.
pub proof fn lemma_first_generated_index_same(a: Seq<Neighborhood>, b: Seq<Neighborhood>, key: (NeighborhoodId, StateId))
    requires
        a.len() == b.len(),
        forall|i: int| 0 <= i < a.len() ==> (#[trigger] a[i]).generated_from == b[i].generated_from,
    ensures
        first_generated_index(a, key) == first_generated_index(b, key),
    decreases a.len(),
{
    if a.len() > 0 {
        assert forall|i: int| 0 <= i < a.len() - 1 implies (#[trigger] a.drop_last()[i]).generated_from
            == b.drop_last()[i].generated_from by {
            assert(a.drop_last()[i] == a[i] && b.drop_last()[i] == b[i]);
        }
        lemma_first_generated_index_same(a.drop_last(), b.drop_last(), key);
    }
}

/// Some neighborhood in `nhs` has identifier `id`.
pub open spec fn id_in_use(nhs: Seq<Neighborhood>, id: NeighborhoodId) -> bool {
    exists|j: int| 0 <= j < nhs.len() && (#[trigger] nhs[j]).id == id
}

/// If every identifier below `k` is in use, there are at least `k` neighborhoods.
pub(crate) proof fn lemma_ids_in_use_bound(nhs: Seq<Neighborhood>, k: int)
    requires
        0 <= k,
        forall|x: usize| x < k ==> id_in_use(nhs, NeighborhoodId(x)),
        k <= usize::MAX + 1,
    ensures
        k <= nhs.len(),
{
    let ids = nhs.map_values(|h: Neighborhood| h.id.0 as int);
    let range = vstd::set_lib::set_int_range(0, k);
    vstd::set_lib::lemma_int_range(0, k);
    ids.lemma_cardinality_of_set();
    assert forall|x: int| range.contains(x) implies ids.to_set().contains(x) by {
        let ux = x as usize;
        assert(id_in_use(nhs, NeighborhoodId(ux)));
        let j = choose|j: int| 0 <= j < nhs.len() && (#[trigger] nhs[j]).id == NeighborhoodId(x as usize);
        assert(ids[j] == x);
    }
    vstd::set_lib::lemma_len_subset(range, ids.to_set());
}

/// Index of the first membership in `refs` to neighborhood `id`, if any.
pub open spec fn first_ref_index(refs: Seq<NeighborhoodRef>, id: NeighborhoodId) -> Option<int>
    decreases refs.len(),
{
    if refs.len() == 0 {
        None
    } else if refs.last().id == id && first_ref_index(refs.drop_last(), id) is None {
        Some(refs.len() - 1)
    } else {
        first_ref_index(refs.drop_last(), id)
    }
}

/// `first_ref_index` is the least index referring to `id`.
pub proof fn lemma_first_ref_index(refs: Seq<NeighborhoodRef>, id: NeighborhoodId)
    ensures
        match first_ref_index(refs, id) {
            Some(i) => 0 <= i < refs.len() && refs[i].id == id
                && forall|j: int| 0 <= j < i ==> refs[j].id != id,
            None => forall|j: int| 0 <= j < refs.len() ==> refs[j].id != id,
        },
    decreases refs.len(),
{
    if refs.len() > 0 {
        lemma_first_ref_index(refs.drop_last(), id);
        assert forall|j: int| 0 <= j < refs.len() - 1 implies refs.drop_last()[j] == refs[j] by {}
    }
}

/// The effect of giving a state membership in neighborhood `id` with
/// confidence `p`: an existing membership (the first one) has its confidence
/// merged with `p` as `merge(confidence, p, prior)` says; otherwise the
/// membership is appended with confidence `p`.
pub open spec fn attached<C, F: Fn(C, C, usize) -> C>(
    before: State<C>,
    after: State<C>,
    id: NeighborhoodId,
    p: C,
    prior: usize,
    merge: F,
) -> bool {
    &&& after.id == before.id
    &&& after.support_features@ == before.support_features@
    &&& match first_ref_index(before.neighborhoods@, id) {
        Some(pos) => {
            &&& after.neighborhoods@ == before.neighborhoods@
            &&& after.confidences@.len() == before.confidences@.len()
            &&& forall|r: int| 0 <= r < before.confidences@.len() && r != pos
                ==> #[trigger] after.confidences@[r] == before.confidences@[r]
            &&& merge.ensures((before.confidences@[pos], p, prior), after.confidences@[pos])
        },
        None => {
            &&& after.neighborhoods@ == before.neighborhoods@.push(NeighborhoodRef { id })
            &&& after.confidences@ == before.confidences@.push(p)
        },
    }
}

/// Give `state` membership in neighborhood `id` with confidence `p` (see `attached`).
pub(crate) fn attach_membership<C: Copy, F: Fn(C, C, usize) -> C>(state: &mut State<C>, id: NeighborhoodId, p: C, prior: usize, merge: &F)
    requires
        old(state).wf(),
        forall|a: C, b: C, k: usize| merge.requires((a, b, k)),
    ensures
        final(state).wf(),
        attached(*old(state), *final(state), id, p, prior, *merge),
{
    proof {
        lemma_first_ref_index(state.neighborhoods@, id);
    }
    let mut r: usize = 0;
    while r < state.neighborhoods.len()
        invariant
            *state == *old(state),
            state.wf(),
            forall|a: C, b: C, k: usize| merge.requires((a, b, k)),
            r <= state.neighborhoods@.len(),
            forall|j: int| 0 <= j < r ==> state.neighborhoods@[j].id != id,
            match first_ref_index(state.neighborhoods@, id) {
                Some(f) => 0 <= f < state.neighborhoods@.len() && state.neighborhoods@[f].id == id
                    && forall|j: int| 0 <= j < f ==> state.neighborhoods@[j].id != id,
                None => forall|j: int| 0 <= j < state.neighborhoods@.len() ==> state.neighborhoods@[j].id != id,
            },
        decreases state.neighborhoods@.len() - r,
    {
        if state.neighborhoods[r].id == id {
            let merged = merge(state.confidences[r], p, prior);
            state.confidences.set(r, merged);
            return;
        }
        r = r + 1;
    }
    state.neighborhoods.push(NeighborhoodRef { id });
    state.confidences.push(p);
}

/// Every state is well formed.
pub open spec fn all_wf<C>(states: Seq<State<C>>) -> bool {
    forall|i: int| 0 <= i < states.len() ==> (#[trigger] states[i]).wf()
}

/// Every state of `before` whose identifier is in `members` is `attached`
/// to neighborhood `id` in `after`; the others are unchanged.
pub open spec fn states_attached<C, F: Fn(C, C, usize) -> C>(
    before: Seq<State<C>>,
    after: Seq<State<C>>,
    members: Seq<StateId>,
    id: NeighborhoodId,
    p: C,
    prior: usize,
    merge: F,
) -> bool {
    &&& after.len() == before.len()
    &&& forall|i: int| 0 <= i < before.len() ==> if members.contains(before[i].id) {
        attached(before[i], #[trigger] after[i], id, p, prior, merge)
    } else {
        after[i] == before[i]
    }
}

/// Give every state whose identifier is in `members` membership in
/// neighborhood `id` with confidence `p` (see `attached`); other states are
/// unchanged.
pub(crate) fn attach_members<C: Copy, F: Fn(C, C, usize) -> C>(
    states: &mut Vec<State<C>>,
    members: &Vec<StateId>,
    id: NeighborhoodId,
    p: C,
    prior: usize,
    merge: &F,
)
    requires
        all_wf(old(states)@),
        forall|a: C, b: C, k: usize| merge.requires((a, b, k)),
    ensures
        all_wf(final(states)@),
        states_attached(old(states)@, final(states)@, members@, id, p, prior, *merge),
{
    let ghost before = states@;
    let mut i: usize = 0;
    while i < states.len()
        invariant
            i <= states@.len(),
            states@.len() == before.len(),
            all_wf(states@),
            forall|a: C, b: C, k: usize| merge.requires((a, b, k)),
            forall|j: int| 0 <= j < i ==> if members@.contains(before[j].id) {
                attached(before[j], #[trigger] states@[j], id, p, prior, *merge)
            } else {
                states@[j] == before[j]
            },
            forall|j: int| i <= j < before.len() ==> #[trigger] states@[j] == before[j],
        decreases before.len() - i,
    {
        if crate::state::link::contains_state(members.as_slice(), states[i].id) {
            attach_membership(&mut states[i], id, p, prior, merge);
        }
        i = i + 1;
    }
}

/// `after` is `before` followed by copies of `x` only.
pub open spec fn extended_with<T>(before: Seq<T>, after: Seq<T>, x: T) -> bool {
    &&& before.len() <= after.len()
    &&& after.take(before.len() as int) == before
    &&& forall|i: int| before.len() <= i < after.len() ==> after[i] == x
}

/// The members of the neighborhood `source` in `nhs` (the first one with
/// that identifier), or none if there is no such neighborhood.
pub open spec fn members_of(nhs: Seq<Neighborhood>, source: NeighborhoodId) -> Seq<StateId> {
    match first_neighborhood_index(nhs, source) {
        Some(i) => nhs[i].members@,
        None => Seq::empty(),
    }
}

/// How `add_link` changes the neighborhoods for a link `link_id` from
/// `source` over the target states `targets`: existing neighborhoods keep
/// their identifier, members and origin and only gain `link_id` as a source
/// link; each appended neighborhood has the members `members`, is the first
/// one generated for its (source, target) pair with a target among
/// `targets`, has only `link_id` as source links, and an identifier that no
/// other neighborhood has.
pub open spec fn neighborhoods_extended(
    before: Seq<Neighborhood>,
    after: Seq<Neighborhood>,
    link_id: LinkId,
    source: NeighborhoodId,
    members: Seq<StateId>,
    targets: Seq<StateId>,
) -> bool {
    &&& before.len() <= after.len()
    &&& forall|j: int| 0 <= j < before.len() ==> {
        &&& (#[trigger] after[j]).id == before[j].id
        &&& after[j].members@ == before[j].members@
        &&& after[j].generated_from == before[j].generated_from
        &&& extended_with(before[j].source_links@, after[j].source_links@, link_id)
    }
    &&& forall|j: int| before.len() <= j < after.len() ==> {
        &&& (#[trigger] after[j]).members@ == members
        &&& after[j].generated_from matches Some(key) && key.0 == source && targets.contains(key.1)
            && first_generated_index(after, key) == Some(j)
        &&& after[j].source_links@.len() > 0
        &&& extended_with(Seq::empty(), after[j].source_links@, link_id)
        &&& forall|k: int| 0 <= k < after.len() && k != j ==> after[k].id != after[j].id
    }
}

/// Each target state `targets[q]` has been assigned the neighborhood
/// `assigned[q]`: the first one generated for (`source`, `targets[q]`), which
/// counts `link_id` among its source links.
pub open spec fn targets_assigned(
    nhs: Seq<Neighborhood>,
    link_id: LinkId,
    source: NeighborhoodId,
    targets: Seq<StateId>,
    assigned: Seq<NeighborhoodId>,
) -> bool {
    &&& assigned.len() == targets.len()
    &&& forall|q: int| 0 <= q < targets.len() ==> match #[trigger] first_generated_index(nhs, (source, targets[q])) {
        Some(j) => nhs[j].id == assigned[q] && nhs[j].source_links@.contains(link_id),
        None => false,
    }
}

/// How `add_link` changes the states: each keeps its identifier and
/// features; its memberships only grow by appending memberships in assigned
/// neighborhoods; confidences of memberships in other neighborhoods are
/// unchanged; and a state that is a member of an assigned neighborhood has a
/// membership in it.
pub open spec fn memberships_extended<C>(
    before: Seq<State<C>>,
    after: Seq<State<C>>,
    nhs: Seq<Neighborhood>,
    source: NeighborhoodId,
    targets: Seq<StateId>,
    assigned: Seq<NeighborhoodId>,
) -> bool {
    &&& after.len() == before.len()
    &&& forall|i: int| 0 <= i < before.len() ==> {
        let b = before[i];
        let a = #[trigger] after[i];
        &&& a.id == b.id
        &&& a.support_features@ == b.support_features@
        &&& b.neighborhoods@.len() <= a.neighborhoods@.len()
        &&& a.neighborhoods@.take(b.neighborhoods@.len() as int) == b.neighborhoods@
        &&& forall|r: int| 0 <= r < b.confidences@.len() && !assigned.contains(b.neighborhoods@[r].id)
            ==> #[trigger] a.confidences@[r] == b.confidences@[r]
        &&& forall|r: int| b.neighborhoods@.len() <= r < a.neighborhoods@.len()
            ==> assigned.contains(#[trigger] a.neighborhoods@[r].id)
                && first_ref_index(a.neighborhoods@, a.neighborhoods@[r].id) == Some(r)
        &&& forall|q: int| 0 <= q < targets.len() ==> match #[trigger] first_generated_index(nhs, (source, targets[q])) {
            Some(j) => nhs[j].members@.contains(a.id)
                ==> exists|r: int| 0 <= r < a.neighborhoods@.len() && #[trigger] a.neighborhoods@[r].id == assigned[q],
            None => true,
        }
    }
}

/// Nothing has changed yet.
pub(crate) proof fn lemma_add_link_start<C>(
    nhs: Seq<Neighborhood>,
    states: Seq<State<C>>,
    link_id: LinkId,
    source: NeighborhoodId,
    members: Seq<StateId>,
)
    ensures
        neighborhoods_extended(nhs, nhs, link_id, source, members, Seq::empty()),
        targets_assigned(nhs, link_id, source, Seq::empty(), Seq::empty()),
        memberships_extended(states, states, nhs, source, Seq::empty(), Seq::empty()),
{
    assert forall|j: int| 0 <= j < nhs.len() implies extended_with(nhs[j].source_links@, (#[trigger] nhs[j]).source_links@, link_id) by {
        assert(nhs[j].source_links@.take(nhs[j].source_links@.len() as int) =~= nhs[j].source_links@);
    }
    assert forall|i: int| 0 <= i < states.len() implies (#[trigger] states[i]).neighborhoods@.take(states[i].neighborhoods@.len() as int) == states[i].neighborhoods@ by {
        assert(states[i].neighborhoods@.take(states[i].neighborhoods@.len() as int) =~= states[i].neighborhoods@);
    }
}

/// One more target handled: the states attached to its neighborhood `nid`
/// (the first generated for it in `n2`, with members `mems`) keep all that
/// was established for the earlier targets.
pub(crate) proof fn lemma_memberships_step<C, F: Fn(C, C, usize) -> C>(
    s0: Seq<State<C>>,
    st1: Seq<State<C>>,
    st2: Seq<State<C>>,
    n1: Seq<Neighborhood>,
    n2: Seq<Neighborhood>,
    source: NeighborhoodId,
    targets: Seq<StateId>,
    assigned: Seq<NeighborhoodId>,
    t: StateId,
    nid: NeighborhoodId,
    mems: Seq<StateId>,
    jn: int,
    p: C,
    prior: usize,
    merge: F,
)
    requires
        memberships_extended(s0, st1, n1, source, targets, assigned),
        states_attached(st1, st2, mems, nid, p, prior, merge),
        all_wf(st1),
        all_wf(s0),
        assigned.len() == targets.len(),
        forall|q: int| 0 <= q < targets.len() ==> {
            &&& #[trigger] first_generated_index(n2, (source, targets[q])) == first_generated_index(n1, (source, targets[q]))
            &&& first_generated_index(n1, (source, targets[q])) matches Some(j) ==> n2[j].members@ == n1[j].members@
        },
        first_generated_index(n2, (source, t)) == Some(jn),
        n2[jn].members@ == mems,
    ensures
        memberships_extended(s0, st2, n2, source, targets.push(t), assigned.push(nid)),
{
    let targets2 = targets.push(t);
    let assigned2 = assigned.push(nid);
    assert forall|i: int| 0 <= i < s0.len() implies {
        let b = s0[i];
        let a = #[trigger] st2[i];
        &&& a.id == b.id
        &&& a.support_features@ == b.support_features@
        &&& b.neighborhoods@.len() <= a.neighborhoods@.len()
        &&& a.neighborhoods@.take(b.neighborhoods@.len() as int) == b.neighborhoods@
        &&& forall|r: int| 0 <= r < b.confidences@.len() && !assigned2.contains(b.neighborhoods@[r].id)
            ==> #[trigger] a.confidences@[r] == b.confidences@[r]
        &&& forall|r: int| b.neighborhoods@.len() <= r < a.neighborhoods@.len()
            ==> assigned2.contains(#[trigger] a.neighborhoods@[r].id)
                && first_ref_index(a.neighborhoods@, a.neighborhoods@[r].id) == Some(r)
        &&& forall|q: int| 0 <= q < targets2.len() ==> match #[trigger] first_generated_index(n2, (source, targets2[q])) {
            Some(j) => n2[j].members@.contains(a.id)
                ==> exists|r: int| 0 <= r < a.neighborhoods@.len() && #[trigger] a.neighborhoods@[r].id == assigned2[q],
            None => true,
        }
    } by {
        let b = s0[i];
        let m = st1[i];
        let a = st2[i];
        assert(m == st1[i]);
        let bl = b.neighborhoods@.len() as int;
        let ml = m.neighborhoods@.len() as int;
        assert(b.wf() && m.wf());
        assert(bl <= ml);
        assert(m.neighborhoods@.take(bl) == b.neighborhoods@);
        assert(a.neighborhoods@.take(ml) =~= m.neighborhoods@) by {
            if mems.contains(m.id) {
                assert(attached(m, a, nid, p, prior, merge));
            }
        }
        assert(a.neighborhoods@.take(bl) =~= b.neighborhoods@) by {
            assert forall|r: int| 0 <= r < bl implies a.neighborhoods@[r] == b.neighborhoods@[r] by {
                assert(a.neighborhoods@.take(ml)[r] == m.neighborhoods@[r]);
                assert(m.neighborhoods@.take(bl)[r] == b.neighborhoods@[r]);
            }
        }
        assert forall|r: int| 0 <= r < b.confidences@.len() && !assigned2.contains(b.neighborhoods@[r].id)
            implies #[trigger] a.confidences@[r] == b.confidences@[r] by {
            assert(!assigned.contains(b.neighborhoods@[r].id)) by {
                if assigned.contains(b.neighborhoods@[r].id) {
                    let k = choose|k: int| 0 <= k < assigned.len() && assigned[k] == b.neighborhoods@[r].id;
                    assert(assigned2[k] == assigned[k]);
                }
            }
            assert(b.neighborhoods@[r].id != nid) by {
                assert(assigned2[assigned.len() as int] == nid);
            }
            assert(m.confidences@[r] == b.confidences@[r]);
            assert(m.neighborhoods@[r] == b.neighborhoods@[r]) by {
                assert(m.neighborhoods@.take(bl)[r] == m.neighborhoods@[r]);
            }
            if mems.contains(m.id) {
                assert(attached(m, a, nid, p, prior, merge));
                lemma_first_ref_index(m.neighborhoods@, nid);
            }
        }
        assert forall|r: int| bl <= r < a.neighborhoods@.len()
            implies assigned2.contains(#[trigger] a.neighborhoods@[r].id)
                && first_ref_index(a.neighborhoods@, a.neighborhoods@[r].id) == Some(r) by {
            if r < ml {
                assert(a.neighborhoods@.take(ml)[r] == m.neighborhoods@[r]);
                assert(assigned.contains(m.neighborhoods@[r].id));
                let k = choose|k: int| 0 <= k < assigned.len() && assigned[k] == m.neighborhoods@[r].id;
                assert(assigned2[k] == assigned[k]);
                let id = m.neighborhoods@[r].id;
                assert(first_ref_index(m.neighborhoods@, id) == Some(r));
                if mems.contains(m.id) {
                    assert(attached(m, a, nid, p, prior, merge));
                    match first_ref_index(m.neighborhoods@, nid) {
                        Some(pos) => {},
                        None => {
                            assert(id != nid);
                            assert(a.neighborhoods@.take(ml) =~= m.neighborhoods@);
                            lemma_first_ref_index_extended(m.neighborhoods@, a.neighborhoods@, id);
                        },
                    }
                }
            } else {
                assert(mems.contains(m.id));
                assert(attached(m, a, nid, p, prior, merge));
                assert(a.neighborhoods@[r].id == nid);
                assert(assigned2[assigned.len() as int] == nid);
                assert(a.neighborhoods@.drop_last() =~= m.neighborhoods@);
            }
        }
        assert forall|q: int| 0 <= q < targets2.len() implies match #[trigger] first_generated_index(n2, (source, targets2[q])) {
            Some(j) => n2[j].members@.contains(a.id)
                ==> exists|r: int| 0 <= r < a.neighborhoods@.len() && #[trigger] a.neighborhoods@[r].id == assigned2[q],
            None => true,
        } by {
            if q < targets.len() {
                assert(targets2[q] == targets[q]);
                assert(assigned2[q] == assigned[q]);
                assert(first_generated_index(n2, (source, targets[q])) == first_generated_index(n1, (source, targets[q])));
                match first_generated_index(n1, (source, targets[q])) {
                    Some(j) => {
                        if n2[j].members@.contains(a.id) {
                            assert(n1[j].members@.contains(m.id));
                            let r = choose|r: int| 0 <= r < m.neighborhoods@.len() && #[trigger] m.neighborhoods@[r].id == assigned[q];
                            assert(a.neighborhoods@.take(ml)[r] == m.neighborhoods@[r]);
                            assert(a.neighborhoods@[r].id == assigned2[q]);
                        }
                    },
                    None => {},
                }
            } else {
                assert(targets2[q] == t);
                assert(assigned2[q] == nid);
                if n2[jn].members@.contains(a.id) {
                    assert(mems.contains(m.id));
                    assert(attached(m, a, nid, p, prior, merge));
                    lemma_first_ref_index(m.neighborhoods@, nid);
                    match first_ref_index(m.neighborhoods@, nid) {
                        Some(pos) => {
                            assert(a.neighborhoods@[pos].id == nid);
                        },
                        None => {
                            assert(a.neighborhoods@[ml].id == nid);
                        },
                    }
                }
            }
        }
    }
}

/// Appending `x` keeps a sequence extended with `x` only.
pub(crate) proof fn lemma_extended_push<T>(before: Seq<T>, after: Seq<T>, x: T)
    requires
        extended_with(before, after, x),
    ensures
        extended_with(before, after.push(x), x),
{
    assert(after.push(x).take(before.len() as int) =~= after.take(before.len() as int));
}

/// Recording the link in the existing neighborhood `j` keeps the
/// neighborhoods extended as `add_link` does, and changes no first-generated
/// index.
pub(crate) proof fn lemma_neighborhoods_reuse(
    s0n: Seq<Neighborhood>,
    n1: Seq<Neighborhood>,
    n2: Seq<Neighborhood>,
    link_id: LinkId,
    source: NeighborhoodId,
    members: Seq<StateId>,
    targets: Seq<StateId>,
    t: StateId,
    j: int,
)
    requires
        neighborhoods_extended(s0n, n1, link_id, source, members, targets),
        0 <= j < n1.len(),
        n2.len() == n1.len(),
        forall|k: int| 0 <= k < n1.len() && k != j ==> n2[k] == n1[k],
        n2[j].id == n1[j].id,
        n2[j].members@ == n1[j].members@,
        n2[j].generated_from == n1[j].generated_from,
        n2[j].source_links@ == n1[j].source_links@.push(link_id),
    ensures
        neighborhoods_extended(s0n, n2, link_id, source, members, targets.push(t)),
        forall|key: (NeighborhoodId, StateId)| #[trigger] first_generated_index(n2, key) == first_generated_index(n1, key),
{
    assert forall|key: (NeighborhoodId, StateId)| #[trigger] first_generated_index(n2, key) == first_generated_index(n1, key) by {
        assert forall|i: int| 0 <= i < n2.len() implies (#[trigger] n2[i]).generated_from == n1[i].generated_from by {}
        lemma_first_generated_index_same(n2, n1, key);
    }
    let targets2 = targets.push(t);
    assert forall|k: int| 0 <= k < s0n.len() implies {
        &&& (#[trigger] n2[k]).id == s0n[k].id
        &&& n2[k].members@ == s0n[k].members@
        &&& n2[k].generated_from == s0n[k].generated_from
        &&& extended_with(s0n[k].source_links@, n2[k].source_links@, link_id)
    } by {
        assert(n1[k].id == s0n[k].id);
        if k == j {
            lemma_extended_push(s0n[k].source_links@, n1[k].source_links@, link_id);
        }
    }
    assert forall|k: int| s0n.len() <= k < n2.len() implies {
        &&& (#[trigger] n2[k]).members@ == members
        &&& n2[k].generated_from matches Some(key) && key.0 == source && targets2.contains(key.1)
            && first_generated_index(n2, key) == Some(k)
        &&& n2[k].source_links@.len() > 0
        &&& extended_with(Seq::empty(), n2[k].source_links@, link_id)
        &&& forall|l: int| 0 <= l < n2.len() && l != k ==> n2[l].id != n2[k].id
    } by {
        assert(n1[k].members@ == members);
        let key = n1[k].generated_from->0;
        assert(first_generated_index(n2, key) == first_generated_index(n1, key));
        let w = choose|w: int| 0 <= w < targets.len() && targets[w] == key.1;
        assert(targets2[w] == key.1);
        if k == j {
            lemma_extended_push(Seq::empty(), n1[k].source_links@, link_id);
        }
        assert forall|l: int| 0 <= l < n2.len() && l != k implies n2[l].id != n2[k].id by {
            assert(n1[l].id != n1[k].id);
        }
    }
}

/// Appending the new neighborhood `nh` for target `t` keeps the
/// neighborhoods extended as `add_link` does; it becomes the first one
/// generated for (`source`, `t`) and changes the first-generated index of no
/// other key.
pub(crate) proof fn lemma_neighborhoods_create(
    s0n: Seq<Neighborhood>,
    n1: Seq<Neighborhood>,
    nh: Neighborhood,
    link_id: LinkId,
    source: NeighborhoodId,
    members: Seq<StateId>,
    targets: Seq<StateId>,
    t: StateId,
)
    requires
        neighborhoods_extended(s0n, n1, link_id, source, members, targets),
        first_generated_index(n1, (source, t)) is None,
        !id_in_use(n1, nh.id),
        nh.members@ == members,
        nh.generated_from == Some((source, t)),
        nh.source_links@ == seq![link_id],
    ensures
        neighborhoods_extended(s0n, n1.push(nh), link_id, source, members, targets.push(t)),
        first_generated_index(n1.push(nh), (source, t)) == Some(n1.len() as int),
        forall|key: (NeighborhoodId, StateId)| key != (source, t)
            ==> #[trigger] first_generated_index(n1.push(nh), key) == first_generated_index(n1, key),
{
    let n2 = n1.push(nh);
    let targets2 = targets.push(t);
    lemma_first_generated_index_push(n1, nh, (source, t));
    assert forall|key: (NeighborhoodId, StateId)| key != (source, t)
        implies #[trigger] first_generated_index(n2, key) == first_generated_index(n1, key) by {
        lemma_first_generated_index_push(n1, nh, key);
    }
    assert forall|k: int| 0 <= k < s0n.len() implies {
        &&& (#[trigger] n2[k]).id == s0n[k].id
        &&& n2[k].members@ == s0n[k].members@
        &&& n2[k].generated_from == s0n[k].generated_from
        &&& extended_with(s0n[k].source_links@, n2[k].source_links@, link_id)
    } by {
        assert(n2[k] == n1[k]);
        assert(n1[k].id == s0n[k].id);
    }
    assert forall|k: int| s0n.len() <= k < n2.len() implies {
        &&& (#[trigger] n2[k]).members@ == members
        &&& n2[k].generated_from matches Some(key) && key.0 == source && targets2.contains(key.1)
            && first_generated_index(n2, key) == Some(k)
        &&& n2[k].source_links@.len() > 0
        &&& extended_with(Seq::empty(), n2[k].source_links@, link_id)
        &&& forall|l: int| 0 <= l < n2.len() && l != k ==> n2[l].id != n2[k].id
    } by {
        if k < n1.len() {
            assert(n2[k] == n1[k]);
            assert(n1[k].members@ == members);
            let key = n1[k].generated_from->0;
            assert(first_generated_index(n1, key) == Some(k));
            lemma_first_generated_index_push(n1, nh, key);
            let w = choose|w: int| 0 <= w < targets.len() && targets[w] == key.1;
            assert(targets2[w] == key.1);
            assert forall|l: int| 0 <= l < n2.len() && l != k implies n2[l].id != n2[k].id by {
                if l < n1.len() {
                    assert(n1[l].id != n1[k].id);
                } else {
                    assert(n2[l] == nh);
                    if nh.id == n1[k].id {
                        assert(id_in_use(n1, nh.id));
                    }
                }
            }
        } else {
            assert(n2[k] == nh);
            assert(targets2[targets.len() as int] == t);
            assert(nh.source_links@.take(0) =~= Seq::<LinkId>::empty());
            assert forall|l: int| 0 <= l < n2.len() && l != k implies n2[l].id != n2[k].id by {
                assert(n2[l] == n1[l]);
                if n1[l].id == nh.id {
                    assert(id_in_use(n1, nh.id));
                }
            }
        }
    }
}

/// Assigning neighborhood `nid` (the first generated in `n2` for
/// (`source`, `t`)) to one more target keeps the targets assigned, given
/// that the earlier targets keep their neighborhoods.
pub(crate) proof fn lemma_assigned_step(
    n1: Seq<Neighborhood>,
    n2: Seq<Neighborhood>,
    link_id: LinkId,
    source: NeighborhoodId,
    targets: Seq<StateId>,
    assigned: Seq<NeighborhoodId>,
    t: StateId,
    nid: NeighborhoodId,
    jn: int,
)
    requires
        targets_assigned(n1, link_id, source, targets, assigned),
        forall|q: int| 0 <= q < targets.len() ==> {
            &&& #[trigger] first_generated_index(n2, (source, targets[q])) == first_generated_index(n1, (source, targets[q]))
            &&& first_generated_index(n1, (source, targets[q])) matches Some(k) ==> {
                &&& n2[k].id == n1[k].id
                &&& n1[k].source_links@.contains(link_id) ==> n2[k].source_links@.contains(link_id)
            }
        },
        first_generated_index(n2, (source, t)) == Some(jn),
        n2[jn].id == nid,
        n2[jn].source_links@.contains(link_id),
    ensures
        targets_assigned(n2, link_id, source, targets.push(t), assigned.push(nid)),
{
    let targets2 = targets.push(t);
    let assigned2 = assigned.push(nid);
    assert forall|q: int| 0 <= q < targets2.len() implies match #[trigger] first_generated_index(n2, (source, targets2[q])) {
        Some(j) => n2[j].id == assigned2[q] && n2[j].source_links@.contains(link_id),
        None => false,
    } by {
        if q < targets.len() {
            assert(targets2[q] == targets[q]);
            assert(assigned2[q] == assigned[q]);
            assert(first_generated_index(n2, (source, targets[q])) == first_generated_index(n1, (source, targets[q])));
        } else {
            assert(targets2[q] == t);
            assert(assigned2[q] == nid);
        }
    }
}

/// The confidences that `add_link` records. For each distribution entry `q`
/// whose neighborhood `assigned[q]` was assigned to no other entry, and each
/// state that is a member of that neighborhood (the first one generated for
/// (`source`, its target) in `nhs`): if the state already had a membership
/// in it, the first such membership's confidence `c` became
/// `merge(c, probability, prior)`, where `prior` is the number of source links the
/// neighborhood had before (none if it was created); otherwise its first
/// membership in it has the entry's probability as confidence.
pub open spec fn confidences_recorded<C, F: Fn(C, C, usize) -> C>(
    before: Seq<State<C>>,
    after: Seq<State<C>>,
    nhs_before: Seq<Neighborhood>,
    nhs: Seq<Neighborhood>,
    source: NeighborhoodId,
    distribution: Seq<(StateId, C)>,
    assigned: Seq<NeighborhoodId>,
    merge: F,
) -> bool {
    forall|q: int, i: int|
        #![trigger first_generated_index(nhs, (source, distribution[q].0)), before[i]]
        0 <= q < distribution.len() && 0 <= i < before.len()
        && (forall|q2: int| 0 <= q2 < assigned.len() && q2 != q ==> assigned[q2] != assigned[q])
        ==> match first_generated_index(nhs, (source, distribution[q].0)) {
            Some(j) => nhs[j].members@.contains(before[i].id) ==> {
                let prior = if j < nhs_before.len() { nhs_before[j].source_links.len() } else { 0 };
                match first_ref_index(before[i].neighborhoods@, assigned[q]) {
                    Some(pos) => merge.ensures(
                        (before[i].confidences@[pos], distribution[q].1, prior),
                        after[i].confidences@[pos],
                    ),
                    None => first_ref_index(after[i].neighborhoods@, assigned[q]) matches Some(r)
                        && after[i].confidences@[r] == distribution[q].1,
                }
            },
            None => true,
        }
}

/// Appending memberships in other neighborhoods does not change the first
/// membership in `id`.
pub(crate) proof fn lemma_first_ref_index_extended(b: Seq<NeighborhoodRef>, a: Seq<NeighborhoodRef>, id: NeighborhoodId)
    requires
        b.len() <= a.len(),
        a.take(b.len() as int) == b,
        forall|r: int| b.len() <= r < a.len() ==> a[r].id != id,
    ensures
        first_ref_index(a, id) == first_ref_index(b, id),
    decreases a.len(),
{
    if a.len() == b.len() {
        assert(a =~= b);
    } else {
        assert(a.drop_last().take(b.len() as int) =~= b);
        lemma_first_ref_index_extended(b, a.drop_last(), id);
    }
}

/// One more distribution entry handled: the confidences recorded for the
/// earlier entries stay recorded, and the new entry's are recorded.
pub(crate) proof fn lemma_confidences_step<C, F: Fn(C, C, usize) -> C>(
    s0: Seq<State<C>>,
    st1: Seq<State<C>>,
    st2: Seq<State<C>>,
    s0n: Seq<Neighborhood>,
    n1: Seq<Neighborhood>,
    n2: Seq<Neighborhood>,
    source: NeighborhoodId,
    d1: Seq<(StateId, C)>,
    a1: Seq<NeighborhoodId>,
    t: StateId,
    p: C,
    nid: NeighborhoodId,
    mems: Seq<StateId>,
    jn: int,
    prior: usize,
    merge: F,
)
    requires
        confidences_recorded(s0, st1, s0n, n1, source, d1, a1, merge),
        memberships_extended(s0, st1, n1, source, distribution_targets(d1), a1),
        states_attached(st1, st2, mems, nid, p, prior, merge),
        all_wf(s0),
        all_wf(st1),
        a1.len() == d1.len(),
        forall|q: int| 0 <= q < d1.len() ==> {
            &&& #[trigger] first_generated_index(n2, (source, d1[q].0)) == first_generated_index(n1, (source, d1[q].0))
            &&& first_generated_index(n1, (source, d1[q].0)) matches Some(j) ==> n2[j].members@ == n1[j].members@
        },
        first_generated_index(n2, (source, t)) == Some(jn),
        n2[jn].members@ == mems,
        !a1.contains(nid) ==> prior == if jn < s0n.len() { s0n[jn].source_links.len() } else { 0 },
    ensures
        confidences_recorded(s0, st2, s0n, n2, source, d1.push((t, p)), a1.push(nid), merge),
{
    let d2 = d1.push((t, p));
    let a2 = a1.push(nid);
    let tg = distribution_targets(d1);
    assert forall|q: int, i: int|
        0 <= q < d2.len() && 0 <= i < s0.len()
        && (forall|q2: int| 0 <= q2 < a2.len() && q2 != q ==> a2[q2] != a2[q])
        implies match #[trigger] first_generated_index(n2, (source, d2[q].0)) {
            Some(j) => n2[j].members@.contains((#[trigger] s0[i]).id) ==> {
                let prior2 = if j < s0n.len() { s0n[j].source_links.len() } else { 0 };
                match first_ref_index(s0[i].neighborhoods@, a2[q]) {
                    Some(pos) => merge.ensures((s0[i].confidences@[pos], d2[q].1, prior2), st2[i].confidences@[pos]),
                    None => first_ref_index(st2[i].neighborhoods@, a2[q]) matches Some(r)
                        && st2[i].confidences@[r] == d2[q].1,
                }
            },
            None => true,
        } by {
        let b = s0[i];
        let m = st1[i];
        let a = st2[i];
        assert(b.wf() && m.wf());
        let bl = b.neighborhoods@.len() as int;
        let ml = m.neighborhoods@.len() as int;
        assert(m.neighborhoods@.take(bl) == b.neighborhoods@);
        assert(m.id == b.id);
        if q < d1.len() {
            assert(d2[q] == d1[q]);
            assert(a2[q] == a1[q]);
            assert(a1[q] != nid) by {
                assert(a2[d1.len() as int] == nid);
            }
            assert forall|q2: int| 0 <= q2 < a1.len() && q2 != q implies a1[q2] != a1[q] by {
                assert(a2[q2] == a1[q2]);
            }
            assert(first_generated_index(n2, (source, d1[q].0)) == first_generated_index(n1, (source, d1[q].0)));
            match first_generated_index(n1, (source, d1[q].0)) {
                Some(j) => {
                    if n2[j].members@.contains(b.id) {
                        assert(n1[j].members@.contains(b.id));
                        lemma_first_ref_index(m.neighborhoods@, nid);
                        match first_ref_index(b.neighborhoods@, a1[q]) {
                            Some(pos) => {
                                lemma_first_ref_index(b.neighborhoods@, a1[q]);
                                assert(m.neighborhoods@[pos] == b.neighborhoods@[pos]) by {
                                    assert(m.neighborhoods@.take(bl)[pos] == m.neighborhoods@[pos]);
                                }
                                if mems.contains(m.id) {
                                    assert(attached(m, a, nid, p, prior, merge));
                                }
                            },
                            None => {
                                let r = first_ref_index(m.neighborhoods@, a1[q])->0;
                                lemma_first_ref_index(m.neighborhoods@, a1[q]);
                                if mems.contains(m.id) {
                                    assert(attached(m, a, nid, p, prior, merge));
                                    match first_ref_index(m.neighborhoods@, nid) {
                                        Some(pos2) => {},
                                        None => {
                                            assert(a.neighborhoods@.take(ml) =~= m.neighborhoods@);
                                            lemma_first_ref_index_extended(m.neighborhoods@, a.neighborhoods@, a1[q]);
                                        },
                                    }
                                }
                            },
                        }
                    }
                },
                None => {},
            }
        } else {
            assert(q == d1.len());
            assert(d2[q] == (t, p));
            assert(a2[q] == nid);
            assert(!a1.contains(nid)) by {
                if a1.contains(nid) {
                    let k = choose|k: int| 0 <= k < a1.len() && a1[k] == nid;
                    assert(a2[k] == a1[k]);
                }
            }
            if n2[jn].members@.contains(b.id) {
                assert(mems.contains(m.id));
                assert(attached(m, a, nid, p, prior, merge));
                assert forall|r: int| bl <= r < ml implies m.neighborhoods@[r].id != nid by {
                    assert(a1.contains(m.neighborhoods@[r].id));
                }
                lemma_first_ref_index_extended(b.neighborhoods@, m.neighborhoods@, nid);
                lemma_first_ref_index(b.neighborhoods@, nid);
                match first_ref_index(b.neighborhoods@, nid) {
                    Some(pos) => {
                        assert(m.confidences@[pos] == b.confidences@[pos]);
                    },
                    None => {
                        assert(a.neighborhoods@.drop_last() =~= m.neighborhoods@);
                        assert(a.neighborhoods@.last().id == nid);
                    },
                }
            }
        }
    }
}

/// No two neighborhoods were generated for the same (source, target) pair.
pub open spec fn origins_unique(nhs: Seq<Neighborhood>) -> bool {
    forall|i: int, j: int| 0 <= i < j < nhs.len() && (#[trigger] nhs[i]).generated_from is Some
        ==> nhs[i].generated_from != (#[trigger] nhs[j]).generated_from
}

/// `add_link` merges rather than duplicates: when no two neighborhoods were
/// generated for the same (source, target) pair before, none are after.
pub proof fn lemma_add_link_keeps_origins_unique(
    before: Seq<Neighborhood>,
    after: Seq<Neighborhood>,
    link_id: LinkId,
    source: NeighborhoodId,
    members: Seq<StateId>,
    targets: Seq<StateId>,
)
    requires
        neighborhoods_extended(before, after, link_id, source, members, targets),
        origins_unique(before),
    ensures
        origins_unique(after),
{
    assert forall|i: int, j: int| 0 <= i < j < after.len() && (#[trigger] after[i]).generated_from is Some
        implies after[i].generated_from != (#[trigger] after[j]).generated_from by {
        if j < before.len() {
            assert(before[i].generated_from != before[j].generated_from);
        } else {
            let key = after[j].generated_from->0;
            lemma_first_generated_index(after, key);
        }
    }
}

/// Index of the first occurrence of `id` in `ids`, if any.
pub open spec fn first_id_index(ids: Seq<NeighborhoodId>, id: NeighborhoodId) -> Option<int>
    decreases ids.len(),
{
    if ids.len() == 0 {
        None
    } else if ids.last() == id && first_id_index(ids.drop_last(), id) is None {
        Some(ids.len() - 1)
    } else {
        first_id_index(ids.drop_last(), id)
    }
}

/// `first_id_index` is the least index holding `id`.
pub proof fn lemma_first_id_index(ids: Seq<NeighborhoodId>, id: NeighborhoodId)
    ensures
        match first_id_index(ids, id) {
            Some(i) => 0 <= i < ids.len() && ids[i] == id && forall|j: int| 0 <= j < i ==> ids[j] != id,
            None => !ids.contains(id),
        },
    decreases ids.len(),
{
    if ids.len() > 0 {
        lemma_first_id_index(ids.drop_last(), id);
        assert forall|j: int| 0 <= j < ids.len() - 1 implies ids.drop_last()[j] == ids[j] by {}
        if first_id_index(ids, id) is None {
            assert forall|j: int| 0 <= j < ids.len() implies ids[j] != id by {
                if j < ids.len() - 1 {
                    assert(ids.drop_last()[j] == ids[j]);
                }
            }
        }
    }
}

/// The neighborhoods that `add_link` creates come in the order in which
/// their identifiers were first assigned, and each has the smallest
/// identifier that no neighborhood before it has.
pub open spec fn creations_ordered(before_len: nat, after: Seq<Neighborhood>, assigned: Seq<NeighborhoodId>) -> bool {
    &&& forall|j: int| before_len <= j < after.len() ==> {
        &&& first_id_index(assigned, (#[trigger] after[j]).id) is Some
        &&& forall|x: usize| x < after[j].id.0 ==> id_in_use(after.take(j), NeighborhoodId(x))
    }
    &&& forall|j: int, k: int| before_len <= j < k < after.len()
        ==> first_id_index(assigned, (#[trigger] after[j]).id)->0 < first_id_index(assigned, (#[trigger] after[k]).id)->0
}

/// Neighborhood sequences with the same identifiers at every position.
pub open spec fn same_ids(a: Seq<Neighborhood>, b: Seq<Neighborhood>) -> bool {
    a.len() == b.len() && forall|i: int| 0 <= i < a.len() ==> (#[trigger] a[i]).id == b[i].id
}

/// Whether an identifier is in use depends only on the identifiers.
pub(crate) proof fn lemma_id_in_use_same_ids(a: Seq<Neighborhood>, b: Seq<Neighborhood>, id: NeighborhoodId)
    requires
        same_ids(a, b),
    ensures
        id_in_use(a, id) == id_in_use(b, id),
{
    if id_in_use(a, id) {
        let j = choose|j: int| 0 <= j < a.len() && (#[trigger] a[j]).id == id;
        assert(b[j].id == id);
    }
    if id_in_use(b, id) {
        let j = choose|j: int| 0 <= j < b.len() && (#[trigger] b[j]).id == id;
        assert(a[j].id == id);
    }
}

/// Assigning `nid` to one more target, with the neighborhoods' identifiers
/// unchanged, keeps the creations ordered.
pub(crate) proof fn lemma_creations_reuse(before_len: nat, n1: Seq<Neighborhood>, n2: Seq<Neighborhood>, a1: Seq<NeighborhoodId>, nid: NeighborhoodId)
    requires
        creations_ordered(before_len, n1, a1),
        same_ids(n1, n2),
    ensures
        creations_ordered(before_len, n2, a1.push(nid)),
{
    let a2 = a1.push(nid);
    assert forall|id: NeighborhoodId| first_id_index(a1, id) is Some implies first_id_index(a2, id) == first_id_index(a1, id) by {
        assert(a2.drop_last() =~= a1);
    }
    assert forall|j: int| before_len <= j < n2.len() implies {
        &&& first_id_index(a2, (#[trigger] n2[j]).id) is Some
        &&& forall|x: usize| x < n2[j].id.0 ==> id_in_use(n2.take(j), NeighborhoodId(x))
    } by {
        assert(n1[j].id == n2[j].id);
        assert(same_ids(n1.take(j), n2.take(j)));
        assert forall|x: usize| x < n2[j].id.0 implies id_in_use(n2.take(j), NeighborhoodId(x)) by {
            lemma_id_in_use_same_ids(n1.take(j), n2.take(j), NeighborhoodId(x));
        }
    }
    assert forall|j: int, k: int| before_len <= j < k < n2.len()
        implies first_id_index(a2, (#[trigger] n2[j]).id)->0 < first_id_index(a2, (#[trigger] n2[k]).id)->0 by {
        assert(n1[j].id == n2[j].id && n1[k].id == n2[k].id);
        assert(first_id_index(a1, n1[j].id)->0 < first_id_index(a1, n1[k].id)->0);
    }
}

/// Appending the created neighborhood `nh`, whose identifier is the smallest
/// one not in use and is not yet assigned, and assigning it, keeps the
/// creations ordered.
pub(crate) proof fn lemma_creations_create(before_len: nat, n1: Seq<Neighborhood>, nh: Neighborhood, a1: Seq<NeighborhoodId>)
    requires
        creations_ordered(before_len, n1, a1),
        before_len <= n1.len(),
        !a1.contains(nh.id),
        forall|x: usize| x < nh.id.0 ==> id_in_use(n1, NeighborhoodId(x)),
    ensures
        creations_ordered(before_len, n1.push(nh), a1.push(nh.id)),
{
    let a2 = a1.push(nh.id);
    let n2 = n1.push(nh);
    assert(a2.drop_last() =~= a1);
    assert forall|id: NeighborhoodId| first_id_index(a1, id) is Some implies first_id_index(a2, id) == first_id_index(a1, id) by {}
    lemma_first_id_index(a1, nh.id);
    assert(first_id_index(a2, nh.id) == Some(a1.len() as int));
    assert forall|id: NeighborhoodId| first_id_index(a1, id) is Some implies (first_id_index(a1, id)->0) < a1.len() by {
        lemma_first_id_index(a1, id);
    }
    assert forall|j: int| before_len <= j < n2.len() implies {
        &&& first_id_index(a2, (#[trigger] n2[j]).id) is Some
        &&& forall|x: usize| x < n2[j].id.0 ==> id_in_use(n2.take(j), NeighborhoodId(x))
    } by {
        if j < n1.len() {
            assert(n2[j] == n1[j]);
            assert(n2.take(j) =~= n1.take(j));
        } else {
            assert(n2.take(j) =~= n1);
        }
    }
    assert forall|j: int, k: int| before_len <= j < k < n2.len()
        implies first_id_index(a2, (#[trigger] n2[j]).id)->0 < first_id_index(a2, (#[trigger] n2[k]).id)->0 by {
        assert(n2[j] == n1[j]);
        if k < n1.len() {
            assert(n2[k] == n1[k]);
        }
    }
}

/// A state that is a member of none of the neighborhoods assigned to the
/// targets (the first ones generated for (`source`, target) in `nhs`) is
/// unchanged.
pub open spec fn nonmembers_unchanged<C>(
    before: Seq<State<C>>,
    after: Seq<State<C>>,
    nhs: Seq<Neighborhood>,
    source: NeighborhoodId,
    targets: Seq<StateId>,
) -> bool {
    forall|i: int| 0 <= i < before.len() && i < after.len()
        && (forall|q: int| 0 <= q < targets.len() ==> match #[trigger] first_generated_index(nhs, (source, targets[q])) {
            Some(j) => !nhs[j].members@.contains(before[i].id),
            None => true,
        })
        ==> #[trigger] after[i] == before[i]
}

/// One more target handled keeps the states that are members of none of
/// the assigned neighborhoods unchanged.
pub(crate) proof fn lemma_nonmembers_step<C, F: Fn(C, C, usize) -> C>(
    s0: Seq<State<C>>,
    st1: Seq<State<C>>,
    st2: Seq<State<C>>,
    n1: Seq<Neighborhood>,
    n2: Seq<Neighborhood>,
    source: NeighborhoodId,
    targets: Seq<StateId>,
    t: StateId,
    nid: NeighborhoodId,
    mems: Seq<StateId>,
    jn: int,
    p: C,
    prior: usize,
    merge: F,
)
    requires
        nonmembers_unchanged(s0, st1, n1, source, targets),
        states_attached(st1, st2, mems, nid, p, prior, merge),
        st1.len() == s0.len(),
        forall|i: int| 0 <= i < s0.len() ==> (#[trigger] st1[i]).id == s0[i].id,
        forall|q: int| 0 <= q < targets.len() ==> {
            &&& #[trigger] first_generated_index(n2, (source, targets[q])) == first_generated_index(n1, (source, targets[q]))
            &&& first_generated_index(n1, (source, targets[q])) matches Some(j) ==> n2[j].members@ == n1[j].members@
        },
        first_generated_index(n2, (source, t)) == Some(jn),
        n2[jn].members@ == mems,
    ensures
        nonmembers_unchanged(s0, st2, n2, source, targets.push(t)),
{
    let targets2 = targets.push(t);
    assert forall|i: int| 0 <= i < s0.len() && i < st2.len()
        && (forall|q: int| 0 <= q < targets2.len() ==> match #[trigger] first_generated_index(n2, (source, targets2[q])) {
            Some(j) => !n2[j].members@.contains(s0[i].id),
            None => true,
        })
        implies #[trigger] st2[i] == s0[i] by {
        assert forall|q: int| 0 <= q < targets.len() implies match #[trigger] first_generated_index(n1, (source, targets[q])) {
            Some(j) => !n1[j].members@.contains(s0[i].id),
            None => true,
        } by {
            assert(targets2[q] == targets[q]);
            assert(first_generated_index(n2, (source, targets[q])) == first_generated_index(n1, (source, targets[q])));
        }
        assert(st1[i] == s0[i]);
        assert(targets2[targets.len() as int] == t);
        assert(!mems.contains(st1[i].id));
    }
}

/// The identifiers of the memberships appended to `after` beyond those of
/// `before`, in order.
pub open spec fn appended_ids<C>(before: State<C>, after: State<C>) -> Seq<NeighborhoodId> {
    after.neighborhoods@.skip(before.neighborhoods@.len() as int).map_values(|r: NeighborhoodRef| r.id)
}

/// `xs` occurs in `ys` in order: there are increasing positions of `ys`
/// holding the elements of `xs`.
pub open spec fn in_order_within(xs: Seq<NeighborhoodId>, ys: Seq<NeighborhoodId>) -> bool {
    exists|f: Seq<int>| {
        &&& f.len() == xs.len()
        &&& forall|k: int| 0 <= k < f.len() ==> 0 <= #[trigger] f[k] < ys.len() && ys[f[k]] == xs[k]
        &&& forall|k: int, l: int| 0 <= k < l < f.len() ==> #[trigger] f[k] < #[trigger] f[l]
    }
}

/// The memberships a state gains are appended in the order in which their
/// neighborhoods were assigned.
pub open spec fn memberships_in_order<C>(before: Seq<State<C>>, after: Seq<State<C>>, assigned: Seq<NeighborhoodId>) -> bool {
    forall|i: int| 0 <= i < before.len() && i < after.len()
        ==> in_order_within(appended_ids(before[i], #[trigger] after[i]), assigned)
}

/// Attaching the states to the neighborhood `nid` assigned next keeps their
/// appended memberships in assignment order.
pub(crate) proof fn lemma_memberships_in_order_step<C, F: Fn(C, C, usize) -> C>(
    s0: Seq<State<C>>,
    st1: Seq<State<C>>,
    st2: Seq<State<C>>,
    a1: Seq<NeighborhoodId>,
    mems: Seq<StateId>,
    nid: NeighborhoodId,
    p: C,
    prior: usize,
    merge: F,
)
    requires
        memberships_in_order(s0, st1, a1),
        states_attached(st1, st2, mems, nid, p, prior, merge),
        st1.len() == s0.len(),
        forall|i: int| 0 <= i < s0.len() ==> (#[trigger] s0[i]).neighborhoods@.len() <= st1[i].neighborhoods@.len(),
    ensures
        memberships_in_order(s0, st2, a1.push(nid)),
{
    let a2 = a1.push(nid);
    assert forall|i: int| 0 <= i < s0.len() && i < st2.len()
        implies in_order_within(appended_ids(s0[i], #[trigger] st2[i]), a2) by {
        let b = s0[i];
        let m = st1[i];
        let a = st2[i];
        let bl = b.neighborhoods@.len() as int;
        let xs1 = appended_ids(b, m);
        let xs2 = appended_ids(b, a);
        assert(in_order_within(xs1, a1));
        let f = choose|f: Seq<int>| {
            &&& f.len() == xs1.len()
            &&& forall|k: int| 0 <= k < f.len() ==> 0 <= #[trigger] f[k] < a1.len() && a1[f[k]] == xs1[k]
            &&& forall|k: int, l: int| 0 <= k < l < f.len() ==> #[trigger] f[k] < #[trigger] f[l]
        };
        let pushed = mems.contains(m.id) && first_ref_index(m.neighborhoods@, nid) is None;
        if pushed {
            assert(attached(m, a, nid, p, prior, merge));
            assert(xs2 =~= xs1.push(nid));
            let g = f.push(a1.len() as int);
            assert forall|k: int| 0 <= k < g.len() implies 0 <= #[trigger] g[k] < a2.len() && a2[g[k]] == xs2[k] by {
                if k < f.len() {
                    assert(g[k] == f[k]);
                    assert(a2[f[k]] == a1[f[k]]);
                }
            }
            assert forall|k: int, l: int| 0 <= k < l < g.len() implies #[trigger] g[k] < #[trigger] g[l] by {
                if l < f.len() {
                    assert(g[k] == f[k] && g[l] == f[l]);
                } else {
                    assert(g[k] == f[k]);
                }
            }
            assert(g.len() == xs2.len());
            assert(in_order_within(xs2, a2));
        } else {
            if mems.contains(m.id) {
                assert(attached(m, a, nid, p, prior, merge));
            }
            assert(a.neighborhoods@ == m.neighborhoods@);
            assert(xs2 =~= xs1);
            assert forall|k: int| 0 <= k < f.len() implies 0 <= #[trigger] f[k] < a2.len() && a2[f[k]] == xs2[k] by {
                assert(a2[f[k]] == a1[f[k]]);
            }
            assert(f.len() == xs2.len());
            assert(forall|k: int, l: int| 0 <= k < l < f.len() ==> #[trigger] f[k] < #[trigger] f[l]);
            assert(in_order_within(xs2, a2));
        }
    }
}

/// One step of link insertion, for the distribution entry `entry` =
/// `(target, probability)`, from neighborhoods `n1` and states `s1` to `n2`
/// and `s2`. If a neighborhood was already generated for the pair (link
/// source, target), the first such one is `assigned`: the link is appended
/// to its source links, and its members are attached to it with the
/// probability, `prior` being the number of source links it had. Otherwise
/// a neighborhood with the smallest unused identifier is appended, with the
/// members of the link's source neighborhood, the link as its only source
/// link and the pair as its origin, and those members are attached to it
/// with the probability and a `prior` of zero.
pub open spec fn generation_step<C, F: Fn(C, C, usize) -> C>(
    n1: Seq<Neighborhood>,
    s1: Seq<State<C>>,
    n2: Seq<Neighborhood>,
    s2: Seq<State<C>>,
    link_id: LinkId,
    source: NeighborhoodId,
    members: Seq<StateId>,
    entry: (StateId, C),
    assigned: NeighborhoodId,
    merge: F,
) -> bool {
    match first_generated_index(n1, (source, entry.0)) {
        Some(j) => {
            &&& assigned == n1[j].id
            &&& n2.len() == n1.len()
            &&& forall|k: int| 0 <= k < n1.len() && k != j ==> #[trigger] n2[k] == n1[k]
            &&& n2[j].id == n1[j].id
            &&& n2[j].members@ == n1[j].members@
            &&& n2[j].generated_from == n1[j].generated_from
            &&& n2[j].source_links@ == n1[j].source_links@.push(link_id)
            &&& states_attached(s1, s2, n1[j].members@, assigned, entry.1, n1[j].source_links@.len() as usize, merge)
        },
        None => {
            &&& !id_in_use(n1, assigned)
            &&& forall|x: usize| x < assigned.0 ==> id_in_use(n1, NeighborhoodId(x))
            &&& n2.len() == n1.len() + 1
            &&& n2.drop_last() == n1
            &&& n2.last().id == assigned
            &&& n2.last().members@ == members
            &&& n2.last().source_links@ == seq![link_id]
            &&& n2.last().generated_from == Some((source, entry.0))
            &&& states_attached(s1, s2, members, assigned, entry.1, 0, merge)
        },
    }
}

/// Step `q` of a chain of link-insertion steps.
pub open spec fn chain_step<C, F: Fn(C, C, usize) -> C>(
    nhs: Seq<Seq<Neighborhood>>,
    states: Seq<Seq<State<C>>>,
    q: int,
    link_id: LinkId,
    source: NeighborhoodId,
    members: Seq<StateId>,
    distribution: Seq<(StateId, C)>,
    assigned: Seq<NeighborhoodId>,
    merge: F,
) -> bool {
    generation_step(nhs[q], states[q], nhs[q + 1], states[q + 1], link_id, source, members, distribution[q], assigned[q], merge)
}

/// Link insertion as a whole: `nhs` and `states` are the neighborhoods and
/// states before each entry of `distribution` and after the last, and each
/// entry is one `generation_step`, assigning `assigned[q]`.
pub open spec fn generation_chain<C, F: Fn(C, C, usize) -> C>(
    nhs: Seq<Seq<Neighborhood>>,
    states: Seq<Seq<State<C>>>,
    link_id: LinkId,
    source: NeighborhoodId,
    members: Seq<StateId>,
    distribution: Seq<(StateId, C)>,
    assigned: Seq<NeighborhoodId>,
    merge: F,
) -> bool {
    &&& nhs.len() == distribution.len() + 1
    &&& states.len() == distribution.len() + 1
    &&& assigned.len() == distribution.len()
    &&& forall|q: int| 0 <= q < distribution.len()
        ==> #[trigger] chain_step(nhs, states, q, link_id, source, members, distribution, assigned, merge)
}

/// The target states of a measured distribution, in order.
pub open spec fn distribution_targets<C>(distribution: Seq<(StateId, C)>) -> Seq<StateId> {
    distribution.map_values(|e: (StateId, C)| e.0)
}

} // verus!
