use ling::feature::FeatureId;
use ling::mapping::{CompositionExample, CompositionLearner, FeatureWeight, OutputMapping, StateOutputDistribution};
use ling::probability::{select_argmax, AmplitudeDistribution};
use ling::state::{LinkId, Neighborhood, NeighborhoodId, NeighborhoodRef, State, StateId, StateSpace, Type1Link, Type2Link};

/// Born distribution of a link when the given sources are active: the
/// coefficients of the active type-1 links are summed per target, squared
/// and normalized; entries are ordered by target.
fn born_distribution(link: &Type2Link<f64>, active: &[StateId]) -> Vec<(StateId, f64)> {
    let mut amplitudes: AmplitudeDistribution<f64> = AmplitudeDistribution::new();
    for l in link.active_links(active) {
        amplitudes.add(l.target.0, l.coefficient, 0.0, |a, b| a + b);
    }
    let entries = amplitudes.entries();
    let total: f64 = entries.iter().map(|(_, a)| a * a).sum();
    if total <= 0.0 {
        return Vec::new();
    }
    entries.iter().map(|(t, a)| (StateId(*t), a * a / total)).collect()
}

/// Born probabilities of accumulated amplitudes, by key in increasing order.
fn born(amplitudes: &AmplitudeDistribution<f64>) -> Vec<(usize, f64)> {
    let entries = amplitudes.entries();
    let total: f64 = entries.iter().map(|(_, a)| a * a).sum();
    if total <= 0.0 {
        return Vec::new();
    }
    entries.iter().map(|(k, a)| (*k, a * a / total)).collect()
}

/// The most probable key among `allowed` (all keys when `None`).
fn most_probable(probabilities: &[(usize, f64)], allowed: Option<&[usize]>) -> Option<usize> {
    let ranks: Vec<i64> = probabilities.iter().map(|entry| rank(entry.1)).collect();
    let keys: Vec<usize> = probabilities.iter().map(|entry| entry.0).collect();
    select_argmax(&ranks, &keys, allowed).map(|i| probabilities[i].0)
}

/// The feature distribution a link emits: products of link and output
/// coefficients summed per feature as amplitudes, then Born probabilities.
fn link_output_distribution(mapping: &OutputMapping<f64>, link: &Type2Link<f64>) -> Vec<(usize, f64)> {
    let mut amplitudes: AmplitudeDistribution<f64> = AmplitudeDistribution::new();
    for (feature, coefficient, weight) in mapping.link_contributions(link) {
        amplitudes.add(feature.0, coefficient * weight, 0.0, |a, b| a + b);
    }
    born(&amplitudes)
}

/// An integer rank ordering reals as `f64::total_cmp` does.
fn rank(x: f64) -> i64 {
    let bits = x.to_bits() as i64;
    bits ^ ((((bits >> 63) as u64) >> 1) as i64)
}

/// The weighted Jaccard similarity of two states over their positive
/// neighborhood memberships (1.0 for a state without any, with itself).
fn similarity(space: &StateSpace<f64>, left: StateId, right: StateId) -> f64 {
    let (Some(l), Some(r)) = (space.state(left), space.state(right)) else {
        return 0.0;
    };
    let memberships = |s: &State<f64>| -> Vec<(NeighborhoodId, f64)> {
        let mut m: Vec<(NeighborhoodId, f64)> = Vec::new();
        for (n, c) in s.neighborhoods.iter().zip(&s.confidences) {
            if *c > 0.0 {
                m.retain(|(k, _)| *k != n.id);
                m.push((n.id, *c));
            }
        }
        m
    };
    let (lm, rm) = (memberships(l), memberships(r));
    let get = |m: &Vec<(NeighborhoodId, f64)>, id: NeighborhoodId| m.iter().find(|(k, _)| *k == id).map(|(_, c)| *c).unwrap_or(0.0);
    let (mut num, mut den) = (0.0, 0.0);
    for (id, c) in &lm {
        num += c.min(get(&rm, *id));
        den += c.max(get(&rm, *id));
    }
    for (id, c) in &rm {
        if !lm.iter().any(|(k, _)| k == id) {
            den += c;
        }
    }
    if den > 0.0 {
        num / den
    } else if l.id == r.id {
        1.0
    } else {
        0.0
    }
}

/// The running mean used to merge confidences.
fn mean(old: f64, p: f64, prior: usize) -> f64 {
    (old * prior as f64 + p) / (prior as f64 + 1.0)
}

/// Add a link with the Born distribution of its source neighborhood.
fn add_link(space: &mut StateSpace<f64>, link: Type2Link<f64>) {
    let members = space
        .neighborhood(link.source)
        .map(|n| n.members.clone())
        .unwrap_or_default();
    let distribution = born_distribution(&link, &members);
    space.add_link(link, &distribution, mean);
}

#[test]
fn type2_link_generates_complete_type1_links() {
    let source_members = vec![StateId(0), StateId(1), StateId(2)];
    let link = Type2Link::complete(
        LinkId(0),
        NeighborhoodId(0),
        &source_members,
        vec![StateId(3), StateId(4)],
        0.5,
    );

    assert_eq!(link.type1_links.len(), 6);
    assert!(link
        .type1_links
        .iter()
        .any(|link| link.source == StateId(0) && link.target == StateId(3)));
    assert!(link.type1_links.iter().all(|link| link.coefficient == 0.5));
}

#[test]
fn type2_link_activation_filters_by_active_source() {
    let source_members = vec![StateId(0), StateId(1)];
    let link = Type2Link::complete(
        LinkId(0),
        NeighborhoodId(0),
        &source_members,
        vec![StateId(2), StateId(3)],
        1.0,
    );

    let probabilities = born_distribution(&link, &[StateId(0)]);
    let targets: Vec<StateId> = probabilities.iter().map(|entry| entry.0).collect();

    assert_eq!(targets, vec![StateId(2), StateId(3)]);
    let ranks: Vec<i64> = probabilities.iter().map(|entry| rank(entry.1)).collect();
    let keys: Vec<usize> = probabilities.iter().map(|entry| entry.0 .0).collect();
    let allowed: Vec<usize> = link.target.iter().map(|t| t.0).collect();
    let selected = select_argmax(&ranks, &keys, Some(&allowed)).map(|i| probabilities[i].0);
    assert_eq!(selected, Some(StateId(2)));
}

#[test]
fn composition_transfer_uses_state_similarity() {
    let direction = NeighborhoodId(0);
    let mut state_space = StateSpace::new();
    state_space.add_neighborhood(Neighborhood::new(
        direction,
        vec![StateId(0), StateId(1), StateId(2)],
    ));

    let turn = StateId(10);
    let a = StateId(0);
    let c = StateId(2);
    state_space.add_state(State::new(
        a,
        vec![FeatureId(0)],
        vec![NeighborhoodRef::from(direction)],
        vec![1.0],
    ));
    state_space.add_state(State::new(
        StateId(1),
        vec![FeatureId(1)],
        vec![NeighborhoodRef::from(direction)],
        vec![1.0],
    ));
    state_space.add_state(State::new(
        c,
        vec![FeatureId(2)],
        vec![NeighborhoodRef::from(direction)],
        vec![1.0],
    ));
    state_space.add_state(State::new(turn, vec![], vec![], vec![]));

    let source_members = vec![a, StateId(1), c];
    add_link(
        &mut state_space,
        Type2Link::complete(LinkId(0), direction, &source_members, vec![a], 1.0),
    );

    let mut learner = CompositionLearner::new(0.9);
    learner.add_example(CompositionExample {
        operator: turn,
        argument: a,
        result_link: LinkId(0),
    });

    // `a` and `c` share both of their neighborhoods with confidence 1.0, so
    // their similarity is 1.0, above the threshold.
    let similar: Vec<bool> = learner
        .examples
        .iter()
        .map(|example| similarity(&state_space, example.argument, c) >= learner.similarity_threshold)
        .collect();
    assert_eq!(similar, vec![true]);
    let generated = learner
        .transfer_single_target(turn, c, LinkId(1), &state_space, &similar, 1.0)
        .expect("similar state should transfer");

    assert_eq!(generated.target, vec![c]);
    assert_eq!(generated.source, direction);
}

#[test]
fn add_link_creates_target_neighborhood_with_born_confidence() {
    let src_nh = NeighborhoodId(0);
    let mut space = StateSpace::new();
    space.add_neighborhood(Neighborhood::new(
        src_nh,
        vec![StateId(0), StateId(1), StateId(2)],
    ));

    let a = StateId(0);
    let b = StateId(1);
    let c = StateId(2);
    let e = StateId(10);
    let d = StateId(11);
    for id in [a, b, c] {
        space.add_state(State::new(id, vec![], vec![], vec![]));
    }

    // {a,b,c} -> {e,d}, all coefficients 1.0
    // amp(e)=3, amp(d)=3, Born: P(e)=0.5, P(d)=0.5
    let source_members = vec![a, b, c];
    add_link(
        &mut space,
        Type2Link::complete(LinkId(0), src_nh, &source_members, vec![e, d], 1.0),
    );

    // src_nh + 2 target neighborhoods
    assert_eq!(space.neighborhoods.len(), 3);

    let target_nhs: Vec<_> = space
        .neighborhoods
        .iter()
        .filter(|n| n.id != src_nh)
        .collect();
    assert_eq!(target_nhs.len(), 2);
    for nh in &target_nhs {
        assert_eq!(nh.members, vec![a, b, c]);
        assert_eq!(nh.source_links, vec![LinkId(0)]);
    }

    // Each source state gets confidence 0.5 in each target neighborhood.
    for id in [a, b, c] {
        let state = space.state(id).unwrap();
        assert_eq!(state.confidences, vec![0.5, 0.5]);
    }

    // The link records its target neighborhoods.
    let link = &space.links[0];
    assert_eq!(link.target_neighborhoods.len(), 2);
}

#[test]
fn merge_averages_confidences_for_same_source_and_target() {
    let src_nh = NeighborhoodId(0);
    let mut space = StateSpace::new();
    space.add_neighborhood(Neighborhood::new(src_nh, vec![StateId(0), StateId(1)]));

    let a = StateId(0);
    let b = StateId(1);
    let e = StateId(10);
    for id in [a, b] {
        space.add_state(State::new(id, vec![], vec![], vec![]));
    }

    // Link 1: {a,b} -> {e}, P(e)=1.0
    let members = vec![a, b];
    add_link(
        &mut space,
        Type2Link::complete(LinkId(0), src_nh, &members, vec![e], 1.0),
    );

    // Link 2: {a,b} -> {e}, same (src, target) pair, P(e)=1.0
    // Born: amp(e)=2, total_sq=4, P=1.0. Merge: mean = (1.0+1.0)/2 = 1.0
    add_link(
        &mut space,
        Type2Link::complete(LinkId(1), src_nh, &members, vec![e], 1.0),
    );

    // Only 1 target neighborhood (merged), plus src_nh = 2 total
    assert_eq!(space.neighborhoods.len(), 2);

    // Both links reference the same target neighborhood
    assert_eq!(
        space.links[0].target_neighborhoods,
        space.links[1].target_neighborhoods
    );

    let target_nh = space.neighborhoods.iter().find(|n| n.id != src_nh).unwrap();
    assert_eq!(target_nh.source_links, vec![LinkId(0), LinkId(1)]);

    // Confidence should be mean of 1.0 and 1.0 = 1.0
    for id in [a, b] {
        let state = space.state(id).unwrap();
        assert_eq!(state.confidences.len(), 1);
        assert!((state.confidences[0] - 1.0).abs() < 1e-10);
    }
}

#[test]
fn different_source_neighborhoods_are_not_merged() {
    let nh0 = NeighborhoodId(0);
    let nh1 = NeighborhoodId(1);
    let mut space = StateSpace::new();
    space.add_neighborhood(Neighborhood::new(nh0, vec![StateId(0), StateId(1)]));
    space.add_neighborhood(Neighborhood::new(
        nh1,
        vec![StateId(0), StateId(1), StateId(2)],
    ));

    let a = StateId(0);
    let b = StateId(1);
    let c = StateId(2);
    let e = StateId(10);
    for id in [a, b, c] {
        space.add_state(State::new(id, vec![], vec![], vec![]));
    }

    // Link from nh0: {a,b} -> {e}, P(e)=1.0
    add_link(&mut space, Type2Link::complete(LinkId(0), nh0, &[a, b], vec![e], 1.0));

    // Link from nh1: {a,b,c} -> {e}, P(e)=1.0
    // Different source neighborhood → separate target neighborhood
    add_link(
        &mut space,
        Type2Link::complete(LinkId(1), nh1, &[a, b, c], vec![e], 1.0),
    );

    // nh0 + nh1 + 2 separate target neighborhoods = 4
    assert_eq!(space.neighborhoods.len(), 4);

    // The two target neighborhoods have different members
    let target_nhs: Vec<_> = space
        .neighborhoods
        .iter()
        .filter(|n| n.id != nh0 && n.id != nh1)
        .collect();
    assert_eq!(target_nhs.len(), 2);

    let members_sets: Vec<Vec<StateId>> = target_nhs.iter().map(|n| n.members.clone()).collect();
    assert!(members_sets.contains(&vec![a, b]));
    assert!(members_sets.contains(&vec![a, b, c]));
}

#[test]
fn amplitude_distribution_uses_born_rule_and_argmax_selection() {
    let mut distribution: AmplitudeDistribution<f64> = AmplitudeDistribution::new();
    distribution.add(StateId(0).0, 1.0, 0.0, |a, b| a + b);
    distribution.add(StateId(1).0, -2.0, 0.0, |a, b| a + b);

    let probabilities = born(&distribution);

    assert_eq!(probabilities.len(), 2);
    assert_eq!(most_probable(&probabilities, None).map(StateId), Some(StateId(1)));
}

#[test]
fn type2_link_output_is_projected_back_to_features() {
    let source_members = vec![StateId(0), StateId(1)];
    let link = Type2Link::complete(
        LinkId(0),
        NeighborhoodId(0),
        &source_members,
        vec![StateId(2)],
        1.0,
    );

    let mut output_mapping = OutputMapping::new();
    output_mapping.add_state_output(StateOutputDistribution::new(
        StateId(2),
        vec![
            FeatureWeight {
                feature: FeatureId(20),
                weight: 0.25,
            },
            FeatureWeight {
                feature: FeatureId(21),
                weight: 0.75,
            },
        ],
    ));

    let distribution = link_output_distribution(&output_mapping, &link);
    let mut amplitudes: AmplitudeDistribution<f64> = AmplitudeDistribution::new();
    for (feature, weight) in &distribution {
        amplitudes.add(*feature, weight.sqrt(), 0.0, |a, b| a + b);
    }
    let selected = most_probable(&born(&amplitudes), Some(&[20, 21])).map(FeatureId);

    assert_eq!(selected, Some(FeatureId(21)));
}

#[test]
fn output_projection_uses_coherent_amplitude_sum() {
    let link = Type2Link {
        id: LinkId(0),
        source: NeighborhoodId(0),
        target: vec![StateId(2), StateId(3)],
        type1_links: vec![
            Type1Link {
                source: StateId(0),
                target: StateId(2),
                coefficient: 1.0,
            },
            Type1Link {
                source: StateId(1),
                target: StateId(3),
                coefficient: -1.0,
            },
        ],
        target_neighborhoods: vec![],
    };

    let mut output_mapping = OutputMapping::new();
    output_mapping.add_state_output(StateOutputDistribution::new(
        StateId(2),
        vec![FeatureWeight {
            feature: FeatureId(20),
            weight: 1.0,
        }],
    ));
    output_mapping.add_state_output(StateOutputDistribution::new(
        StateId(3),
        vec![FeatureWeight {
            feature: FeatureId(20),
            weight: 1.0,
        }],
    ));

    let distribution = link_output_distribution(&output_mapping, &link);

    assert!(distribution.is_empty());
}
