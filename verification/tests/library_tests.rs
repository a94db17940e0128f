use ling::concept::{ConceptSpace, PruningConfig};
use ling::engine::trainer::{loss_capacity, records_loss};
use ling::feature::{Feature, FeatureId};
use ling::mapping::{CompositionExample, CompositionLearner, FeatureWeight, OutputMapping, StateOutputDistribution};
use ling::probability::{select_argmax, AmplitudeDistribution, SelectionMode};
use ling::state::{LinkId, Neighborhood, NeighborhoodId, NeighborhoodRef, State, StateId, StateSpace, Type2Link};

#[test]
fn feature_new_keeps_id() {
    assert_eq!(Feature::new(FeatureId(7)).id, FeatureId(7));
    assert_eq!(NeighborhoodRef::from(NeighborhoodId(3)).id, NeighborhoodId(3));
}

#[test]
fn argmax_prefers_rank_then_smaller_key() {
    assert_eq!(select_argmax(&[1, 5, 3], &[0, 1, 2], None), Some(1));
    assert_eq!(select_argmax(&[5, 5, 3], &[4, 2, 9], None), Some(1));
    assert_eq!(select_argmax(&[5, 5, 3], &[4, 2, 9], Some(&[4, 9])), Some(0));
    assert_eq!(select_argmax(&[5, 5, 3], &[4, 2, 9], Some(&[9])), Some(2));
    assert_eq!(select_argmax(&[5, 5, 3], &[4, 2, 9], Some(&[1])), None);
    assert_eq!(select_argmax(&[], &[], None), None);
    assert_eq!(select_argmax(&[2, 2], &[3, 3], None), Some(1));
    assert_ne!(SelectionMode::Argmax, SelectionMode::Sample);
}

#[test]
fn active_links_keep_order_and_filter_sources() {
    let link = Type2Link::complete(LinkId(0), NeighborhoodId(0), &[StateId(0), StateId(1)], vec![StateId(5), StateId(6)], 2u8);
    let active = link.active_links(&[StateId(1)]);
    let pairs: Vec<(StateId, StateId)> = active.iter().map(|l| (l.source, l.target)).collect();
    assert_eq!(pairs, vec![(StateId(1), StateId(5)), (StateId(1), StateId(6))]);
    assert!(link.active_links(&[]).is_empty());
    assert_eq!(link.active_links(&[StateId(0), StateId(1)]).len(), 4);
    let empty = Type2Link::complete(LinkId(1), NeighborhoodId(0), &[], vec![StateId(5)], 2u8);
    assert!(empty.type1_links.is_empty());
}

#[test]
fn state_space_lookups_find_first_match() {
    let mut space: StateSpace<u32> = StateSpace::new();
    space.add_state(State::new(StateId(1), vec![FeatureId(1)], vec![], vec![]));
    space.add_state(State::new(StateId(2), vec![], vec![NeighborhoodRef::from(NeighborhoodId(0))], vec![7]));
    space.add_state(State::new(StateId(1), vec![FeatureId(9)], vec![], vec![]));
    space.add_neighborhood(Neighborhood::new(NeighborhoodId(4), vec![StateId(1)]));
    space.add_neighborhood(Neighborhood::new(NeighborhoodId(4), vec![StateId(2)]));
    assert_eq!(space.state(StateId(1)).unwrap().support_features, vec![FeatureId(1)]);
    assert_eq!(space.state(StateId(2)).unwrap().confidences, vec![7]);
    assert!(space.state(StateId(3)).is_none());
    assert_eq!(space.neighborhood(NeighborhoodId(4)).unwrap().members, vec![StateId(1)]);
    assert!(space.neighborhood(NeighborhoodId(0)).is_none());
    assert_eq!(space.fresh_neighborhood_id(), NeighborhoodId(0));
}

#[test]
fn fresh_neighborhood_id_is_smallest_unused() {
    let mut space: StateSpace<u32> = StateSpace::new();
    space.add_neighborhood(Neighborhood::new(NeighborhoodId(0), vec![]));
    space.add_neighborhood(Neighborhood::new(NeighborhoodId(2), vec![]));
    assert_eq!(space.fresh_neighborhood_id(), NeighborhoodId(1));
    space.add_neighborhood(Neighborhood::new(NeighborhoodId(1), vec![]));
    assert_eq!(space.fresh_neighborhood_id(), NeighborhoodId(3));
}

#[test]
fn add_link_merges_with_given_rule_and_assigns_neighborhoods() {
    let src = NeighborhoodId(5);
    let mut space: StateSpace<u32> = StateSpace::new();
    space.add_neighborhood(Neighborhood::new(src, vec![StateId(0), StateId(1)]));
    space.add_state(State::new(StateId(0), vec![], vec![], vec![]));
    space.add_state(State::new(StateId(1), vec![], vec![], vec![]));
    space.add_state(State::new(StateId(2), vec![], vec![], vec![]));
    let sum = |old: u32, p: u32, _prior: usize| old + p;
    let link = Type2Link::complete(LinkId(0), src, &[StateId(0), StateId(1)], vec![StateId(8), StateId(9)], 1u32);
    space.add_link(link, &[(StateId(8), 3), (StateId(9), 4)], sum);
    assert_eq!(space.neighborhoods.len(), 3);
    assert_eq!(space.links[0].target_neighborhoods, vec![NeighborhoodId(0), NeighborhoodId(1)]);
    assert_eq!(space.neighborhoods[1].generated_from, Some((src, StateId(8))));
    assert_eq!(space.state(StateId(0)).unwrap().confidences, vec![3, 4]);
    assert!(space.state(StateId(2)).unwrap().neighborhoods.is_empty());
    let again = Type2Link::complete(LinkId(1), src, &[StateId(0), StateId(1)], vec![StateId(9)], 1u32);
    space.add_link(again, &[(StateId(9), 10)], sum);
    assert_eq!(space.neighborhoods.len(), 3);
    assert_eq!(space.links[1].target_neighborhoods, vec![NeighborhoodId(1)]);
    assert_eq!(space.neighborhoods[2].source_links, vec![LinkId(0), LinkId(1)]);
    assert_eq!(space.state(StateId(1)).unwrap().confidences, vec![3, 14]);
}

#[test]
fn transfer_requires_matching_single_target_similar_example() {
    let src = NeighborhoodId(0);
    let mut space: StateSpace<u32> = StateSpace::new();
    space.add_neighborhood(Neighborhood::new(src, vec![StateId(0), StateId(1)]));
    space.links.push(Type2Link::complete(LinkId(0), src, &[StateId(0)], vec![StateId(0)], 1));
    space.links.push(Type2Link::complete(LinkId(1), src, &[StateId(0)], vec![StateId(0), StateId(1)], 1));
    let mut learner = CompositionLearner::new(0u32);
    learner.add_example(CompositionExample { operator: StateId(10), argument: StateId(0), result_link: LinkId(1) });
    learner.add_example(CompositionExample { operator: StateId(10), argument: StateId(0), result_link: LinkId(0) });
    learner.add_example(CompositionExample { operator: StateId(11), argument: StateId(0), result_link: LinkId(0) });
    // The first example's link has two targets; the second transfers.
    let generated = learner
        .transfer_single_target(StateId(10), StateId(1), LinkId(7), &space, &[true, true, true], 3)
        .unwrap();
    assert_eq!(generated.id, LinkId(7));
    assert_eq!(generated.target, vec![StateId(1)]);
    let pairs: Vec<(StateId, StateId, u32)> = generated.type1_links.iter().map(|l| (l.source, l.target, l.coefficient)).collect();
    assert_eq!(pairs, vec![(StateId(0), StateId(1), 3), (StateId(1), StateId(1), 3)]);
    // Not similar enough: nothing transfers.
    assert!(learner
        .transfer_single_target(StateId(10), StateId(1), LinkId(7), &space, &[true, false, true], 3)
        .is_none());
    // Unknown operator.
    assert!(learner
        .transfer_single_target(StateId(12), StateId(1), LinkId(7), &space, &[true, true, true], 3)
        .is_none());
}

#[test]
fn output_mapping_finds_first_distribution() {
    let mut mapping: OutputMapping<u8> = OutputMapping::new();
    mapping.add_state_output(StateOutputDistribution::new(StateId(2), vec![FeatureWeight { feature: FeatureId(20), weight: 1 }]));
    mapping.add_state_output(StateOutputDistribution::new(StateId(2), vec![]));
    assert_eq!(mapping.state_output(StateId(2)).unwrap().features.len(), 1);
    assert!(mapping.state_output(StateId(3)).is_none());
}

#[test]
fn concept_space_grows_and_updates() {
    let mut space = ConceptSpace::new(2, 0u32);
    assert_eq!(space.size(), 2);
    assert_eq!(space.add_label(0), 2);
    assert_eq!(space.next_id, 3);
    assert_eq!(space.similarity, vec![vec![0; 3]; 3]);
    space.update_similarity(0, 2, 9);
    assert_eq!(space.similarity[0][2], 9);
    assert_eq!(space.similarity[2][0], 9);
    space.update_similarity(0, 5, 9);
    assert_eq!(space.similarity[0], vec![0, 0, 9]);
    space.record_activation(1, 6, |old, x, count| old + x * count as u32);
    assert_eq!(space.labels[1].frequency, 1);
    assert_eq!(space.labels[1].entropy, 6);
    space.record_activation(9, 6, |old, x, count| old + x * count as u32);
    assert_eq!(space.active_label_ids(), vec![0, 1, 2]);
}

#[test]
fn prune_drops_rare_merges_overlaps_and_drops_diffuse() {
    let mut space = ConceptSpace::new(4, 0u32);
    for (i, f) in [3usize, 0, 2, 5].iter().enumerate() {
        space.labels[i].frequency = *f;
    }
    space.update_similarity(0, 2, 90);
    space.update_similarity(0, 3, 7);
    let config = PruningConfig { min_frequency: 1, max_similarity: 80u32, max_entropy: 50u32 };
    let overlaps: Vec<Vec<bool>> = space.similarity.iter().map(|row| row.iter().map(|s| *s > config.max_similarity).collect()).collect();
    let diffuse = vec![false, false, false, true];
    let mapping = space.prune(&config, &overlaps, &diffuse);
    // Label 1 is rare; label 2 is absorbed by label 0; label 3 is diffuse.
    assert_eq!(mapping, vec![Some(0), None, Some(0), None]);
    assert_eq!(space.active_label_ids(), vec![0]);
    assert_eq!(space.similarity, vec![vec![0]]);
}

#[test]
fn prune_maps_labels_absorbed_by_later_labels_with_their_absorber() {
    let mut space = ConceptSpace::new(3, 0u32);
    space.labels[0].frequency = 1;
    space.labels[1].frequency = 4;
    space.labels[2].frequency = 2;
    space.update_similarity(0, 1, 1);
    space.update_similarity(1, 2, 5);
    let overlaps = vec![vec![false, true, false], vec![true, false, false], vec![false, false, false]];
    let mapping = space.prune(&PruningConfig { min_frequency: 0, max_similarity: 0u32, max_entropy: 0u32 }, &overlaps, &vec![false; 3]);
    assert_eq!(mapping, vec![Some(0), Some(0), Some(1)]);
    assert_eq!(space.active_label_ids(), vec![1, 2]);
    assert_eq!(space.similarity, vec![vec![0, 5], vec![5, 0]]);
}

#[test]
fn prune_follows_chains_of_absorptions() {
    // Label 0 absorbs label 1, then is absorbed by label 2.
    let config = PruningConfig { min_frequency: 0, max_similarity: 0u32, max_entropy: 0u32 };
    let overlaps = vec![vec![false, true, true], vec![false, false, false], vec![false, false, false]];
    let mut space = ConceptSpace::new(3, 0u32);
    space.labels[0].frequency = 3;
    space.labels[1].frequency = 1;
    space.labels[2].frequency = 5;
    let mapping = space.prune(&config, &overlaps, &vec![false; 3]);
    assert_eq!(mapping, vec![Some(0), Some(0), Some(0)]);
    assert_eq!(space.active_label_ids(), vec![2]);

    // When the final absorber is dropped as diffuse, the whole chain goes nowhere.
    let mut space = ConceptSpace::new(3, 0u32);
    space.labels[0].frequency = 3;
    space.labels[1].frequency = 1;
    space.labels[2].frequency = 5;
    let mapping = space.prune(&config, &overlaps, &vec![false, false, true]);
    assert_eq!(mapping, vec![None, None, None]);
    assert!(space.active_label_ids().is_empty());
}

#[test]
fn prune_keeps_a_lone_label() {
    let mut space = ConceptSpace::new(1, 0u32);
    let mapping = space.prune(&PruningConfig { min_frequency: 10, max_similarity: 0u32, max_entropy: 0u32 }, &vec![vec![false]], &vec![true]);
    assert_eq!(mapping, vec![Some(0)]);
    let mut empty = ConceptSpace::new(0, 0u32);
    assert!(empty.prune(&PruningConfig { min_frequency: 1, max_similarity: 0u32, max_entropy: 0u32 }, &vec![], &vec![]).is_empty());
}

#[test]
fn training_schedule_records_interval_and_last_epoch() {
    let recorded: Vec<usize> = (0..10).filter(|&e| records_loss(e, 10, 4)).collect();
    assert_eq!(recorded, vec![0, 4, 8, 9]);
    assert_eq!(loss_capacity(10, 4), 3);
    assert_eq!(loss_capacity(10, 0), 11);
}

#[test]
fn amplitudes_accumulate_per_item_in_key_order() {
    let mut d: AmplitudeDistribution<i32> = AmplitudeDistribution::new();
    assert!(d.entries().is_empty());
    d.add(7, 2, 0, |a, b| a + b);
    d.add(3, 5, 0, |a, b| a + b);
    d.add(7, -4, 0, |a, b| a + b);
    assert_eq!(d.entries(), vec![(3, 5), (7, -2)]);
    d.add(5, 1, 10, |a, b| a * b);
    assert_eq!(d.entries(), vec![(3, 5), (5, 10), (7, -2)]);
}

#[test]
fn link_contributions_follow_links_and_output_features() {
    let mut mapping: OutputMapping<i32> = OutputMapping::new();
    mapping.add_state_output(StateOutputDistribution::new(
        StateId(5),
        vec![FeatureWeight { feature: FeatureId(1), weight: 3 }, FeatureWeight { feature: FeatureId(2), weight: 4 }],
    ));
    mapping.add_state_output(StateOutputDistribution::new(StateId(6), vec![FeatureWeight { feature: FeatureId(9), weight: 7 }]));
    let link = Type2Link::complete(LinkId(0), NeighborhoodId(0), &[StateId(0), StateId(1)], vec![StateId(5), StateId(8)], 2i32);
    assert_eq!(
        mapping.link_contributions(&link),
        vec![(FeatureId(1), 2, 3), (FeatureId(2), 2, 4), (FeatureId(1), 2, 3), (FeatureId(2), 2, 4)]
    );
    let other = Type2Link::complete(LinkId(1), NeighborhoodId(0), &[StateId(0)], vec![StateId(6)], -1i32);
    assert_eq!(mapping.link_contributions(&other), vec![(FeatureId(9), -1, 7)]);
    let none = Type2Link::complete(LinkId(2), NeighborhoodId(0), &[StateId(0)], vec![StateId(8)], 1i32);
    assert!(mapping.link_contributions(&none).is_empty());
}

#[test]
fn prune_accepts_a_larger_similarity_matrix() {
    let mut space = ConceptSpace::new(2, 0u32);
    space.labels[0].frequency = 1;
    space.labels[1].frequency = 1;
    space.similarity = vec![vec![1, 2, 3], vec![4, 5, 6], vec![7, 8, 9]];
    let config = PruningConfig { min_frequency: 1, max_similarity: 100u32, max_entropy: 100u32 };
    let mapping = space.prune(&config, &vec![vec![false; 2]; 2], &vec![false; 2]);
    assert_eq!(mapping, vec![Some(0), Some(1)]);
    assert_eq!(space.similarity, vec![vec![1, 2], vec![4, 5]]);
}

#[test]
fn pruning_twice_changes_nothing() {
    let mut space = ConceptSpace::new(4, 0u32);
    for (i, f) in [3usize, 0, 2, 5].iter().enumerate() {
        space.labels[i].frequency = *f;
        space.labels[i].entropy = [10u32, 10, 10, 60][i];
    }
    space.update_similarity(0, 2, 90);
    space.update_similarity(0, 3, 95);
    let config = PruningConfig { min_frequency: 1, max_similarity: 80u32, max_entropy: 50u32 };
    let judge = |space: &ConceptSpace<u32>| {
        let overlaps: Vec<Vec<bool>> = space.similarity.iter().map(|row| row.iter().map(|s| *s > config.max_similarity).collect()).collect();
        let diffuse: Vec<bool> = space.labels.iter().map(|l| l.entropy > config.max_entropy).collect();
        (overlaps, diffuse)
    };
    let (overlaps, diffuse) = judge(&space);
    let first = space.prune(&config, &overlaps, &diffuse);
    // Label 2 is absorbed by label 0, which label 3 absorbs; label 3 is then
    // diffuse, so the chain goes nowhere; label 1 is rare.
    assert_eq!(first, vec![None, None, None, None]);
    let mut space = ConceptSpace::new(3, 0u32);
    for (i, f) in [3usize, 4, 2].iter().enumerate() {
        space.labels[i].frequency = *f;
    }
    space.update_similarity(0, 2, 90);
    let (overlaps, diffuse) = judge(&space);
    assert_eq!(space.prune(&config, &overlaps, &diffuse), vec![Some(0), Some(1), Some(0)]);
    let after_first = (space.active_label_ids(), space.similarity.clone());
    let (overlaps, diffuse) = judge(&space);
    assert_eq!(space.prune(&config, &overlaps, &diffuse), vec![Some(0), Some(1)]);
    assert_eq!((space.active_label_ids(), space.similarity.clone()), after_first);
}
