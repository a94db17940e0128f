use ling::toy::agent::ToyAgent;
use ling::toy::data::{build_vocab, encode_command, generate_dataset, generate_examples, Action, Direction};
use ling::math::activation::BornRule;

#[test]
fn direction_indices_round_trip() {
    for d in Direction::all() {
        assert_eq!(Direction::from_index(d.to_index()), d);
    }
    assert_eq!(Direction::from_index(5), Direction::East);
    assert_eq!(Direction::from_index(7).to_index(), 3);
    assert_eq!(Direction::all(), [Direction::North, Direction::East, Direction::South, Direction::West]);
}

#[test]
fn direction_names() {
    assert_eq!(Direction::North.name(), "北");
    assert_eq!(Direction::East.name(), "东");
    assert_eq!(Direction::South.name(), "南");
    assert_eq!(Direction::West.name(), "西");
}

#[test]
fn turns_compose_as_rotations() {
    for d in Direction::all() {
        assert_eq!(Action::TurnLeft.apply(Action::TurnRight.apply(d)), d);
        assert_eq!(Action::TurnAround.apply(Action::TurnAround.apply(d)), d);
        assert_eq!(Action::TurnRight.apply(Action::TurnRight.apply(d)), Action::TurnAround.apply(d));
        assert_ne!(Action::TurnRight.apply(d), d);
    }
    assert_eq!(Action::TurnRight.apply(Direction::West), Direction::North);
    assert_eq!(Action::TurnLeft.apply(Direction::North), Direction::West);
    assert_eq!(Action::TurnAround.apply(Direction::East), Direction::West);
}

#[test]
fn face_actions_ignore_current_direction() {
    for d in Direction::all() {
        assert_eq!(Action::FaceSouth.apply(d), Direction::South);
    }
    assert_eq!(Action::FaceEast.target_direction(), Some(Direction::East));
    assert_eq!(Action::TurnLeft.target_direction(), None);
    assert_eq!(Action::TurnAround.target_direction(), None);
}

#[test]
fn dataset_has_fixed_training_and_test_commands() {
    let (training, test) = generate_dataset();
    assert_eq!(training.len(), 13);
    assert_eq!(test.len(), 12);
    assert_eq!(training[0].command, "面向北");
    assert_eq!(training[0].action, Action::FaceNorth);
    assert_eq!(training[12].command, "左转");
    assert_eq!(training[12].action, Action::TurnLeft);
    assert_eq!(test[10].command, "掉头");
    assert_eq!(test[11].command, "转过来");
    assert_eq!(test[11].action, Action::TurnAround);
}

#[test]
fn vocab_is_sorted_and_complete() {
    let (training, test) = generate_dataset();
    let vocab = build_vocab(&training, &test);
    for w in vocab.windows(2) {
        assert!(w[0] < w[1]);
    }
    for ex in training.iter().chain(test.iter()) {
        for c in ex.command.chars() {
            assert!(vocab.contains(&c));
        }
    }
    assert!(vocab.contains(&'看'));
    assert!(vocab.contains(&'朝'));
    assert!(vocab.contains(&'掉'));
}

#[test]
fn encode_marks_present_characters() {
    let vocab = vec!['东', '北', '向', '面'];
    assert_eq!(encode_command("面向北", &vocab), vec![false, true, true, true]);
    assert_eq!(encode_command("", &vocab), vec![false, false, false, false]);
}

#[test]
fn examples_cover_every_current_direction() {
    let (training, _) = generate_dataset();
    let vocab = vec!['右', '转'];
    let examples = generate_examples(&training[11..12], &vocab);
    assert_eq!(examples.len(), 4);
    for (k, (features, current, target)) in examples.iter().enumerate() {
        assert_eq!(features, &vec![true, true]);
        assert_eq!(*current, k);
        assert_eq!(*target, (k + 1) % 4);
    }
}

fn agent() -> ToyAgent<i32> {
    ToyAgent {
        feature_dim: 1,
        num_labels: 2,
        num_operators: 2,
        operators: (0..8).collect(),
        weights: vec![100, 101],
        activation: BornRule,
    }
}

#[test]
fn agent_parameters_round_trip() {
    let mut a = agent();
    assert_eq!(a.num_params(), 10);
    let flat = a.flatten_params();
    assert_eq!(flat, vec![0, 1, 2, 3, 4, 5, 6, 7, 100, 101]);
    let reversed: Vec<i32> = flat.iter().rev().copied().collect();
    a.restore_params(&reversed);
    assert_eq!(a.operators, vec![101, 100, 7, 6, 5, 4, 3, 2]);
    assert_eq!(a.weights, vec![1, 0]);
    a.restore_params(&flat);
    assert_eq!(a.flatten_params(), flat);
}

#[test]
fn agent_operator_is_a_square_block() {
    let a = agent();
    assert_eq!(a.get_operator(0), vec![vec![0, 1], vec![2, 3]]);
    assert_eq!(a.get_operator(1), vec![vec![4, 5], vec![6, 7]]);
}

#[test]
fn agent_new_has_four_labels_and_given_parameters() {
    let a = ToyAgent::new(3, 2, (0..32).collect(), vec![7; 6]);
    assert_eq!(a.feature_dim, 3);
    assert_eq!(a.num_labels, 4);
    assert_eq!(a.num_operators, 2);
    assert_eq!(a.num_params(), 38);
    assert_eq!(a.get_operator(1)[0], vec![16, 17, 18, 19]);
}
