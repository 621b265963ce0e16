use rand::rngs::StdRng;
use rand::SeedableRng;
use raum::hopfield::{HopfieldError, HopfieldNetwork, TrainingRule};
use raum::NeuralNetwork;

#[test]
fn hebbian_pattern_is_a_fixed_point() {
    // 4 neurons, one stored pattern: the deterministic synchronous update
    // maps the stored pattern to itself.
    let mut net = HopfieldNetwork::new(4);
    let pattern = vec![1, -1, 1, -1];
    net.train(&vec![pattern.clone()], TrainingRule::Hebbian).unwrap();
    let next = net.update_step(&pattern).unwrap();
    assert_eq!(next, pattern);
}

#[test]
fn hebbian_weights_are_the_outer_product() {
    let mut net = HopfieldNetwork::new(4);
    let pattern = vec![1, -1, 1, -1];
    net.train(&vec![pattern.clone()], TrainingRule::Hebbian).unwrap();
    for i in 0..4 {
        for j in 0..4 {
            let expected = if i == j {
                0
            } else {
                (pattern[i] * pattern[j]) as i64
            };
            assert_eq!(net.weights[i][j], expected);
        }
    }
    assert_eq!(net.weight_den, 1);
}

#[test]
fn hebbian_training_twice_gives_identical_weights() {
    let patterns = vec![vec![1, -1, 1, -1], vec![1, 1, -1, -1]];
    let mut once = HopfieldNetwork::new(4);
    once.train(&patterns, TrainingRule::Hebbian).unwrap();
    let mut twice = HopfieldNetwork::new(4);
    twice.train(&patterns, TrainingRule::Hebbian).unwrap();
    twice.train(&patterns, TrainingRule::Hebbian).unwrap();
    assert_eq!(once.weights, twice.weights);
    assert_eq!(once.weight_den, twice.weight_den);
}

#[test]
fn diagonal_is_zero_for_both_rules() {
    let patterns = vec![vec![1, -1, 1, -1], vec![1, 1, -1, -1]];
    let mut hebbian = HopfieldNetwork::new(4);
    hebbian.train(&patterns, TrainingRule::Hebbian).unwrap();
    let mut pseudo = HopfieldNetwork::new(4);
    pseudo.train(&patterns, TrainingRule::PseudoInverse).unwrap();
    for i in 0..4 {
        assert_eq!(hebbian.weights[i][i], 0);
        assert_eq!(pseudo.weights[i][i], 0);
    }
}

#[test]
fn energy_matches_the_closed_form() {
    // Two neurons, one pattern [1, -1]: both off-diagonal numerators are
    // -1 with denominator 1.  At the stored state every pair term is
    // W_ij * S_i * S_j = 1, so the negated pair sum is -2, meaning an
    // energy of -2 / 2 = -1.
    let mut net = HopfieldNetwork::new(2);
    net.train(&vec![vec![1, -1]], TrainingRule::Hebbian).unwrap();
    assert_eq!(net.weights, vec![vec![0, -1], vec![-1, 0]]);
    let e = net.energy(&vec![1, -1]).unwrap();
    assert_eq!(e, -2);

    // Recompute the pair sum directly from the exposed weights.
    let state = [1i64, -1];
    let mut pair_sum = 0i64;
    for i in 0..2 {
        for j in 0..2 {
            if i != j {
                pair_sum += net.weights[i][j] * state[i] * state[j];
            }
        }
    }
    assert_eq!(e, -(pair_sum as i128));

    // The opposite pairing has the opposite energy.
    let e2 = net.energy(&vec![1, 1]).unwrap();
    assert_eq!(e2, 2);
}

#[test]
fn pseudo_inverse_single_pattern_weights_are_exact() {
    // One pattern [1, -1] on two neurons: the Gram matrix is [[2]], so
    // the exact weights are -1 held as -2 over the denominator 2.
    let mut net = HopfieldNetwork::new(2);
    net.train(&vec![vec![1, -1]], TrainingRule::PseudoInverse).unwrap();
    assert_eq!(net.weights, vec![vec![0, -2], vec![-2, 0]]);
    assert_eq!(net.weight_den, 2);
    // The stored pattern is a fixed point here as well.
    let next = net.update_step(&vec![1, -1]).unwrap();
    assert_eq!(next, vec![1, -1]);
}

#[test]
fn pseudo_inverse_rejects_repeated_patterns() {
    // Two identical patterns make the overlap matrix singular.
    let mut net = HopfieldNetwork::new(4);
    let pattern = vec![1, -1, 1, -1];
    let result = net.train(
        &vec![pattern.clone(), pattern.clone()],
        TrainingRule::PseudoInverse,
    );
    assert_eq!(result.unwrap_err(), HopfieldError::DimensionMismatch);
}

#[test]
fn training_validates_every_pattern() {
    let mut net = HopfieldNetwork::new(3);
    // Wrong length.
    assert_eq!(
        net.train(&vec![vec![1, -1]], TrainingRule::Hebbian).unwrap_err(),
        HopfieldError::DimensionMismatch
    );
    // An entry that is not +1 or -1.
    assert_eq!(
        net.train(&vec![vec![1, 0, -1]], TrainingRule::Hebbian).unwrap_err(),
        HopfieldError::InvalidStateValue
    );
    // An empty pattern set leaves the weights zero and succeeds.
    net.train(&Vec::new(), TrainingRule::Hebbian).unwrap();
    assert_eq!(net.weights, vec![vec![0; 3]; 3]);
}

#[test]
fn update_step_validates_the_state() {
    let net = HopfieldNetwork::new(3);
    assert_eq!(
        net.update_step(&vec![1, -1]).unwrap_err(),
        HopfieldError::DimensionMismatch
    );
    assert_eq!(
        net.update_step(&vec![1, 2, -1]).unwrap_err(),
        HopfieldError::InvalidStateValue
    );
    assert_eq!(
        net.energy(&vec![1, 2, -1]).unwrap_err(),
        HopfieldError::InvalidStateValue
    );
}

#[test]
fn run_stops_at_a_fixed_point() {
    let mut net = HopfieldNetwork::new(4);
    let pattern = vec![1, -1, 1, -1];
    net.train(&vec![pattern.clone()], TrainingRule::Hebbian).unwrap();
    let (history, iterations) = net.run(&pattern, 10).unwrap();
    // The stored pattern is a fixed point: one step confirms it.
    assert_eq!(iterations, 0);
    assert_eq!(history, vec![pattern.clone(), pattern]);
}

#[test]
fn run_recovers_a_corrupted_pattern() {
    let mut net = HopfieldNetwork::new(4);
    let pattern = vec![1, -1, 1, -1];
    net.train(&vec![pattern.clone()], TrainingRule::Hebbian).unwrap();
    // Flip the last entry and let the dynamics clean it up.
    let (history, _iterations) = net.run(&vec![1, -1, 1, 1], 10).unwrap();
    assert_eq!(history.last().unwrap(), &pattern);
}

#[test]
fn async_updates_keep_a_fixed_point() {
    let mut net = HopfieldNetwork::new(4);
    let pattern = vec![1, -1, 1, -1];
    net.train(&vec![pattern.clone()], TrainingRule::Hebbian).unwrap();
    let mut state = pattern.clone();
    let mut rng = StdRng::seed_from_u64(11);
    for _ in 0..8 {
        net.update_step_async(&mut state, &mut rng).unwrap();
        assert_eq!(state, pattern);
    }
    let (history, iterations) = net.run_async(&pattern, 10, &mut rng).unwrap();
    assert_eq!(iterations, 0);
    assert_eq!(history.len(), 2);
    assert_eq!(history.last().unwrap(), &pattern);
}

#[test]
fn pruning_with_probability_one_keeps_all_weights() {
    let mut net = HopfieldNetwork::new(4);
    let patterns = vec![vec![1, -1, 1, -1], vec![1, 1, -1, -1]];
    net.train(&patterns, TrainingRule::Hebbian).unwrap();
    let before = net.weights.clone();
    let mut rng = StdRng::seed_from_u64(12);
    net.apply_erdos_renyi_topology(1, 1, &mut rng);
    assert_eq!(net.weights, before);
}

#[test]
fn pruning_with_probability_zero_clears_all_connections() {
    let mut net = HopfieldNetwork::new(4);
    let patterns = vec![vec![1, -1, 1, -1], vec![1, 1, -1, -1]];
    net.train(&patterns, TrainingRule::Hebbian).unwrap();
    let mut rng = StdRng::seed_from_u64(13);
    net.apply_erdos_renyi_topology(0, 1, &mut rng);
    assert_eq!(net.weights, vec![vec![0; 4]; 4]);
}

#[test]
fn pruning_with_a_probability_above_one_is_a_no_op() {
    let mut net = HopfieldNetwork::new(4);
    let patterns = vec![vec![1, -1, 1, -1]];
    net.train(&patterns, TrainingRule::Hebbian).unwrap();
    let before = net.weights.clone();
    let mut rng = StdRng::seed_from_u64(14);
    net.apply_erdos_renyi_topology(3, 2, &mut rng);
    assert_eq!(net.weights, before);
    net.apply_erdos_renyi_topology(1, 0, &mut rng);
    assert_eq!(net.weights, before);
}

#[test]
fn hebbian_weights_are_symmetric() {
    let mut net = HopfieldNetwork::new(5);
    let patterns = vec![vec![1, -1, 1, -1, 1], vec![-1, -1, 1, 1, 1], vec![1, 1, 1, -1, -1]];
    net.train(&patterns, TrainingRule::Hebbian).unwrap();
    for i in 0..5 {
        for j in 0..5 {
            assert_eq!(net.weights[i][j], net.weights[j][i]);
        }
    }
}

#[test]
fn trait_forward_and_train_use_the_network() {
    let mut net = HopfieldNetwork::new(2);
    NeuralNetwork::train(&mut net, &vec![vec![1, -1]]).unwrap();
    assert_eq!(net.weight_den, 2);
    let trajectory = net.forward(&vec![1, -1]).unwrap();
    assert_eq!(trajectory.last().unwrap(), &vec![1, -1]);
    assert_eq!(net.size(), 2);
}
