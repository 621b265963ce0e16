use rand::rngs::StdRng;
use rand::SeedableRng;
use raum::chip_firing::{ChipFiringError, ChipFiringGraph, UpdateMode, VertexSelectionStrategy};
use raum::NeuralNetwork;

#[test]
fn test_create_chip_firing_graph() {
    // Create a simple 3-vertex graph with edges 0-1 and 1-2
    let edges = vec![(0, 1), (1, 2)];
    let config = vec![2, 0, 0]; // 2 chips at vertex 0

    let graph = ChipFiringGraph::from_edge_list(&edges, 3, config).unwrap();

    assert_eq!(graph.num_vertices, 3);
    assert_eq!(graph.configuration, vec![2, 0, 0]);
    assert_eq!(graph.degrees, vec![1, 2, 1]);
}

#[test]
fn test_active_vertices() {
    // Create a simple 3-vertex graph with edges 0-1 and 1-2
    let edges = vec![(0, 1), (1, 2)];
    let config = vec![2, 0, 0]; // 2 chips at vertex 0, which has degree 1

    let graph = ChipFiringGraph::from_edge_list(&edges, 3, config).unwrap();

    let active = graph.active_vertices();
    assert_eq!(active, vec![0]); // Only vertex 0 is active (2 chips >= degree 1)
}

#[test]
fn test_fire_vertex() {
    // Create a simple 3-vertex graph with edges 0-1 and 1-2
    let edges = vec![(0, 1), (1, 2)];
    let config = vec![2, 0, 0]; // 2 chips at vertex 0

    let mut graph = ChipFiringGraph::from_edge_list(&edges, 3, config).unwrap();

    // Fire vertex 0
    graph.fire_vertex(0).unwrap();

    // After firing, vertex 0 should have 1 less chip, and vertex 1 should have 1 more
    assert_eq!(graph.configuration, vec![1, 1, 0]);
}

#[test]
fn test_step_sequential() {
    // Create a simple 3-vertex graph with edges 0-1 and 1-2
    let edges = vec![(0, 1), (1, 2)];
    let config = vec![2, 0, 0]; // 2 chips at vertex 0

    let mut graph = ChipFiringGraph::from_edge_list(&edges, 3, config).unwrap();
    graph.update_mode = UpdateMode::Sequential;

    let mut rng = StdRng::seed_from_u64(0);
    graph.step(&mut rng).unwrap();

    // After one step, vertex 0 should have fired
    assert_eq!(graph.configuration, vec![1, 1, 0]);
}

#[test]
fn test_is_stable() {
    // Create a simple 3-vertex graph with edges 0-1 and 1-2
    let edges = vec![(0, 1), (1, 2)];
    let config = vec![0, 0, 0]; // No chips, should be stable

    let graph = ChipFiringGraph::from_edge_list(&edges, 3, config).unwrap();

    assert!(graph.is_stable());

    // Create another graph with an active vertex
    let config2 = vec![2, 0, 0]; // Vertex 0 is active
    let graph2 = ChipFiringGraph::from_edge_list(&edges, 3, config2).unwrap();

    assert!(!graph2.is_stable());
}

#[test]
fn test_grid_creation() {
    // Create a 2x2 grid
    let config = vec![0, 0, 0, 0];
    let graph = ChipFiringGraph::new_grid(2, 2, config).unwrap();

    // Check degrees: each corner should have degree 2
    assert_eq!(graph.degrees, vec![2, 2, 2, 2]);
}

#[test]
fn path_graph_firing_sequence() {
    // 3-vertex path, initial [2,0,0]: degrees [1,2,1], vertex 0 active.
    let edges = vec![(0, 1), (1, 2)];
    let mut graph = ChipFiringGraph::from_edge_list(&edges, 3, vec![2, 0, 0]).unwrap();
    assert_eq!(graph.degrees, vec![1, 2, 1]);
    assert_eq!(graph.active_vertices(), vec![0]);

    graph.fire_vertex(0).unwrap();
    assert_eq!(graph.configuration, vec![1, 1, 0]);
    // Vertex 0 still has as many chips as its degree, so it is still active.
    assert!(!graph.is_stable());
    graph.fire_vertex(0).unwrap();
    assert_eq!(graph.configuration, vec![0, 2, 0]);
    // Now vertex 1 is active (2 >= 2).
    assert_eq!(graph.active_vertices(), vec![1]);
    graph.fire_vertex(1).unwrap();
    assert_eq!(graph.configuration, vec![1, 0, 1]);
    // The degree-1 leaves now hold one chip each, so both are active:
    // two chips can never come to rest on this path.
    assert_eq!(graph.active_vertices(), vec![0, 2]);
    // Conservation: the total stayed at 2 throughout.
    assert_eq!(graph.total_chips(), 2);
}

#[test]
fn all_zero_grid_is_immediately_stable() {
    // 2x2 grid, all-zero configuration: stable at once, run takes 0 steps.
    let mut graph = ChipFiringGraph::new_grid(2, 2, vec![0, 0, 0, 0]).unwrap();
    let mut rng = StdRng::seed_from_u64(1);
    let steps = graph.run(50, &mut rng).unwrap();
    assert_eq!(steps, 0);
    assert_eq!(graph.configuration, vec![0, 0, 0, 0]);
}

#[test]
fn run_reaches_the_stable_configuration() {
    // Triangle: all degrees 2; [3,0,0] stabilises in one firing.
    let edges = vec![(0, 1), (1, 2), (0, 2)];
    let mut graph = ChipFiringGraph::from_edge_list(&edges, 3, vec![3, 0, 0]).unwrap();
    let mut rng = StdRng::seed_from_u64(2);
    let steps = graph.run(10, &mut rng).unwrap();
    assert_eq!(steps, 1);
    assert_eq!(graph.configuration, vec![1, 1, 1]);
    assert!(graph.is_stable());
}

#[test]
fn run_stops_at_the_step_bound_when_never_stable() {
    // Two chips on a path with degree-1 leaves keep moving for ever; the
    // run stops at its bound and conserves the total.
    let edges = vec![(0, 1), (1, 2)];
    let mut graph = ChipFiringGraph::from_edge_list(&edges, 3, vec![2, 0, 0]).unwrap();
    let mut rng = StdRng::seed_from_u64(15);
    let steps = graph.run(10, &mut rng).unwrap();
    assert_eq!(steps, 10);
    assert_eq!(graph.total_chips(), 2);
    assert_eq!(graph.history.len(), 11);
}

#[test]
fn sequential_steps_conserve_chips() {
    let edges = vec![(0, 1), (1, 2), (0, 2)];
    let mut graph = ChipFiringGraph::from_edge_list(&edges, 3, vec![4, 1, 0]).unwrap();
    let before = graph.total_chips();
    let mut rng = StdRng::seed_from_u64(3);
    for _ in 0..6 {
        if graph.is_stable() {
            break;
        }
        graph.step(&mut rng).unwrap();
        assert_eq!(graph.total_chips(), before);
    }
}

#[test]
fn random_active_fires_the_only_active_vertex() {
    // With a single active vertex, the random strategy has no choice.
    let edges = vec![(0, 1), (1, 2)];
    let mut graph = ChipFiringGraph::from_edge_list(&edges, 3, vec![2, 0, 0]).unwrap();
    graph.selection_strategy = VertexSelectionStrategy::RandomActive;
    let mut rng = StdRng::seed_from_u64(4);
    graph.step(&mut rng).unwrap();
    assert_eq!(graph.configuration, vec![1, 1, 0]);
}

#[test]
fn parallel_step_fires_all_active_vertices_at_once() {
    // Path 0-1-2 with chips [2,0,2]: vertices 0 and 2 are both active and
    // both send one chip to vertex 1 against the same pre-step state.
    let edges = vec![(0, 1), (1, 2)];
    let mut graph = ChipFiringGraph::from_edge_list(&edges, 3, vec![2, 0, 2]).unwrap();
    graph.update_mode = UpdateMode::Parallel;
    let mut rng = StdRng::seed_from_u64(5);
    graph.step(&mut rng).unwrap();
    assert_eq!(graph.configuration, vec![1, 2, 1]);
    assert_eq!(graph.total_chips(), 4);
}

#[test]
fn trigger_avalanche_adds_exactly_one_chip() {
    // Triangle with [1,1,0]: stable, since every degree is 2.
    let edges = vec![(0, 1), (1, 2), (0, 2)];
    let mut graph = ChipFiringGraph::from_edge_list(&edges, 3, vec![1, 1, 0]).unwrap();
    assert!(graph.is_stable());
    let before = graph.total_chips();
    let mut rng = StdRng::seed_from_u64(6);
    // The added chip leaves the configuration stable: no step is needed.
    let steps = graph.trigger_avalanche(2, 5, &mut rng).unwrap();
    assert_eq!(steps, 0);
    assert_eq!(graph.configuration, vec![1, 1, 1]);
    assert_eq!(graph.total_chips(), before + 1);

    // A further chip sets off a cascade that never settles: four chips
    // cannot rest on a triangle, so the run uses all its steps.
    let steps2 = graph.trigger_avalanche(0, 5, &mut rng).unwrap();
    assert_eq!(steps2, 5);
    assert_eq!(graph.total_chips(), before + 2);
}

#[test]
fn reset_restores_the_first_logged_configuration() {
    let edges = vec![(0, 1), (1, 2)];
    let mut graph = ChipFiringGraph::from_edge_list(&edges, 3, vec![2, 0, 0]).unwrap();
    let mut rng = StdRng::seed_from_u64(7);
    graph.run(10, &mut rng).unwrap();
    assert_ne!(graph.configuration, vec![2, 0, 0]);
    graph.reset();
    assert_eq!(graph.configuration, vec![2, 0, 0]);
    assert_eq!(graph.history.len(), 1);
    assert_eq!(graph.history[0], vec![2, 0, 0]);
}

#[test]
fn clear_history_keeps_the_current_configuration() {
    let edges = vec![(0, 1), (1, 2)];
    let mut graph = ChipFiringGraph::from_edge_list(&edges, 3, vec![2, 0, 0]).unwrap();
    let mut rng = StdRng::seed_from_u64(8);
    graph.run(10, &mut rng).unwrap();
    let current = graph.configuration.clone();
    graph.clear_history();
    assert_eq!(graph.history.len(), 1);
    assert_eq!(graph.history[0], current);
    assert_eq!(graph.configuration, current);
}

#[test]
fn set_configuration_replaces_state_and_history() {
    let edges = vec![(0, 1), (1, 2)];
    let mut graph = ChipFiringGraph::from_edge_list(&edges, 3, vec![2, 0, 0]).unwrap();
    let mut rng = StdRng::seed_from_u64(9);
    graph.run(10, &mut rng).unwrap();
    graph.set_configuration(vec![0, 3, 0]).unwrap();
    assert_eq!(graph.configuration, vec![0, 3, 0]);
    assert_eq!(graph.history.len(), 1);
    assert_eq!(graph.history[0], vec![0, 3, 0]);
}

#[test]
fn stability_matches_active_vertices_and_degrees() {
    // is_stable, an empty active list, and every count below its degree
    // are three ways of saying the same thing.
    let edges = vec![(0, 1), (1, 2)];
    let stable = ChipFiringGraph::from_edge_list(&edges, 3, vec![0, 1, 0]).unwrap();
    assert!(stable.is_stable());
    assert!(stable.active_vertices().is_empty());
    for v in 0..3 {
        assert!(stable.configuration[v] < stable.degrees[v] as i32);
    }

    let unstable = ChipFiringGraph::from_edge_list(&edges, 3, vec![0, 2, 0]).unwrap();
    assert!(!unstable.is_stable());
    assert!(!unstable.active_vertices().is_empty());
    assert!(unstable.configuration[1] >= unstable.degrees[1] as i32);
}

#[test]
fn neighbors_lists_connected_vertices() {
    let edges = vec![(0, 1), (1, 2)];
    let graph = ChipFiringGraph::from_edge_list(&edges, 3, vec![0, 0, 0]).unwrap();
    assert_eq!(graph.neighbors(1), vec![0, 2]);
    assert_eq!(graph.neighbors(0), vec![1]);
    assert_eq!(graph.neighbors(5), Vec::<usize>::new());
}

#[test]
fn empty_graph_is_stable() {
    let graph = ChipFiringGraph::new(Vec::new(), Vec::new()).unwrap();
    assert_eq!(graph.num_vertices, 0);
    assert!(graph.is_stable());
    assert_eq!(graph.total_chips(), 0);
}

#[test]
fn parallel_adjacent_active_vertices_stay_non_negative() {
    // Two adjacent active vertices fire into each other against the same
    // pre-step configuration; no count goes negative.
    let edges = vec![(0, 1)];
    let mut graph = ChipFiringGraph::from_edge_list(&edges, 2, vec![1, 1]).unwrap();
    graph.update_mode = UpdateMode::Parallel;
    let mut rng = StdRng::seed_from_u64(16);
    graph.step(&mut rng).unwrap();
    assert_eq!(graph.configuration, vec![1, 1]);
    assert_eq!(graph.total_chips(), 2);
}

#[test]
fn construction_rejects_bad_inputs() {
    // Ragged adjacency matrix.
    let ragged = vec![vec![0, 1], vec![0]];
    assert_eq!(
        ChipFiringGraph::new(ragged, vec![0, 0]).unwrap_err(),
        ChipFiringError::DimensionMismatch
    );
    // Configuration length mismatch.
    let square = vec![vec![0, 1], vec![1, 0]];
    assert_eq!(
        ChipFiringGraph::new(square.clone(), vec![0]).unwrap_err(),
        ChipFiringError::DimensionMismatch
    );
    // Negative chip count.
    assert_eq!(
        ChipFiringGraph::new(square, vec![0, -1]).unwrap_err(),
        ChipFiringError::NegativeChips
    );
    // Edge outside the vertex range.
    assert_eq!(
        ChipFiringGraph::from_edge_list(&vec![(0, 7)], 3, vec![0, 0, 0]).unwrap_err(),
        ChipFiringError::InvalidGraphStructure
    );
}

#[test]
fn firing_errors_are_reported() {
    let edges = vec![(0, 1), (1, 2)];
    let mut graph = ChipFiringGraph::from_edge_list(&edges, 3, vec![0, 0, 0]).unwrap();
    assert_eq!(
        graph.fire_vertex(9).unwrap_err(),
        ChipFiringError::InvalidGraphStructure
    );
    assert_eq!(
        graph.fire_vertex(0).unwrap_err(),
        ChipFiringError::NoActiveVertices
    );
    let mut rng = StdRng::seed_from_u64(10);
    assert_eq!(
        graph.step(&mut rng).unwrap_err(),
        ChipFiringError::NoActiveVertices
    );
    assert_eq!(
        graph.trigger_avalanche(9, 5, &mut rng).unwrap_err(),
        ChipFiringError::InvalidGraphStructure
    );
    assert_eq!(
        graph.set_configuration(vec![1]).unwrap_err(),
        ChipFiringError::DimensionMismatch
    );
    assert_eq!(
        graph.set_configuration(vec![0, -2, 0]).unwrap_err(),
        ChipFiringError::NegativeChips
    );
}

#[test]
fn forward_runs_a_copy_to_stability() {
    let edges = vec![(0, 1), (1, 2), (0, 2)];
    let graph = ChipFiringGraph::from_edge_list(&edges, 3, vec![0, 0, 0]).unwrap();
    let trajectory = graph.forward(&vec![3, 0, 0]).unwrap();
    assert_eq!(trajectory.first().unwrap(), &vec![3, 0, 0]);
    assert_eq!(trajectory.last().unwrap(), &vec![1, 1, 1]);
    // The original graph is untouched.
    assert_eq!(graph.configuration, vec![0, 0, 0]);
    assert_eq!(graph.size(), 3);
}

#[test]
fn trait_train_adopts_the_first_configuration() {
    let edges = vec![(0, 1), (1, 2)];
    let mut graph = ChipFiringGraph::from_edge_list(&edges, 3, vec![0, 0, 0]).unwrap();
    NeuralNetwork::train(&mut graph, &vec![vec![1, 1, 0], vec![9, 9, 9]]).unwrap();
    assert_eq!(graph.configuration, vec![1, 1, 0]);
    assert_eq!(graph.history.len(), 1);
}
