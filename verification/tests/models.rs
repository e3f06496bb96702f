//! Ising models and the coloring of their nodes.

use extropic_sim as sim;
use sim::models::{color_blocks, hinton_state, IsingModel, IsingMoments};
use sim::rng::UNIFORM_RANGE;

fn scale(beta: i64, weight: i64) -> i64 {
    beta * weight
}

fn chain_edges(nodes: &[sim::Node]) -> Vec<(sim::Node, sim::Node)> {
    nodes.windows(2).map(|pair| (pair[0], pair[1])).collect()
}

fn colors(blocks: &[sim::Block]) -> Vec<Vec<u32>> {
    blocks
        .iter()
        .map(|block| block.nodes().iter().map(|node| node.0).collect())
        .collect()
}

#[test]
fn chains_get_two_blocks() {
    let mut graph = sim::Graph::new();
    let nodes = graph.add_spins(5);
    let blocks = color_blocks(&graph, &nodes, &chain_edges(&nodes));
    assert_eq!(colors(&blocks), vec![vec![0, 2, 4], vec![1, 3]]);
}

#[test]
fn lattices_get_two_blocks() {
    let mut graph = sim::Graph::new();
    let nodes = graph.add_spins(16);
    let mut edges = Vec::new();
    for y in 0..4 {
        for x in 0..4 {
            if x < 3 {
                edges.push((nodes[y * 4 + x], nodes[y * 4 + x + 1]));
            }
            if y < 3 {
                edges.push((nodes[y * 4 + x], nodes[y * 4 + 4 + x]));
            }
        }
    }
    let blocks = sim::color_blocks(&graph, &nodes, &edges);
    assert_eq!(
        colors(&blocks),
        vec![
            vec![0, 2, 5, 7, 8, 10, 13, 15],
            vec![1, 3, 4, 6, 9, 11, 12, 14]
        ]
    );
}

#[test]
fn machines_with_two_layers_get_two_blocks() {
    let mut graph = sim::Graph::new();
    let nodes = graph.add_spins(5);
    let mut edges = Vec::new();
    for &visible in nodes[..3].iter() {
        for &hidden in nodes[3..].iter() {
            edges.push((visible, hidden));
        }
    }
    let blocks = color_blocks(&graph, &nodes, &edges);
    assert_eq!(colors(&blocks), vec![vec![0, 1, 2], vec![3, 4]]);
}

#[test]
fn other_graphs_may_get_more_blocks() {
    let mut graph = sim::Graph::new();
    let nodes = graph.add_spins(4);
    let triangle = [
        (nodes[0], nodes[1]),
        (nodes[1], nodes[2]),
        (nodes[2], nodes[0]),
    ];
    assert_eq!(
        colors(&color_blocks(&graph, &nodes, &triangle)),
        vec![vec![0, 3], vec![1], vec![2]]
    );
    assert_eq!(
        colors(&color_blocks(&graph, &nodes[..1], &[])),
        vec![vec![0]]
    );
}

#[test]
fn bipartite_graphs_get_two_blocks_in_any_order() {
    let mut graph = sim::Graph::new();
    let n = graph.add_spins(4);
    let path = [(n[0], n[2]), (n[2], n[3]), (n[3], n[1])];
    assert_eq!(
        colors(&color_blocks(&graph, &n, &path)),
        vec![vec![0, 3], vec![1, 2]]
    );
    // Two paths, each with its first node in the first block.
    let mut graph = sim::Graph::new();
    let n = graph.add_spins(8);
    let paths = [
        (n[7], n[1]),
        (n[5], n[7]),
        (n[5], n[3]),
        (n[0], n[4]),
        (n[4], n[6]),
        (n[6], n[2]),
    ];
    assert_eq!(
        colors(&color_blocks(&graph, &n, &paths)),
        vec![vec![0, 1, 5, 6], vec![2, 3, 4, 7]]
    );
    // Two sides without the edges between equal numbers.
    let mut graph = sim::Graph::new();
    let n = graph.add_spins(8);
    let mut crown = Vec::new();
    for i in 0..4 {
        for j in 0..4 {
            if i != j {
                crown.push((n[2 * i], n[2 * j + 1]));
            }
        }
    }
    assert_eq!(
        colors(&color_blocks(&graph, &n, &crown)),
        vec![vec![0, 2, 4, 6], vec![1, 3, 5, 7]]
    );
}

#[test]
fn odd_cycles_are_colored_greedily() {
    let mut graph = sim::Graph::new();
    let n = graph.add_spins(7);
    // A triangle, and a path whose ends come first.
    let edges = [
        (n[0], n[1]),
        (n[1], n[2]),
        (n[2], n[0]),
        (n[3], n[5]),
        (n[5], n[6]),
        (n[6], n[4]),
    ];
    assert_eq!(
        colors(&color_blocks(&graph, &n, &edges)),
        vec![vec![0, 3, 4], vec![1, 5], vec![2, 6]]
    );
    // An edge from a node to itself is no interaction between two nodes.
    assert_eq!(
        colors(&color_blocks(&graph, &n[..2], &[(n[0], n[0]), (n[0], n[1])])),
        vec![vec![0], vec![1]]
    );
}

fn small_model() -> (sim::Graph, IsingModel<i64>) {
    let mut graph = sim::Graph::new();
    let nodes = graph.add_spins(4);
    let edges = chain_edges(&nodes);
    let model = IsingModel {
        nodes,
        biases: vec![1, -2, 3, -4],
        edges,
        weights: vec![5, 6, 7],
        beta: 2,
    };
    (graph, model)
}

#[test]
fn factors_of_a_model() {
    let (_, model) = small_model();
    let factors = model.factors(&scale);
    assert_eq!(factors.len(), 2);
    assert_eq!(factors[0].weights, vec![2, -4, 6, -8]);
    assert_eq!(factors[0].spin_groups[0].nodes(), &model.nodes[..]);
    assert_eq!(factors[1].weights, vec![10, 12, 14]);
    assert_eq!(factors[1].spin_groups[0].nodes(), &model.nodes[..3]);
    assert_eq!(factors[1].spin_groups[1].nodes(), &model.nodes[1..]);
    let isolated = IsingModel {
        edges: Vec::new(),
        weights: Vec::new(),
        ..model.clone()
    };
    assert_eq!(isolated.factors(&scale).len(), 1);
}

#[test]
fn colored_models_compile() {
    let (graph, model) = small_model();
    let blocks = color_blocks(&graph, &model.nodes, &model.edges);
    let program = model.compile(&graph, &blocks, &[], &scale).unwrap();
    assert_eq!(program.block_count(), 2);
    assert_eq!(program.weights, vec![2, -4, 6, -8, 10, 12, 14]);
    let refused = model.compile(&graph, &blocks[..1], &[], &scale);
    assert_eq!(
        refused.err(),
        Some(sim::Error::UncoveredNode(model.nodes[1]))
    );
}

#[test]
fn energies_of_a_model() {
    let (graph, model) = small_model();
    let factors = model.factors(&scale);
    for bits in 0..16u32 {
        let values: Vec<u32> = (0..4).map(|i| bits >> i & 1).collect();
        let spins: Vec<i64> = values.iter().map(|&value| value as i64 * 2 - 1).collect();
        let mut expected = 0;
        for i in 0..4 {
            expected += model.biases[i] * spins[i];
        }
        for e in 0..3 {
            expected += model.weights[e] * spins[e] * spins[e + 1];
        }
        let mut energy = 0;
        for terms in sim::total_energy(&factors, &graph, &values) {
            for term in terms {
                energy -= term.sign as i64 * term.weight;
            }
        }
        assert_eq!(energy, -model.beta * expected);
    }
}

#[test]
fn initial_states_follow_the_biases() {
    let (graph, model) = small_model();
    let blocks = color_blocks(&graph, &model.nodes, &model.edges);
    let program = model.compile(&graph, &blocks, &[], &scale).unwrap();
    // The draws of chain 0 for nodes 0 to 2, then those of chain 1.
    let draws = [1809536, 3238068, 4362420, 9407124, 10090833, 5810651];
    let thresholds = [1809536, 3238069, 5000000, 0];
    let state = hinton_state(&program, &model.nodes, &thresholds, 2, 7);
    for chain in 0..2 {
        for node in 0..3 {
            assert_eq!(
                state.get(chain, model.nodes[node]),
                (draws[chain as usize * 3 + node] < thresholds[node]) as u32
            );
        }
        assert_eq!(state.get(chain, model.nodes[3]), 0);
    }
    let up_if_positive = |beta: i64, bias: i64| if beta * bias > 0 { UNIFORM_RANGE } else { 0 };
    let state = model.hinton_init(&program, 2, 7, &up_if_positive);
    for chain in 0..2 {
        assert_eq!(state.chain_values(chain), &[1, 0, 1, 0]);
    }
}

#[test]
fn moments_of_nodes_and_edges() {
    let (_, model) = small_model();
    let tuples = model.moment_tuples();
    assert_eq!(tuples.len(), 7);
    assert_eq!(tuples[2], vec![model.nodes[2]]);
    assert_eq!(tuples[5], vec![model.nodes[1], model.nodes[2]]);
    let moments = model.estimate_moments(|tuples: &[Vec<sim::Node>]| {
        tuples.iter().map(|tuple| tuple.len() as f64).collect()
    });
    assert_eq!(moments.nodes, vec![1.0; 4]);
    assert_eq!(moments.edges, vec![2.0; 3]);
    let split = model.split_moments(&[1, 2, 3, 4, 5, 6, 7]);
    assert_eq!(split.nodes, vec![1, 2, 3, 4]);
    assert_eq!(split.edges, vec![5, 6, 7]);
}

#[test]
fn gradients_pair_up_moments() {
    let (_, model) = small_model();
    let positive = IsingMoments {
        nodes: vec![0.5, 0.25, 0.0, 1.0],
        edges: vec![1.0, 0.5],
    };
    let negative = IsingMoments {
        nodes: vec![0.25, 0.25, 0.5],
        edges: vec![-1.0, 0.0, 0.0],
    };
    let gradient = |beta: i64, pos: f64, neg: f64| -(beta as f64) * (pos - neg);
    let (biases, weights) = model.kl_gradient(&positive, &negative, &gradient);
    assert_eq!(biases, vec![-0.5, 0.0, 1.0]);
    assert_eq!(weights, vec![-4.0, -1.0]);
}

#[test]
fn swapped_phases_negate_the_gradient() {
    let (_, model) = small_model();
    assert!(model.is_small());
    let moments = |nodes: Vec<f64>| IsingMoments {
        nodes,
        edges: vec![0.5, -0.25, 0.0],
    };
    let positive = moments(vec![0.5, 0.25, 0.0, 1.0]);
    let negative = moments(vec![0.25, 0.75, 0.5, -1.0]);
    let gradient = |beta: i64, pos: f64, neg: f64| -(beta as f64) * (pos - neg);
    let (biases, _) = model.kl_gradient(&positive, &negative, &gradient);
    let (swapped, _) = model.kl_gradient(&negative, &positive, &gradient);
    assert_eq!(biases, vec![-0.5, 1.0, 1.0, -4.0]);
    assert_eq!(swapped, vec![0.5, -1.0, -1.0, 4.0]);
    let (biases, weights) = model.kl_gradient(&positive, &positive, &gradient);
    assert!(biases.iter().chain(weights.iter()).all(|&value| value == 0.0));
}
