//! Validation of program compilation errors.

use extropic_sim as sim;

fn chain_factors(nodes: &[sim::Node]) -> Vec<sim::DiscreteFactor<f32>> {
    vec![sim::DiscreteFactor::coupling(
        &nodes[..nodes.len() - 1],
        &nodes[1..],
        vec![1.0; nodes.len() - 1],
    )]
}

#[test]
fn rejects_empty_block() {
    let mut graph = sim::Graph::new();
    let nodes = graph.add_spins(2);
    let result = sim::Program::<f32>::compile(
        &graph,
        &[sim::Block::new(nodes), sim::Block::new([])],
        &[],
        &[],
    );
    assert_eq!(result.err(), Some(sim::Error::EmptyBlock));
}

#[test]
fn rejects_mixed_block() {
    let mut graph = sim::Graph::new();
    let spin = graph.add_spin();
    let cat = graph.add_categorical(3);
    let result = sim::Program::<f32>::compile(&graph, &[sim::Block::new([spin, cat])], &[], &[]);
    assert_eq!(result.err(), Some(sim::Error::MixedBlock(spin, cat)));
}

#[test]
fn rejects_duplicate_node() {
    let mut graph = sim::Graph::new();
    let nodes = graph.add_spins(2);
    let result = sim::Program::<f32>::compile(
        &graph,
        &[sim::Block::new(nodes.clone())],
        &[sim::Block::new([nodes[1]])],
        &[],
    );
    assert_eq!(result.err(), Some(sim::Error::DuplicateNode(nodes[1])));
}

#[test]
fn rejects_uncovered_node() {
    let mut graph = sim::Graph::new();
    let nodes = graph.add_spins(3);
    let result = sim::Program::compile(
        &graph,
        &[sim::Block::new([nodes[0]]), sim::Block::new([nodes[1]])],
        &[],
        &chain_factors(&nodes),
    );
    assert_eq!(result.err(), Some(sim::Error::UncoveredNode(nodes[2])));
}

#[test]
fn rejects_intra_block_interaction() {
    let mut graph = sim::Graph::new();
    let nodes = graph.add_spins(3);
    let result = sim::Program::compile(
        &graph,
        &[sim::Block::new(nodes.clone())],
        &[],
        &chain_factors(&nodes),
    );
    assert!(matches!(
        result.err(),
        Some(sim::Error::IntraBlockInteraction(..))
    ));
}

#[test]
fn rejects_weight_length_mismatch() {
    let mut graph = sim::Graph::new();
    let nodes = graph.add_spins(3);
    let factor = sim::DiscreteFactor::bias(nodes.clone(), vec![0.0; 2]);
    let blocks: Vec<_> = nodes.iter().map(|&node| sim::Block::new([node])).collect();
    let result = sim::Program::compile(&graph, &blocks, &[], &[factor]);
    assert_eq!(
        result.err(),
        Some(sim::Error::WeightLengthMismatch {
            expected: 3,
            actual: 2,
        })
    );
}

#[test]
fn rejects_group_kind_mismatch() {
    let mut graph = sim::Graph::new();
    let spin = graph.add_spin();
    let cat = graph.add_categorical(3);
    let factor = sim::DiscreteFactor::coupling([spin], [cat], vec![1.0]);
    let result = sim::Program::compile(
        &graph,
        &[sim::Block::new([spin]), sim::Block::new([cat])],
        &[],
        &[factor],
    );
    assert_eq!(result.err(), Some(sim::Error::GroupKindMismatch(cat)));
}

#[test]
fn rejects_bad_state_count() {
    let mut graph = sim::Graph::new();
    let cat = graph.add_categorical(1);
    let result = sim::Program::<f32>::compile(&graph, &[sim::Block::new([cat])], &[], &[]);
    assert_eq!(result.err(), Some(sim::Error::BadStateCount(cat)));
}

#[test]
fn clamped_head_records_are_skipped() {
    // A factor whose head is clamped produces no updates for it,
    // but still influences the free nodes.
    let mut graph = sim::Graph::new();
    let nodes = graph.add_spins(2);
    let program = sim::Program::compile(
        &graph,
        &[sim::Block::new([nodes[0]])],
        &[sim::Block::new([nodes[1]])],
        &chain_factors(&nodes),
    )
    .unwrap();
    assert_eq!(program.block_count(), 1);
}

#[test]
fn rejects_group_length_mismatch() {
    let mut graph = sim::Graph::new();
    let nodes = graph.add_spins(3);
    let factor = sim::DiscreteFactor::coupling(&nodes[..2], &nodes[2..], vec![1.0; 2]);
    let blocks: Vec<_> = nodes.iter().map(|&node| sim::Block::new([node])).collect();
    let result = sim::Program::compile(&graph, &blocks, &[], &[factor]);
    assert_eq!(result.err(), Some(sim::Error::GroupLengthMismatch));
}

#[test]
fn intra_block_interaction_names_the_pair() {
    let mut graph = sim::Graph::new();
    let nodes = graph.add_spins(3);
    let result = sim::Program::compile(
        &graph,
        &[sim::Block::new(nodes.clone())],
        &[],
        &chain_factors(&nodes),
    );
    assert_eq!(
        result.err(),
        Some(sim::Error::IntraBlockInteraction(nodes[0], nodes[1]))
    );
}

#[test]
fn errors_of_the_partition_come_first() {
    let mut graph = sim::Graph::new();
    let nodes = graph.add_spins(2);
    let factor = sim::DiscreteFactor::bias(nodes.clone(), vec![0.0; 7]);
    let result = sim::Program::compile(
        &graph,
        &[sim::Block::new([nodes[0], nodes[0]])],
        &[],
        &[factor],
    );
    assert_eq!(result.err(), Some(sim::Error::DuplicateNode(nodes[0])));
}

#[test]
fn the_largest_state_count_is_accepted() {
    let mut graph = sim::Graph::new();
    let largest = graph.add_categorical(sim::MAX_CATEGORICAL_STATES);
    let larger = graph.add_categorical(sim::MAX_CATEGORICAL_STATES + 1);
    let accepted = sim::Program::<f32>::compile(&graph, &[sim::Block::new([largest])], &[], &[]);
    assert_eq!(accepted.unwrap().max_states, 256);
    let refused = sim::Program::<f32>::compile(&graph, &[sim::Block::new([larger])], &[], &[]);
    assert_eq!(refused.err(), Some(sim::Error::BadStateCount(larger)));
}

#[test]
fn records_of_a_chain() {
    let mut graph = sim::Graph::new();
    let nodes = graph.add_spins(3);
    let factors = [
        sim::DiscreteFactor::bias(nodes.clone(), vec![0.1, 0.2, 0.3]),
        sim::DiscreteFactor::coupling(&nodes[..2], &nodes[1..], vec![0.4, 0.5]),
    ];
    let program = sim::Program::compile(
        &graph,
        &[sim::Block::new([nodes[0], nodes[2]]), sim::Block::new([nodes[1]])],
        &[],
        &factors,
    )
    .unwrap();
    assert_eq!(program.weights, vec![0.1, 0.2, 0.3, 0.4, 0.5]);
    // The bias, then the coupling to the middle node.
    assert_eq!(program.blocks[0].node_ids, vec![0, 2]);
    assert_eq!(program.blocks[0].offsets, vec![0, 7, 14]);
    assert_eq!(
        program.blocks[0].records,
        vec![0, 0, 0, 3, 0, 1, 1, 2, 0, 0, 4, 0, 1, 1]
    );
    // The bias, then both couplings.
    assert_eq!(program.blocks[1].offsets, vec![0, 11]);
    assert_eq!(
        program.blocks[1].records,
        vec![1, 0, 0, 3, 0, 1, 0, 4, 0, 1, 2]
    );
    assert_eq!(program.node_count(), 3);
    assert_eq!(program.block_count(), 2);
}

#[test]
fn records_of_categorical_nodes_have_strides() {
    let mut graph = sim::Graph::new();
    let spin = graph.add_spin();
    let a = graph.add_categorical(2);
    let b = graph.add_categorical(3);
    let factor = sim::DiscreteFactor {
        spin_groups: vec![sim::Block::new([spin])],
        cat_groups: vec![sim::Block::new([a]), sim::Block::new([b])],
        weights: vec![0.0f32; 6],
    };
    let program = sim::Program::compile(
        &graph,
        &[
            sim::Block::new([spin]),
            sim::Block::new([a]),
            sim::Block::new([b]),
        ],
        &[],
        &[factor],
    )
    .unwrap();
    assert_eq!(program.blocks[0].records, vec![0, 0, 2 << 16, 1, 3, 2, 1]);
    assert_eq!(program.blocks[1].records, vec![0, 3, 1 | 1 << 16, 0, 2, 1]);
    assert_eq!(program.blocks[2].records, vec![0, 1, 1 | 1 << 16, 0, 1, 3]);
    assert_eq!(program.max_states, 3);
}

#[test]
fn weights_can_be_replaced() {
    let mut graph = sim::Graph::new();
    let nodes = graph.add_spins(2);
    let blocks: Vec<_> = nodes.iter().map(|&node| sim::Block::new([node])).collect();
    let old = [sim::DiscreteFactor::bias(nodes.clone(), vec![0.0, 0.0])];
    let new = [sim::DiscreteFactor::bias(nodes.clone(), vec![1.0, -1.0])];
    let short = [sim::DiscreteFactor::bias(nodes.clone(), vec![1.0])];
    let mut program = sim::Program::compile(&graph, &blocks, &[], &old).unwrap();
    let records = program.blocks[0].records.clone();
    assert_eq!(program.weights_generation, 0);
    assert_eq!(program.update_weights(&new), Ok(()));
    assert_eq!(program.weights, vec![1.0, -1.0]);
    assert_eq!(program.weights_generation, 1);
    assert_eq!(program.blocks[0].records, records);
    assert_eq!(
        program.update_weights(&short),
        Err(sim::Error::WeightLengthMismatch {
            expected: 2,
            actual: 1,
        })
    );
    assert_eq!(program.weights, vec![1.0, -1.0]);
}

#[test]
fn messages() {
    let mut graph = sim::Graph::new();
    let nodes = graph.add_spins(12);
    assert_eq!(sim::Error::EmptyBlock.message(), "block is empty");
    assert_eq!(
        sim::Error::MixedBlock(nodes[0], nodes[11]).message(),
        "block mixes nodes of different kinds (Node(0) vs Node(11))"
    );
    assert_eq!(
        sim::Error::DuplicateNode(nodes[1]).message(),
        "Node(1) appears more than once across the free and clamped blocks"
    );
    assert_eq!(
        sim::Error::UncoveredNode(nodes[2]).message(),
        "Node(2) is referenced by a factor but not covered by any block"
    );
    assert_eq!(
        sim::Error::GroupLengthMismatch.message(),
        "node groups of a factor differ in length"
    );
    assert_eq!(
        sim::Error::WeightLengthMismatch { expected: 1203, actual: 45 }.message(),
        "weight tensor length 45 doesn't match the expected 1203"
    );
    assert_eq!(
        sim::Error::GroupKindMismatch(nodes[3]).message(),
        "Node(3) has the wrong kind for its factor group"
    );
    assert_eq!(
        sim::Error::IntraBlockInteraction(nodes[4], nodes[5]).message(),
        "Node(4) and Node(5) interact but belong to the same free block"
    );
    assert_eq!(
        sim::Error::BadStateCount(nodes[6]).message(),
        "Node(6) must have between 2 and 256 states"
    );
}
