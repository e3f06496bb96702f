//! Random numbers, records, schedules, states, samples and energies.

use extropic_sim as sim;
use sim::gibbs::{accumulate_gamma, accumulate_theta};
use sim::record::{parse_records, record_tail_ids};
use sim::rng::{below, pcg4d, scale, uniform, STEP_HINTON_INIT, STEP_RANDOM_INIT, UNIFORM_RANGE};
use sim::schedule::{run_ops, RunOp};

/// Up where the signed weights add up to more than zero, at every draw.
fn by_sign(terms: &[sim::Term<i64>]) -> u32 {
    if field(terms) > 0 {
        UNIFORM_RANGE
    } else {
        0
    }
}

/// The first category with the largest sum.
fn by_size(fields: &[Vec<sim::Term<i64>>], _draw: u32) -> u32 {
    let mut best = 0;
    for k in 1..fields.len() {
        if field(&fields[k]) > field(&fields[best]) {
            best = k;
        }
    }
    best as u32
}

/// Half of the draws are up, whatever the weights.
fn coin(_terms: &[sim::Term<i64>]) -> u32 {
    UNIFORM_RANGE / 2
}

fn field(terms: &[sim::Term<i64>]) -> i64 {
    terms.iter().map(|term| term.sign as i64 * term.weight).sum()
}

fn energy_of(factors: &[sim::DiscreteFactor<i64>], graph: &sim::Graph, values: &[u32]) -> i64 {
    let mut energy = 0;
    for terms in sim::total_energy(factors, graph, values).iter() {
        energy -= field(terms);
    }
    energy
}

#[test]
fn hash_values() {
    assert_eq!(
        pcg4d([0, 0, 0, 0]),
        [0x0f02f829, 0x2d568769, 0x32b0c43b, 0xd32548ea]
    );
    assert_eq!(
        pcg4d([1, 2, 3, 4]),
        [0x3622cd16, 0xf11471d8, 0xe1109b3f, 0x02b94c2f]
    );
    assert_eq!(uniform(1, 2, 3, 4), 3547853);
}

#[test]
fn hashes_of_different_coordinates_differ() {
    let mut seen = Vec::new();
    for seed in 0..4 {
        for step in [0, 1, STEP_HINTON_INIT, STEP_RANDOM_INIT] {
            for chain in 0..4 {
                for node in 0..4 {
                    seen.push(pcg4d([seed, step, chain, node]));
                }
            }
        }
    }
    seen.sort();
    let count = seen.len();
    seen.dedup();
    assert_eq!(seen.len(), count);
}

#[test]
fn scaled_draws_match_single_precision() {
    for node in 0..2000 {
        let draw = uniform(5, 6, 7, node);
        assert!(draw < UNIFORM_RANGE);
        for count in [1, 2, 3, 7, 100, 255, 256, 1000, 65537, 16777217, u32::MAX] {
            let u = draw as f32 * (1.0 / (1 << 24) as f32);
            assert_eq!(scale(draw, count), (u * count as f32) as u32, "{draw} {count}");
        }
    }
    assert_eq!(scale(0, 10), 0);
    assert_eq!(scale(UNIFORM_RANGE - 1, 3), 2);
    assert_eq!(scale(UNIFORM_RANGE / 2, 3), 1);
}

#[test]
fn thresholds_compare_like_probabilities() {
    for step in 0..500 {
        let p = step as f32 / 499.0;
        let threshold = (p * 16777216.0).ceil() as u32;
        for node in 0..20 {
            let draw = uniform(1, step, 2, node);
            let u = draw as f32 * (1.0 / (1 << 24) as f32);
            assert_eq!(below(draw, threshold), (u < p) as u32);
        }
    }
    assert_eq!(below(0, 0), 0);
    assert_eq!(below(UNIFORM_RANGE - 1, UNIFORM_RANGE), 1);
}

#[test]
fn records_are_parsed_as_they_are_laid_out() {
    let words = [9, 0, 2, 4, 5, 7, 3, 1 | 2 << 16, 6, 0, 30, 1, 10];
    let records = parse_records(&words);
    assert_eq!(records.len(), 2);
    assert_eq!((records[0].weight_base, records[0].head_stride), (9, 0));
    assert_eq!(records[0].spin_tails, &[4, 5]);
    assert_eq!(records[0].cat_tails, &[] as &[u32]);
    assert_eq!((records[1].weight_base, records[1].head_stride), (7, 3));
    assert_eq!(records[1].spin_tails, &[6]);
    assert_eq!(records[1].cat_tails, &[0, 30, 1, 10]);
    assert_eq!(record_tail_ids(&words), vec![4, 5, 6, 0, 1]);
    let values = [2, 3, 0, 0, 0, 1, 1];
    assert_eq!(records[0].evaluate(&values), (-1, 9));
    assert_eq!(records[1].evaluate(&values), (1, 7 + 2 * 30 + 3 * 10));
    assert_eq!(parse_records(&[]).len(), 0);
}

#[test]
fn fields_are_energy_differences() {
    let mut graph = sim::Graph::new();
    let spins = graph.add_spins(3);
    let selector = graph.add_categorical(3);
    let factors = [
        sim::DiscreteFactor::bias(spins.clone(), vec![5i64, -7, 11]),
        sim::DiscreteFactor::coupling(&spins[..2], &spins[1..], vec![13, 17]),
        sim::DiscreteFactor {
            spin_groups: vec![sim::Block::new([spins[0]])],
            cat_groups: vec![sim::Block::new([selector])],
            weights: vec![19, -23, 29],
        },
        sim::DiscreteFactor::cat_bias([selector], vec![31, 37, 41]),
    ];
    let blocks: Vec<_> = graph
        .nodes()
        .into_iter()
        .map(|node| sim::Block::new([node]))
        .collect();
    let program = sim::Program::compile(&graph, &blocks, &[], &factors).unwrap();
    for bits in 0..8u32 {
        for state in 0..3 {
            let values = [bits & 1, bits >> 1 & 1, bits >> 2 & 1, state];
            for node in 0..3 {
                let mut up = values;
                up[node] = 1;
                let mut down = values;
                down[node] = 0;
                let gamma = field(&accumulate_gamma(
                    &program.blocks[node].records,
                    &values,
                    &program.weights,
                ));
                assert_eq!(
                    energy_of(&factors, &graph, &down) - energy_of(&factors, &graph, &up),
                    2 * gamma
                );
            }
            let theta =
                accumulate_theta(&program.blocks[3].records, &values, &program.weights, 3);
            assert_eq!(theta.len(), 3);
            for k in 0..3 {
                let mut other = values;
                other[3] = k;
                assert_eq!(
                    energy_of(&factors, &graph, &values) - energy_of(&factors, &graph, &other),
                    field(&theta[k as usize]) - field(&theta[state as usize])
                );
            }
        }
    }
}

#[test]
fn energies() {
    let mut graph = sim::Graph::new();
    let spins = graph.add_spins(2);
    let cats = graph.add_categoricals(2, 3);
    let bias = sim::DiscreteFactor::bias(spins.clone(), vec![2i64, 3]);
    let coupling = sim::DiscreteFactor::cat_coupling([cats[0]], [cats[1]], (0..9).collect());
    let values = [1, 0, 2, 1];
    let terms = bias.energy(&graph, &values);
    assert_eq!(terms.len(), 2);
    assert_eq!((terms[0].sign, terms[0].weight), (1, 2));
    assert_eq!((terms[1].sign, terms[1].weight), (-1, 3));
    assert_eq!(coupling.energy(&graph, &values)[0].weight, 7);
    assert_eq!(energy_of(&[bias.clone(), coupling.clone()], &graph, &values), -6);
    assert!(bias.has_energy(&graph, &values));
    assert!(!bias.has_energy(&graph, &values[..1]));
    assert!(coupling.has_energy(&graph, &values));
    assert!(!coupling.has_energy(&graph, &[0, 0, 3, 0]));
    let spin_axis = sim::DiscreteFactor::cat_bias(spins, vec![0i64; 4]);
    assert!(!spin_axis.has_energy(&graph, &values));
    assert_eq!(bias.batch_len(), 2);
}

#[test]
fn operations_of_a_run() {
    let schedule = sim::Schedule {
        n_warmup: 2,
        n_samples: 3,
        steps_per_sample: 1,
    };
    let mut ops = run_ops(&schedule);
    let mut all = Vec::new();
    while let Some(op) = ops.next() {
        all.push(op);
    }
    assert_eq!(
        all,
        vec![
            RunOp::Step,
            RunOp::Step,
            RunOp::Record(0),
            RunOp::Step,
            RunOp::Record(1),
            RunOp::Step,
            RunOp::Record(2),
        ]
    );
    assert_eq!(ops.next(), None);
    let nothing = sim::Schedule {
        n_warmup: 1,
        n_samples: 0,
        steps_per_sample: 5,
    };
    let mut ops = run_ops(&nothing);
    assert_eq!(ops.next(), Some(RunOp::Step));
    assert_eq!(ops.next(), None);
}

fn mixed_program() -> (sim::Graph, sim::Program<i64>) {
    let mut graph = sim::Graph::new();
    let spins = graph.add_spins(40);
    let cats = graph.add_categoricals(3, 5);
    let free = [sim::Block::new(spins.clone()), sim::Block::new(cats)];
    let factors = [sim::DiscreteFactor::bias(spins, vec![0i64; 40])];
    let program = sim::Program::compile(&graph, &free, &[], &factors).unwrap();
    (graph, program)
}

#[test]
fn states() {
    let (graph, program) = mixed_program();
    let nodes = graph.nodes();
    let zeros = sim::State::zeros(&program, 3);
    assert_eq!(zeros.chain_count(), 3);
    for chain in 0..3 {
        assert_eq!(zeros.chain_values(chain), &[0; 43]);
    }
    let mut state = sim::State::random(&program, 3, 9);
    for chain in 0..3 {
        for &node in nodes.iter() {
            let count = graph.node_kind(node).state_count();
            let expected = scale(uniform(9, STEP_RANDOM_INIT, chain, node.0), count);
            assert_eq!(state.get(chain, node), expected);
            assert!(expected < count);
        }
    }
    assert!(sim::validate_state(&program, &state));
    state.set(1, nodes[41], 4);
    assert_eq!(state.get(1, nodes[41]), 4);
    state.write_block(&sim::Block::new([nodes[2], nodes[42]]), &[1, 3]);
    for chain in 0..3 {
        assert_eq!(state.get(chain, nodes[2]), 1);
        assert_eq!(state.get(chain, nodes[42]), 3);
    }
    let copy = state.clone();
    state.set(0, nodes[42], 5);
    assert!(!sim::validate_state(&program, &state));
    assert!(sim::validate_state(&program, &copy));
    state.set(0, nodes[42], 4);
    state.set(2, nodes[0], 2);
    assert!(!sim::validate_state(&program, &state));
}

#[test]
fn samples_read_back_across_words() {
    let (graph, program) = mixed_program();
    let nodes = graph.nodes();
    let mut state = sim::State::random(&program, 4, 3);
    let observed = [
        sim::Block::new(nodes[5..40].to_vec()),
        sim::Block::new([nodes[42], nodes[40]]),
        sim::Block::new([nodes[1]]),
    ];
    let schedule = sim::Schedule {
        n_warmup: 0,
        n_samples: 1,
        steps_per_sample: 0,
    };
    let before = state.clone();
    assert!(sim::cpu::can_run(&program, &schedule, &state));
    assert!(sim::cpu::can_observe(&program, &observed, 1, 4));
    let samples = sim::CpuSampler::new().sample_states(
        &program, &schedule, &mut state, 0, &observed, &coin, &by_size,
    );
    assert_eq!(samples.sample_count(), 1);
    assert_eq!(samples.chain_count(), 4);
    // Two words per frame for 35 spins, two for two categories, one for one spin.
    assert_eq!(samples.data.len(), 4 * (2 + 2 + 1));
    for chain in 0..4 {
        for (b, block) in observed.iter().enumerate() {
            for (p, &node) in block.nodes().iter().enumerate() {
                let value = samples.value(b, 0, chain, p as u32);
                assert_eq!(value, before.get(chain, node));
                assert_eq!(value, state.get(chain, node));
            }
        }
        assert_eq!(
            samples.spin(2, 0, chain, 0),
            before.get(chain, nodes[1]) as i32 * 2 - 1
        );
    }
    let ups: i64 = (0..4).map(|chain| before.get(chain, nodes[1]) as i64).sum();
    assert_eq!(samples.mean_spin(2, 0), (2 * ups - 4, 4));
}

#[test]
fn updates_follow_the_draws() {
    let (graph, program) = mixed_program();
    let nodes = graph.nodes();
    let mut state = sim::State::zeros(&program, 2);
    let schedule = sim::Schedule {
        n_warmup: 3,
        n_samples: 2,
        steps_per_sample: 2,
    };
    let observed = [sim::Block::new(nodes[..40].to_vec())];
    let samples = sim::CpuSampler::new().sample_states(
        &program, &schedule, &mut state, 77, &observed, &coin, &by_size,
    );
    // Two blocks per step: spins are updated at even counters.
    for (sample, step) in [(0, 2), (1, 4)] {
        for chain in 0..2 {
            for p in 0..40 {
                let draw = uniform(77, 2 * step, chain, p);
                assert_eq!(
                    samples.value(0, sample, chain, p),
                    below(draw, UNIFORM_RANGE / 2)
                );
            }
        }
    }
    assert_eq!(state.get(1, nodes[7]), samples.value(0, 1, 1, 7));
}

#[test]
fn updates_of_a_block_are_simultaneous() {
    // Each node copies the middle one, which then takes their majority.
    let mut graph = sim::Graph::new();
    let nodes = graph.add_spins(3);
    let factors = [sim::DiscreteFactor::coupling(
        [nodes[0], nodes[2]],
        [nodes[1], nodes[1]],
        vec![1i64, 1],
    )];
    let free = [sim::Block::new([nodes[0], nodes[2]]), sim::Block::new([nodes[1]])];
    let program = sim::Program::compile(&graph, &free, &[], &factors).unwrap();
    let mut state = sim::State::zeros(&program, 1);
    state.set(0, nodes[1], 1);
    let schedule = sim::Schedule {
        n_warmup: 1,
        n_samples: 1,
        steps_per_sample: 1,
    };
    let (sums, count) = sim::CpuSampler::new().accumulate_moments(
        &program,
        &schedule,
        &mut state,
        0,
        &[vec![nodes[0]], vec![nodes[0], nodes[1]], vec![]],
        &by_sign,
        &by_size,
    );
    assert_eq!((sums, count), (vec![1, 1, 1], 1));
    assert_eq!(state.chain_values(0), &[1, 1, 1]);
}

#[test]
fn clamped_nodes_keep_their_values() {
    let mut graph = sim::Graph::new();
    let nodes = graph.add_spins(3);
    let factors = [sim::DiscreteFactor::coupling(
        &nodes[..2],
        &nodes[1..],
        vec![1i64, 1],
    )];
    let program = sim::Program::compile(
        &graph,
        &[sim::Block::new([nodes[1]])],
        &[sim::Block::new([nodes[0], nodes[2]])],
        &factors,
    )
    .unwrap();
    let mut state = sim::State::zeros(&program, 2);
    state.set(1, nodes[0], 1);
    state.set(1, nodes[2], 1);
    let schedule = sim::Schedule {
        n_warmup: 4,
        n_samples: 2,
        steps_per_sample: 1,
    };
    sim::CpuSampler::new().accumulate_moments(
        &program, &schedule, &mut state, 0, &[], &by_sign, &by_size,
    );
    assert_eq!(state.chain_values(0), &[0, 0, 0]);
    assert_eq!(state.chain_values(1), &[1, 1, 1]);
}

#[test]
fn runs_that_cannot_be_counted() {
    let (graph, program) = mixed_program();
    let state = sim::State::zeros(&program, 1);
    let long = sim::Schedule {
        n_warmup: u32::MAX,
        n_samples: 1,
        steps_per_sample: 0,
    };
    assert!(!sim::cpu::can_run(&program, &long, &state));
    let short = sim::Schedule {
        n_warmup: u32::MAX / 2,
        n_samples: 1,
        steps_per_sample: u32::MAX,
    };
    assert!(sim::cpu::can_run(&program, &short, &state));
    let nodes = graph.nodes();
    assert!(!sim::cpu::can_observe(&program, &[sim::Block::new([])], 1, 1));
    assert!(!sim::cpu::can_observe(&program, &[sim::Block::new([sim::Node(43)])], 1, 1));
    assert!(!sim::cpu::can_observe(
        &program,
        &[sim::Block::new([nodes[0]])],
        65536,
        65536
    ));
    assert!(sim::cpu::can_observe(
        &program,
        &[sim::Block::new([nodes[0]])],
        65535,
        65536
    ));
}

#[test]
fn sizes() {
    let mut graph = sim::Graph::new();
    let cats = graph.add_categoricals(5, 256);
    let factor = |count: usize| sim::DiscreteFactor::<i64> {
        spin_groups: Vec::new(),
        cat_groups: cats[..count].iter().map(|&node| sim::Block::new([node])).collect(),
        weights: Vec::new(),
    };
    let free: Vec<sim::Block> = cats.iter().map(|&node| sim::Block::new([node])).collect();
    let is_small = |free: &[sim::Block], factors: &[sim::DiscreteFactor<i64>]| {
        sim::limits::is_small(&graph, free, &[], factors)
    };
    let compile = |free: &[sim::Block], factors: &[sim::DiscreteFactor<i64>]| {
        sim::Program::compile(&graph, free, &[], factors).err()
    };
    let mismatch = sim::Error::WeightLengthMismatch {
        expected: 1 << 24,
        actual: 0,
    };
    assert!(is_small(&free, &[factor(3)]));
    assert_eq!(compile(&free, &[factor(3)]), Some(mismatch));
    assert!(!is_small(&free, &[factor(4)]));
    // Sizes after the first error do not count.
    assert!(is_small(&free, &[factor(3), factor(4)]));
    assert_eq!(compile(&free, &[factor(3), factor(4)]), Some(mismatch));
    assert!(is_small(&free[..3], &[factor(4)]));
    assert_eq!(
        compile(&free[..3], &[factor(4)]),
        Some(sim::Error::UncoveredNode(cats[3]))
    );
    let empty = sim::DiscreteFactor::<i64>::cat_bias([], Vec::new());
    assert!(is_small(&free, &[empty]));
}

#[test]
fn nodes_outside_of_the_graph() {
    let mut graph = sim::Graph::new();
    let spin = graph.add_spin();
    let cat = graph.add_categorical(3);
    let stray = sim::Node(7);
    let can_read = |nodes: &[sim::Node]| {
        sim::program::can_read_blocks(&graph, &[sim::Block::new(nodes)], &[])
    };
    let compile = |nodes: &[sim::Node]| {
        sim::Program::<i64>::compile(&graph, &[sim::Block::new(nodes)], &[], &[]).err()
    };
    assert!(can_read(&[spin]));
    assert!(!can_read(&[stray]));
    assert!(!can_read(&[spin, stray]));
    // Errors that come first are reported.
    assert!(can_read(&[stray, stray]));
    assert_eq!(
        compile(&[stray, stray]),
        Some(sim::Error::DuplicateNode(stray))
    );
    assert!(can_read(&[spin, cat, stray]));
    assert_eq!(
        compile(&[spin, cat, stray]),
        Some(sim::Error::MixedBlock(spin, cat))
    );
}

#[test]
fn states_out_of_range_are_refused() {
    let mut graph = sim::Graph::new();
    let spin = graph.add_spin();
    let wide = graph.add_categorical(300);
    let factors = [sim::DiscreteFactor::bias([spin], vec![1i64])];
    let free = [sim::Block::new([spin])];
    let program = sim::Program::compile(&graph, &free, &[], &factors).unwrap();
    let schedule = sim::Schedule {
        n_warmup: 1,
        n_samples: 1,
        steps_per_sample: 1,
    };
    let mut state = sim::State::zeros(&program, 2);
    state.set(1, wide, 299);
    assert!(sim::validate_state(&program, &state));
    assert!(sim::dispatch::can_run(&program, &schedule, &state));
    state.set(1, wide, 400);
    assert!(!sim::validate_state(&program, &state));
    assert!(!sim::dispatch::can_run(&program, &schedule, &state));
    // No block can contain the node, so a run on the CPU never reads it.
    assert!(sim::state::holds_block_states(&program, &state));
    assert!(sim::cpu::can_run(&program, &schedule, &state));
    state.set(1, wide, 0);
    state.set(0, spin, 2);
    assert!(!sim::validate_state(&program, &state));
    assert!(!sim::cpu::can_run(&program, &schedule, &state));
}

#[test]
fn counters_stay_below_the_reserved_steps() {
    let mut graph = sim::Graph::new();
    let spin = graph.add_spin();
    let free = [sim::Block::new([spin])];
    let factors = [sim::DiscreteFactor::bias([spin], vec![1i64])];
    let program = sim::Program::compile(&graph, &free, &[], &factors).unwrap();
    let run = |n_warmup: u32| sim::Schedule {
        n_warmup,
        n_samples: 1,
        steps_per_sample: 0,
    };
    assert!(sim::cpu::can_count(&program, &run(STEP_HINTON_INIT)));
    assert!(!sim::cpu::can_count(&program, &run(STEP_RANDOM_INIT)));
}

#[test]
fn single_moments_match_mean_spins() {
    let (graph, program) = mixed_program();
    let nodes = graph.nodes();
    let schedule = sim::Schedule {
        n_warmup: 2,
        n_samples: 6,
        steps_per_sample: 1,
    };
    let mut state = sim::State::random(&program, 3, 4);
    let mut other = state.clone();
    let observed = [sim::Block::new([nodes[8], nodes[9]])];
    let samples = sim::CpuSampler::new().sample_states(
        &program, &schedule, &mut state, 2, &observed, &coin, &by_size,
    );
    let tuples = [
        vec![nodes[8]],
        vec![nodes[9]],
        vec![],
        vec![nodes[9], nodes[9]],
    ];
    let (sums, count) = sim::CpuSampler::new().accumulate_moments(
        &program, &schedule, &mut other, 2, &tuples, &coin, &by_size,
    );
    assert!(samples.has_mean_spin(0, 0));
    assert_eq!(samples.mean_spin(0, 0), (sums[0], count));
    assert_eq!(samples.mean_spin(0, 1), (sums[1], count));
    assert_eq!(&sums[2..], &[18, 18]);
    assert_eq!(count, 18);
    for chain in 0..3 {
        assert_eq!(state.chain_values(chain), other.chain_values(chain));
    }
}

#[test]
fn values_outside_of_the_storage() {
    let (graph, program) = mixed_program();
    let nodes = graph.nodes();
    let mut state = sim::State::zeros(&program, 2);
    let schedule = sim::Schedule {
        n_warmup: 0,
        n_samples: 2,
        steps_per_sample: 0,
    };
    let observed = [sim::Block::new([nodes[0]])];
    let mut samples = sim::CpuSampler::new().sample_states(
        &program, &schedule, &mut state, 0, &observed, &coin, &by_size,
    );
    assert!(samples.has_value(0, 1, 1, 0));
    assert!(!samples.has_value(1, 0, 0, 0));
    assert!(!samples.has_value(0, 2, 0, 0));
    assert!(samples.has_spin(0, 1, 1, 31));
    assert!(!samples.has_mean_spin(1, 0));
    samples.n_samples = 3;
    assert!(!samples.has_mean_spin(0, 0));
    samples.n_samples = 2;
    samples.layout.blocks[0].is_spin = false;
    samples.data[3] = 0x4000_0000;
    assert!(samples.has_value(0, 1, 1, 0));
    assert!(!samples.has_spin(0, 1, 1, 0));
    assert!(!samples.has_mean_spin(0, 0));
}
