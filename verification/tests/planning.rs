//! What a GPU is handed, and what bindings exchange.

use extropic_sim as sim;
use sim::bindings::{
    is_small_binding, lookup_lists, BindingError, IsingEBM, IsingSamplingProgram, Variable,
};
use sim::dispatch::{can_dispatch, Action, Kernel, Observation, Run, Setup};
use sim::gpu::{
    can_upload, concatenate, dispatch_grid, fits_accumulators, moment_data, moments_defined,
    observed_ids, plan_pipelines, plan_upload, sample_buffer_size, upload_words,
    zero_accumulators, Upload, OPS_PER_SUBMIT,
};
use sim::nested::{
    choose_backend, hinton_init, infer_chains, initial_state, moment_nodes, nested_samples,
    observed_nodes, parse_device, write_values, Backend, BlockValues, Device, NestedSamples,
};
use sim::samples::ObservedLayout;

fn chain_program() -> (Vec<sim::Node>, sim::Program<i64>) {
    let mut graph = sim::Graph::new();
    let nodes = graph.add_spins(3);
    let cat = graph.add_categorical(5);
    let factors = [
        sim::DiscreteFactor::bias(nodes.clone(), vec![1i64, 2, 3]),
        sim::DiscreteFactor::coupling(&nodes[..2], &nodes[1..], vec![4, 5]),
        sim::DiscreteFactor::cat_bias([cat], vec![0; 5]),
    ];
    let free = [
        sim::Block::new([nodes[0], nodes[2]]),
        sim::Block::new([nodes[1]]),
        sim::Block::new([cat]),
    ];
    let program = sim::Program::compile(&graph, &free, &[], &factors).unwrap();
    (graph.nodes(), program)
}

#[test]
fn grids() {
    assert_eq!(dispatch_grid(0), [0, 1, 1]);
    assert_eq!(dispatch_grid(1), [1, 1, 1]);
    assert_eq!(dispatch_grid(64), [1, 1, 1]);
    assert_eq!(dispatch_grid(65), [2, 1, 1]);
    assert_eq!(dispatch_grid(0xFFFF * 64), [0xFFFF, 1, 1]);
    assert_eq!(dispatch_grid(0xFFFF * 64 + 1), [0xFFFF, 2, 1]);
    assert_eq!(dispatch_grid(u32::MAX), [0xFFFF, 1025, 1]);
}

#[test]
fn words_are_uploaded_in_the_order_of_the_machine() {
    let words = [0x01020304u32, 0xFFEEDDCC, 7];
    let upload = upload_words(&words);
    let mut expected = Vec::new();
    for word in words.iter() {
        expected.extend_from_slice(&word.to_ne_bytes());
    }
    assert_eq!(upload.contents, &expected[..]);
    assert_eq!(upload.size, 12);
    assert_eq!(upload_words(&[]).size, 4);
    assert_eq!(upload_words(&[]).contents.len(), 0);
}

#[test]
fn program_data_is_concatenated() {
    let (_, program) = chain_program();
    assert!(can_upload(&program));
    let data = concatenate(&program);
    assert_eq!(data.node_ids, vec![0, 2, 1, 3]);
    assert_eq!(data.offsets, vec![0, 7, 14, 0, 11, 0, 3]);
    assert_eq!(data.bases.len(), 3);
    assert_eq!(data.bases[1].offsets, 3);
    assert_eq!(data.bases[1].records, 14);
    assert_eq!(data.bases[2].node_ids, 3);
    for (block, bases) in program.blocks.iter().zip(data.bases.iter()) {
        for p in 0..block.node_ids.len() {
            assert_eq!(data.node_ids[bases.node_ids as usize + p], block.node_ids[p]);
            let start = bases.records + data.offsets[bases.offsets as usize + p];
            let end = bases.records + data.offsets[bases.offsets as usize + p + 1];
            assert_eq!(
                &data.records[start as usize..end as usize],
                &block.records[block.offsets[p] as usize..block.offsets[p + 1] as usize]
            );
        }
    }
}

#[test]
fn uploads_are_avoided() {
    let (_, mut program) = chain_program();
    assert_eq!(plan_upload(None, &program), Upload::Everything);
    assert_eq!(plan_upload(Some((0, 0)), &program), Upload::Everything);
    program.set_id(8);
    assert_eq!(plan_upload(Some((7, 0)), &program), Upload::Everything);
    assert_eq!(plan_upload(Some((8, 0)), &program), Upload::Nothing);
    assert_eq!(plan_upload(Some((8, 1)), &program), Upload::Weights);
    assert_eq!(plan_pipelines(None, &program), Some(5));
    assert_eq!(plan_pipelines(Some(5), &program), None);
    assert_eq!(plan_pipelines(Some(2), &program), Some(5));
}

#[test]
fn observations_and_moments_are_flattened() {
    let (nodes, program) = chain_program();
    let observed = [
        sim::Block::new([nodes[2], nodes[0]]),
        sim::Block::new([nodes[3]]),
    ];
    assert_eq!(observed_ids(&observed), vec![2, 0, 3]);
    let layout = ObservedLayout::new(&program, &observed, 2, 3);
    assert_eq!(sample_buffer_size(&layout), 4 * (6 + 6));
    let tuples = vec![vec![nodes[1]], vec![], vec![nodes[0], nodes[2]]];
    let data = moment_data(&tuples);
    assert_eq!(data.offsets, vec![0, 1, 1, 3]);
    assert_eq!(data.nodes, vec![1, 0, 2]);
    assert!(moments_defined(&program, &tuples));
    assert!(!moments_defined(&program, &[vec![nodes[3]]]));
    assert_eq!(zero_accumulators(3), vec![0; 12]);
    assert_eq!(zero_accumulators(0), vec![0; 4]);
    let schedule = sim::Schedule {
        n_warmup: 0,
        n_samples: 1 << 16,
        steps_per_sample: 1,
    };
    assert!(fits_accumulators(&schedule, (1 << 15) - 1));
    assert!(!fits_accumulators(&schedule, 1 << 15));
}

#[test]
fn dispatches_of_a_run() {
    let (nodes, program) = chain_program();
    let data = concatenate(&program);
    let observed = [
        sim::Block::new([nodes[2], nodes[0]]),
        sim::Block::new([nodes[3]]),
    ];
    let layout = ObservedLayout::new(&program, &observed, 2, 10);
    let observation = Observation::States(&layout);
    assert!(can_dispatch(&program, observation, 10));
    assert!(!can_dispatch(&program, observation, u32::MAX));
    let mut run = Run::new(Setup {
        program: &program,
        bases: &data.bases,
        observation,
        schedule: sim::Schedule {
            n_warmup: 1,
            n_samples: 2,
            steps_per_sample: 1,
        },
        seed: 99,
        n_nodes: 4,
        n_chains: 10,
    });
    let mut updates = Vec::new();
    let mut records = Vec::new();
    let mut order = String::new();
    while let Some(action) = run.next() {
        match action {
            Action::Encode(dispatch) => match dispatch.kernel {
                Kernel::UpdateSpins(params) => {
                    order.push('s');
                    updates.push((params.counter, params.node_count, params.states));
                    assert_eq!(dispatch.threads, params.node_count * 10);
                    assert_eq!(params.seed, 99);
                }
                Kernel::UpdateCategorical(params) => {
                    order.push('c');
                    updates.push((params.counter, params.node_count, params.states));
                    assert_eq!(params.node_ids_base, 3);
                }
                Kernel::RecordStates(params) => {
                    order.push('r');
                    records.push((params.sample, params.node_ids_base, params.is_spin));
                    assert_eq!(dispatch.threads, params.words_per_frame * 10);
                }
                Kernel::AccumulateMoments(_) => unreachable!(),
            },
            Action::Submit => unreachable!(),
        }
    }
    assert_eq!(order, "sscrrsscrr");
    assert_eq!(
        updates,
        vec![(0, 2, 2), (1, 1, 2), (2, 1, 5), (3, 2, 2), (4, 1, 2), (5, 1, 5)]
    );
    assert_eq!(records, vec![(0, 0, 1), (0, 2, 0), (1, 0, 1), (1, 2, 0)]);
}

#[test]
fn full_chunks_are_submitted() {
    let (_, program) = chain_program();
    let data = concatenate(&program);
    let mut run = Run::new(Setup {
        program: &program,
        bases: &data.bases,
        observation: Observation::Moments(3),
        schedule: sim::Schedule {
            n_warmup: 341,
            n_samples: 1,
            steps_per_sample: 0,
        },
        seed: 0,
        n_nodes: 4,
        n_chains: 1,
    });
    let mut chunks = vec![0];
    while let Some(action) = run.next() {
        match action {
            Action::Encode(_) => *chunks.last_mut().unwrap() += 1,
            Action::Submit => chunks.push(0),
        }
    }
    // Three updates per step and the moments: exactly two chunks.
    assert_eq!(chunks, vec![OPS_PER_SUBMIT, OPS_PER_SUBMIT]);
}

fn spin(id: u32) -> Variable {
    Variable {
        id,
        kind: sim::NodeKind::Spin,
    }
}

fn categorical(id: u32) -> Variable {
    Variable {
        id,
        kind: sim::NodeKind::Categorical { states: 3 },
    }
}

fn product(beta: i64, weight: i64) -> i64 {
    beta * weight
}

fn chain_ebm() -> IsingEBM<i64> {
    let edges = vec![(spin(10), spin(20)), (spin(20), spin(30))];
    let nodes = vec![spin(10), spin(20), spin(30)];
    IsingEBM::new(nodes, edges, vec![1, 2, 3], vec![4, 5], 2)
        .ok()
        .unwrap()
}

fn chain_binding() -> IsingSamplingProgram<i64> {
    let free = [vec![spin(30), spin(10)], vec![spin(20)]];
    let clamped = [vec![categorical(40)]];
    assert!(is_small_binding(&chain_ebm(), &free, &clamped));
    IsingSamplingProgram::new(&chain_ebm(), &free, &clamped, &product)
        .ok()
        .unwrap()
}

#[test]
fn models_over_variables() {
    let refused = |nodes, edges, biases, weights| {
        IsingEBM::<i64>::new(nodes, edges, biases, weights, 1).err()
    };
    assert_eq!(
        refused(vec![spin(1)], vec![], vec![], vec![]),
        Some(BindingError::BiasCount)
    );
    assert_eq!(
        refused(vec![spin(1)], vec![(spin(1), spin(2))], vec![0], vec![]),
        Some(BindingError::WeightCount)
    );
    assert_eq!(
        refused(vec![categorical(1)], vec![], vec![0], vec![]),
        Some(BindingError::NotSpin)
    );
    assert_eq!(
        refused(vec![spin(1)], vec![(spin(1), categorical(2))], vec![0], vec![0]),
        Some(BindingError::NotSpin)
    );
    assert_eq!(refused(vec![spin(1)], vec![], vec![0], vec![]), None);
}

#[test]
fn programs_over_variables() {
    let this = chain_binding();
    // Nodes are numbered in the order in which the blocks list them.
    assert_eq!(this.free_blocks[0], vec![sim::Node(0), sim::Node(1)]);
    assert_eq!(this.free_blocks[1], vec![sim::Node(2)]);
    assert_eq!(this.clamped_blocks[0], vec![sim::Node(3)]);
    assert_eq!(this.node_map[&10], sim::Node(1));
    assert_eq!(this.program.weights, vec![2, 4, 6, 8, 10]);
    assert_eq!(this.program.node_count(), 4);

    let uncovered = IsingSamplingProgram::new(&chain_ebm(), &[vec![spin(10)]], &[], &product);
    assert_eq!(uncovered.err(), Some(BindingError::NotCovered));
    let blocks = [vec![spin(10), spin(20), spin(30)]];
    let together = IsingSamplingProgram::new(&chain_ebm(), &blocks, &[], &product);
    assert_eq!(
        together.err(),
        Some(BindingError::Compile(sim::Error::IntraBlockInteraction(
            sim::Node(0),
            sim::Node(1)
        )))
    );
    assert_eq!(
        lookup_lists(&this.node_map, &[vec![spin(20)], vec![]]),
        Some(vec![vec![sim::Node(2)], vec![]])
    );
    assert_eq!(
        observed_nodes(&this, &[vec![spin(50)]]),
        Err(BindingError::ObservedNode)
    );
    assert_eq!(
        moment_nodes(&this, &[vec![spin(10), spin(50)]]),
        Err(BindingError::MomentNode)
    );
    assert_eq!(
        moment_nodes(&this, &[vec![spin(10), spin(30)]]),
        Ok(vec![vec![sim::Node(1), sim::Node(0)]])
    );
}

#[test]
fn messages_of_bindings() {
    let expected = [
        (BindingError::BiasCount, "one bias per node is required"),
        (BindingError::WeightCount, "one weight per edge is required"),
        (BindingError::NotSpin, "IsingEBM only supports spin nodes"),
        (BindingError::NotCovered, "node is not covered by any block"),
        (BindingError::BatchSizes, "inconsistent batch sizes across blocks"),
        (BindingError::StateLength, "state length mismatch"),
        (BindingError::InitStates, "one init state per free block"),
        (BindingError::ClampedData, "one data entry per clamped block"),
        (BindingError::ObservedNode, "observed node is not part of the program"),
        (BindingError::MomentNode, "moment node is not part of the program"),
        (BindingError::Device, "device must be 'auto', 'gpu', or 'cpu'"),
        (BindingError::Compile(sim::Error::EmptyBlock), "block is empty"),
    ];
    for (error, text) in expected {
        assert_eq!(error.message(), text);
    }
}

#[test]
fn chains_are_inferred() {
    let flat = || BlockValues::Flat(vec![1]);
    let batch = |count: usize| BlockValues::Batched(vec![vec![0]; count]);
    assert_eq!(infer_chains(&[]), Ok(None));
    assert_eq!(infer_chains(&[flat(), flat()]), Ok(None));
    assert_eq!(infer_chains(&[flat(), batch(3), batch(3)]), Ok(Some(3)));
    assert_eq!(
        infer_chains(&[batch(2), flat(), batch(3)]),
        Err(BindingError::BatchSizes)
    );
}

#[test]
fn initial_states_are_filled() {
    let this = chain_binding();
    let clamped = || [BlockValues::Flat(vec![2])];
    let (state, batched) = initial_state(
        &this,
        &[BlockValues::Flat(vec![1, 0]), BlockValues::Flat(vec![1])],
        &clamped(),
    )
    .unwrap();
    assert_eq!(batched, None);
    assert_eq!(state.chain_count(), 1);
    assert_eq!(state.chain_values(0), &[1, 0, 1, 2]);

    let (state, batched) = initial_state(
        &this,
        &[
            BlockValues::Batched(vec![vec![1, 0], vec![0, 1]]),
            BlockValues::Flat(vec![1]),
        ],
        &clamped(),
    )
    .unwrap();
    assert_eq!(batched, Some(2));
    assert_eq!(state.chain_values(0), &[1, 0, 1, 2]);
    assert_eq!(state.chain_values(1), &[0, 1, 1, 2]);

    let refused = |init: &[BlockValues], data: &[BlockValues]| {
        initial_state(&this, init, data).err()
    };
    let flat = |values: Vec<u32>| BlockValues::Flat(values);
    assert_eq!(
        refused(&[flat(vec![1, 0])], &clamped()),
        Some(BindingError::InitStates)
    );
    assert_eq!(
        refused(&[flat(vec![1, 0]), flat(vec![1])], &[]),
        Some(BindingError::ClampedData)
    );
    assert_eq!(
        refused(&[flat(vec![1]), flat(vec![1])], &clamped()),
        Some(BindingError::StateLength)
    );
    assert_eq!(
        refused(
            &[BlockValues::Batched(vec![vec![1, 0]]), flat(vec![1])],
            &[BlockValues::Batched(vec![vec![0], vec![0]])]
        ),
        Some(BindingError::BatchSizes)
    );
}

#[test]
fn values_are_written_by_chain() {
    let this = chain_binding();
    let nodes = [sim::Node(3), sim::Node(0)];
    let mut state = sim::State::zeros(&this.program, 2);
    let rows = BlockValues::Batched(vec![vec![2, 1], vec![1, 0]]);
    assert_eq!(write_values(&mut state, &nodes, &rows, 2), Ok(()));
    assert_eq!(state.chain_values(0), &[1, 0, 0, 2]);
    assert_eq!(state.chain_values(1), &[0, 0, 0, 1]);
    let short = BlockValues::Batched(vec![vec![2, 1]]);
    assert_eq!(
        write_values(&mut state, &nodes, &short, 2),
        Err(BindingError::BatchSizes)
    );
    let narrow = BlockValues::Flat(vec![1]);
    assert_eq!(
        write_values(&mut state, &nodes, &narrow, 2),
        Err(BindingError::StateLength)
    );
    assert_eq!(state.chain_values(0), &[1, 0, 0, 2]);
    assert_eq!(state.chain_values(1), &[0, 0, 0, 1]);
    // The rows before one of the wrong length are written.
    let ragged = BlockValues::Batched(vec![vec![0, 0], vec![2]]);
    assert_eq!(
        write_values(&mut state, &nodes, &ragged, 2),
        Err(BindingError::StateLength)
    );
    assert_eq!(state.chain_values(0), &[0, 0, 0, 0]);
    assert_eq!(state.chain_values(1), &[0, 0, 0, 1]);
}

#[test]
fn block_states_are_drawn_by_variable() {
    let ebm = chain_ebm();
    let up = sim::rng::UNIFORM_RANGE;
    // Up for even biases, and for variables outside of the model.
    let p_up = |_beta: i64, bias: Option<i64>| match bias {
        Some(bias) if bias % 2 == 1 => 0,
        _ => up,
    };
    let blocks = [vec![spin(30), spin(20)], vec![spin(77)]];
    let drawn = hinton_init(5, &ebm, &blocks, None, &p_up);
    assert!(matches!(&drawn[0], BlockValues::Flat(row) if row == &vec![0, 1]));
    assert!(matches!(&drawn[1], BlockValues::Flat(row) if row == &vec![1]));
    let drawn = hinton_init(5, &ebm, &blocks, Some(2), &p_up);
    assert!(matches!(&drawn[0], BlockValues::Batched(rows) if rows == &vec![vec![0, 1]; 2]));
    assert_eq!(infer_chains(&drawn), Ok(Some(2)));

    // Draws are keyed by the variable, not by its place in a block.
    let half = |_beta: i64, _bias: Option<i64>| up / 2;
    let drawn = hinton_init(5, &ebm, &blocks, Some(3), &half);
    for chain in 0..3u32 {
        let expected = sim::rng::below(
            sim::rng::uniform(5, sim::rng::STEP_HINTON_INIT, chain, 20),
            up / 2,
        );
        assert!(
            matches!(&drawn[0], BlockValues::Batched(rows) if rows[chain as usize][1] == expected)
        );
    }
}

#[test]
fn samples_are_nested() {
    let this = chain_binding();
    let mut state = sim::State::zeros(&this.program, 2);
    state.set(1, sim::Node(3), 2);
    let observed = [sim::Block::new([sim::Node(3)])];
    let schedule = sim::Schedule {
        n_warmup: 0,
        n_samples: 3,
        steps_per_sample: 0,
    };
    let p_up = |_terms: &[sim::Term<i64>]| 0;
    let pick = |_fields: &[Vec<sim::Term<i64>>], _draw: u32| 0;
    let samples = sim::CpuSampler::new().sample_states(
        &this.program, &schedule, &mut state, 0, &observed, &p_up, &pick,
    );
    let nested = nested_samples(&samples, &[1], Some(2));
    assert!(
        matches!(&nested[0], NestedSamples::Batched(batches) if batches == &vec![vec![vec![0], vec![2]]; 3])
    );
    let nested = nested_samples(&samples, &[1], None);
    assert!(matches!(&nested[0], NestedSamples::Flat(rows) if rows == &vec![vec![0]; 3]));
}

#[test]
fn devices() {
    assert_eq!(parse_device("cpu"), Ok(Device::Cpu));
    assert_eq!(parse_device("gpu"), Ok(Device::Gpu));
    assert_eq!(parse_device("auto"), Ok(Device::Auto));
    assert_eq!(parse_device("tpu"), Err(BindingError::Device));
    assert_eq!(choose_backend(Device::Cpu, true), Some(Backend::Cpu));
    assert_eq!(choose_backend(Device::Gpu, true), Some(Backend::Gpu));
    assert_eq!(choose_backend(Device::Gpu, false), None);
    assert_eq!(choose_backend(Device::Auto, true), Some(Backend::Gpu));
    assert_eq!(choose_backend(Device::Auto, false), Some(Backend::Cpu));
}

#[test]
fn grids_have_enough_threads() {
    for threads in [0, 1, 63, 64, 65, 4194240, 4194241, 123456789, u32::MAX] {
        let [x, y, z] = dispatch_grid(threads);
        assert!(x <= 0xFFFF && y <= 0xFFFF && z == 1);
        assert!(x as u64 * y as u64 * 64 >= threads as u64);
    }
}

/// Up for positive fields; for others, as often as not.
fn lean_up(terms: &[sim::Term<i64>]) -> u32 {
    let field: i64 = terms.iter().map(|term| term.sign as i64 * term.weight).sum();
    if field > 0 {
        sim::rng::UNIFORM_RANGE
    } else {
        sim::rng::UNIFORM_RANGE / 2
    }
}

/// A category by the draw, shifted by the fields.
fn by_draw(fields: &[Vec<sim::Term<i64>>], draw: u32) -> u32 {
    let total: i64 = fields
        .iter()
        .map(|terms| terms.iter().map(|term| term.sign as i64 * term.weight).sum::<i64>())
        .sum();
    (draw + total.unsigned_abs() as u32) % fields.len() as u32
}

fn coupled_program() -> (Vec<sim::Node>, sim::Program<i64>) {
    let mut graph = sim::Graph::new();
    let nodes = graph.add_spins(5);
    let cats = graph.add_categoricals(2, 4);
    let factors = [
        sim::DiscreteFactor::bias(nodes.clone(), vec![1i64, -2, 3, -1, 2]),
        sim::DiscreteFactor::coupling(&nodes[..4], &nodes[1..], vec![4, -5, 6, -7]),
        sim::DiscreteFactor {
            spin_groups: vec![sim::Block::new([nodes[1], nodes[2]])],
            cat_groups: vec![sim::Block::new([cats[0], cats[1]])],
            weights: (-4..4).collect(),
        },
    ];
    let free = [
        sim::Block::new([nodes[0], nodes[2], nodes[4]]),
        sim::Block::new([nodes[3], nodes[1]]),
        sim::Block::new([cats[1]]),
    ];
    let clamped = [sim::Block::new([cats[0]])];
    let program = sim::Program::compile(&graph, &free, &clamped, &factors).unwrap();
    (graph.nodes(), program)
}

/// What a kernel that updates a block does to all chains, from the uploaded data.
fn run_update(
    data: &sim::gpu::ProgramData,
    weights: &[i64],
    params: &sim::dispatch::UpdateParams,
    is_spin: bool,
    state: &mut sim::State,
) {
    let before = state.clone();
    for chain in 0..params.n_chains {
        for p in 0..params.node_count {
            let id = data.node_ids[(params.node_ids_base + p) as usize];
            let offset = (params.offsets_base + p) as usize;
            let start = (params.records_base + data.offsets[offset]) as usize;
            let end = (params.records_base + data.offsets[offset + 1]) as usize;
            let records = &data.records[start..end];
            let values = before.chain_values(chain);
            let draw = sim::rng::uniform(params.seed, params.counter, chain, id);
            let value = if is_spin {
                let terms = sim::gibbs::accumulate_gamma(records, values, weights);
                sim::rng::below(draw, lean_up(&terms))
            } else {
                let fields =
                    sim::gibbs::accumulate_theta(records, values, weights, params.states);
                by_draw(&fields, draw)
            };
            state.set(chain, sim::Node(id), value);
        }
    }
}

#[test]
fn dispatches_do_what_a_run_on_the_cpu_does() {
    let (nodes, program) = coupled_program();
    let data = concatenate(&program);
    let observed = [
        sim::Block::new(nodes[..5].to_vec()),
        sim::Block::new(nodes[5..].to_vec()),
    ];
    let schedule = sim::Schedule {
        n_warmup: 3,
        n_samples: 4,
        steps_per_sample: 2,
    };
    let start = sim::State::random(&program, 6, 11);
    let layout = ObservedLayout::new(&program, &observed, 4, 6);
    let mut run = Run::new(Setup {
        program: &program,
        bases: &data.bases,
        observation: Observation::States(&layout),
        schedule,
        seed: 5,
        n_nodes: 7,
        n_chains: 6,
    });
    let ids = observed_ids(&observed);
    let mut recorded = Vec::new();
    let mut state = start.clone();
    while let Some(action) = run.next() {
        if let Action::Encode(dispatch) = action {
            match dispatch.kernel {
                Kernel::UpdateSpins(params) => {
                    run_update(&data, &program.weights, &params, true, &mut state)
                }
                Kernel::UpdateCategorical(params) => {
                    run_update(&data, &program.weights, &params, false, &mut state)
                }
                Kernel::RecordStates(params) => {
                    for chain in 0..params.n_chains {
                        for p in 0..params.node_count {
                            let id = ids[(params.node_ids_base + p) as usize];
                            let value = state.get(chain, sim::Node(id));
                            recorded.push((params.sample, chain, id, value));
                        }
                    }
                }
                Kernel::AccumulateMoments(_) => unreachable!(),
            }
        }
    }

    let mut cpu_state = start.clone();
    let samples = sim::CpuSampler::new().sample_states(
        &program, &schedule, &mut cpu_state, 5, &observed, &lean_up, &by_draw,
    );
    for chain in 0..6 {
        assert_eq!(state.chain_values(chain), cpu_state.chain_values(chain));
        assert_eq!(state.get(chain, nodes[5]), start.get(chain, nodes[5]));
    }
    assert_eq!(recorded.len(), 4 * 6 * 7);
    for (sample, chain, id, value) in recorded {
        let (block, position) = if id < 5 { (0, id) } else { (1, id - 5) };
        assert_eq!(samples.value(block, sample, chain, position), value);
    }
}

#[test]
fn runs_are_reproducible() {
    let (nodes, program) = coupled_program();
    let schedule = sim::Schedule {
        n_warmup: 2,
        n_samples: 5,
        steps_per_sample: 1,
    };
    let observed = [sim::Block::new(nodes[..5].to_vec())];
    let run = |seed: u32| {
        let mut state = sim::State::random(&program, 4, 1);
        let samples = sim::CpuSampler::new().sample_states(
            &program, &schedule, &mut state, seed, &observed, &lean_up, &by_draw,
        );
        samples.data
    };
    assert_eq!(run(8), run(8));
    assert_ne!(run(8), run(9));
}

#[test]
fn replaced_weights_act_like_compiled_ones() {
    let mut graph = sim::Graph::new();
    let nodes = graph.add_spins(3);
    let factors = |weights: Vec<i64>| {
        [sim::DiscreteFactor::coupling(&nodes[..2], &nodes[1..], weights)]
    };
    let free = [sim::Block::new([nodes[0], nodes[2]]), sim::Block::new([nodes[1]])];
    let mut replaced =
        sim::Program::compile(&graph, &free, &[], &factors(vec![1, 2])).unwrap();
    let compiled = sim::Program::compile(&graph, &free, &[], &factors(vec![-3, 4])).unwrap();
    replaced.update_weights(&factors(vec![-3, 4])).unwrap();
    assert_eq!(replaced.weights, compiled.weights);
    for (a, b) in replaced.blocks.iter().zip(compiled.blocks.iter()) {
        assert_eq!(a.records, b.records);
        assert_eq!(a.offsets, b.offsets);
        assert_eq!(a.node_ids, b.node_ids);
    }
}

#[test]
fn accumulators_hold_what_a_run_on_the_cpu_returns() {
    let (nodes, program) = coupled_program();
    let data = concatenate(&program);
    let tuples = vec![
        vec![nodes[0]],
        vec![nodes[1], nodes[3]],
        vec![],
        vec![nodes[4], nodes[2], nodes[0]],
    ];
    let memory = moment_data(&tuples);
    let schedule = sim::Schedule {
        n_warmup: 1,
        n_samples: 5,
        steps_per_sample: 3,
    };
    let start = sim::State::random(&program, 4, 2);
    let mut run = Run::new(Setup {
        program: &program,
        bases: &data.bases,
        observation: Observation::Moments(4),
        schedule,
        seed: 6,
        n_nodes: 7,
        n_chains: 4,
    });
    let mut state = start.clone();
    let mut accumulators = vec![0i64; 4];
    while let Some(action) = run.next() {
        if let Action::Encode(dispatch) = action {
            match dispatch.kernel {
                Kernel::UpdateSpins(params) => {
                    run_update(&data, &program.weights, &params, true, &mut state)
                }
                Kernel::UpdateCategorical(params) => {
                    run_update(&data, &program.weights, &params, false, &mut state)
                }
                Kernel::AccumulateMoments(params) => {
                    for m in 0..params.n_moments as usize {
                        let from = memory.offsets[m] as usize;
                        let to = memory.offsets[m + 1] as usize;
                        for chain in 0..params.n_chains {
                            let values = state.chain_values(chain);
                            accumulators[m] += memory.nodes[from..to]
                                .iter()
                                .map(|&id| values[id as usize] as i64 * 2 - 1)
                                .product::<i64>();
                        }
                    }
                }
                Kernel::RecordStates(_) => unreachable!(),
            }
        }
    }
    let mut cpu_state = start.clone();
    let (sums, count) = sim::CpuSampler::new().accumulate_moments(
        &program, &schedule, &mut cpu_state, 6, &tuples, &lean_up, &by_draw,
    );
    assert_eq!(accumulators, sums);
    assert_eq!(count, 20);
    assert_eq!(sums[2], 20);
}

#[test]
fn order_inside_a_block_changes_nothing() {
    let mut graph = sim::Graph::new();
    let nodes = graph.add_spins(4);
    let factors = [
        sim::DiscreteFactor::bias(nodes.clone(), vec![1i64, -2, 3, -1]),
        sim::DiscreteFactor::coupling(&nodes[..3], &nodes[1..], vec![2, -3, 4]),
    ];
    let schedule = sim::Schedule {
        n_warmup: 3,
        n_samples: 4,
        steps_per_sample: 2,
    };
    let observed = [sim::Block::new(nodes.clone())];
    let run = |free: [sim::Block; 2]| {
        let program = sim::Program::compile(&graph, &free, &[], &factors).unwrap();
        let mut state = sim::State::random(&program, 5, 1);
        let samples = sim::CpuSampler::new().sample_states(
            &program, &schedule, &mut state, 3, &observed, &lean_up, &by_draw,
        );
        (samples.data, state.values)
    };
    assert_eq!(
        run([
            sim::Block::new([nodes[0], nodes[2]]),
            sim::Block::new([nodes[1], nodes[3]])
        ]),
        run([
            sim::Block::new([nodes[2], nodes[0]]),
            sim::Block::new([nodes[3], nodes[1]])
        ])
    );
}

#[test]
fn new_programs_have_no_id() {
    let this = chain_binding();
    assert_eq!(this.program.id, 0);
    assert_eq!(this.program.weights_generation, 0);
}
