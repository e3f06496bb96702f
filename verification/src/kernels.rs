//! What the kernels of a GPU run compute, and that the run samples the same
//! chains as one on the CPU.
//!
//! Kernels run on a device and are not code of this library. The functions
//! here say what each of their threads makes of its parameters and of the
//! uploaded data; the laws say what follows for a whole run.

use vstd::prelude::*;

use crate::cpu::{kept, lemma_frame, product_sum, records_run, sampled_frames};
use crate::dispatch::{
    lemma_all_steps, lemma_observed_base, lemma_total_steps, observed_base,
    samples_follow_the_same_steps, step_count, Dispatch, Kernel, Observation, RecordParams, Setup,
    UpdateParams,
};
use crate::gibbs::{
    after_blocks, after_steps, all_field_terms, field_terms, node_value, updated, Rule,
};
use crate::gpu::{
    all_ids, all_node_ids, all_offsets, all_records, bases_lead_to_the_block, lemma_block_ids,
    uploadable,
};
use crate::graph::Node;
use crate::program::{ids_of, Program};
use crate::record::{decode, spin_product};
use crate::rng::{spin_from_draw, uniform_draw};
use crate::samples::{frame_of, packs_bits, ObservedBlockLayout, ObservedLayout, Samples};
use crate::schedule::{RunOp, Schedule};
use crate::soundness::block_sound;

verus! {

/// The program data in the memory of a device.
pub struct Memory<W> {
    pub offsets: Seq<u32>,
    pub records: Seq<u32>,
    pub node_ids: Seq<u32>,
    pub weights: Seq<W>,
}

/// The memory after the data of a program was uploaded.
pub open spec fn uploaded<W>(program: Program<W>) -> Memory<W> {
    let blocks = program.blocks@;
    Memory {
        offsets: all_offsets(blocks, blocks.len()),
        records: all_records(blocks, blocks.len()),
        node_ids: all_node_ids(blocks, blocks.len()),
        weights: program.weights@,
    }
}

/// The parameters of a kernel that updates a block.
pub open spec fn update_params(kernel: Kernel) -> Option<UpdateParams> {
    match kernel {
        Kernel::UpdateSpins(params) => Some(params),
        Kernel::UpdateCategorical(params) => Some(params),
        _ => None,
    }
}

/// The value that the thread for position `p` of an update computes in a chain.
pub open spec fn thread_value<W>(
    memory: Memory<W>,
    rule: Rule<W>,
    kernel: Kernel,
    params: UpdateParams,
    chain: u32,
    values: Seq<u32>,
    p: int,
) -> u32 {
    let records = decode(
        memory.records.subrange(
            params.records_base + memory.offsets[params.offsets_base + p],
            params.records_base + memory.offsets[params.offsets_base + p + 1],
        ),
    );
    let draw = uniform_draw(
        params.seed,
        params.counter,
        chain,
        memory.node_ids[params.node_ids_base + p],
    );
    if kernel is UpdateSpins {
        spin_from_draw(
            draw,
            (rule.threshold)(field_terms(records, memory.weights, values, 0)),
        )
    } else {
        (rule.pick)(
            all_field_terms(records, memory.weights, values, params.states as nat),
            draw,
        )
    }
}

/// The node ids that an update covers.
pub open spec fn covered_ids<W>(memory: Memory<W>, params: UpdateParams) -> Seq<u32> {
    memory.node_ids.subrange(
        params.node_ids_base as int,
        params.node_ids_base + params.node_count,
    )
}

/// A chain after all threads of a dispatch.
pub open spec fn after_dispatch<W>(
    memory: Memory<W>,
    rule: Rule<W>,
    dispatch: Dispatch,
    chain: u32,
    values: Seq<u32>,
) -> Seq<u32> {
    match update_params(dispatch.kernel) {
        Some(params) => {
            let ids = covered_ids(memory, params);
            Seq::new(
                values.len(),
                |v: int|
                    if ids.contains(v as u32) {
                        thread_value(
                            memory,
                            rule,
                            dispatch.kernel,
                            params,
                            chain,
                            values,
                            ids.index_of(v as u32),
                        )
                    } else {
                        values[v]
                    },
            )
        },
        None => values,
    }
}

/// A chain after a list of dispatches.
pub open spec fn after_dispatches<W>(
    memory: Memory<W>,
    rule: Rule<W>,
    dispatches: Seq<Dispatch>,
    chain: u32,
    values: Seq<u32>,
) -> Seq<u32>
    decreases dispatches.len(),
{
    if dispatches.len() == 0 {
        values
    } else {
        after_dispatch(
            memory,
            rule,
            dispatches.last(),
            chain,
            after_dispatches(memory, rule, dispatches.drop_last(), chain, values),
        )
    }
}

proof fn lemma_after_both<W>(
    memory: Memory<W>,
    rule: Rule<W>,
    a: Seq<Dispatch>,
    b: Seq<Dispatch>,
    chain: u32,
    values: Seq<u32>,
)
    ensures
        after_dispatches(memory, rule, a + b, chain, values) == after_dispatches(
            memory,
            rule,
            b,
            chain,
            after_dispatches(memory, rule, a, chain, values),
        ),
    decreases b.len(),
{
    if b.len() == 0 {
        assert(a + b =~= a);
    } else {
        assert((a + b).drop_last() =~= a + b.drop_last());
        lemma_after_both(memory, rule, a, b.drop_last(), chain, values);
    }
}

/// The threads of an update compute the new values of the nodes of its block.
proof fn lemma_thread_value<'a, W>(
    setup: Setup<'a, W>,
    rule: Rule<W>,
    b: int,
    counter: int,
    chain: u32,
    values: Seq<u32>,
    p: int,
)
    requires
        setup.program.wf(),
        uploadable(setup.program.blocks@),
        0 <= b < setup.program.blocks@.len(),
        0 <= p < setup.program.blocks@[b].node_ids@.len(),
    ensures
        ({
            let kernel = setup.update(b, counter).kernel;
            thread_value(
                uploaded(*setup.program),
                rule,
                kernel,
                update_params(kernel).unwrap(),
                chain,
                values,
                p,
            ) == node_value(
                setup.program.weights@,
                setup.program.blocks@[b],
                rule,
                setup.seed,
                counter as u32,
                chain,
                values,
                p,
            )
        }),
{
    let block = setup.program.blocks@[b];
    assert(block_sound(setup.program.node_kinds@, setup.program.weights@.len(), block));
    assert((block.node_ids@[p] as int) < setup.program.node_kinds@.len());
    bases_lead_to_the_block(setup.program.blocks@, b, p);
}

/// The dispatch that updates a block does to a chain what the update of the
/// block on the CPU does.
pub proof fn dispatches_update_their_block<'a, W>(
    setup: Setup<'a, W>,
    rule: Rule<W>,
    b: int,
    counter: int,
    chain: u32,
    values: Seq<u32>,
)
    requires
        setup.program.wf(),
        setup.wf(),
        uploadable(setup.program.blocks@),
        0 <= b < setup.program.blocks@.len(),
    ensures
        after_dispatch(
            uploaded(*setup.program),
            rule,
            setup.update(b, counter),
            chain,
            values,
        ) == updated(
            setup.program.weights@,
            setup.program.blocks@[b],
            rule,
            setup.seed,
            counter as u32,
            chain,
            values,
        ),
{
    let block = setup.program.blocks@[b];
    let memory = uploaded(*setup.program);
    let dispatch = setup.update(b, counter);
    let params = update_params(dispatch.kernel).unwrap();
    lemma_block_ids(setup.program.blocks@, b);
    assert(covered_ids(memory, params) == block.node_ids@);
    let after = after_dispatch(memory, rule, dispatch, chain, values);
    let expected = updated(
        setup.program.weights@,
        block,
        rule,
        setup.seed,
        counter as u32,
        chain,
        values,
    );
    assert forall|v: int| 0 <= v < values.len() implies #[trigger] after[v] == expected[v] by {
        if block.node_ids@.contains(v as u32) {
            lemma_thread_value(
                setup,
                rule,
                b,
                counter,
                chain,
                values,
                block.node_ids@.index_of(v as u32),
            );
        }
    }
    assert(after =~= expected);
}

/// The first dispatches of a step update the first blocks.
proof fn lemma_step_dispatches<'a, W>(
    setup: Setup<'a, W>,
    rule: Rule<W>,
    counter: int,
    chain: u32,
    values: Seq<u32>,
    count: nat,
)
    requires
        setup.program.wf(),
        setup.wf(),
        uploadable(setup.program.blocks@),
        count <= setup.program.blocks@.len(),
    ensures
        after_dispatches(
            uploaded(*setup.program),
            rule,
            setup.of_op(RunOp::Step, counter).take(count as int),
            chain,
            values,
        ) == after_blocks(*setup.program, rule, setup.seed, counter, chain, values, count),
    decreases count,
{
    if count > 0 {
        let dispatches = setup.of_op(RunOp::Step, counter);
        let before = (count - 1) as nat;
        lemma_step_dispatches(setup, rule, counter, chain, values, before);
        assert(dispatches.take(count as int).drop_last() =~= dispatches.take(before as int));
        assert(dispatches.take(count as int).last() == setup.update(count - 1, counter + count - 1));
        dispatches_update_their_block(
            setup,
            rule,
            count - 1,
            counter + count - 1,
            chain,
            after_blocks(*setup.program, rule, setup.seed, counter, chain, values, before),
        );
    }
}

/// Dispatches that record change no chain.
proof fn lemma_record_dispatches<W>(
    memory: Memory<W>,
    rule: Rule<W>,
    dispatches: Seq<Dispatch>,
    chain: u32,
    values: Seq<u32>,
)
    requires
        forall|i: int|
            0 <= i < dispatches.len() ==> update_params((#[trigger] dispatches[i]).kernel) is None,
    ensures
        after_dispatches(memory, rule, dispatches, chain, values) == values,
    decreases dispatches.len(),
{
    if dispatches.len() > 0 {
        assert(update_params(dispatches[dispatches.len() - 1].kernel) is None);
        assert forall|i: int| 0 <= i < dispatches.drop_last().len() implies update_params(
            (#[trigger] dispatches.drop_last()[i]).kernel,
        ) is None by {
            assert(dispatches.drop_last()[i] == dispatches[i]);
        }
        lemma_record_dispatches(memory, rule, dispatches.drop_last(), chain, values);
    }
}

/// After the dispatches of any number of operations, every chain is where a
/// run on the CPU is after the steps among them.
pub proof fn dispatches_follow_the_steps<'a, W>(
    setup: Setup<'a, W>,
    rule: Rule<W>,
    chain: u32,
    values: Seq<u32>,
    n: nat,
)
    requires
        setup.program.wf(),
        setup.wf(),
        uploadable(setup.program.blocks@),
        n <= setup.schedule.ops().len(),
    ensures
        after_dispatches(uploaded(*setup.program), rule, setup.of_ops(n), chain, values)
            == after_steps(
            *setup.program,
            rule,
            setup.seed,
            chain,
            values,
            step_count(setup.schedule.ops(), n),
        ),
    decreases n,
{
    if n > 0 {
        let memory = uploaded(*setup.program);
        let ops = setup.schedule.ops();
        let before = (n - 1) as nat;
        let blocks = setup.program.blocks@.len();
        let steps = step_count(ops, before);
        let counter = (steps * blocks) as int;
        dispatches_follow_the_steps(setup, rule, chain, values, before);
        let here = after_dispatches(memory, rule, setup.of_ops(before), chain, values);
        let more = setup.of_op(ops[n - 1], counter);
        lemma_after_both(memory, rule, setup.of_ops(before), more, chain, values);
        match ops[n - 1] {
            RunOp::Step => {
                lemma_step_dispatches(setup, rule, counter, chain, here, blocks);
                assert(more.take(blocks as int) =~= more);
            },
            RunOp::Record(_) => {
                lemma_record_dispatches(memory, rule, more, chain, here);
            },
        }
    }
}

proof fn lemma_of_ops_prefix<'a, W>(setup: Setup<'a, W>, n: nat, total: nat)
    requires
        n <= total,
    ensures
        setup.of_ops(n).len() <= setup.of_ops(total).len(),
        setup.of_ops(total).take(setup.of_ops(n).len() as int) == setup.of_ops(n),
    decreases total,
{
    let len = setup.of_ops(n).len() as int;
    if n < total {
        lemma_of_ops_prefix(setup, n, (total - 1) as nat);
        assert(setup.of_ops(total).take(len) =~= setup.of_ops((total - 1) as nat).take(len));
    } else {
        assert(setup.of_ops(total).take(len) =~= setup.of_ops(n));
    }
}

/// The operations done when a sample is due.
pub open spec fn ops_before<'a, W>(setup: Setup<'a, W>, sample: int) -> nat {
    (setup.schedule.steps_before(sample) + sample) as nat
}

/// A run on the GPU samples the chains of a run on the CPU: when the
/// dispatches of a sample are due, every chain has been updated by the steps
/// before the sample, with the same draws.
pub proof fn samples_see_the_same_chains<'a, W>(
    setup: Setup<'a, W>,
    rule: Rule<W>,
    sample: u32,
    chain: u32,
    values: Seq<u32>,
)
    requires
        setup.program.wf(),
        setup.wf(),
        uploadable(setup.program.blocks@),
        sample < setup.schedule.n_samples,
    ensures
        ({
            let n = ops_before(setup, sample as int);
            let due = setup.of_ops(n).len() as int;
            &&& n < setup.schedule.ops().len()
            &&& setup.schedule.ops()[n as int] == RunOp::Record(sample)
            &&& due <= setup.dispatches().len()
            &&& after_dispatches(
                uploaded(*setup.program),
                rule,
                setup.dispatches().take(due),
                chain,
                values,
            ) == after_steps(
                *setup.program,
                rule,
                setup.seed,
                chain,
                values,
                setup.schedule.steps_before(sample as int) as nat,
            )
        }),
{
    let schedule = setup.schedule;
    let n = ops_before(setup, sample as int);
    samples_follow_the_same_steps(schedule, sample as nat);
    assert(0 <= sample * schedule.steps_per_sample <= (schedule.n_samples - 1)
        * schedule.steps_per_sample) by (nonlinear_arith)
        requires
            0 <= sample <= schedule.n_samples - 1,
            schedule.steps_per_sample >= 0,
    ;
    lemma_of_ops_prefix(setup, n, schedule.ops().len());
    dispatches_follow_the_steps(setup, rule, chain, values, n);
}

/// The chains that the kernels of every sample observe, frame by frame.
pub open spec fn observed_frames<'a, W>(
    setup: Setup<'a, W>,
    rule: Rule<W>,
    start: Seq<Seq<u32>>,
) -> Seq<Seq<u32>> {
    let n_chains = start.len() as int;
    Seq::new(
        (setup.schedule.n_samples * n_chains) as nat,
        |f: int|
            after_dispatches(
                uploaded(*setup.program),
                rule,
                setup.dispatches().take(
                    setup.of_ops(ops_before(setup, f / n_chains)).len() as int,
                ),
                (f % n_chains) as u32,
                start[f % n_chains],
            ),
    )
}

/// Both backends observe the same frames.
pub proof fn backends_observe_the_same_frames<'a, W>(
    setup: Setup<'a, W>,
    rule: Rule<W>,
    start: Seq<Seq<u32>>,
)
    requires
        setup.program.wf(),
        setup.wf(),
        uploadable(setup.program.blocks@),
    ensures
        observed_frames(setup, rule, start) == sampled_frames(
            *setup.program,
            rule,
            setup.seed,
            setup.schedule,
            start,
        ),
{
    let n_samples = setup.schedule.n_samples as int;
    let n_chains = start.len() as int;
    let a = observed_frames(setup, rule, start);
    let b = sampled_frames(*setup.program, rule, setup.seed, setup.schedule, start);
    assert forall|f: int| 0 <= f < n_samples * n_chains implies #[trigger] a[f] == b[f] by {
        assert(n_chains > 0 && 0 <= f / n_chains < n_samples) by (nonlinear_arith)
            requires
                0 <= f < n_samples * n_chains,
                n_chains >= 0,
        ;
        samples_see_the_same_chains(
            setup,
            rule,
            (f / n_chains) as u32,
            (f % n_chains) as u32,
            start[f % n_chains],
        );
    }
    assert(a =~= b);
}

/// A run on the GPU leaves every chain where one on the CPU does.
pub proof fn backends_end_in_the_same_chains<'a, W>(
    setup: Setup<'a, W>,
    rule: Rule<W>,
    chain: u32,
    values: Seq<u32>,
)
    requires
        setup.program.wf(),
        setup.wf(),
        uploadable(setup.program.blocks@),
    ensures
        after_dispatches(uploaded(*setup.program), rule, setup.dispatches(), chain, values)
            == after_steps(
            *setup.program,
            rule,
            setup.seed,
            chain,
            values,
            setup.schedule.total_steps() as nat,
        ),
{
    lemma_all_steps(setup.schedule);
    dispatches_follow_the_steps(setup, rule, chain, values, setup.schedule.ops().len());
}

/// What the threads of a dispatch that records leave in the storage: the
/// values that the nodes of the observed block have in the chain.
pub open spec fn recorded_by(
    params: RecordParams,
    obs_node_ids: Seq<u32>,
    data: Seq<u32>,
    chain: u32,
    values: Seq<u32>,
) -> bool {
    let block = ObservedBlockLayout {
        base: params.out_base,
        words_per_frame: params.words_per_frame,
        is_spin: params.is_spin == 1,
        node_count: params.node_count,
    };
    forall|p: int|
        0 <= p < params.node_count ==> #[trigger] block.stored(
            data,
            frame_of(params.n_chains as int, params.sample as int, chain as int),
            p,
        ) == kept(block.is_spin, values[obs_node_ids[params.node_ids_base + p] as int])
}

/// Whether the storage holds what the kernels record of an observed block at
/// a sample of a chain.
pub open spec fn frame_recorded<'a, W>(
    setup: Setup<'a, W>,
    rule: Rule<W>,
    start: Seq<Seq<u32>>,
    observed: Seq<Seq<Node>>,
    samples: Samples,
    b: int,
    sample: u32,
    chain: u32,
) -> bool {
    match setup.record(&samples.layout, b, sample).kernel {
        Kernel::RecordStates(params) => recorded_by(
            params,
            all_ids(observed, observed.len()),
            samples.data@,
            chain,
            observed_frames(setup, rule, start)[frame_of(
                start.len() as int,
                sample as int,
                chain as int,
            )],
        ),
        _ => false,
    }
}

/// The node ids of an observed block follow those of the blocks before it.
proof fn lemma_observed_ids(
    layout: &ObservedLayout,
    observed: Seq<Seq<Node>>,
    n: nat,
    b: int,
    p: int,
)
    requires
        layout.blocks@.len() == observed.len(),
        n <= observed.len(),
        forall|c: int|
            0 <= c < observed.len() ==> (#[trigger] layout.blocks@[c]).node_count
                == observed[c].len(),
    ensures
        observed_base(layout, n) == all_ids(observed, n).len(),
        0 <= b < n && 0 <= p < observed[b].len() ==> {
            &&& observed_base(layout, b as nat) + p < all_ids(observed, n).len()
            &&& all_ids(observed, n)[observed_base(layout, b as nat) + p] == observed[b][p].0
        },
    decreases n,
{
    if n > 0 {
        lemma_observed_ids(layout, observed, (n - 1) as nat, b, p);
        assert(layout.blocks@[n - 1].node_count == observed[n - 1].len());
    }
}

/// The storage that the kernels fill holds the samples that a run on the CPU
/// with the same seed records.
pub proof fn backends_record_the_same_samples<'a, W>(
    setup: Setup<'a, W>,
    rule: Rule<W>,
    start: Seq<Seq<u32>>,
    observed: Seq<Seq<Node>>,
    samples: Samples,
)
    requires
        setup.program.wf(),
        setup.wf(),
        uploadable(setup.program.blocks@),
        setup.observation == Observation::States(&samples.layout),
        start.len() == setup.n_chains,
        samples.n_chains == setup.n_chains,
        samples.layout.lays_out(
            setup.program.node_kinds@,
            observed,
            (setup.schedule.n_samples * setup.n_chains) as nat,
        ),
        forall|b: int, sample: u32, chain: u32|
            0 <= b < observed.len() && sample < setup.schedule.n_samples && chain < start.len()
                ==> #[trigger] frame_recorded(
                setup,
                rule,
                start,
                observed,
                samples,
                b,
                sample,
                chain,
            ),
    ensures
        records_run(
            *setup.program,
            rule,
            setup.seed,
            setup.schedule,
            start,
            observed,
            samples,
        ),
{
    let layout = &samples.layout;
    let frames = observed_frames(setup, rule, start);
    backends_observe_the_same_frames(setup, rule, start);
    assert forall|b: int, sample: u32, chain: u32, p: u32|
        0 <= b < observed.len() && sample < setup.schedule.n_samples && chain < start.len() && p
            < observed[b].len() implies #[trigger] samples.at(b, sample, chain, p) == kept(
        packs_bits(setup.program.node_kinds@, observed[b]),
        after_steps(
            *setup.program,
            rule,
            setup.seed,
            chain,
            start[chain as int],
            setup.schedule.steps_before(sample as int) as nat,
        )[observed[b][p as int].0 as int],
    ) by {
        assert(frame_recorded(setup, rule, start, observed, samples, b, sample, chain));
        let frame = frame_of(start.len() as int, sample as int, chain as int);
        lemma_frame(
            setup.schedule.n_samples as int,
            start.len() as int,
            sample as int,
            chain as int,
        );
        lemma_observed_ids(layout, observed, observed.len(), b, p as int);
        lemma_observed_base(layout, b as nat, observed.len());
        let block = layout.blocks@[b];
        assert(setup.record(layout, b, sample).kernel is RecordStates);
        let params = setup.record(layout, b, sample).kernel->RecordStates_0;
        let written = ObservedBlockLayout {
            base: params.out_base,
            words_per_frame: params.words_per_frame,
            is_spin: params.is_spin == 1,
            node_count: params.node_count,
        };
        assert(written == block);
        assert(params.node_ids_base == observed_base(layout, b as nat));
        assert(recorded_by(
            params,
            all_ids(observed, observed.len()),
            samples.data@,
            chain,
            frames[frame],
        ));
        assert(params.n_chains == start.len() && params.sample == sample);
        assert(p < params.node_count);
        assert(written.stored(samples.data@, frame, p as int) == kept(
            block.is_spin,
            frames[frame][observed[b][p as int].0 as int],
        ));
    }
}

/// The ids of the nodes of a tuple, in the memory of a device.
pub open spec fn tuple_ids(offsets: Seq<u32>, nodes: Seq<u32>, m: int) -> Seq<u32> {
    nodes.subrange(offsets[m] as int, offsets[m + 1] as int)
}

/// What the threads of one tuple add to its accumulator: the products of its
/// spins in the first `n` chains, after some dispatches.
pub open spec fn added_products<W>(
    memory: Memory<W>,
    rule: Rule<W>,
    before: Seq<Dispatch>,
    start: Seq<Seq<u32>>,
    ids: Seq<u32>,
    n: nat,
) -> int
    decreases n,
{
    if n == 0 {
        0
    } else {
        added_products(memory, rule, before, start, ids, (n - 1) as nat) + spin_product(
            ids,
            after_dispatches(memory, rule, before, (n - 1) as u32, start[n - 1]),
        )
    }
}

/// The accumulator of tuple `m` after a list of dispatches.
pub open spec fn accumulated<W>(
    memory: Memory<W>,
    rule: Rule<W>,
    dispatches: Seq<Dispatch>,
    start: Seq<Seq<u32>>,
    offsets: Seq<u32>,
    nodes: Seq<u32>,
    m: int,
) -> int
    decreases dispatches.len(),
{
    if dispatches.len() == 0 {
        0
    } else {
        let before = dispatches.drop_last();
        accumulated(memory, rule, before, start, offsets, nodes, m) + match dispatches.last().kernel {
            Kernel::AccumulateMoments(params) => if m < params.n_moments {
                added_products(
                    memory,
                    rule,
                    before,
                    start,
                    tuple_ids(offsets, nodes, m),
                    params.n_chains as nat,
                )
            } else {
                0
            },
            _ => 0,
        }
    }
}

/// Updates change no accumulator.
proof fn lemma_updates_accumulate_nothing<W>(
    memory: Memory<W>,
    rule: Rule<W>,
    a: Seq<Dispatch>,
    b: Seq<Dispatch>,
    start: Seq<Seq<u32>>,
    offsets: Seq<u32>,
    nodes: Seq<u32>,
    m: int,
)
    requires
        forall|i: int| 0 <= i < b.len() ==> update_params((#[trigger] b[i]).kernel) is Some,
    ensures
        accumulated(memory, rule, a + b, start, offsets, nodes, m) == accumulated(
            memory,
            rule,
            a,
            start,
            offsets,
            nodes,
            m,
        ),
    decreases b.len(),
{
    if b.len() == 0 {
        assert(a + b =~= a);
    } else {
        assert(update_params(b[b.len() - 1].kernel) is Some);
        assert forall|i: int| 0 <= i < b.drop_last().len() implies update_params(
            (#[trigger] b.drop_last()[i]).kernel,
        ) is Some by {
            assert(b.drop_last()[i] == b[i]);
        }
        assert((a + b).drop_last() =~= a + b.drop_last());
        lemma_updates_accumulate_nothing(
            memory,
            rule,
            a,
            b.drop_last(),
            start,
            offsets,
            nodes,
            m,
        );
    }
}

/// The ids of the tuples follow each other.
proof fn lemma_tuple_ids(lists: Seq<Seq<Node>>, m: int, n: nat)
    requires
        0 <= m < n <= lists.len(),
    ensures
        all_ids(lists, m as nat).len() + lists[m].len() == all_ids(lists, (m + 1) as nat).len(),
        all_ids(lists, (m + 1) as nat).len() <= all_ids(lists, n).len(),
        all_ids(lists, n).subrange(
            all_ids(lists, m as nat).len() as int,
            all_ids(lists, (m + 1) as nat).len() as int,
        ) == ids_of(lists[m]),
    decreases n,
{
    let from = all_ids(lists, m as nat).len() as int;
    let to = all_ids(lists, (m + 1) as nat).len() as int;
    if m + 1 < n {
        lemma_tuple_ids(lists, m, (n - 1) as nat);
        assert(all_ids(lists, n).subrange(from, to) =~= all_ids(lists, (n - 1) as nat).subrange(
            from,
            to,
        ));
    } else {
        assert(all_ids(lists, n).subrange(from, to) =~= ids_of(lists[m]));
    }
}

/// Where a sample is recorded.
proof fn lemma_record_place(schedule: Schedule, position: nat, sample: u32)
    requires
        position < schedule.ops().len(),
        schedule.ops()[position as int] == RunOp::Record(sample),
    ensures
        sample < schedule.n_samples,
        position == schedule.steps_before(sample as int) + sample,
        step_count(schedule.ops(), position) == schedule.steps_before(sample as int),
{
    let past = position - schedule.n_warmup;
    let period = schedule.steps_per_sample + 1;
    let last = schedule.n_samples - 1;
    let s = past / period;
    assert(past >= 0 && past % period == 0);
    vstd::arithmetic::div_mod::lemma_fundamental_div_mod(past, period);
    assert(schedule.n_samples > 0);
    assert(last * schedule.steps_per_sample + last == last * period) by (nonlinear_arith)
        requires
            period == schedule.steps_per_sample + 1,
    ;
    assert(past <= last * period);
    assert(0 <= s <= last) by (nonlinear_arith)
        requires
            0 <= past <= last * period,
            past == period * s,
            period >= 1,
    ;
    assert(period * s == s * schedule.steps_per_sample + s) by (nonlinear_arith)
        requires
            period == schedule.steps_per_sample + 1,
    ;
    assert(sample == s);
    samples_follow_the_same_steps(schedule, sample as nat);
}

/// The products of one more sample.
proof fn lemma_sample_products<'a, W>(
    setup: Setup<'a, W>,
    rule: Rule<W>,
    start: Seq<Seq<u32>>,
    tuple: Seq<Node>,
    before: nat,
    sample: u32,
    n: nat,
)
    requires
        setup.program.wf(),
        setup.wf(),
        uploadable(setup.program.blocks@),
        start.len() == setup.n_chains,
        before < setup.schedule.ops().len(),
        setup.schedule.ops()[before as int] == RunOp::Record(sample),
        n <= start.len(),
    ensures
        ({
            let frames = sampled_frames(
                *setup.program,
                rule,
                setup.seed,
                setup.schedule,
                start,
            );
            let done = (sample * start.len()) as nat;
            product_sum(frames, tuple, done + n) == product_sum(frames, tuple, done)
                + added_products(
                uploaded(*setup.program),
                rule,
                setup.of_ops(before),
                start,
                ids_of(tuple),
                n,
            )
        }),
    decreases n,
{
    if n > 0 {
        let chain = (n - 1) as u32;
        let n_chains = start.len() as int;
        lemma_sample_products(setup, rule, start, tuple, before, sample, (n - 1) as nat);
        lemma_record_place(setup.schedule, before, sample);
        lemma_frame(
            setup.schedule.n_samples as int,
            n_chains,
            sample as int,
            chain as int,
        );
        dispatches_follow_the_steps(setup, rule, chain, start[chain as int], before);
        let done = (sample * start.len()) as nat;
        let frames = sampled_frames(*setup.program, rule, setup.seed, setup.schedule, start);
        assert(frame_of(n_chains, sample as int, chain as int) == done + n - 1);
        assert(frames[done + n - 1] == after_steps(
            *setup.program,
            rule,
            setup.seed,
            chain,
            start[chain as int],
            setup.schedule.steps_before(sample as int) as nat,
        ));
    }
}

/// After the dispatches of any number of operations, an accumulator has the
/// products of the samples among them.
proof fn lemma_accumulated<'a, W>(
    setup: Setup<'a, W>,
    rule: Rule<W>,
    start: Seq<Seq<u32>>,
    tuple: Seq<Node>,
    offsets: Seq<u32>,
    nodes: Seq<u32>,
    m: int,
    n: nat,
)
    requires
        setup.program.wf(),
        setup.wf(),
        uploadable(setup.program.blocks@),
        setup.observation matches Observation::Moments(count) && m < count,
        start.len() == setup.n_chains,
        tuple_ids(offsets, nodes, m) == ids_of(tuple),
        n <= setup.schedule.ops().len(),
    ensures
        step_count(setup.schedule.ops(), n) <= n,
        accumulated(
            uploaded(*setup.program),
            rule,
            setup.of_ops(n),
            start,
            offsets,
            nodes,
            m,
        ) == product_sum(
            sampled_frames(*setup.program, rule, setup.seed, setup.schedule, start),
            tuple,
            ((n - step_count(setup.schedule.ops(), n)) * start.len()) as nat,
        ),
    decreases n,
{
    let memory = uploaded(*setup.program);
    let ops = setup.schedule.ops();
    if n == 0 {
        assert(0 * start.len() == 0) by (nonlinear_arith);
    } else {
        let before = (n - 1) as nat;
        let counter = (step_count(ops, before) * setup.program.blocks@.len()) as int;
        let more = setup.of_op(ops[n - 1], counter);
        let earlier = setup.of_ops(before);
        lemma_accumulated(setup, rule, start, tuple, offsets, nodes, m, before);
        match ops[n - 1] {
            RunOp::Step => {
                lemma_updates_accumulate_nothing(
                    memory,
                    rule,
                    earlier,
                    more,
                    start,
                    offsets,
                    nodes,
                    m,
                );
            },
            RunOp::Record(sample) => {
                assert((earlier + more).drop_last() =~= earlier);
                lemma_record_place(setup.schedule, before, sample);
                lemma_sample_products(
                    setup,
                    rule,
                    start,
                    tuple,
                    before,
                    sample,
                    start.len(),
                );
                assert((sample + 1) * start.len() == sample * start.len() + start.len())
                    by (nonlinear_arith);
                assert(0 <= sample * start.len()) by (nonlinear_arith);
            },
        }
    }
}

/// Both backends accumulate the same moments: the accumulators of a run on
/// the GPU hold the sums that a run on the CPU with the same seed returns.
pub proof fn backends_accumulate_the_same_moments<'a, W>(
    setup: Setup<'a, W>,
    rule: Rule<W>,
    start: Seq<Seq<u32>>,
    moments: Seq<Seq<Node>>,
    offsets: Seq<u32>,
    nodes: Seq<u32>,
    m: int,
)
    requires
        setup.program.wf(),
        setup.wf(),
        uploadable(setup.program.blocks@),
        moments.len() <= u32::MAX,
        setup.observation == Observation::Moments(moments.len() as u32),
        start.len() == setup.n_chains,
        0 <= m < moments.len(),
        nodes == all_ids(moments, moments.len()),
        offsets[m] == all_ids(moments, m as nat).len(),
        offsets[m + 1] == all_ids(moments, (m + 1) as nat).len(),
    ensures
        accumulated(
            uploaded(*setup.program),
            rule,
            setup.dispatches(),
            start,
            offsets,
            nodes,
            m,
        ) == product_sum(
            sampled_frames(*setup.program, rule, setup.seed, setup.schedule, start),
            moments[m],
            (setup.schedule.n_samples * setup.n_chains) as nat,
        ),
{
    let ops = setup.schedule.ops();
    lemma_tuple_ids(moments, m, moments.len());
    lemma_all_steps(setup.schedule);
    lemma_accumulated(setup, rule, start, moments[m], offsets, nodes, m, ops.len());
    lemma_total_steps(setup.schedule);
    assert(ops.len() - step_count(ops, ops.len()) == setup.schedule.n_samples);
}

} // verus!
