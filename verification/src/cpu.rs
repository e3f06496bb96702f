//! A portable reference sampler that runs on the CPU.

use vstd::prelude::*;

use crate::checks::{lemma_push_contains, proper};
use crate::factor::{node_lists, DiscreteFactor, Term};
use crate::gibbs::{
    after_steps, is_free, keeps_clamped, lemma_steps_keep_spins, obeys,
    order_inside_blocks_does_not_matter, same_blocks, step, usable, Rule,
};
use crate::graph::{Block, Node, NodeKind};
use crate::program::{ids_of, within, Program};
use crate::record::{spin_of, spin_product};
use crate::rng::STEP_HINTON_INIT;
use crate::samples::{
    frame_of, frame_words, frame_written, in_storage, lemma_word_bounds, observable, packs_bits,
    region_start, write_sample_frame, ObservedLayout, Samples,
};
use crate::schedule::{run_ops, RunOp, RunOps, Schedule};
use crate::soundness::valid_values;
use crate::state::{holds_block_states, State};
use crate::streams::{compile_fits, model_error};

verus! {

/// The chains of a state.
pub open spec fn chains(state: State) -> Seq<Seq<u32>> {
    Seq::new(state.n_chains as nat, |c: int| state.chain(c))
}

/// The values of every frame of a run that starts from the given chains.
pub open spec fn sampled_frames<W>(
    program: Program<W>,
    rule: Rule<W>,
    seed: u32,
    schedule: Schedule,
    start: Seq<Seq<u32>>,
) -> Seq<Seq<u32>> {
    let n_chains = start.len() as int;
    Seq::new(
        (schedule.n_samples * n_chains) as nat,
        |f: int|
            after_steps(
                program,
                rule,
                seed,
                (f % n_chains) as u32,
                start[f % n_chains],
                schedule.steps_before(f / n_chains) as nat,
            ),
    )
}

/// Whether the block updates of a run can be counted without reaching the
/// steps reserved for initialization draws.
pub open spec fn countable<W>(program: Program<W>, schedule: Schedule) -> bool {
    schedule.total_steps() * program.blocks@.len() <= STEP_HINTON_INIT
}

/// Whether all chains are where a run under the rule is after a number of steps.
pub open spec fn on_course<W>(
    program: Program<W>,
    rule: Rule<W>,
    seed: u32,
    start: Seq<Seq<u32>>,
    now: State,
    steps: nat,
) -> bool {
    forall|c: int|
        0 <= c < now.n_chains ==> #[trigger] now.chain(c) == after_steps(
            program,
            rule,
            seed,
            c as u32,
            start[c],
            steps,
        )
}

/// Run up to the next sample to be recorded, or to the end of the run.
fn advance<W: Copy, P: Fn(&[Term<W>]) -> u32, C: Fn(&[Vec<Term<W>>], u32) -> u32>(
    program: &Program<W>,
    state: &mut State,
    seed: u32,
    ops: &mut RunOps,
    counter: &mut u32,
    p_up: &P,
    pick: &C,
    Ghost(start): Ghost<Seq<Seq<u32>>>,
) -> (r: Option<u32>)
    requires
        program.wf(),
        old(state).valid_for(program.node_kinds@),
        old(ops).wf(),
        countable(*program, old(ops).schedule),
        *old(counter) == old(ops).steps() * program.blocks@.len(),
        0 <= old(ops).steps(),
        usable(*p_up, *pick),
        start.len() == old(state).n_chains,
        forall|c: int|
            0 <= c < old(state).n_chains ==> keeps_clamped(
                *program,
                start[c],
                #[trigger] old(state).chain(c),
            ),
        forall|rule: Rule<W>| #[trigger]
            obeys(*p_up, *pick, rule) ==> on_course(
                *program,
                rule,
                seed,
                start,
                *old(state),
                old(ops).steps() as nat,
            ),
    ensures
        final(state).valid_for(program.node_kinds@),
        final(state).n_chains == old(state).n_chains,
        final(ops).wf(),
        final(ops).schedule == old(ops).schedule,
        *final(counter) == final(ops).steps() * program.blocks@.len(),
        0 <= final(ops).steps(),
        match r {
            Some(sample) => {
                &&& sample == old(ops).sample
                &&& sample < old(ops).schedule.n_samples
                &&& final(ops).sample == sample + 1
                &&& final(ops).steps() == old(ops).schedule.steps_before(sample as int)
            },
            None => {
                &&& old(ops).sample == old(ops).schedule.n_samples
                &&& final(ops).sample == old(ops).sample
                &&& final(ops).steps() == old(ops).schedule.total_steps()
            },
        },
        forall|c: int|
            0 <= c < old(state).n_chains ==> keeps_clamped(
                *program,
                start[c],
                #[trigger] final(state).chain(c),
            ),
        forall|rule: Rule<W>| #[trigger]
            obeys(*p_up, *pick, rule) ==> on_course(
                *program,
                rule,
                seed,
                start,
                *final(state),
                final(ops).steps() as nat,
            ),
{
    let ghost n_chains = state.n_chains;
    let ghost schedule = ops.schedule;
    let ghost first = ops.sample;
    let ghost blocks = program.blocks@.len();
    loop
        invariant
            program.wf(),
            n_chains == old(state).n_chains,
            schedule == old(ops).schedule,
            first == old(ops).sample,
            blocks == program.blocks@.len(),
            state.valid_for(program.node_kinds@),
            state.n_chains == n_chains,
            ops.wf(),
            ops.schedule == schedule,
            ops.sample == first,
            countable(*program, schedule),
            *counter == ops.steps() * blocks,
            0 <= ops.steps(),
            usable(*p_up, *pick),
            start.len() == n_chains,
            forall|c: int|
                0 <= c < n_chains ==> keeps_clamped(*program, start[c], #[trigger] state.chain(c)),
            forall|rule: Rule<W>| #[trigger]
                obeys(*p_up, *pick, rule) ==> on_course(
                    *program,
                    rule,
                    seed,
                    start,
                    *state,
                    ops.steps() as nat,
                ),
        decreases schedule.ops().len() - ops.position(),
    {
        let ghost steps = ops.steps();
        match ops.next() {
            None => {
                return None;
            },
            Some(RunOp::Record(sample)) => {
                return Some(sample);
            },
            Some(RunOp::Step) => {
                assert(steps * blocks + blocks == (steps + 1) * blocks) by (nonlinear_arith);
                assert((steps + 1) * blocks <= schedule.total_steps() * blocks) by (nonlinear_arith)
                    requires
                        steps < schedule.total_steps(),
                        blocks >= 0,
                ;
                let ghost before = *state;
                step(program, state, seed, counter, p_up, pick);
                proof {
                    assert forall|c: int| 0 <= c < n_chains implies keeps_clamped(
                        *program,
                        start[c],
                        #[trigger] state.chain(c),
                    ) by {
                        assert(keeps_clamped(*program, start[c], before.chain(c)));
                        assert(keeps_clamped(*program, before.chain(c), state.chain(c)));
                        assert forall|v: int|
                            0 <= v < start[c].len() && !is_free(
                                *program,
                                v as u32,
                            ) implies #[trigger] state.chain(c)[v] == start[c][v] by {
                            assert(before.chain(c)[v] == start[c][v]);
                        }
                    }
                    assert forall|rule: Rule<W>| #[trigger] obeys(
                        *p_up,
                        *pick,
                        rule,
                    ) implies on_course(*program, rule, seed, start, *state, (steps + 1) as nat) by {
                        assert(on_course(*program, rule, seed, start, before, steps as nat));
                        assert forall|c: int| 0 <= c < state.n_chains implies #[trigger] state.chain(
                            c,
                        ) == after_steps(
                            *program,
                            rule,
                            seed,
                            c as u32,
                            start[c],
                            (steps + 1) as nat,
                        ) by {
                            assert(before.chain(c) == after_steps(
                                *program,
                                rule,
                                seed,
                                c as u32,
                                start[c],
                                steps as nat,
                            ));
                        }
                    }
                }
            },
        }
    }
}

/// Whether the values of the frames recorded so far are those of a run.
pub open spec fn follows<W, P: Fn(&[Term<W>]) -> u32, C: Fn(&[Vec<Term<W>>], u32) -> u32>(
    program: Program<W>,
    p_up: P,
    pick: C,
    seed: u32,
    schedule: Schedule,
    start: Seq<Seq<u32>>,
    frames: Seq<Seq<u32>>,
) -> bool {
    &&& forall|f: int|
        0 <= f < frames.len() ==> valid_values(program.node_kinds@, #[trigger] frames[f])
    &&& forall|f: int|
        0 <= f < frames.len() ==> keeps_clamped(
            program,
            start[f % (start.len() as int)],
            #[trigger] frames[f],
        )
    &&& forall|rule: Rule<W>, f: int|
        #![trigger obeys(p_up, pick, rule), frames[f]]
        obeys(p_up, pick, rule) && 0 <= f < frames.len() ==> frames[f] == sampled_frames(
            program,
            rule,
            seed,
            schedule,
            start,
        )[f]
}

/// The frame of a sample of a chain lies within the run, and tells both.
pub proof fn lemma_frame(n_samples: int, n_chains: int, sample: int, chain: int)
    requires
        0 <= sample < n_samples,
        0 <= chain < n_chains,
    ensures
        0 <= frame_of(n_chains, sample, chain) < n_samples * n_chains,
        frame_of(n_chains, sample, chain) / n_chains == sample,
        frame_of(n_chains, sample, chain) % n_chains == chain,
{
    let f = frame_of(n_chains, sample, chain);
    vstd::arithmetic::div_mod::lemma_fundamental_div_mod_converse(f, n_chains, sample, chain);
    assert(0 <= sample * n_chains && sample * n_chains + n_chains <= n_samples * n_chains)
        by (nonlinear_arith)
        requires
            0 <= sample < n_samples,
            0 < n_chains,
    ;
}

proof fn lemma_follows_push<W, P: Fn(&[Term<W>]) -> u32, C: Fn(&[Vec<Term<W>>], u32) -> u32>(
    program: Program<W>,
    p_up: P,
    pick: C,
    seed: u32,
    schedule: Schedule,
    start: Seq<Seq<u32>>,
    frames: Seq<Seq<u32>>,
    state: State,
    sample: int,
    chain: int,
)
    requires
        follows(program, p_up, pick, seed, schedule, start, frames),
        0 <= sample < schedule.n_samples,
        0 <= chain < state.n_chains,
        start.len() == state.n_chains,
        frames.len() == frame_of(state.n_chains as int, sample, chain),
        state.valid_for(program.node_kinds@),
        forall|c: int|
            0 <= c < state.n_chains ==> keeps_clamped(program, start[c], #[trigger] state.chain(c)),
        forall|rule: Rule<W>| #[trigger]
            obeys(p_up, pick, rule) ==> on_course(
                program,
                rule,
                seed,
                start,
                state,
                schedule.steps_before(sample) as nat,
            ),
    ensures
        follows(program, p_up, pick, seed, schedule, start, frames.push(state.chain(chain))),
{
    let n_chains = state.n_chains as int;
    lemma_frame(schedule.n_samples as int, n_chains, sample, chain);
    let more = frames.push(state.chain(chain));
    assert(keeps_clamped(program, start[chain], state.chain(chain)));
    assert(valid_values(program.node_kinds@, state.chain(chain)));
    assert forall|rule: Rule<W>, f: int|
        #![trigger obeys(p_up, pick, rule), more[f]]
        obeys(p_up, pick, rule) && 0 <= f < more.len() implies more[f] == sampled_frames(
        program,
        rule,
        seed,
        schedule,
        start,
    )[f] by {
        if f < frames.len() {
            assert(more[f] == frames[f]);
        } else {
            assert(on_course(
                program,
                rule,
                seed,
                start,
                state,
                schedule.steps_before(sample) as nat,
            ));
            assert(more[f] == state.chain(chain));
        }
    }
}

/// What the storage keeps of a value.
pub open spec fn kept(is_spin: bool, value: u32) -> u32 {
    if is_spin {
        value & 1
    } else {
        value
    }
}

/// The storage loses nothing: the nodes of a block of one kind read back as
/// they were when they were recorded.
pub proof fn recorded_values_read_back(
    kinds: Seq<NodeKind>,
    nodes: Seq<Node>,
    values: Seq<u32>,
    p: int,
)
    requires
        valid_values(kinds, values),
        0 <= p < nodes.len(),
        (nodes[p].0 as int) < kinds.len(),
        kinds[nodes[p].0 as int] == kinds[nodes[0].0 as int],
    ensures
        kept(packs_bits(kinds, nodes), values[nodes[p].0 as int]) == values[nodes[p].0 as int],
{
    if packs_bits(kinds, nodes) {
        let value = values[nodes[p].0 as int];
        assert(proper(kinds[nodes[p].0 as int]));
        assert(value & 1 == value) by (bit_vector)
            requires
                value < 2,
        ;
    }
}

/// Whether the storage holds the values of the frames recorded so far, and
/// zeros from there on.
pub open spec fn stores(
    layout: &ObservedLayout,
    observed: Seq<Seq<Node>>,
    data: Seq<u32>,
    n_frames: int,
    frames: Seq<Seq<u32>>,
) -> bool {
    forall|b: int, f: int, p: int|
        in_storage(layout, n_frames, b, f, p) ==> #[trigger] layout.blocks@[b].stored(data, f, p)
            == if f < frames.len() && p < observed[b].len() {
            kept(layout.blocks@[b].is_spin, frames[f][observed[b][p].0 as int])
        } else {
            0
        }
}

proof fn lemma_empty_storage(
    layout: &ObservedLayout,
    kinds: Seq<NodeKind>,
    observed: Seq<Seq<Node>>,
    data: Seq<u32>,
    n_frames: nat,
)
    requires
        layout.lays_out(kinds, observed, n_frames),
        data.len() == layout.total_words,
        forall|i: int| 0 <= i < data.len() ==> data[i] == 0,
    ensures
        stores(layout, observed, data, n_frames as int, Seq::empty()),
{
    assert forall|b: int, f: int, p: int|
        in_storage(layout, n_frames as int, b, f, p) implies #[trigger] layout.blocks@[b].stored(
        data,
        f,
        p,
    ) == 0 by {
        lemma_word_bounds(layout, kinds, observed, n_frames, b, f, p);
        let shift = (p % 32) as u32;
        assert((0u32 >> shift) & 1 == 0) by (bit_vector);
    }
}

/// What the storage holds after some of the frames were written.
proof fn lemma_frames_written(
    layout: &ObservedLayout,
    kinds: Seq<NodeKind>,
    observed: Seq<Seq<Node>>,
    n_frames: nat,
    order: Seq<int>,
    values: Seq<Seq<u32>>,
    steps: Seq<Seq<u32>>,
    count: nat,
)
    requires
        layout.lays_out(kinds, observed, n_frames),
        order.no_duplicates(),
        steps.len() == order.len() + 1,
        steps[0].len() == layout.total_words,
        forall|i: int| 0 <= i < steps[0].len() ==> steps[0][i] == 0,
        forall|i: int|
            0 <= i < order.len() ==> frame_written(
                layout,
                observed,
                n_frames as int,
                #[trigger] order[i],
                values[order[i]],
                steps[i],
                steps[i + 1],
            ),
        count <= order.len(),
    ensures
        forall|b: int, f: int, p: int|
            in_storage(layout, n_frames as int, b, f, p) ==> #[trigger] layout.blocks@[b].stored(
                steps[count as int],
                f,
                p,
            ) == if order.take(count as int).contains(f) && p < observed[b].len() {
                kept(layout.blocks@[b].is_spin, values[f][observed[b][p].0 as int])
            } else {
                0
            },
    decreases count,
{
    if count == 0 {
        lemma_empty_storage(layout, kinds, observed, steps[0], n_frames);
    } else {
        let last = count - 1;
        lemma_frames_written(
            layout,
            kinds,
            observed,
            n_frames,
            order,
            values,
            steps,
            last as nat,
        );
        let frame = order[last];
        assert(frame_written(
            layout,
            observed,
            n_frames as int,
            frame,
            values[frame],
            steps[last],
            steps[last + 1],
        ));
        assert(order.take(count as int) =~= order.take(last).push(frame));
        assert(!order.take(last).contains(frame));
        assert forall|b: int, f: int, p: int|
            in_storage(layout, n_frames as int, b, f, p) implies #[trigger] layout.blocks@[b].stored(
            steps[count as int],
            f,
            p,
        ) == if order.take(count as int).contains(f) && p < observed[b].len() {
            kept(layout.blocks@[b].is_spin, values[f][observed[b][p].0 as int])
        } else {
            0
        } by {
            let value = values[frame][observed[b][p].0 as int];
            assert(0 | (value & 1) == value & 1) by (bit_vector);
            lemma_push_contains(order.take(last), frame, f);
            assert(layout.blocks@[b].stored(steps[last], f, p) == if order.take(last).contains(f)
                && p < observed[b].len() {
                kept(layout.blocks@[b].is_spin, values[f][observed[b][p].0 as int])
            } else {
                0
            });
        }
    }
}

/// Frames that are written once each, in any order, read back as they were
/// written: packing loses nothing, and frames do not overlap.
pub proof fn frames_read_back_in_any_order(
    kinds: Seq<NodeKind>,
    observed: Seq<Seq<Node>>,
    order: Seq<int>,
    values: Seq<Seq<u32>>,
    steps: Seq<Seq<u32>>,
    samples: Samples,
)
    requires
        samples.layout.lays_out(
            kinds,
            observed,
            (samples.n_samples * samples.n_chains) as nat,
        ),
        order.no_duplicates(),
        forall|f: int| 0 <= f < samples.n_samples * samples.n_chains ==> #[trigger] order.contains(f),
        steps.len() == order.len() + 1,
        steps[0].len() == samples.layout.total_words,
        forall|i: int| 0 <= i < steps[0].len() ==> steps[0][i] == 0,
        forall|i: int|
            0 <= i < order.len() ==> frame_written(
                &samples.layout,
                observed,
                samples.n_samples * samples.n_chains,
                #[trigger] order[i],
                values[order[i]],
                steps[i],
                steps[i + 1],
            ),
        samples.data@ == steps.last(),
        forall|f: int|
            0 <= f < samples.n_samples * samples.n_chains ==> valid_values(
                kinds,
                #[trigger] values[f],
            ),
        forall|b: int, p: int|
            #![trigger observed[b][p]]
            0 <= b < observed.len() && 0 <= p < observed[b].len() ==> (observed[b][p].0 as int)
                < kinds.len() && kinds[observed[b][p].0 as int] == kinds[observed[b][0].0 as int],
    ensures
        forall|b: int, sample: u32, chain: u32, p: u32|
            0 <= b < observed.len() && sample < samples.n_samples && chain < samples.n_chains && p
                < observed[b].len() ==> #[trigger] samples.at(b, sample, chain, p) == values[frame_of(
                samples.n_chains as int,
                sample as int,
                chain as int,
            )][observed[b][p as int].0 as int],
{
    let n_frames = (samples.n_samples * samples.n_chains) as nat;
    let layout = &samples.layout;
    lemma_frames_written(
        layout,
        kinds,
        observed,
        n_frames,
        order,
        values,
        steps,
        order.len(),
    );
    lemma_capacity(layout, kinds, observed, n_frames);
    assert(order.take(order.len() as int) =~= order);
    assert forall|b: int, sample: u32, chain: u32, p: u32|
        0 <= b < observed.len() && sample < samples.n_samples && chain < samples.n_chains && p
            < observed[b].len() implies #[trigger] samples.at(b, sample, chain, p) == values[frame_of(
        samples.n_chains as int,
        sample as int,
        chain as int,
    )][observed[b][p as int].0 as int] by {
        let f = samples.frame(sample, chain);
        lemma_frame(
            samples.n_samples as int,
            samples.n_chains as int,
            sample as int,
            chain as int,
        );
        assert(observed[b].len() <= layout.blocks@[b].capacity());
        assert(in_storage(layout, n_frames as int, b, f, p as int));
        assert(order.contains(f));
        assert(valid_values(kinds, values[f]));
        assert(kinds[observed[b][p as int].0 as int] == kinds[observed[b][0].0 as int]);
        recorded_values_read_back(kinds, observed[b], values[f], p as int);
    }
}

/// Whether samples hold the values of the observed blocks in a run under the
/// rule: those that every chain has after the steps before each sample.
pub open spec fn records_run<W>(
    program: Program<W>,
    rule: Rule<W>,
    seed: u32,
    schedule: Schedule,
    start: Seq<Seq<u32>>,
    observed: Seq<Seq<Node>>,
    samples: Samples,
) -> bool {
    forall|b: int, sample: u32, chain: u32, p: u32|
        0 <= b < observed.len() && sample < schedule.n_samples && chain < start.len() && p
            < observed[b].len() ==> #[trigger] samples.at(b, sample, chain, p) == kept(
            packs_bits(program.node_kinds@, observed[b]),
            after_steps(
                program,
                rule,
                seed,
                chain,
                start[chain as int],
                schedule.steps_before(sample as int) as nat,
            )[observed[b][p as int].0 as int],
        )
}

/// Runs are reproducible: with the same seed, the same start records the same samples.
pub proof fn equal_runs_record_equal_samples<W>(
    program: Program<W>,
    rule: Rule<W>,
    seed: u32,
    schedule: Schedule,
    start: Seq<Seq<u32>>,
    observed: Seq<Seq<Node>>,
    a: Samples,
    b: Samples,
)
    requires
        records_run(program, rule, seed, schedule, start, observed, a),
        records_run(program, rule, seed, schedule, start, observed, b),
    ensures
        forall|block: int, sample: u32, chain: u32, p: u32|
            0 <= block < observed.len() && sample < schedule.n_samples && chain < start.len() && p
                < observed[block].len() ==> #[trigger] a.at(block, sample, chain, p) == b.at(
                block,
                sample,
                chain,
                p,
            ),
{
}

/// The order of the nodes inside a free block changes neither the samples nor
/// the moments of a run.
pub proof fn order_inside_blocks_changes_no_samples<W>(
    kinds: Seq<NodeKind>,
    clamped: Seq<Seq<Node>>,
    factors: Seq<DiscreteFactor<W>>,
    first: Seq<Seq<Node>>,
    second: Seq<Seq<Node>>,
    a: Program<W>,
    b: Program<W>,
    rule: Rule<W>,
    seed: u32,
    schedule: Schedule,
    start: Seq<Seq<u32>>,
    observed: Seq<Seq<Node>>,
    samples: Samples,
)
    requires
        kinds.len() <= u32::MAX,
        within(kinds, first),
        within(kinds, second),
        within(kinds, clamped),
        compile_fits(kinds, first, clamped, factors),
        compile_fits(kinds, second, clamped, factors),
        model_error(kinds, first, clamped, factors) is None,
        model_error(kinds, second, clamped, factors) is None,
        a.compiled_from(kinds, first, factors),
        b.compiled_from(kinds, second, factors),
        same_blocks(first, second),
    ensures
        sampled_frames(a, rule, seed, schedule, start) == sampled_frames(
            b,
            rule,
            seed,
            schedule,
            start,
        ),
        records_run(a, rule, seed, schedule, start, observed, samples) == records_run(
            b,
            rule,
            seed,
            schedule,
            start,
            observed,
            samples,
        ),
{
    assert forall|chain: u32, values: Seq<u32>, steps: nat| #[trigger]
        after_steps(a, rule, seed, chain, values, steps) == after_steps(
            b,
            rule,
            seed,
            chain,
            values,
            steps,
        ) by {
        order_inside_blocks_does_not_matter(
            kinds,
            clamped,
            factors,
            first,
            second,
            a,
            b,
            rule,
            seed,
            chain,
            values,
            steps,
        );
    }
    assert(sampled_frames(a, rule, seed, schedule, start) =~= sampled_frames(
        b,
        rule,
        seed,
        schedule,
        start,
    ));
}

/// The products of no spins are all one, so their sum is their number.
pub proof fn moments_of_nothing_are_full(frames: Seq<Seq<u32>>, count: nat)
    ensures
        product_sum(frames, Seq::empty(), count) == count,
    decreases count,
{
    assert(ids_of(Seq::empty()) =~= Seq::empty());
    if count > 0 {
        moments_of_nothing_are_full(frames, (count - 1) as nat);
    }
}

/// The frame of a run at any position has a spin for every spin node.
proof fn lemma_frame_spin<W>(
    program: Program<W>,
    rule: Rule<W>,
    seed: u32,
    schedule: Schedule,
    start: Seq<Seq<u32>>,
    node: Node,
    f: int,
)
    requires
        program.wf(),
        forall|c: int|
            0 <= c < start.len() ==> valid_values(program.node_kinds@, #[trigger] start[c]),
        (node.0 as int) < program.node_kinds@.len(),
        program.node_kinds@[node.0 as int] == NodeKind::Spin,
        0 <= f < schedule.n_samples * start.len(),
    ensures
        sampled_frames(program, rule, seed, schedule, start)[f][node.0 as int] <= 1,
        0 < start.len(),
        0 <= f / (start.len() as int) < schedule.n_samples,
        0 <= f % (start.len() as int) < start.len(),
{
    let n_chains = start.len() as int;
    let n_samples = schedule.n_samples as int;
    assert(n_chains > 0 && 0 <= f / n_chains < n_samples) by (nonlinear_arith)
        requires
            0 <= f < n_samples * n_chains,
            n_chains >= 0,
    ;
    let values = start[f % n_chains];
    assert(valid_values(program.node_kinds@, values));
    assert(proper(program.node_kinds@[node.0 as int]));
    lemma_steps_keep_spins(
        program,
        rule,
        seed,
        (f % n_chains) as u32,
        values,
        schedule.steps_before(f / n_chains) as nat,
        node,
    );
}

/// The product of a spin with itself is one, so the sum is the number of frames.
pub proof fn moments_of_a_repeated_spin_are_full<W>(
    program: Program<W>,
    rule: Rule<W>,
    seed: u32,
    schedule: Schedule,
    start: Seq<Seq<u32>>,
    node: Node,
    count: nat,
)
    requires
        program.wf(),
        forall|c: int|
            0 <= c < start.len() ==> valid_values(program.node_kinds@, #[trigger] start[c]),
        (node.0 as int) < program.node_kinds@.len(),
        program.node_kinds@[node.0 as int] == NodeKind::Spin,
        count <= schedule.n_samples * start.len(),
    ensures
        product_sum(
            sampled_frames(program, rule, seed, schedule, start),
            seq![node, node],
            count,
        ) == count,
    decreases count,
{
    if count > 0 {
        let frames = sampled_frames(program, rule, seed, schedule, start);
        moments_of_a_repeated_spin_are_full(
            program,
            rule,
            seed,
            schedule,
            start,
            node,
            (count - 1) as nat,
        );
        lemma_frame_spin(program, rule, seed, schedule, start, node, count - 1);
        let ids = ids_of(seq![node, node]);
        let values = frames[count - 1];
        assert(ids.drop_last() =~= seq![node.0]);
        assert(ids.drop_last().drop_last() =~= Seq::empty());
        let spin = spin_of(values[node.0 as int]);
        reveal_with_fuel(spin_product, 3);
        assert(spin_product(ids, values) == 1 * spin * spin);
        assert(1 * spin * spin == 1) by (nonlinear_arith)
            requires
                spin == 1 || spin == -1,
        ;
    }
}

/// The moment of a single spin node is its mean spin in the samples of the
/// same run.
pub proof fn single_moments_are_mean_spins<W>(
    program: Program<W>,
    rule: Rule<W>,
    seed: u32,
    schedule: Schedule,
    start: Seq<Seq<u32>>,
    observed: Seq<Seq<Node>>,
    samples: Samples,
    b: int,
    p: u32,
    count: nat,
)
    requires
        program.wf(),
        forall|c: int|
            0 <= c < start.len() ==> valid_values(program.node_kinds@, #[trigger] start[c]),
        start.len() == samples.n_chains,
        records_run(program, rule, seed, schedule, start, observed, samples),
        0 <= b < observed.len(),
        p < observed[b].len(),
        (observed[b][p as int].0 as int) < program.node_kinds@.len(),
        program.node_kinds@[observed[b][p as int].0 as int] == NodeKind::Spin,
        count <= schedule.n_samples * start.len(),
    ensures
        product_sum(
            sampled_frames(program, rule, seed, schedule, start),
            seq![observed[b][p as int]],
            count,
        ) == samples.spin_sum(b, p, count as int),
    decreases count,
{
    if count > 0 {
        let node = observed[b][p as int];
        let frames = sampled_frames(program, rule, seed, schedule, start);
        let f = count - 1;
        let n_chains = start.len() as int;
        single_moments_are_mean_spins(
            program,
            rule,
            seed,
            schedule,
            start,
            observed,
            samples,
            b,
            p,
            f as nat,
        );
        lemma_frame_spin(program, rule, seed, schedule, start, node, f);
        let sample = (f / n_chains) as u32;
        let chain = (f % n_chains) as u32;
        vstd::arithmetic::div_mod::lemma_fundamental_div_mod(f, n_chains);
        assert(n_chains * (f / n_chains) == (f / n_chains) * n_chains) by (nonlinear_arith);
        assert(samples.frame(sample, chain) == f);
        let value = frames[f][node.0 as int];
        assert(value & 1 == value) by (bit_vector)
            requires
                value <= 1,
        ;
        assert(samples.at(b, sample, chain, p) == value);
        let ids = ids_of(seq![node]);
        assert(ids.drop_last() =~= Seq::empty());
        reveal_with_fuel(spin_product, 2);
        assert(spin_product(ids, frames[f]) == 1 * spin_of(value));
    }
}

/// A portable reference sampler that runs on the CPU.
#[derive(Clone, Copy, Debug, Default)]
pub struct CpuSampler;

impl CpuSampler {
    /// Create a CPU sampler.
    pub fn new() -> (r: Self)
        ensures
            r == CpuSampler,
    {
        CpuSampler
    }

    /// Run the schedule, recording the state of `observed` blocks
    /// at every sample.
    ///
    /// The chains start from `state`, which is left at the final state
    /// when the run completes. `p_up` gives the threshold below which the
    /// draw of a spin makes it up, `pick` the category of a categorical node.
    pub fn sample_states<
        W: Copy,
        P: Fn(&[Term<W>]) -> u32,
        C: Fn(&[Vec<Term<W>>], u32) -> u32,
    >(
        &mut self,
        program: &Program<W>,
        schedule: &Schedule,
        state: &mut State,
        seed: u32,
        observed: &[Block],
        p_up: &P,
        pick: &C,
    ) -> (r: Samples)
        requires
            program.wf(),
            old(state).valid_for(program.node_kinds@),
            countable(*program, *schedule),
            observable(
                program.node_kinds@,
                node_lists(observed@),
                schedule.n_samples,
                old(state).n_chains,
            ),
            within(program.node_kinds@, node_lists(observed@)),
            usable(*p_up, *pick),
        ensures
            final(state).valid_for(program.node_kinds@),
            final(state).n_chains == old(state).n_chains,
            r.n_samples == schedule.n_samples,
            r.n_chains == old(state).n_chains,
            r.layout.lays_out(
                program.node_kinds@,
                node_lists(observed@),
                (schedule.n_samples * old(state).n_chains) as nat,
            ),
            r.data@.len() == r.layout.total_words,
            forall|c: int|
                0 <= c < old(state).n_chains ==> keeps_clamped(
                    *program,
                    old(state).chain(c),
                    #[trigger] final(state).chain(c),
                ),
            forall|b: int, sample: u32, chain: u32, p: u32|
                0 <= b < observed@.len() && sample < schedule.n_samples && chain < old(
                    state,
                ).n_chains && p < node_lists(observed@)[b].len() ==> #[trigger] r.holds(
                    b,
                    sample,
                    chain,
                    p,
                ),
            forall|b: int, sample: u32, chain: u32, p: u32|
                0 <= b < observed@.len() && sample < schedule.n_samples && chain < old(
                    state,
                ).n_chains && p < node_lists(observed@)[b].len() && !is_free(
                    *program,
                    node_lists(observed@)[b][p as int].0,
                ) ==> #[trigger] r.at(b, sample, chain, p) == kept(
                    r.layout.blocks@[b].is_spin,
                    old(state).chain(chain as int)[node_lists(observed@)[b][p as int].0 as int],
                ),
            forall|rule: Rule<W>, c: int|
                #![trigger obeys(*p_up, *pick, rule), final(state).chain(c)]
                obeys(*p_up, *pick, rule) && 0 <= c < old(state).n_chains ==> final(state).chain(c)
                    == after_steps(
                    *program,
                    rule,
                    seed,
                    c as u32,
                    old(state).chain(c),
                    schedule.total_steps() as nat,
                ),
            forall|rule: Rule<W>| #[trigger]
                obeys(*p_up, *pick, rule) ==> records_run(
                    *program,
                    rule,
                    seed,
                    *schedule,
                    chains(*old(state)),
                    node_lists(observed@),
                    r,
                ),
    {
        let n_chains: u32 = state.n_chains;
        let ghost kinds = program.node_kinds@;
        let ghost lists = node_lists(observed@);
        let ghost n_frames = (schedule.n_samples * n_chains) as nat;
        let ghost start = chains(*state);
        let ghost mut frames: Seq<Seq<u32>> = Seq::empty();
        let layout = ObservedLayout::new(program, observed, schedule.n_samples, n_chains);
        let mut data: Vec<u32> = vec![0u32; layout.total_words as usize];
        proof {
            lemma_empty_storage(&layout, kinds, lists, data@, n_frames);
        }
        let mut ops = run_ops(schedule);
        let mut counter: u32 = 0;
        loop
            invariant
                program.wf(),
                kinds == program.node_kinds@,
                lists == node_lists(observed@),
                n_frames == schedule.n_samples * n_chains,
                n_frames <= u32::MAX,
                layout.lays_out(kinds, lists, n_frames),
                data@.len() == layout.total_words,
                within(kinds, lists),
                usable(*p_up, *pick),
                countable(*program, *schedule),
                state.valid_for(kinds),
                state.n_chains == n_chains,
                n_chains == old(state).n_chains,
                start == chains(*old(state)),
                ops.wf(),
                ops.schedule == *schedule,
                0 <= ops.steps(),
                counter == ops.steps() * program.blocks@.len(),
                forall|c: int|
                    0 <= c < n_chains ==> keeps_clamped(
                        *program,
                        start[c],
                        #[trigger] state.chain(c),
                    ),
                forall|rule: Rule<W>| #[trigger]
                    obeys(*p_up, *pick, rule) ==> on_course(
                        *program,
                        rule,
                        seed,
                        start,
                        *state,
                        ops.steps() as nat,
                    ),
                frames.len() == ops.sample * n_chains,
                follows(*program, *p_up, *pick, seed, *schedule, start, frames),
                stores(&layout, lists, data@, n_frames as int, frames),
            ensures
                ops.sample == schedule.n_samples,
                ops.steps() == schedule.total_steps(),
            decreases schedule.n_samples - ops.sample,
        {
            match advance(
                program,
                state,
                seed,
                &mut ops,
                &mut counter,
                p_up,
                pick,
                Ghost(start),
            ) {
                None => {
                    break;
                },
                Some(sample) => {
                    for chain in 0..n_chains
                        invariant
                            kinds == program.node_kinds@,
                            lists == node_lists(observed@),
                            n_frames == schedule.n_samples * n_chains,
                            n_frames <= u32::MAX,
                            layout.lays_out(kinds, lists, n_frames),
                            data@.len() == layout.total_words,
                            within(kinds, lists),
                            sample < schedule.n_samples,
                            state.valid_for(kinds),
                            state.n_chains == n_chains,
                            start.len() == n_chains,
                            forall|c: int|
                                0 <= c < n_chains ==> keeps_clamped(
                                    *program,
                                    start[c],
                                    #[trigger] state.chain(c),
                                ),
                            forall|rule: Rule<W>| #[trigger]
                                obeys(*p_up, *pick, rule) ==> on_course(
                                    *program,
                                    rule,
                                    seed,
                                    start,
                                    *state,
                                    schedule.steps_before(sample as int) as nat,
                                ),
                            frames.len() == frame_of(n_chains as int, sample as int, chain as int),
                            follows(*program, *p_up, *pick, seed, *schedule, start, frames),
                            stores(&layout, lists, data@, n_frames as int, frames),
                    {
                        let values = state.chain_values(chain);
                        proof {
                            lemma_frame(
                                schedule.n_samples as int,
                                n_chains as int,
                                sample as int,
                                chain as int,
                            );
                            lemma_follows_push(
                                *program,
                                *p_up,
                                *pick,
                                seed,
                                *schedule,
                                start,
                                frames,
                                *state,
                                sample as int,
                                chain as int,
                            );
                            lemma_capacity(&layout, kinds, lists, n_frames);
                        }
                        let ghost before = data@;
                        write_sample_frame(
                            &layout,
                            observed,
                            &mut data,
                            values,
                            sample,
                            n_chains,
                            chain,
                            Ghost(kinds),
                            Ghost(n_frames),
                        );
                        proof {
                            lemma_stores_push(
                                &layout,
                                lists,
                                before,
                                data@,
                                n_frames as int,
                                frames,
                                values@,
                            );
                            frames = frames.push(state.chain(chain as int));
                        }
                    }
                    assert((sample + 1) * n_chains == sample * n_chains + n_chains)
                        by (nonlinear_arith);
                },
            }
        }
        let r = Samples { layout, n_samples: schedule.n_samples, n_chains, data };
        proof {
            lemma_capacity(&r.layout, kinds, lists, n_frames);
            assert forall|b: int, sample: u32, chain: u32, p: u32|
                0 <= b < observed@.len() && sample < schedule.n_samples && chain < n_chains && p
                    < lists[b].len() implies #[trigger] r.holds(b, sample, chain, p) by {
                let f = r.frame(sample, chain);
                lemma_frame(
                    schedule.n_samples as int,
                    n_chains as int,
                    sample as int,
                    chain as int,
                );
                assert(in_storage(&r.layout, n_frames as int, b, f, p as int));
                lemma_word_bounds(&r.layout, kinds, lists, n_frames, b, f, p as int);
            }
            assert forall|b: int, sample: u32, chain: u32, p: u32|
                0 <= b < observed@.len() && sample < schedule.n_samples && chain < n_chains && p
                    < lists[b].len() implies #[trigger] r.at(b, sample, chain, p) == kept(
                r.layout.blocks@[b].is_spin,
                frames[r.frame(sample, chain)][lists[b][p as int].0 as int],
            ) by {
                let f = r.frame(sample, chain);
                lemma_frame(
                    schedule.n_samples as int,
                    n_chains as int,
                    sample as int,
                    chain as int,
                );
                assert(in_storage(&r.layout, n_frames as int, b, f, p as int));
            }
            assert forall|b: int, sample: u32, chain: u32, p: u32|
                0 <= b < observed@.len() && sample < schedule.n_samples && chain < n_chains && p
                    < lists[b].len() && !is_free(
                    *program,
                    lists[b][p as int].0,
                ) implies #[trigger] r.at(b, sample, chain, p) == kept(
                r.layout.blocks@[b].is_spin,
                old(state).chain(chain as int)[lists[b][p as int].0 as int],
            ) by {
                let f = r.frame(sample, chain);
                lemma_frame(
                    schedule.n_samples as int,
                    n_chains as int,
                    sample as int,
                    chain as int,
                );
                assert(keeps_clamped(*program, start[chain as int], frames[f]));
                let node = lists[b][p as int].0;
                assert((node as int) < kinds.len());
                assert(node as int as u32 == node);
                assert(frames[f][node as int] == start[chain as int][node as int]);
            }
            assert forall|rule: Rule<W>| #[trigger] obeys(*p_up, *pick, rule) implies records_run(
                *program,
                rule,
                seed,
                *schedule,
                start,
                lists,
                r,
            ) by {
                assert forall|b: int, sample: u32, chain: u32, p: u32|
                    0 <= b < lists.len() && sample < schedule.n_samples && chain < n_chains && p
                        < lists[b].len() implies #[trigger] r.at(b, sample, chain, p) == kept(
                    packs_bits(kinds, lists[b]),
                    after_steps(
                        *program,
                        rule,
                        seed,
                        chain,
                        start[chain as int],
                        schedule.steps_before(sample as int) as nat,
                    )[lists[b][p as int].0 as int],
                ) by {
                    let f = r.frame(sample, chain);
                    lemma_frame(
                        schedule.n_samples as int,
                        n_chains as int,
                        sample as int,
                        chain as int,
                    );
                    assert(frames[f] == sampled_frames(*program, rule, seed, *schedule, start)[f]);
                    assert(r.layout.blocks@[b].is_spin == packs_bits(kinds, lists[b]));
                }
            }
            assert forall|rule: Rule<W>, c: int|
                #![trigger obeys(*p_up, *pick, rule), state.chain(c)]
                obeys(*p_up, *pick, rule) && 0 <= c < n_chains implies state.chain(c)
                == after_steps(
                *program,
                rule,
                seed,
                c as u32,
                old(state).chain(c),
                schedule.total_steps() as nat,
            ) by {
                assert(on_course(
                    *program,
                    rule,
                    seed,
                    start,
                    *state,
                    schedule.total_steps() as nat,
                ));
            }
        }
        r
    }

    /// Run the schedule, accumulating the moments of the given tuples
    /// of spin nodes.
    ///
    /// Returns one number per tuple, the products of its spins (each -1 or
    /// +1) added up over all samples and chains, and how many products each
    /// sum has: the moment is their quotient.
    pub fn accumulate_moments<
        W: Copy,
        P: Fn(&[Term<W>]) -> u32,
        C: Fn(&[Vec<Term<W>>], u32) -> u32,
    >(
        &mut self,
        program: &Program<W>,
        schedule: &Schedule,
        state: &mut State,
        seed: u32,
        moments: &[Vec<Node>],
        p_up: &P,
        pick: &C,
    ) -> (r: (Vec<i64>, u64))
        requires
            program.wf(),
            old(state).valid_for(program.node_kinds@),
            countable(*program, *schedule),
            schedule.n_samples * old(state).n_chains <= u32::MAX,
            forall|m: int|
                0 <= m < moments@.len() ==> all_spins(
                    program.node_kinds@,
                    (#[trigger] moments@[m])@,
                ),
            usable(*p_up, *pick),
        ensures
            final(state).valid_for(program.node_kinds@),
            final(state).n_chains == old(state).n_chains,
            r.0@.len() == moments@.len(),
            r.1 == schedule.n_samples * old(state).n_chains,
            forall|m: int| 0 <= m < moments@.len() ==> -r.1 <= #[trigger] r.0@[m] <= r.1,
            forall|c: int|
                0 <= c < old(state).n_chains ==> keeps_clamped(
                    *program,
                    old(state).chain(c),
                    #[trigger] final(state).chain(c),
                ),
            forall|rule: Rule<W>, c: int|
                #![trigger obeys(*p_up, *pick, rule), final(state).chain(c)]
                obeys(*p_up, *pick, rule) && 0 <= c < old(state).n_chains ==> final(state).chain(c)
                    == after_steps(
                    *program,
                    rule,
                    seed,
                    c as u32,
                    old(state).chain(c),
                    schedule.total_steps() as nat,
                ),
            forall|rule: Rule<W>, m: int|
                #![trigger obeys(*p_up, *pick, rule), r.0@[m]]
                obeys(*p_up, *pick, rule) && 0 <= m < moments@.len() ==> r.0@[m] == product_sum(
                    sampled_frames(*program, rule, seed, *schedule, chains(*old(state))),
                    moments@[m]@,
                    r.1 as nat,
                ),
    {
        let n_chains: u32 = state.n_chains;
        let ghost kinds = program.node_kinds@;
        let ghost n_frames = (schedule.n_samples * n_chains) as nat;
        let ghost start = chains(*state);
        let ghost mut frames: Seq<Seq<u32>> = Seq::empty();
        let mut sums: Vec<i64> = vec![0i64; moments.len()];
        let mut ops = run_ops(schedule);
        let mut counter: u32 = 0;
        loop
            invariant
                program.wf(),
                kinds == program.node_kinds@,
                n_frames == schedule.n_samples * n_chains,
                n_frames <= u32::MAX,
                forall|m: int|
                    0 <= m < moments@.len() ==> all_spins(kinds, (#[trigger] moments@[m])@),
                usable(*p_up, *pick),
                countable(*program, *schedule),
                state.valid_for(kinds),
                state.n_chains == n_chains,
                n_chains == old(state).n_chains,
                start == chains(*old(state)),
                ops.wf(),
                ops.schedule == *schedule,
                0 <= ops.steps(),
                counter == ops.steps() * program.blocks@.len(),
                forall|c: int|
                    0 <= c < n_chains ==> keeps_clamped(
                        *program,
                        start[c],
                        #[trigger] state.chain(c),
                    ),
                forall|rule: Rule<W>| #[trigger]
                    obeys(*p_up, *pick, rule) ==> on_course(
                        *program,
                        rule,
                        seed,
                        start,
                        *state,
                        ops.steps() as nat,
                    ),
                frames.len() == ops.sample * n_chains,
                follows(*program, *p_up, *pick, seed, *schedule, start, frames),
                sums@.len() == moments@.len(),
                forall|m: int|
                    0 <= m < moments@.len() ==> #[trigger] sums@[m] == product_sum(
                        frames,
                        moments@[m]@,
                        frames.len(),
                    ) && -frames.len() <= sums@[m] <= frames.len(),
            ensures
                ops.sample == schedule.n_samples,
                ops.steps() == schedule.total_steps(),
            decreases schedule.n_samples - ops.sample,
        {
            match advance(
                program,
                state,
                seed,
                &mut ops,
                &mut counter,
                p_up,
                pick,
                Ghost(start),
            ) {
                None => {
                    break;
                },
                Some(sample) => {
                    for chain in 0..n_chains
                        invariant
                            kinds == program.node_kinds@,
                            n_frames == schedule.n_samples * n_chains,
                            n_frames <= u32::MAX,
                            forall|m: int|
                                0 <= m < moments@.len() ==> all_spins(
                                    kinds,
                                    (#[trigger] moments@[m])@,
                                ),
                            sample < schedule.n_samples,
                            state.valid_for(kinds),
                            state.n_chains == n_chains,
                            start.len() == n_chains,
                            forall|c: int|
                                0 <= c < n_chains ==> keeps_clamped(
                                    *program,
                                    start[c],
                                    #[trigger] state.chain(c),
                                ),
                            forall|rule: Rule<W>| #[trigger]
                                obeys(*p_up, *pick, rule) ==> on_course(
                                    *program,
                                    rule,
                                    seed,
                                    start,
                                    *state,
                                    schedule.steps_before(sample as int) as nat,
                                ),
                            frames.len() == frame_of(n_chains as int, sample as int, chain as int),
                            follows(*program, *p_up, *pick, seed, *schedule, start, frames),
                            sums@.len() == moments@.len(),
                            forall|m: int|
                                0 <= m < moments@.len() ==> #[trigger] sums@[m] == product_sum(
                                    frames,
                                    moments@[m]@,
                                    frames.len(),
                                ) && -frames.len() <= sums@[m] <= frames.len(),
                    {
                        let values = state.chain_values(chain);
                        proof {
                            lemma_frame(
                                schedule.n_samples as int,
                                n_chains as int,
                                sample as int,
                                chain as int,
                            );
                            lemma_follows_push(
                                *program,
                                *p_up,
                                *pick,
                                seed,
                                *schedule,
                                start,
                                frames,
                                *state,
                                sample as int,
                                chain as int,
                            );
                        }
                        let ghost more = frames.push(values@);
                        assert forall|m: int| 0 <= m < moments@.len() implies #[trigger] product_sum(
                            more,
                            moments@[m]@,
                            frames.len(),
                        ) == product_sum(frames, moments@[m]@, frames.len()) by {
                            lemma_product_sum_prefix(more, frames, moments@[m]@, frames.len());
                        }
                        for m in 0..moments.len()
                            invariant
                                sums@.len() == moments@.len(),
                                more == frames.push(values@),
                                frames.len() < n_frames,
                                n_frames <= u32::MAX,
                                valid_values(kinds, values@),
                                forall|i: int|
                                    0 <= i < moments@.len() ==> all_spins(
                                        kinds,
                                        (#[trigger] moments@[i])@,
                                    ),
                                forall|i: int|
                                    0 <= i < moments@.len() ==> #[trigger] sums@[i] == product_sum(
                                        more,
                                        moments@[i]@,
                                        if i < m {
                                            more.len()
                                        } else {
                                            frames.len()
                                        },
                                    ) && -more.len() <= sums@[i] <= more.len() && (i >= m ==>
                                        -frames.len() <= sums@[i] <= frames.len()),
                        {
                            let tuple = &moments[m];
                            assert(all_spins(kinds, moments@[m as int]@));
                            let product: i64 = tuple_product(
                                tuple.as_slice(),
                                values,
                                Ghost(kinds),
                            );
                            assert(sums@[m as int] == product_sum(more, tuple@, frames.len()));
                            sums[m] = sums[m] + product;
                        }
                        proof {
                            frames = more;
                        }
                    }
                    assert((sample + 1) * n_chains == sample * n_chains + n_chains)
                        by (nonlinear_arith);
                },
            }
        }
        proof {
            assert forall|rule: Rule<W>, m: int|
                #![trigger obeys(*p_up, *pick, rule), sums@[m]]
                obeys(*p_up, *pick, rule) && 0 <= m < moments@.len() implies sums@[m]
                == product_sum(
                sampled_frames(*program, rule, seed, *schedule, start),
                moments@[m]@,
                n_frames,
            ) by {
                let target = sampled_frames(*program, rule, seed, *schedule, start);
                assert(frames =~= target);
            }
            assert forall|rule: Rule<W>, c: int|
                #![trigger obeys(*p_up, *pick, rule), state.chain(c)]
                obeys(*p_up, *pick, rule) && 0 <= c < n_chains implies state.chain(c)
                == after_steps(
                *program,
                rule,
                seed,
                c as u32,
                old(state).chain(c),
                schedule.total_steps() as nat,
            ) by {
                assert(on_course(
                    *program,
                    rule,
                    seed,
                    start,
                    *state,
                    schedule.total_steps() as nat,
                ));
            }
        }
        (sums, schedule.n_samples as u64 * n_chains as u64)
    }
}

/// Whether all nodes are spins.
pub open spec fn all_spins(kinds: Seq<NodeKind>, nodes: Seq<Node>) -> bool {
    forall|i: int|
        #![trigger nodes[i]]
        0 <= i < nodes.len() ==> (nodes[i].0 as int) < kinds.len() && kinds[nodes[i].0 as int]
            == NodeKind::Spin
}

/// The products of the spins of a tuple, added up over the first `count` frames.
pub open spec fn product_sum(frames: Seq<Seq<u32>>, tuple: Seq<Node>, count: nat) -> int
    decreases count,
{
    if count == 0 {
        0
    } else {
        product_sum(frames, tuple, (count - 1) as nat) + spin_product(
            ids_of(tuple),
            frames[count - 1],
        )
    }
}

proof fn lemma_product_sum_prefix(
    a: Seq<Seq<u32>>,
    b: Seq<Seq<u32>>,
    tuple: Seq<Node>,
    count: nat,
)
    requires
        forall|f: int| 0 <= f < count ==> a[f] == b[f],
    ensures
        product_sum(a, tuple, count) == product_sum(b, tuple, count),
    decreases count,
{
    if count > 0 {
        lemma_product_sum_prefix(a, b, tuple, (count - 1) as nat);
    }
}

/// The product of the spins of a tuple in one chain.
fn tuple_product(
    tuple: &[Node],
    values: &[u32],
    Ghost(kinds): Ghost<Seq<NodeKind>>,
) -> (r: i64)
    requires
        valid_values(kinds, values@),
        all_spins(kinds, tuple@),
    ensures
        r == spin_product(ids_of(tuple@), values@),
        r == 1 || r == -1,
{
    let ghost ids = ids_of(tuple@);
    let mut product: i64 = 1;
    for i in 0..tuple.len()
        invariant
            ids == ids_of(tuple@),
            valid_values(kinds, values@),
            all_spins(kinds, tuple@),
            product == 1 || product == -1,
            product == spin_product(ids.take(i as int), values@),
    {
        let node: Node = tuple[i];
        assert(tuple@[i as int] == node);
        assert(proper(kinds[node.0 as int]));
        let value: u32 = values[node.index()];
        assert(value < 2);
        assert(ids.take(i + 1).drop_last() =~= ids.take(i as int));
        assert(ids.take(i + 1).last() == node.0);
        let spin: i64 = value as i64 * 2 - 1;
        assert(product * spin == 1 || product * spin == -1) by (nonlinear_arith)
            requires
                product == 1 || product == -1,
                spin == 1 || spin == -1,
        ;
        product = product * spin;
    }
    assert(ids.take(ids.len() as int) =~= ids);
    product
}

/// Every observed node has a position in the frames of its block.
proof fn lemma_capacity(
    layout: &ObservedLayout,
    kinds: Seq<NodeKind>,
    observed: Seq<Seq<Node>>,
    n_frames: nat,
)
    requires
        layout.lays_out(kinds, observed, n_frames),
    ensures
        forall|b: int|
            0 <= b < observed.len() ==> observed[b].len()
                <= #[trigger] layout.blocks@[b].capacity(),
{
}

proof fn lemma_stores_push(
    layout: &ObservedLayout,
    observed: Seq<Seq<Node>>,
    before: Seq<u32>,
    after: Seq<u32>,
    n_frames: int,
    frames: Seq<Seq<u32>>,
    values: Seq<u32>,
)
    requires
        stores(layout, observed, before, n_frames, frames),
        frame_written(
            layout,
            observed,
            n_frames,
            frames.len() as int,
            values,
            before,
            after,
        ),
    ensures
        stores(layout, observed, after, n_frames, frames.push(values)),
{
    let more = frames.push(values);
    assert forall|b: int, f: int, p: int|
        in_storage(layout, n_frames, b, f, p) implies #[trigger] layout.blocks@[b].stored(
        after,
        f,
        p,
    ) == if f < more.len() && p < observed[b].len() {
        kept(layout.blocks@[b].is_spin, more[f][observed[b][p].0 as int])
    } else {
        0
    } by {
        let value = values[observed[b][p].0 as int];
        assert(0 | (value & 1) == value & 1) by (bit_vector);
        assert(layout.blocks@[b].stored(before, f, p) == if f < frames.len() && p
            < observed[b].len() {
            kept(layout.blocks@[b].is_spin, frames[f][observed[b][p].0 as int])
        } else {
            0
        });
    }
}

/// Whether the program can be run on the CPU: every node that a block can
/// contain has one of its values, and the block updates can be counted.
pub fn can_run<W>(program: &Program<W>, schedule: &Schedule, state: &State) -> (r: bool)
    ensures
        r == (state.valid_for(program.node_kinds@) && countable(*program, *schedule)),
{
    can_count(program, schedule) && holds_block_states(program, state)
}

/// Whether the block updates of a run can be counted.
pub fn can_count<W>(program: &Program<W>, schedule: &Schedule) -> (r: bool)
    ensures
        r == countable(*program, *schedule),
{
    let blocks: usize = program.blocks.len();
    let samples: u32 = if schedule.n_samples > 0 {
        schedule.n_samples - 1
    } else {
        0
    };
    assert(samples * schedule.steps_per_sample <= 0xFFFF_FFFF * 0xFFFF_FFFF
        && 0 <= samples * schedule.steps_per_sample) by (nonlinear_arith)
        requires
            0 <= samples <= 0xFFFF_FFFF,
            0 <= schedule.steps_per_sample <= 0xFFFF_FFFF,
    ;
    let steps: u128 = schedule.n_warmup as u128 + samples as u128
        * schedule.steps_per_sample as u128;
    assert(schedule.n_samples == 0 ==> samples * schedule.steps_per_sample == 0)
        by (nonlinear_arith)
        requires
            schedule.n_samples == 0 ==> samples == 0,
    ;
    assert(steps == schedule.total_steps());
    if blocks > 0 && steps > 0xFFFF_FFFF {
        assert(steps * blocks > 0xFFFF_FFFF) by (nonlinear_arith)
            requires
                steps > 0xFFFF_FFFF,
                blocks >= 1,
        ;
        return false;
    }
    if blocks > 0 {
        assert(steps * blocks <= 0xFFFF_FFFF * 0xFFFF_FFFF_FFFF_FFFF && 0 <= steps * blocks)
            by (nonlinear_arith)
            requires
                0 <= steps <= 0xFFFF_FFFF,
                0 <= blocks <= 0xFFFF_FFFF_FFFF_FFFF,
        ;
        steps * blocks as u128 <= STEP_HINTON_INIT as u128
    } else {
        assert(steps * 0 == 0) by (nonlinear_arith);
        true
    }
}

/// Whether the blocks can be observed: they have nodes, all nodes are in the
/// program, and the storage is indexed by single words.
pub fn can_observe<W>(
    program: &Program<W>,
    observed: &[Block],
    n_samples: u32,
    n_chains: u32,
) -> (r: bool)
    ensures
        r == (observable(program.node_kinds@, node_lists(observed@), n_samples, n_chains) && within(
            program.node_kinds@,
            node_lists(observed@),
        )),
{
    let ghost kinds = program.node_kinds@;
    let ghost lists = node_lists(observed@);
    assert(n_samples * n_chains <= 0xFFFF_FFFF * 0xFFFF_FFFF && 0 <= n_samples * n_chains)
        by (nonlinear_arith)
        requires
            0 <= n_samples <= 0xFFFF_FFFF,
            0 <= n_chains <= 0xFFFF_FFFF,
    ;
    let frames: u64 = n_samples as u64 * n_chains as u64;
    if frames > 0xFFFF_FFFF {
        return false;
    }
    let mut total: u64 = 0;
    for b in 0..observed.len()
        invariant
            kinds == program.node_kinds@,
            lists == node_lists(observed@),
            frames == n_samples * n_chains,
            frames <= u32::MAX,
            total == region_start(kinds, lists, frames as nat, b as nat),
            total <= u32::MAX,
            forall|c: int|
                #![trigger lists[c]]
                0 <= c < b ==> {
                    &&& 0 < lists[c].len() <= u32::MAX
                    &&& (lists[c][0].0 as int) < kinds.len()
                },
            forall|c: int, p: int|
                #![trigger lists[c][p]]
                0 <= c < b && 0 <= p < lists[c].len() ==> (lists[c][p].0 as int) < kinds.len(),
    {
        let block = &observed[b];
        assert(lists[b as int] == block@);
        if block.is_empty() || block.len() > 0xFFFF_FFFF {
            return false;
        }
        for p in 0..block.nodes.len()
            invariant
                kinds == program.node_kinds@,
                lists == node_lists(observed@),
                b < observed@.len(),
                lists[b as int] == block@,
                forall|q: int|
                    #![trigger lists[b as int][q]]
                    0 <= q < p ==> (lists[b as int][q].0 as int) < kinds.len(),
        {
            if block.nodes[p].index() >= program.node_kinds.len() {
                assert((lists[b as int][p as int].0 as int) >= kinds.len());
                return false;
            }
        }
        let count: u64 = block.len() as u64;
        let words: u64 = if program.node_kinds[block.nodes[0].index()] == NodeKind::Spin {
            (count + 31) / 32
        } else {
            count
        };
        assert(words == frame_words(kinds, lists[b as int]));
        assert(words * frames <= 0xFFFF_FFFF * 0xFFFF_FFFF && 0 <= words * frames)
            by (nonlinear_arith)
            requires
                0 <= words <= 0xFFFF_FFFF,
                0 <= frames <= 0xFFFF_FFFF,
        ;
        total = total + words * frames;
        proof {
            lemma_region_monotone(kinds, lists, frames as nat, (b + 1) as nat, lists.len());
        }
        if total > 0xFFFF_FFFF {
            return false;
        }
    }
    true
}

proof fn lemma_region_monotone(
    kinds: Seq<NodeKind>,
    observed: Seq<Seq<Node>>,
    n_frames: nat,
    a: nat,
    b: nat,
)
    requires
        a <= b,
    ensures
        region_start(kinds, observed, n_frames, a) <= region_start(kinds, observed, n_frames, b),
    decreases b,
{
    if a < b {
        lemma_region_monotone(kinds, observed, n_frames, a, (b - 1) as nat);
    }
}

} // verus!
