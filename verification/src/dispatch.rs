//! The compute dispatches of a run on the GPU, in order.

use vstd::prelude::*;

use crate::cpu::{can_count, countable};
use crate::gpu::{bases_of, BlockBases, OPS_PER_SUBMIT};
use crate::program::{BlockKind, BlockProgram, Program};
use crate::samples::ObservedLayout;
use crate::schedule::{
    lemma_record_op, lemma_step_op, lemma_steps_distribute, run_ops, RunOp, RunOps, Schedule,
};
use crate::state::{validate_state, State};

verus! {

/// Parameters of the kernels that update a block.
#[derive(Clone, Copy, Debug, PartialEq, Eq, Structural)]
pub struct UpdateParams {
    pub seed: u32,
    pub counter: u32,
    pub n_nodes: u32,
    pub n_chains: u32,
    pub node_count: u32,
    pub states: u32,
    pub offsets_base: u32,
    pub records_base: u32,
    pub node_ids_base: u32,
}

/// Parameters of the kernel that records an observed block.
#[derive(Clone, Copy, Debug, PartialEq, Eq, Structural)]
pub struct RecordParams {
    pub n_nodes: u32,
    pub n_chains: u32,
    pub sample: u32,
    pub node_count: u32,
    pub out_base: u32,
    pub words_per_frame: u32,
    pub node_ids_base: u32,
    pub is_spin: u32,
}

/// Parameters of the kernel that accumulates moments.
#[derive(Clone, Copy, Debug, PartialEq, Eq, Structural)]
pub struct MomentParams {
    pub n_nodes: u32,
    pub n_chains: u32,
    pub n_moments: u32,
}

/// A kernel, and the parameters that it is dispatched with.
#[derive(Clone, Copy, Debug, PartialEq, Eq, Structural)]
pub enum Kernel {
    UpdateSpins(UpdateParams),
    UpdateCategorical(UpdateParams),
    RecordStates(RecordParams),
    AccumulateMoments(MomentParams),
}

/// A compute dispatch.
#[derive(Clone, Copy, Debug, PartialEq, Eq, Structural)]
pub struct Dispatch {
    pub kernel: Kernel,
    /// Number of threads that have something to do.
    pub threads: u32,
}

/// What to do next in a run.
#[derive(Clone, Copy, Debug, PartialEq, Eq, Structural)]
pub enum Action {
    /// Record a dispatch in the current chunk.
    Encode(Dispatch),
    /// Submit the current chunk, wait for the one before it, and start the next.
    Submit,
}

/// What a run records at every sample.
#[derive(Clone, Copy)]
pub enum Observation<'a> {
    States(&'a ObservedLayout),
    Moments(u32),
}

/// All that the dispatches of a run depend on.
pub struct Setup<'a, W> {
    pub program: &'a Program<W>,
    pub bases: &'a [BlockBases],
    pub observation: Observation<'a>,
    pub schedule: Schedule,
    pub seed: u32,
    pub n_nodes: u32,
    pub n_chains: u32,
}

/// Node counts of the first `n` observed blocks, added up.
pub open spec fn observed_base(layout: &ObservedLayout, n: nat) -> nat
    decreases n,
{
    if n == 0 {
        0
    } else {
        observed_base(layout, (n - 1) as nat) + layout.blocks@[n - 1].node_count as nat
    }
}

/// Number of steps among the first `n` operations.
pub open spec fn step_count(ops: Seq<RunOp>, n: nat) -> nat
    decreases n,
{
    if n == 0 {
        0
    } else {
        step_count(ops, (n - 1) as nat) + if ops[n - 1] == RunOp::Step {
            1nat
        } else {
            0nat
        }
    }
}

/// Whether the thread counts of the dispatches that record a sample are single words.
pub open spec fn recordable(observation: Observation<'_>, n_chains: u32) -> bool {
    match observation {
        Observation::States(layout) => {
            &&& observed_base(layout, layout.blocks@.len()) <= u32::MAX
            &&& forall|b: int|
                0 <= b < layout.blocks@.len() ==> (#[trigger] layout.blocks@[b]).words_per_frame
                    * n_chains <= u32::MAX
        },
        Observation::Moments(count) => count * n_chains <= u32::MAX,
    }
}

/// Whether the thread counts of the dispatches that update blocks are single words.
pub open spec fn updatable(blocks: Seq<BlockProgram>, n_chains: u32) -> bool {
    forall|b: int|
        0 <= b < blocks.len() ==> {
            &&& (#[trigger] blocks[b]).node_ids@.len() <= u32::MAX
            &&& blocks[b].node_ids@.len() * n_chains <= u32::MAX
        }
}

impl<'a, W> Setup<'a, W> {
    /// Whether the bases are those of the program, and thread counts and
    /// counters are single words.
    pub open spec fn wf(self) -> bool {
        let blocks = self.program.blocks@;
        &&& countable(*self.program, self.schedule)
        &&& self.bases@.len() == blocks.len()
        &&& forall|b: int|
            0 <= b < blocks.len() ==> #[trigger] self.bases@[b] == bases_of(blocks, b)
        &&& updatable(blocks, self.n_chains)
        &&& recordable(self.observation, self.n_chains)
    }

    /// The dispatch that updates block `b` at a counter.
    pub open spec fn update(self, b: int, counter: int) -> Dispatch {
        let block = self.program.blocks@[b];
        let bases = bases_of(self.program.blocks@, b);
        let params = UpdateParams {
            seed: self.seed,
            counter: counter as u32,
            n_nodes: self.n_nodes,
            n_chains: self.n_chains,
            node_count: block.node_ids@.len() as u32,
            states: block.kind.count(),
            offsets_base: bases.offsets,
            records_base: bases.records,
            node_ids_base: bases.node_ids,
        };
        Dispatch {
            kernel: match block.kind {
                BlockKind::Spin => Kernel::UpdateSpins(params),
                BlockKind::Categorical { .. } => Kernel::UpdateCategorical(params),
            },
            threads: (block.node_ids@.len() * self.n_chains) as u32,
        }
    }

    /// The dispatch that records observed block `b`.
    pub open spec fn record(self, layout: &ObservedLayout, b: int, sample: u32) -> Dispatch {
        let block = layout.blocks@[b];
        Dispatch {
            kernel: Kernel::RecordStates(
                RecordParams {
                    n_nodes: self.n_nodes,
                    n_chains: self.n_chains,
                    sample,
                    node_count: block.node_count,
                    out_base: block.base,
                    words_per_frame: block.words_per_frame,
                    node_ids_base: observed_base(layout, b as nat) as u32,
                    is_spin: if block.is_spin {
                        1
                    } else {
                        0
                    },
                },
            ),
            threads: (block.words_per_frame * self.n_chains) as u32,
        }
    }

    /// The dispatch that accumulates moments.
    pub open spec fn accumulate(self, count: u32) -> Dispatch {
        Dispatch {
            kernel: Kernel::AccumulateMoments(
                MomentParams { n_nodes: self.n_nodes, n_chains: self.n_chains, n_moments: count },
            ),
            threads: (count * self.n_chains) as u32,
        }
    }

    /// The dispatches of one operation, the first of whose updates has the counter.
    pub open spec fn of_op(self, op: RunOp, counter: int) -> Seq<Dispatch> {
        match op {
            RunOp::Step => Seq::new(
                self.program.blocks@.len(),
                |b: int| self.update(b, counter + b),
            ),
            RunOp::Record(sample) => match self.observation {
                Observation::States(layout) => Seq::new(
                    layout.blocks@.len(),
                    |b: int| self.record(layout, b, sample),
                ),
                Observation::Moments(count) => seq![self.accumulate(count)],
            },
        }
    }

    /// The dispatches of the first `n` operations, in order. Block updates
    /// are counted from 0 over the whole run.
    pub open spec fn of_ops(self, n: nat) -> Seq<Dispatch>
        decreases n,
    {
        if n == 0 {
            Seq::empty()
        } else {
            self.of_ops((n - 1) as nat) + self.of_op(
                self.schedule.ops()[n - 1],
                (step_count(self.schedule.ops(), (n - 1) as nat) * self.program.blocks@.len()) as int,
            )
        }
    }

    /// The dispatches of the run, in order.
    pub open spec fn dispatches(self) -> Seq<Dispatch> {
        self.of_ops(self.schedule.ops().len())
    }
}

/// A place in the dispatches of a run.
pub struct Run<'a, W> {
    pub setup: Setup<'a, W>,
    pub ops: RunOps,
    /// The operation whose dispatches are being handed out.
    pub current: Option<RunOp>,
    /// How many of them were.
    pub index: usize,
    pub counter: u32,
    /// Node counts of the observed blocks recorded in the current operation, added up.
    pub node_ids_base: u32,
    /// Dispatches in the current chunk.
    pub in_chunk: usize,
}

impl<'a, W> Run<'a, W> {
    /// Operations that are done.
    pub open spec fn ops_done(&self) -> int {
        if self.current is Some {
            self.ops.position() - 1
        } else {
            self.ops.position()
        }
    }

    /// The counter of the first update of the current or next operation.
    pub open spec fn first_counter(&self) -> int {
        (step_count(self.setup.schedule.ops(), self.ops_done() as nat)
            * self.setup.program.blocks@.len()) as int
    }

    /// Dispatches handed out so far.
    pub open spec fn emitted(&self) -> int {
        self.setup.of_ops(self.ops_done() as nat).len() + self.index
    }

    pub open spec fn wf(&self) -> bool {
        let ops = self.setup.schedule.ops();
        &&& self.setup.wf()
        &&& self.ops.wf()
        &&& self.ops.schedule == self.setup.schedule
        &&& 0 <= self.ops_done() <= ops.len()
        &&& self.ops.position() <= ops.len()
        &&& self.ops.steps() == step_count(ops, self.ops.position() as nat)
        &&& self.ops.steps() <= self.setup.schedule.total_steps()
        &&& self.in_chunk <= OPS_PER_SUBMIT
        &&& match self.current {
            Some(op) => {
                &&& op == ops[self.ops_done()]
                &&& self.index <= self.setup.of_op(op, self.first_counter()).len()
                &&& self.counter == self.first_counter() + if op == RunOp::Step {
                    self.index as int
                } else {
                    0
                }
                &&& match self.setup.observation {
                    Observation::States(layout) => op != RunOp::Step ==> self.node_ids_base
                        == observed_base(layout, self.index as nat),
                    Observation::Moments(_) => true,
                }
            },
            None => {
                &&& self.index == 0
                &&& self.counter == self.first_counter()
            },
        }
    }

    /// Start a run.
    pub fn new(setup: Setup<'a, W>) -> (r: Self)
        requires
            setup.wf(),
        ensures
            r.wf(),
            r.setup == setup,
            r.emitted() == 0,
            r.in_chunk == 0,
    {
        let ops = run_ops(&setup.schedule);
        let r = Run {
            setup,
            ops,
            current: None,
            index: 0,
            counter: 0,
            node_ids_base: 0,
            in_chunk: 0,
        };
        proof {
            lemma_total_steps(setup.schedule);
            assert(0 * setup.program.blocks@.len() == 0) by (nonlinear_arith);
        }
        r
    }
}

impl<'a, W> Run<'a, W> {
    /// Number of dispatches of an operation.
    fn op_len(&self, op: RunOp) -> (r: usize)
        ensures
            forall|counter: int| r == #[trigger] self.setup.of_op(op, counter).len(),
    {
        match op {
            RunOp::Step => self.setup.program.blocks.len(),
            RunOp::Record(_) => match self.setup.observation {
                Observation::States(layout) => layout.blocks.len(),
                Observation::Moments(_) => 1,
            },
        }
    }

    /// Move on to the operation of the next dispatch, if there is one.
    fn seek(&mut self) -> (r: Option<RunOp>)
        requires
            old(self).wf(),
        ensures
            final(self).wf(),
            final(self).setup == old(self).setup,
            final(self).in_chunk == old(self).in_chunk,
            final(self).emitted() == old(self).emitted(),
            r == final(self).current,
            match r {
                Some(op) => final(self).index < final(self).setup.of_op(
                    op,
                    final(self).first_counter(),
                ).len(),
                None => final(self).emitted() == final(self).setup.dispatches().len(),
            },
    {
        let ghost setup = self.setup;
        let ghost ops = setup.schedule.ops();
        let ghost blocks = setup.program.blocks@.len();
        loop
            invariant
                self.wf(),
                setup == old(self).setup,
                self.setup == setup,
                ops == setup.schedule.ops(),
                blocks == setup.program.blocks@.len(),
                self.in_chunk == old(self).in_chunk,
                self.emitted() == old(self).emitted(),
            decreases
                ops.len() - self.ops.position(),
                if self.current is Some {
                    1int
                } else {
                    0int
                },
        {
            match self.current {
                Some(op) => {
                    let count: usize = self.op_len(op);
                    if self.index < count {
                        return Some(op);
                    }
                    proof {
                        let done = self.ops_done() as nat;
                        assert(step_count(ops, done + 1) == step_count(ops, done) + if op
                            == RunOp::Step {
                            1nat
                        } else {
                            0nat
                        });
                        let steps = step_count(ops, done);
                        assert((steps + 1) * blocks == steps * blocks + blocks) by (nonlinear_arith);
                        assert(setup.of_ops(done + 1).len() == setup.of_ops(done).len()
                            + setup.of_op(op, self.first_counter()).len());
                    }
                    self.current = None;
                    self.index = 0;
                },
                None => {
                    let ghost place = self.ops;
                    match self.ops.next() {
                        Some(op) => {
                            proof {
                                let before = place.position() as nat;
                                assert(step_count(ops, before + 1) == step_count(ops, before)
                                    + if op == RunOp::Step {
                                    1nat
                                } else {
                                    0nat
                                });
                            }
                            self.current = Some(op);
                            self.node_ids_base = 0;
                        },
                        None => {
                            return None;
                        },
                    }
                },
            }
        }
    }

    /// Hand out the next dispatch of the current operation.
    fn encode(&mut self, op: RunOp) -> (r: Dispatch)
        requires
            old(self).wf(),
            old(self).current == Some(op),
            old(self).index < old(self).setup.of_op(op, old(self).first_counter()).len(),
            old(self).in_chunk < OPS_PER_SUBMIT,
        ensures
            final(self).wf(),
            final(self).setup == old(self).setup,
            final(self).in_chunk == old(self).in_chunk + 1,
            final(self).emitted() == old(self).emitted() + 1,
            0 <= old(self).emitted() < old(self).setup.dispatches().len(),
            r == old(self).setup.dispatches()[old(self).emitted()],
    {
        let ghost setup = self.setup;
        let ghost ops = setup.schedule.ops();
        let ghost blocks = setup.program.blocks@.len();
        proof {
            lemma_of_ops(setup, self.ops_done() as nat, ops.len(), self.index as int);
        }
        let n_nodes: u32 = self.setup.n_nodes;
        let n_chains: u32 = self.setup.n_chains;
        let dispatch = match op {
            RunOp::Step => {
                proof {
                    let steps = step_count(ops, self.ops_done() as nat);
                    assert(step_count(ops, self.ops.position() as nat) == steps + 1);
                    assert((steps + 1) * blocks == steps * blocks + blocks) by (nonlinear_arith);
                    assert((steps + 1) * blocks <= setup.schedule.total_steps() * blocks)
                        by (nonlinear_arith)
                        requires
                            steps + 1 <= setup.schedule.total_steps(),
                            blocks >= 0,
                    ;
                }
                assert(self.index < self.setup.program.blocks.len());
                let block = &self.setup.program.blocks[self.index];
                let bases: BlockBases = self.setup.bases[self.index];
                let node_count: u32 = block.node_ids.len() as u32;
                let states: u32 = match block.kind {
                    BlockKind::Spin => 2,
                    BlockKind::Categorical { states } => states,
                };
                let params = UpdateParams {
                    seed: self.setup.seed,
                    counter: self.counter,
                    n_nodes,
                    n_chains,
                    node_count,
                    states,
                    offsets_base: bases.offsets,
                    records_base: bases.records,
                    node_ids_base: bases.node_ids,
                };
                let kernel = match block.kind {
                    BlockKind::Spin => Kernel::UpdateSpins(params),
                    BlockKind::Categorical { .. } => Kernel::UpdateCategorical(params),
                };
                self.counter = self.counter + 1;
                Dispatch { kernel, threads: node_count * n_chains }
            },
            RunOp::Record(sample) => match self.setup.observation {
                Observation::States(layout) => {
                    assert(self.index < layout.blocks.len());
                    let block = layout.blocks[self.index];
                    proof {
                        lemma_observed_base(layout, (self.index + 1) as nat, layout.blocks@.len());
                    }
                    let params = RecordParams {
                        n_nodes,
                        n_chains,
                        sample,
                        node_count: block.node_count,
                        out_base: block.base,
                        words_per_frame: block.words_per_frame,
                        node_ids_base: self.node_ids_base,
                        is_spin: if block.is_spin {
                            1
                        } else {
                            0
                        },
                    };
                    assert(block.words_per_frame * n_chains <= u32::MAX) by {
                        assert(layout.blocks@[self.index as int] == block);
                    }
                    self.node_ids_base = self.node_ids_base + block.node_count;
                    Dispatch {
                        kernel: Kernel::RecordStates(params),
                        threads: block.words_per_frame * n_chains,
                    }
                },
                Observation::Moments(count) => Dispatch {
                    kernel: Kernel::AccumulateMoments(
                        MomentParams { n_nodes, n_chains, n_moments: count },
                    ),
                    threads: count * n_chains,
                },
            },
        };
        self.index = self.index + 1;
        self.in_chunk = self.in_chunk + 1;
        dispatch
    }

    /// What to do next, until everything is encoded. A full chunk is
    /// submitted when there is another dispatch to encode; the last chunk is
    /// left to be submitted when nothing is left to do.
    pub fn next(&mut self) -> (r: Option<Action>)
        requires
            old(self).wf(),
        ensures
            final(self).wf(),
            final(self).setup == old(self).setup,
            match r {
                Some(Action::Encode(dispatch)) => {
                    &&& old(self).in_chunk < OPS_PER_SUBMIT
                    &&& 0 <= old(self).emitted() < old(self).setup.dispatches().len()
                    &&& dispatch == old(self).setup.dispatches()[old(self).emitted()]
                    &&& final(self).emitted() == old(self).emitted() + 1
                    &&& final(self).in_chunk == old(self).in_chunk + 1
                },
                Some(Action::Submit) => {
                    &&& old(self).in_chunk == OPS_PER_SUBMIT
                    &&& old(self).emitted() < old(self).setup.dispatches().len()
                    &&& final(self).emitted() == old(self).emitted()
                    &&& final(self).in_chunk == 0
                },
                None => {
                    &&& old(self).emitted() == old(self).setup.dispatches().len()
                    &&& final(self).emitted() == old(self).emitted()
                    &&& final(self).in_chunk == old(self).in_chunk
                },
            },
    {
        match self.seek() {
            None => None,
            Some(op) => {
                if self.in_chunk == OPS_PER_SUBMIT {
                    proof {
                        lemma_of_ops(
                            self.setup,
                            self.ops_done() as nat,
                            self.setup.schedule.ops().len(),
                            self.index as int,
                        );
                    }
                    self.in_chunk = 0;
                    Some(Action::Submit)
                } else {
                    Some(Action::Encode(self.encode(op)))
                }
            },
        }
    }
}

/// The dispatches of an operation follow those of the operations before it.
proof fn lemma_of_ops<'a, W>(setup: Setup<'a, W>, n: nat, total: nat, i: int)
    requires
        n < total,
        0 <= i < setup.of_op(
            setup.schedule.ops()[n as int],
            (step_count(setup.schedule.ops(), n) * setup.program.blocks@.len()) as int,
        ).len(),
    ensures
        setup.of_ops(n).len() + i < setup.of_ops(total).len(),
        setup.of_ops(total)[setup.of_ops(n).len() + i] == setup.of_op(
            setup.schedule.ops()[n as int],
            (step_count(setup.schedule.ops(), n) * setup.program.blocks@.len()) as int,
        )[i],
    decreases total,
{
    if n + 1 < total {
        lemma_of_ops(setup, n, (total - 1) as nat, i);
    }
}

pub proof fn lemma_observed_base(layout: &ObservedLayout, a: nat, b: nat)
    requires
        a <= b,
    ensures
        observed_base(layout, a) <= observed_base(layout, b),
    decreases b,
{
    if a < b {
        lemma_observed_base(layout, a, (b - 1) as nat);
    }
}

pub proof fn lemma_total_steps(schedule: Schedule)
    ensures
        0 <= schedule.total_steps(),
{
    if schedule.n_samples > 0 {
        assert((schedule.n_samples - 1) * schedule.steps_per_sample >= 0) by (nonlinear_arith)
            requires
                schedule.n_samples > 0,
                schedule.steps_per_sample >= 0,
        ;
    }
}

proof fn lemma_run_of_steps(ops: Seq<RunOp>, a: nat, b: nat)
    requires
        a <= b,
        forall|i: int| a <= i < b ==> #[trigger] ops[i] == RunOp::Step,
    ensures
        step_count(ops, b) == step_count(ops, a) + (b - a),
    decreases b,
{
    if a < b {
        lemma_run_of_steps(ops, a, (b - 1) as nat);
        assert(ops[b - 1] == RunOp::Step);
    }
}

/// When a sample is dispatched to be recorded, as many steps have been
/// dispatched as a run on the CPU takes before it.
pub proof fn samples_follow_the_same_steps(schedule: Schedule, sample: nat)
    requires
        sample < schedule.n_samples,
    ensures
        schedule.ops()[schedule.steps_before(sample as int) + sample] == RunOp::Record(
            sample as u32,
        ),
        step_count(
            schedule.ops(),
            (schedule.steps_before(sample as int) + sample) as nat,
        ) == schedule.steps_before(sample as int),
    decreases sample,
{
    let ops = schedule.ops();
    lemma_record_op(schedule, sample as int);
    let end = (schedule.steps_before(sample as int) + sample) as nat;
    if sample == 0 {
        assert(0 * schedule.steps_per_sample == 0) by (nonlinear_arith);
        assert forall|i: int| 0 <= i < end implies #[trigger] ops[i] == RunOp::Step by {
            lemma_step_op(schedule, 0, end - i);
        }
        lemma_run_of_steps(ops, 0, end);
    } else {
        let before = (sample - 1) as nat;
        samples_follow_the_same_steps(schedule, before);
        lemma_record_op(schedule, before as int);
        lemma_steps_distribute(schedule, before as int);
        let start = (schedule.steps_before(before as int) + before + 1) as nat;
        assert forall|i: int| start <= i < end implies #[trigger] ops[i] == RunOp::Step by {
            lemma_step_op(schedule, sample as int, end - i);
        }
        lemma_run_of_steps(ops, start, end);
        assert(step_count(ops, start) == step_count(ops, (start - 1) as nat));
    }
}

/// The operations of a run have all of its steps.
pub proof fn lemma_all_steps(schedule: Schedule)
    ensures
        step_count(schedule.ops(), schedule.ops().len()) == schedule.total_steps(),
{
    let ops = schedule.ops();
    if schedule.n_samples == 0 {
        assert forall|i: int| 0 <= i < ops.len() implies #[trigger] ops[i] == RunOp::Step by {
            assert(i - schedule.n_warmup < 0);
        }
        lemma_run_of_steps(ops, 0, ops.len());
    } else {
        let last = (schedule.n_samples - 1) as nat;
        samples_follow_the_same_steps(schedule, last);
        lemma_total_steps(schedule);
        assert(ops.len() == schedule.steps_before(last as int) + last + 1);
    }
}

/// Whether the program can be run on the GPU: every value of the state is one
/// of the states of its node, and the block updates can be counted.
pub fn can_run<W>(program: &Program<W>, schedule: &Schedule, state: &State) -> (r: bool)
    ensures
        r == (state.in_range(program.node_kinds@) && countable(*program, *schedule)),
{
    can_count(program, schedule) && validate_state(program, state)
}

/// Whether all thread counts of a run are single words.
pub fn can_dispatch<W>(
    program: &Program<W>,
    observation: Observation<'_>,
    n_chains: u32,
) -> (r: bool)
    ensures
        r == (updatable(program.blocks@, n_chains) && recordable(observation, n_chains)),
{
    for b in 0..program.blocks.len()
        invariant
            forall|c: int|
                0 <= c < b ==> {
                    &&& (#[trigger] program.blocks@[c]).node_ids@.len() <= u32::MAX
                    &&& program.blocks@[c].node_ids@.len() * n_chains <= u32::MAX
                },
    {
        let count: usize = program.blocks[b].node_ids.len();
        assert(0 <= count * n_chains <= 0xFFFF_FFFF_FFFF_FFFF * 0xFFFF_FFFF) by (nonlinear_arith)
            requires
                0 <= count <= 0xFFFF_FFFF_FFFF_FFFF,
                0 <= n_chains <= 0xFFFF_FFFF,
        ;
        if count > 0xFFFF_FFFF || count as u128 * n_chains as u128 > 0xFFFF_FFFF {
            assert(!({
                &&& program.blocks@[b as int].node_ids@.len() <= u32::MAX
                &&& program.blocks@[b as int].node_ids@.len() * n_chains <= u32::MAX
            }));
            return false;
        }
    }
    match observation {
        Observation::Moments(count) => {
            assert(0 <= count * n_chains <= 0xFFFF_FFFF * 0xFFFF_FFFF) by (nonlinear_arith)
                requires
                    0 <= count <= 0xFFFF_FFFF,
                    0 <= n_chains <= 0xFFFF_FFFF,
            ;
            count as u64 * n_chains as u64 <= 0xFFFF_FFFF
        },
        Observation::States(layout) => {
            let mut base: u64 = 0;
            for b in 0..layout.blocks.len()
                invariant
                    observation == Observation::States(layout),
                    base == observed_base(layout, b as nat),
                    base <= u32::MAX,
                    forall|c: int|
                        0 <= c < b ==> (#[trigger] layout.blocks@[c]).words_per_frame * n_chains
                            <= u32::MAX,
            {
                let block = layout.blocks[b];
                assert(layout.blocks@[b as int] == block);
                assert(0 <= block.words_per_frame * n_chains <= 0xFFFF_FFFF * 0xFFFF_FFFF)
                    by (nonlinear_arith)
                    requires
                        0 <= block.words_per_frame <= 0xFFFF_FFFF,
                        0 <= n_chains <= 0xFFFF_FFFF,
                ;
                if block.words_per_frame as u64 * n_chains as u64 > 0xFFFF_FFFF {
                    return false;
                }
                proof {
                    lemma_observed_base(layout, (b + 1) as nat, layout.blocks@.len());
                }
                base = base + block.node_count as u64;
                if base > 0xFFFF_FFFF {
                    return false;
                }
            }
            true
        },
    }
}

/// Whether a dispatch is one that the setup of a run asks for: its parameters
/// are those of the run, and there is a thread for everything that it writes.
pub open spec fn suits<'a, W>(setup: Setup<'a, W>, dispatch: Dispatch) -> bool {
    let blocks = setup.program.blocks@;
    let updates = |params: UpdateParams, b: int|
        {
            &&& 0 <= b < blocks.len()
            &&& params.seed == setup.seed
            &&& params.n_nodes == setup.n_nodes
            &&& params.n_chains == setup.n_chains
            &&& params.node_count == blocks[b].node_ids@.len()
            &&& dispatch.threads == params.node_count * params.n_chains
        };
    match dispatch.kernel {
        Kernel::UpdateSpins(params) => params.states == 2 && exists|b: int|
            updates(params, b) && (#[trigger] blocks[b]).kind == BlockKind::Spin,
        Kernel::UpdateCategorical(params) => exists|b: int|
            updates(params, b) && (#[trigger] blocks[b]).kind == (BlockKind::Categorical {
                states: params.states,
            }),
        Kernel::RecordStates(params) => {
            &&& params.n_nodes == setup.n_nodes
            &&& params.n_chains == setup.n_chains
            &&& params.sample < setup.schedule.n_samples
            &&& dispatch.threads == params.words_per_frame * params.n_chains
        },
        Kernel::AccumulateMoments(params) => {
            &&& params.n_nodes == setup.n_nodes
            &&& params.n_chains == setup.n_chains
            &&& dispatch.threads == params.n_moments * params.n_chains
            &&& setup.observation matches Observation::Moments(count) && params.n_moments == count
        },
    }
}

/// Every dispatch of a run has the parameters of the run, and a thread for
/// each value that it writes: one for every node of the block and chain, for
/// every word of the frame and chain, or for every moment and chain.
pub proof fn dispatches_have_their_threads<'a, W>(setup: Setup<'a, W>, i: int)
    requires
        setup.wf(),
        0 <= i < setup.dispatches().len(),
    ensures
        suits(setup, setup.dispatches()[i]),
{
    lemma_all_suit(setup, setup.schedule.ops().len(), i);
}

proof fn lemma_all_suit<'a, W>(setup: Setup<'a, W>, n: nat, i: int)
    requires
        setup.wf(),
        n <= setup.schedule.ops().len(),
        0 <= i < setup.of_ops(n).len(),
    ensures
        suits(setup, setup.of_ops(n)[i]),
    decreases n,
{
    let before = setup.of_ops((n - 1) as nat);
    let op = setup.schedule.ops()[n - 1];
    let counter = (step_count(setup.schedule.ops(), (n - 1) as nat)
        * setup.program.blocks@.len()) as int;
    let j = i - before.len();
    if j < 0 {
        lemma_all_suit(setup, (n - 1) as nat, i);
    } else {
        let dispatch = setup.of_op(op, counter)[j];
        assert(setup.of_ops(n)[i] == dispatch);
        match op {
            RunOp::Step => {
                let block = setup.program.blocks@[j];
                assert(block.node_ids@.len() * setup.n_chains <= u32::MAX);
                assert(0 <= block.node_ids@.len() * setup.n_chains) by (nonlinear_arith);
                assert(dispatch == setup.update(j, counter + j));
            },
            RunOp::Record(sample) => {
                crate::formulas::runs_interleave_steps_and_records(setup.schedule, n - 1, sample);
                match setup.observation {
                    Observation::States(layout) => {
                        assert(layout.blocks@[j].words_per_frame * setup.n_chains <= u32::MAX);
                        assert(0 <= layout.blocks@[j].words_per_frame * setup.n_chains)
                            by (nonlinear_arith);
                    },
                    Observation::Moments(count) => {
                        assert(0 <= count * setup.n_chains) by (nonlinear_arith);
                    },
                }
            },
        }
    }
}

} // verus!
