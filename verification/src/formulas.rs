//! The formulas that the library computes, written out over its inputs.
//!
//! The other modules describe each step by what it does to its own data.
//! The laws of this module say what the steps come to: the energy of a
//! factor as sums and products over spins and a row-major weight tensor, the
//! value that an update gives to a node from the energies of the model and
//! one hash, and the order of the updates in a run.

use vstd::prelude::*;

use crate::cpu::{all_spins, chains, countable, product_sum, records_run, sampled_frames};
use crate::energy::{
    factor_energy, field_is_conditional_energy, model_energy, model_sound,
    spin_field_is_half_the_energy_gap, term_sum,
};
use crate::factor::{
    axis_defined, axis_product, cat_offset, energy_defined, energy_terms, has_value,
    instance_index, instance_sign, lemma_sign, DiscreteFactor, Shape, Term,
};
use crate::gibbs::{
    after_blocks, after_steps, all_field_terms, block_updates_are_simultaneous, field_terms,
    lemma_steps_keep_spins, terms_add_up_to_the_field, updated, Rule,
};
use crate::graph::{Node, NodeKind};
use crate::models::{bias_sum, coupling_sum, ising_energy_formula, IsingModel};
use crate::program::{ids_of, BlockKind, Program};
use crate::record::{readable, spin_product, RecordView};
use crate::rng::pcg4d_hash;
use crate::samples::{observable, region_start, Samples};
use crate::schedule::{samples_follow_their_steps, RunOp, Schedule};
use crate::soundness::{compiled_programs_are_sound, record_sound, valid_values};
use crate::state::State;

verus! {

/// All terms added up.
pub open spec fn sum_of(terms: Seq<int>) -> int
    decreases terms.len(),
{
    if terms.len() == 0 {
        0
    } else {
        sum_of(terms.drop_last()) + terms.last()
    }
}

/// All factors multiplied.
pub open spec fn product_of(factors: Seq<int>) -> int
    decreases factors.len(),
{
    if factors.len() == 0 {
        1
    } else {
        product_of(factors.drop_last()) * factors.last()
    }
}

/// The position of an element in an array whose axes have the given sizes,
/// the last one varying fastest, in block `i` of such arrays.
pub open spec fn row_major(i: int, sizes: Seq<int>, digits: Seq<int>) -> int
    decreases sizes.len(),
{
    if sizes.len() == 0 {
        i
    } else {
        row_major(i, sizes.drop_last(), digits.drop_last()) * sizes.last() + digits.last()
    }
}

/// The numbers of states along the axes of a weight tensor.
pub open spec fn axis_sizes(kinds: Seq<NodeKind>, cats: Seq<Seq<Node>>) -> Seq<int> {
    Seq::new(
        cats.len(),
        |n: int|
            match kinds[cats[n][0].0 as int] {
                NodeKind::Spin => 2,
                NodeKind::Categorical { states } => states as int,
            },
    )
}

/// The categories of instance `i`, one per axis.
pub open spec fn axis_values(cats: Seq<Seq<Node>>, values: Seq<u32>, i: int) -> Seq<int> {
    Seq::new(cats.len(), |n: int| values[cats[n][i].0 as int] as int)
}

/// The spins of instance `i`, each -1 or +1.
pub open spec fn group_spins(spins: Seq<Seq<Node>>, values: Seq<u32>, i: int) -> Seq<int> {
    Seq::new(
        spins.len(),
        |m: int|
            if values[spins[m][i].0 as int] != 0 {
                1int
            } else {
                -1int
            },
    )
}

proof fn lemma_row_major(
    kinds: Seq<NodeKind>,
    cats: Seq<Seq<Node>>,
    i: int,
    values: Seq<u32>,
    count: nat,
)
    requires
        count <= cats.len(),
        i >= 0,
    ensures
        i * axis_product(kinds, cats, 0) + cat_offset(kinds, cats, i, values, count) == row_major(
            i,
            axis_sizes(kinds, cats).take(count as int),
            axis_values(cats, values, i).take(count as int),
        ) * axis_product(kinds, cats, count as int),
    decreases count,
{
    let sizes = axis_sizes(kinds, cats);
    let digits = axis_values(cats, values, i);
    if count > 0 {
        let n = (count - 1) as nat;
        lemma_row_major(kinds, cats, i, values, n);
        assert(sizes.take(count as int).drop_last() =~= sizes.take(n as int));
        assert(digits.take(count as int).drop_last() =~= digits.take(n as int));
        let before = row_major(i, sizes.take(n as int), digits.take(n as int));
        let size = sizes[n as int];
        let digit = digits[n as int];
        let rest = axis_product(kinds, cats, count as int) as int;
        assert((before * size + digit) * rest == before * (size * rest) + digit * rest)
            by (nonlinear_arith);
    }
}

proof fn lemma_group_product(spins: Seq<Seq<Node>>, values: Seq<u32>, i: int, count: nat)
    requires
        count <= spins.len(),
    ensures
        instance_sign(spins, i, values, count) == product_of(
            group_spins(spins, values, i).take(count as int),
        ),
    decreases count,
{
    let all = group_spins(spins, values, i);
    if count > 0 {
        lemma_group_product(spins, values, i, (count - 1) as nat);
        assert(all.take(count as int).drop_last() =~= all.take(count - 1));
    }
}

/// A factor has one energy term for every instance, that is for every node
/// of its first group. The term of instance `i` is the product of its spins
/// with the weight found in row-major order at `[i, c_1, ..., c_N]`.
pub proof fn energy_terms_follow_the_formula<W>(
    kinds: Seq<NodeKind>,
    shape: Shape,
    weights: Seq<W>,
    values: Seq<u32>,
    i: int,
)
    requires
        0 <= i < energy_terms(kinds, shape, weights, values).len(),
    ensures
        shape.spins.len() > 0 ==> energy_terms(kinds, shape, weights, values).len()
            == shape.spins[0].len(),
        shape.spins.len() == 0 && shape.cats.len() > 0 ==> energy_terms(
            kinds,
            shape,
            weights,
            values,
        ).len() == shape.cats[0].len(),
        energy_terms(kinds, shape, weights, values)[i].sign == product_of(
            group_spins(shape.spins, values, i),
        ),
        energy_terms(kinds, shape, weights, values)[i].weight == weights[row_major(
            i,
            axis_sizes(kinds, shape.cats),
            axis_values(shape.cats, values, i),
        )],
{
    lemma_instance_formula(kinds, shape, values, i);
    lemma_sign(shape.spins, i, values, shape.spins.len());
}

proof fn lemma_instance_formula(
    kinds: Seq<NodeKind>,
    shape: Shape,
    values: Seq<u32>,
    i: int,
)
    requires
        i >= 0,
    ensures
        instance_sign(shape.spins, i, values, shape.spins.len()) == product_of(
            group_spins(shape.spins, values, i),
        ),
        instance_index(kinds, shape, i, values) == row_major(
            i,
            axis_sizes(kinds, shape.cats),
            axis_values(shape.cats, values, i),
        ),
{
    let n = shape.cats.len();
    let m = shape.spins.len();
    lemma_row_major(kinds, shape.cats, i, values, n);
    lemma_group_product(shape.spins, values, i, m);
    assert(axis_sizes(kinds, shape.cats).take(n as int) =~= axis_sizes(kinds, shape.cats));
    assert(axis_values(shape.cats, values, i).take(n as int) =~= axis_values(
        shape.cats,
        values,
        i,
    ));
    assert(group_spins(shape.spins, values, i).take(m as int) =~= group_spins(
        shape.spins,
        values,
        i,
    ));
    let place = row_major(i, axis_sizes(kinds, shape.cats), axis_values(shape.cats, values, i));
    let whole = axis_product(kinds, shape.cats, 0);
    let unit = axis_product(kinds, shape.cats, n as int);
    assert(unit == 1);
    assert(place * unit == place) by (nonlinear_arith)
        requires
            unit == 1,
    ;
    assert(i as nat * whole == i * whole) by (nonlinear_arith)
        requires
            i >= 0,
    ;
}

/// The energies of the instances of a factor: minus the weight of each, times
/// its spins.
pub open spec fn instance_energies<W>(
    kinds: Seq<NodeKind>,
    shape: Shape,
    weights: Seq<W>,
    values: Seq<u32>,
    w: spec_fn(W) -> int,
) -> Seq<int> {
    Seq::new(
        if shape.spins.len() > 0 {
            shape.spins[0].len()
        } else if shape.cats.len() > 0 {
            shape.cats[0].len()
        } else {
            0
        },
        |i: int|
            -(w(
                weights[row_major(
                    i,
                    axis_sizes(kinds, shape.cats),
                    axis_values(shape.cats, values, i),
                )],
            ) * product_of(group_spins(shape.spins, values, i))),
    )
}

proof fn lemma_factor_energy<W>(
    kinds: Seq<NodeKind>,
    shape: Shape,
    weights: Seq<W>,
    values: Seq<u32>,
    w: spec_fn(W) -> int,
    count: nat,
)
    requires
        count <= shape.batch(),
    ensures
        factor_energy(kinds, shape, weights, values, w, count) == sum_of(
            instance_energies(kinds, shape, weights, values, w).take(count as int),
        ),
    decreases count,
{
    let all = instance_energies(kinds, shape, weights, values, w);
    if count > 0 {
        let i = count - 1;
        lemma_factor_energy(kinds, shape, weights, values, w, i as nat);
        assert(all.take(count as int).drop_last() =~= all.take(i));
        lemma_instance_formula(kinds, shape, values, i);
        let weight = w(weights[instance_index(kinds, shape, i, values) as int]);
        vstd::arithmetic::mul::lemma_mul_is_commutative(
            instance_sign(shape.spins, i, values, shape.spins.len()),
            weight,
        );
    }
}

/// The energy of a model is the sum of the energies of all instances of all
/// its factors.
pub proof fn model_energy_follows_the_formula<W>(
    kinds: Seq<NodeKind>,
    factors: Seq<DiscreteFactor<W>>,
    values: Seq<u32>,
    w: spec_fn(W) -> int,
)
    ensures
        model_energy(kinds, factors, values, w, factors.len()) == sum_of(
            Seq::new(
                factors.len(),
                |k: int|
                    sum_of(
                        instance_energies(
                            kinds,
                            factors[k].shape(),
                            factors[k].weights@,
                            values,
                            w,
                        ),
                    ),
            ),
        ),
{
    let sums = Seq::new(
        factors.len(),
        |k: int|
            sum_of(
                instance_energies(kinds, factors[k].shape(), factors[k].weights@, values, w),
            ),
    );
    lemma_model_energy(kinds, factors, values, w, sums, factors.len());
    assert(sums.take(factors.len() as int) =~= sums);
}

proof fn lemma_model_energy<W>(
    kinds: Seq<NodeKind>,
    factors: Seq<DiscreteFactor<W>>,
    values: Seq<u32>,
    w: spec_fn(W) -> int,
    sums: Seq<int>,
    count: nat,
)
    requires
        count <= factors.len() == sums.len(),
        forall|k: int|
            #![trigger sums[k]]
            0 <= k < sums.len() ==> sums[k] == sum_of(
                instance_energies(kinds, factors[k].shape(), factors[k].weights@, values, w),
            ),
    ensures
        model_energy(kinds, factors, values, w, count) == sum_of(sums.take(count as int)),
    decreases count,
{
    if count > 0 {
        let k = count - 1;
        lemma_model_energy(kinds, factors, values, w, sums, k as nat);
        assert(sums.take(count as int).drop_last() =~= sums.take(k));
        let shape = factors[k].shape();
        let all = instance_energies(kinds, shape, factors[k].weights@, values, w);
        lemma_factor_energy(kinds, shape, factors[k].weights@, values, w, shape.batch());
        assert(all.take(shape.batch() as int) =~= all);
        assert(sums[k] == sum_of(all));
    }
}

/// An update gives each node of its block a value drawn from the energy of
/// the model, all other values being what they were before the update.
///
/// A spin is up exactly where its draw is below the threshold of its field,
/// half of what its going up takes off the energy. A category is picked from
/// fields whose differences are those of the energies. The draw is read off
/// the hash of the seed, the counter, the chain and the node. This is said of
/// every rule that looks at nothing but the sums of its terms.
pub proof fn updates_follow_the_energy<W>(
    kinds: Seq<NodeKind>,
    free: Seq<Seq<Node>>,
    clamped: Seq<Seq<Node>>,
    factors: Seq<DiscreteFactor<W>>,
    program: Program<W>,
    rule: Rule<W>,
    w: spec_fn(W) -> int,
    up: spec_fn(int) -> u32,
    picked: spec_fn(Seq<int>, u32) -> u32,
    seed: u32,
    counter: u32,
    chain: u32,
    values: Seq<u32>,
    b: int,
    p: int,
)
    requires
        model_sound(kinds, free, clamped, factors),
        program.compiled_from(kinds, free, factors),
        valid_values(kinds, values),
        0 <= b < free.len(),
        0 <= p < free[b].len(),
        forall|terms: Seq<Term<W>>| #[trigger] (rule.threshold)(terms) == up(term_sum(terms, w)),
        forall|lists: Seq<Seq<Term<W>>>, draw: u32| #[trigger]
            (rule.pick)(lists, draw) == picked(
                Seq::new(lists.len(), |k: int| term_sum(lists[k], w)),
                draw,
            ),
    ensures
        ({
            let node = free[b][p].0 as int;
            let after = updated(
                program.weights@,
                program.blocks@[b],
                rule,
                seed,
                counter,
                chain,
                values,
            );
            let draw = (pcg4d_hash((seed, counter, chain, free[b][p].0)).0 as int / 256) as u32;
            match kinds[node] {
                NodeKind::Spin => {
                    let down = model_energy(
                        kinds,
                        factors,
                        values.update(node, 0),
                        w,
                        factors.len(),
                    );
                    let raised = model_energy(
                        kinds,
                        factors,
                        values.update(node, 1),
                        w,
                        factors.len(),
                    );
                    forall|gamma: int|
                        2 * gamma == down - raised ==> after[node] == if draw < #[trigger] up(
                            gamma,
                        ) {
                            1u32
                        } else {
                            0u32
                        }
                },
                NodeKind::Categorical { states } => exists|theta: Seq<int>|
                    {
                        &&& theta.len() == states
                        &&& forall|x: u32, y: u32|
                            #![trigger values.update(node, x), values.update(node, y)]
                            x < states && y < states ==> theta[x as int] - theta[y as int]
                                == model_energy(
                                kinds,
                                factors,
                                values.update(node, y),
                                w,
                                factors.len(),
                            ) - model_energy(
                                kinds,
                                factors,
                                values.update(node, x),
                                w,
                                factors.len(),
                            )
                        &&& after[node] == #[trigger] picked(theta, draw)
                    },
            }
        }),
{
    let node = free[b][p].0 as int;
    let block = program.blocks@[b];
    let records = block.node_view(p);
    let weights = program.weights@;
    compiled_programs_are_sound(kinds, free, clamped, factors, program);
    assert(block.node_ids@[p] == free[b][p].0);
    block_updates_are_simultaneous(weights, block, rule, seed, counter, chain, values, p);
    let hash = pcg4d_hash((seed, counter, chain, free[b][p].0)).0;
    assert(hash >> 8 == hash / 256) by (bit_vector);
    assert forall|j: int| 0 <= j < records.len() implies readable(
        #[trigger] records[j],
        values,
    ) by {
        assert(record_sound(
            kinds,
            weights.len(),
            block.kind.count(),
            block.node_ids@,
            block.node_view(p)[j],
        ));
        lemma_sound_is_readable(
            kinds,
            weights.len(),
            block.kind.count(),
            block.node_ids@,
            records[j],
            values,
        );
    }
    assert(BlockKind::of(kinds[node]) == block.kind);
    match kinds[node] {
        NodeKind::Spin => {
            terms_add_up_to_the_field(records, weights, values, w, 0);
            spin_field_is_half_the_energy_gap(
                kinds,
                free,
                clamped,
                factors,
                program,
                b,
                p,
                values,
                w,
            );
            let terms = field_terms(records, weights, values, 0);
            assert((rule.threshold)(terms) == up(term_sum(terms, w)));
        },
        NodeKind::Categorical { states } => {
            let lists = all_field_terms(records, weights, values, states as nat);
            let theta = Seq::new(lists.len(), |k: int| term_sum(lists[k], w));
            let draw = (hash as int / 256) as u32;
            assert((rule.pick)(lists, draw) == picked(theta, draw));
            assert forall|x: u32, y: u32|
                #![trigger values.update(node, x), values.update(node, y)]
                x < states && y < states implies theta[x as int] - theta[y as int] == model_energy(
                kinds,
                factors,
                values.update(node, y),
                w,
                factors.len(),
            ) - model_energy(kinds, factors, values.update(node, x), w, factors.len()) by {
                terms_add_up_to_the_field(records, weights, values, w, x as int);
                terms_add_up_to_the_field(records, weights, values, w, y as int);
                field_is_conditional_energy(
                    kinds,
                    free,
                    clamped,
                    factors,
                    program,
                    b,
                    p,
                    values,
                    w,
                    y,
                    x,
                );
            }
        },
    }
}

proof fn lemma_sound_is_readable(
    kinds: Seq<NodeKind>,
    weight_count: nat,
    states: u32,
    ids: Seq<u32>,
    record: RecordView,
    values: Seq<u32>,
)
    requires
        record_sound(kinds, weight_count, states, ids, record),
        valid_values(kinds, values),
    ensures
        readable(record, values),
{
    assert forall|i: int| 0 <= i < record.spin_tails.len() implies (
    #[trigger] record.spin_tails[i] as int) < values.len() && values[record.spin_tails[i] as int]
        <= 1 by {
        let v = record.spin_tails[i] as int;
        assert(kinds[v] == NodeKind::Spin);
        assert(crate::checks::proper(kinds[v]));
        assert(values[v] < kinds[v].count());
    }
}

/// An update leaves the nodes outside its block as they were.
pub proof fn updates_touch_their_block_only<W>(
    kinds: Seq<NodeKind>,
    free: Seq<Seq<Node>>,
    factors: Seq<DiscreteFactor<W>>,
    program: Program<W>,
    rule: Rule<W>,
    seed: u32,
    counter: u32,
    chain: u32,
    values: Seq<u32>,
    b: int,
    node: Node,
)
    requires
        program.compiled_from(kinds, free, factors),
        0 <= b < free.len(),
        (node.0 as int) < values.len(),
        !free[b].contains(node),
    ensures
        updated(program.weights@, program.blocks@[b], rule, seed, counter, chain, values)[node.0
            as int] == values[node.0 as int],
{
    let ids = program.blocks@[b].node_ids@;
    if ids.contains(node.0) {
        let p = choose|p: int| 0 <= p < ids.len() && ids[p] == node.0;
        assert(free[b][p] == node);
    }
}

/// Whether entry `i + 1` of a trace is entry `i` with the next block updated,
/// the blocks taking turns and the updates being counted from 0.
pub open spec fn updates_next<W>(
    program: Program<W>,
    rule: Rule<W>,
    seed: u32,
    chain: u32,
    trace: Seq<Seq<u32>>,
    i: int,
) -> bool {
    trace[i + 1] == updated(
        program.weights@,
        program.blocks@[i % (program.blocks@.len() as int)],
        rule,
        seed,
        i as u32,
        chain,
        trace[i],
    )
}

/// A run updates the blocks in their order, over and over, one update after
/// the other: update number `i` is of block `i` modulo the number of blocks,
/// and draws with counter `i`.
pub proof fn steps_update_the_blocks_in_turn<W>(
    program: Program<W>,
    rule: Rule<W>,
    seed: u32,
    chain: u32,
    trace: Seq<Seq<u32>>,
    steps: nat,
)
    requires
        trace.len() == steps * program.blocks@.len() + 1,
        forall|i: int|
            0 <= i < trace.len() - 1 ==> #[trigger] updates_next(
                program,
                rule,
                seed,
                chain,
                trace,
                i,
            ),
    ensures
        after_steps(program, rule, seed, chain, trace[0], steps) == trace.last(),
    decreases steps,
{
    let n = program.blocks@.len();
    if steps > 0 {
        let s = (steps - 1) as nat;
        assert(steps * n == s * n + n) by (nonlinear_arith)
            requires
                steps == s + 1,
        ;
        assert(s * n >= 0) by (nonlinear_arith);
        let shorter = trace.take((s * n + 1) as int);
        assert forall|i: int| 0 <= i < shorter.len() - 1 implies #[trigger] updates_next(
            program,
            rule,
            seed,
            chain,
            shorter,
            i,
        ) by {
            assert(updates_next(program, rule, seed, chain, trace, i));
        }
        steps_update_the_blocks_in_turn(program, rule, seed, chain, shorter, s);
        assert(shorter.last() == trace[(s * n) as int]);
        lemma_blocks_in_turn(program, rule, seed, chain, trace, s, n);
        assert((steps - 1) * n == s * n);
    } else {
        assert(steps * n == 0) by (nonlinear_arith)
            requires
                steps == 0,
        ;
    }
}

proof fn lemma_blocks_in_turn<W>(
    program: Program<W>,
    rule: Rule<W>,
    seed: u32,
    chain: u32,
    trace: Seq<Seq<u32>>,
    s: nat,
    count: nat,
)
    requires
        count <= program.blocks@.len(),
        s * program.blocks@.len() + count < trace.len(),
        forall|i: int|
            0 <= i < trace.len() - 1 ==> #[trigger] updates_next(
                program,
                rule,
                seed,
                chain,
                trace,
                i,
            ),
    ensures
        after_blocks(
            program,
            rule,
            seed,
            (s * program.blocks@.len()) as int,
            chain,
            trace[(s * program.blocks@.len()) as int],
            count,
        ) == trace[(s * program.blocks@.len() + count) as int],
    decreases count,
{
    let n = program.blocks@.len();
    if count > 0 {
        let k = (count - 1) as nat;
        lemma_blocks_in_turn(program, rule, seed, chain, trace, s, k);
        let i = (s * n + k) as int;
        assert(0 <= s * n) by (nonlinear_arith);
        assert(updates_next(program, rule, seed, chain, trace, i));
        vstd::arithmetic::div_mod::lemma_mod_multiples_vanish(s as int, k as int, n as int);
        assert(n * s + k == i) by (nonlinear_arith)
            requires
                i == s * n + k,
        ;
        vstd::arithmetic::div_mod::lemma_small_mod(k, n);
        assert(i % (n as int) == k);
    }
}

/// Sample `s` of a chain is recorded after the warm-up steps and `s` times
/// the steps between samples: what is read back is the value of the node
/// that the trace of the chain ends in.
pub proof fn samples_show_the_trace<W>(
    program: Program<W>,
    rule: Rule<W>,
    seed: u32,
    schedule: Schedule,
    start: Seq<Seq<u32>>,
    observed: Seq<Seq<Node>>,
    samples: Samples,
    b: int,
    sample: u32,
    chain: u32,
    p: u32,
    trace: Seq<Seq<u32>>,
)
    requires
        program.wf(),
        valid_values(program.node_kinds@, start[chain as int]),
        records_run(program, rule, seed, schedule, start, observed, samples),
        0 <= b < observed.len(),
        sample < schedule.n_samples,
        chain < start.len(),
        p < observed[b].len(),
        (observed[b][p as int].0 as int) < program.node_kinds@.len(),
        program.node_kinds@[observed[b][p as int].0 as int]
            == program.node_kinds@[observed[b][0].0 as int],
        trace.len() == (schedule.n_warmup + sample * schedule.steps_per_sample)
            * program.blocks@.len() + 1,
        trace[0] == start[chain as int],
        forall|i: int|
            0 <= i < trace.len() - 1 ==> #[trigger] updates_next(
                program,
                rule,
                seed,
                chain,
                trace,
                i,
            ),
    ensures
        samples.at(b, sample, chain, p) == trace.last()[observed[b][p as int].0 as int],
{
    let node = observed[b][p as int];
    let values = start[chain as int];
    let steps = (schedule.n_warmup + sample * schedule.steps_per_sample) as nat;
    assert(0 <= sample * schedule.steps_per_sample) by (nonlinear_arith);
    steps_update_the_blocks_in_turn(program, rule, seed, chain, trace, steps);
    let value = trace.last()[node.0 as int];
    if program.node_kinds@[node.0 as int] == NodeKind::Spin {
        assert(crate::checks::proper(program.node_kinds@[node.0 as int]));
        lemma_steps_keep_spins(program, rule, seed, chain, values, steps, node);
        assert(value & 1 == value) by (bit_vector)
            requires
                value <= 1,
        ;
    }
    assert(samples.at(b, sample, chain, p) == value);
}

/// The frames that moments are taken over are the samples, each with its
/// chains in order, and sample `s` comes after the warm-up steps and `s` times
/// the steps between samples.
pub proof fn frames_are_samples_by_chain<W>(
    program: Program<W>,
    rule: Rule<W>,
    seed: u32,
    schedule: Schedule,
    start: Seq<Seq<u32>>,
    sample: int,
    chain: int,
)
    requires
        0 <= sample < schedule.n_samples,
        0 <= chain < start.len(),
    ensures
        sampled_frames(program, rule, seed, schedule, start).len() == schedule.n_samples
            * start.len(),
        0 <= sample * start.len() + chain < schedule.n_samples * start.len(),
        sampled_frames(program, rule, seed, schedule, start)[sample * start.len() + chain]
            == after_steps(
            program,
            rule,
            seed,
            chain as u32,
            start[chain],
            (schedule.n_warmup + sample * schedule.steps_per_sample) as nat,
        ),
{
    crate::cpu::lemma_frame(
        schedule.n_samples as int,
        start.len() as int,
        sample,
        chain,
    );
    assert(0 <= schedule.n_samples * start.len()) by (nonlinear_arith);
}

/// The steps of a whole run: the warm-up, and the steps between one sample
/// and the next.
pub proof fn runs_take_their_steps(schedule: Schedule)
    ensures
        schedule.n_samples == 0 ==> schedule.total_steps() == schedule.n_warmup,
        schedule.n_samples > 0 ==> schedule.total_steps() == schedule.n_warmup + (
        schedule.n_samples - 1) * schedule.steps_per_sample,
{
}

/// What a run does, operation by operation: the warm-up steps, a record,
/// and again the steps between samples and a record for every further sample.
pub proof fn runs_interleave_steps_and_records(schedule: Schedule, position: int, sample: u32)
    requires
        0 <= position < schedule.ops().len(),
    ensures
        schedule.ops().len() == if schedule.n_samples == 0 {
            schedule.n_warmup as int
        } else {
            schedule.n_warmup + 1 + (schedule.n_samples - 1) * (schedule.steps_per_sample + 1)
        },
        schedule.ops()[position] == RunOp::Record(sample) <==> sample < schedule.n_samples
            && position == schedule.n_warmup + sample * (schedule.steps_per_sample + 1),
{
    let n = schedule.n_samples as int;
    let per = schedule.steps_per_sample as int;
    if n > 0 {
        assert((n - 1) * (per + 1) == (n - 1) * per + (n - 1)) by (nonlinear_arith);
        assert(0 <= (n - 1) * per) by (nonlinear_arith)
            requires
                n > 0,
                per >= 0,
        ;
    }
    assert(sample * (per + 1) == sample * per + sample) by (nonlinear_arith);
    if sample < n {
        samples_follow_their_steps(schedule, sample as int, position);
    } else if schedule.ops()[position] == RunOp::Record(sample) {
        let past = position - schedule.n_warmup;
        assert(n > 0);
        assert(past / (per + 1) < n) by (nonlinear_arith)
            requires
                0 <= past < 1 + (n - 1) * (per + 1),
                per >= 0,
                n > 0,
        ;
        assert(0 <= past / (per + 1)) by (nonlinear_arith)
            requires
                0 <= past,
                per >= 0,
        ;
    }
}

/// The spins of a tuple of nodes, each -1 or +1 where its value is 0 or 1.
pub open spec fn tuple_spins(tuple: Seq<Node>, values: Seq<u32>) -> Seq<int> {
    Seq::new(tuple.len(), |i: int| 2 * values[tuple[i].0 as int] - 1)
}

proof fn lemma_tuple_product(tuple: Seq<Node>, values: Seq<u32>)
    ensures
        spin_product(ids_of(tuple), values) == product_of(tuple_spins(tuple, values)),
    decreases tuple.len(),
{
    if tuple.len() > 0 {
        lemma_tuple_product(tuple.drop_last(), values);
        assert(ids_of(tuple).drop_last() =~= ids_of(tuple.drop_last()));
        assert(tuple_spins(tuple, values).drop_last() =~= tuple_spins(tuple.drop_last(), values));
    }
}

/// The sum that a moment is the average of: over the frames, the product of
/// the spins of the tuple.
pub proof fn moments_sum_the_spin_products(
    frames: Seq<Seq<u32>>,
    tuple: Seq<Node>,
    count: nat,
)
    ensures
        product_sum(frames, tuple, count) == sum_of(
            Seq::new(count, |f: int| product_of(tuple_spins(tuple, frames[f]))),
        ),
    decreases count,
{
    if count > 0 {
        moments_sum_the_spin_products(frames, tuple, (count - 1) as nat);
        lemma_tuple_product(tuple, frames[count - 1]);
        assert(Seq::new(count, |f: int| product_of(tuple_spins(tuple, frames[f]))).drop_last()
            =~= Seq::new(
            (count - 1) as nat,
            |f: int| product_of(tuple_spins(tuple, frames[f])),
        ));
    }
}

/// Moment `i` of an Ising model is that of spin `i`.
pub proof fn node_moments_average_their_spin<W: Copy>(
    model: &IsingModel<W>,
    frames: Seq<Seq<u32>>,
    i: int,
    count: nat,
)
    requires
        0 <= i < model.nodes@.len(),
    ensures
        product_sum(frames, model.tuples()[i], count) == sum_of(
            Seq::new(count, |f: int| 2 * frames[f][model.nodes@[i].0 as int] - 1),
        ),
{
    let node = model.nodes@[i];
    let tuple = model.tuples()[i];
    moments_sum_the_spin_products(frames, tuple, count);
    assert forall|f: int| 0 <= f < count implies #[trigger] product_of(
        tuple_spins(tuple, frames[f]),
    ) == 2 * frames[f][node.0 as int] - 1 by {
        let spins = tuple_spins(tuple, frames[f]);
        assert(tuple == seq![node]);
        reveal_with_fuel(product_of, 2);
        assert(spins.drop_last() =~= Seq::empty());
    }
    assert(Seq::new(count, |f: int| product_of(tuple_spins(tuple, frames[f]))) =~= Seq::new(
        count,
        |f: int| 2 * frames[f][node.0 as int] - 1,
    ));
}

/// The moment of edge `e` of an Ising model, which follows those of all the
/// nodes, is that of the product of the spins at its two ends.
pub proof fn edge_moments_average_both_ends<W: Copy>(
    model: &IsingModel<W>,
    frames: Seq<Seq<u32>>,
    e: int,
    count: nat,
)
    requires
        0 <= e < model.edges@.len(),
    ensures
        product_sum(frames, model.tuples()[model.nodes@.len() + e], count) == sum_of(
            Seq::new(
                count,
                |f: int|
                    (2 * frames[f][model.edges@[e].0.0 as int] - 1) * (2
                        * frames[f][model.edges@[e].1.0 as int] - 1),
            ),
        ),
{
    let a = model.edges@[e].0;
    let b = model.edges@[e].1;
    let tuple = model.tuples()[model.nodes@.len() + e];
    moments_sum_the_spin_products(frames, tuple, count);
    assert forall|f: int| 0 <= f < count implies #[trigger] product_of(
        tuple_spins(tuple, frames[f]),
    ) == (2 * frames[f][a.0 as int] - 1) * (2 * frames[f][b.0 as int] - 1) by {
        let spins = tuple_spins(tuple, frames[f]);
        assert(tuple == seq![a, b]);
        reveal_with_fuel(product_of, 3);
        assert(spins.drop_last().drop_last() =~= Seq::empty());
        assert(spins.drop_last().last() == 2 * frames[f][a.0 as int] - 1);
        assert(spins.last() == 2 * frames[f][b.0 as int] - 1);
    }
    assert(Seq::new(count, |f: int| product_of(tuple_spins(tuple, frames[f]))) =~= Seq::new(
        count,
        |f: int|
            (2 * frames[f][a.0 as int] - 1) * (2 * frames[f][b.0 as int] - 1),
    ));
}

/// The sum that a mean spin is the average of: over all samples and, within a
/// sample, over all chains, twice the value less one.
pub proof fn mean_spins_average_the_samples(
    samples: &Samples,
    block: int,
    position: u32,
    count: int,
)
    requires
        0 <= count <= samples.n_samples * samples.n_chains,
        samples.n_samples * samples.n_chains <= u32::MAX,
        forall|sample: u32, chain: u32|
            sample < samples.n_samples && chain < samples.n_chains ==> #[trigger] samples.at(
                block,
                sample,
                chain,
                position,
            ) < 0x8000_0000,
    ensures
        samples.spin_sum(block, position, count) == sum_of(
            Seq::new(
                count as nat,
                |f: int|
                    2 * samples.at(
                        block,
                        (f / samples.n_chains as int) as u32,
                        (f % samples.n_chains as int) as u32,
                        position,
                    ) - 1,
            ),
        ),
    decreases count,
{
    if count > 0 {
        let n = samples.n_chains as int;
        let f = count - 1;
        mean_spins_average_the_samples(samples, block, position, f);
        assert(n > 0 && 0 <= f / n < samples.n_samples && 0 <= f % n < n && (f / n) * n + f % n
            == f) by (nonlinear_arith)
            requires
                0 <= f < samples.n_samples * n,
                n >= 0,
        ;
        let sample = (f / n) as u32;
        let chain = (f % n) as u32;
        assert(samples.frame(sample, chain) == f);
        assert(samples.at(block, sample, chain, position) < 0x8000_0000);
        assert(Seq::new(
            count as nat,
            |f: int|
                2 * samples.at(
                    block,
                    (f / samples.n_chains as int) as u32,
                    (f % samples.n_chains as int) as u32,
                    position,
                ) - 1,
        ).drop_last() =~= Seq::new(
            f as nat,
            |f: int|
                2 * samples.at(
                    block,
                    (f / samples.n_chains as int) as u32,
                    (f % samples.n_chains as int) as u32,
                    position,
                ) - 1,
        ));
    }
}

/// The spin of a value: up where it is not zero.
pub open spec fn up_or_down(value: u32) -> int {
    if value != 0 {
        1
    } else {
        -1
    }
}

/// The biases times their spins.
pub open spec fn bias_terms<W>(
    model: &IsingModel<W>,
    values: Seq<u32>,
    w: spec_fn(W) -> int,
) -> Seq<int> {
    Seq::new(
        model.nodes@.len(),
        |i: int| w(model.biases@[i]) * up_or_down(values[model.nodes@[i].0 as int]),
    )
}

/// The couplings times the spins at both ends.
pub open spec fn coupling_terms<W>(
    model: &IsingModel<W>,
    values: Seq<u32>,
    w: spec_fn(W) -> int,
) -> Seq<int> {
    Seq::new(
        model.edges@.len(),
        |e: int|
            w(model.weights@[e]) * up_or_down(values[model.edges@[e].0.0 as int]) * up_or_down(
                values[model.edges@[e].1.0 as int],
            ),
    )
}

proof fn lemma_bias_terms<W>(
    model: &IsingModel<W>,
    values: Seq<u32>,
    w: spec_fn(W) -> int,
    count: nat,
)
    requires
        count <= model.nodes@.len(),
    ensures
        bias_sum(model.nodes@, model.biases@, values, w, count) == sum_of(
            bias_terms(model, values, w).take(count as int),
        ),
    decreases count,
{
    if count > 0 {
        lemma_bias_terms(model, values, w, (count - 1) as nat);
        let all = bias_terms(model, values, w);
        assert(all.take(count as int).drop_last() =~= all.take(count - 1));
    }
}

proof fn lemma_coupling_terms<W>(
    model: &IsingModel<W>,
    values: Seq<u32>,
    w: spec_fn(W) -> int,
    count: nat,
)
    requires
        count <= model.edges@.len(),
    ensures
        coupling_sum(model.edges@, model.weights@, values, w, count) == sum_of(
            coupling_terms(model, values, w).take(count as int),
        ),
    decreases count,
{
    if count > 0 {
        lemma_coupling_terms(model, values, w, (count - 1) as nat);
        let all = coupling_terms(model, values, w);
        assert(all.take(count as int).drop_last() =~= all.take(count - 1));
    }
}

/// The factors of an Ising model have its energy,
/// `-beta * (sum_i b_i s_i + sum_(i,j) J_ij s_i s_j)`, as long as `scale`
/// multiplies.
pub proof fn ising_factors_have_the_energy_of_the_model<W, S: Fn(W, W) -> W>(
    kinds: Seq<NodeKind>,
    model: &IsingModel<W>,
    scale: S,
    factors: Seq<DiscreteFactor<W>>,
    values: Seq<u32>,
    w: spec_fn(W) -> int,
)
    requires
        model.wf(),
        model.scaled(scale, factors),
        forall|a: W, b: W, x: W| #[trigger]
            call_ensures(scale, (a, b), x) ==> w(x) == w(a) * w(b),
    ensures
        model_energy(kinds, factors, values, w, factors.len()) == -w(model.beta) * (sum_of(
            bias_terms(model, values, w),
        ) + sum_of(coupling_terms(model, values, w))),
{
    assert forall|k: int, i: int|
        #![trigger factors[k].weights@[i]]
        0 <= k < factors.len() && 0 <= i < factors[k].weights@.len() implies w(
        factors[k].weights@[i],
    ) == w(model.beta) * w(model.sources()[k][i]) by {
        assert(call_ensures(
            scale,
            (model.beta, model.sources()[k][i]),
            factors[k].weights@[i],
        ));
    }
    ising_energy_formula(kinds, model, factors, values, w);
    lemma_bias_terms(model, values, w, model.nodes@.len());
    lemma_coupling_terms(model, values, w, model.edges@.len());
    assert(bias_terms(model, values, w).take(model.nodes@.len() as int) =~= bias_terms(
        model,
        values,
        w,
    ));
    assert(coupling_terms(model, values, w).take(model.edges@.len() as int) =~= coupling_terms(
        model,
        values,
        w,
    ));
}

/// Whether a group has a node for instance `i`, and the node a value.
pub open spec fn reads_a_value(nodes: Seq<Node>, values: Seq<u32>, i: int) -> bool {
    i < nodes.len() && (nodes[i].0 as int) < values.len()
}

/// A factor has an energy exactly if its categorical groups have nodes, the
/// first of each categorical and of the graph, with sizes that can be
/// multiplied, every node of an instance has a value, and every instance a
/// weight at its place.
pub proof fn energies_are_defined_by_their_reads<W>(
    kinds: Seq<NodeKind>,
    shape: Shape,
    weights: Seq<W>,
    values: Seq<u32>,
)
    ensures
        energy_defined(kinds, shape, weights, values) <==> {
            let instances = instance_energies(kinds, shape, weights, values, |x: W| 0int).len();
            let groups = shape.spins + shape.cats;
            &&& forall|n: int|
                #![trigger shape.cats[n]]
                0 <= n < shape.cats.len() ==> {
                    &&& shape.cats[n].len() > 0
                    &&& (shape.cats[n][0].0 as int) < kinds.len()
                    &&& kinds[shape.cats[n][0].0 as int] != NodeKind::Spin
                    &&& product_of(axis_sizes(kinds, shape.cats).skip(n)) <= usize::MAX
                }
            &&& forall|g: int, i: int|
                0 <= g < groups.len() && 0 <= i < instances ==> #[trigger] reads_a_value(
                    groups[g],
                    values,
                    i,
                )
            &&& forall|i: int|
                #![trigger axis_values(shape.cats, values, i)]
                0 <= i < instances ==> row_major(
                    i,
                    axis_sizes(kinds, shape.cats),
                    axis_values(shape.cats, values, i),
                ) < weights.len()
        },
{
    let instances = instance_energies(kinds, shape, weights, values, |x: W| 0int).len();
    let groups = shape.spins + shape.cats;
    let n_values = values.len() as int;
    assert(instances == shape.batch());
    let axes = forall|n: int|
        #![trigger shape.cats[n]]
        0 <= n < shape.cats.len() ==> {
            &&& shape.cats[n].len() > 0
            &&& (shape.cats[n][0].0 as int) < kinds.len()
            &&& kinds[shape.cats[n][0].0 as int] != NodeKind::Spin
            &&& product_of(axis_sizes(kinds, shape.cats).skip(n)) <= usize::MAX
        };
    let reads = forall|g: int, i: int|
        0 <= g < groups.len() && 0 <= i < instances ==> #[trigger] reads_a_value(
            groups[g],
            values,
            i,
        );
    let places = forall|i: int|
        #![trigger axis_values(shape.cats, values, i)]
        0 <= i < instances ==> row_major(
            i,
            axis_sizes(kinds, shape.cats),
            axis_values(shape.cats, values, i),
        ) < weights.len();
    assert forall|n: int| 0 <= n < shape.cats.len() implies #[trigger] axis_product(
        kinds,
        shape.cats,
        n,
    ) == product_of(axis_sizes(kinds, shape.cats).skip(n)) by {
        lemma_axis_sizes(kinds, shape.cats, n);
    }
    assert forall|i: int| 0 <= i < instances implies #[trigger] instance_index(
        kinds,
        shape,
        i,
        values,
    ) == row_major(
        i,
        axis_sizes(kinds, shape.cats),
        axis_values(shape.cats, values, i),
    ) by {
        lemma_instance_formula(kinds, shape, values, i);
    }
    if energy_defined(kinds, shape, weights, values) {
        assert forall|n: int| #![trigger shape.cats[n]] 0 <= n < shape.cats.len() implies {
            &&& shape.cats[n].len() > 0
            &&& (shape.cats[n][0].0 as int) < kinds.len()
            &&& kinds[shape.cats[n][0].0 as int] != NodeKind::Spin
            &&& product_of(axis_sizes(kinds, shape.cats).skip(n)) <= usize::MAX
        } by {
            assert(axis_defined(kinds, shape.cats, n));
        }
        assert(axes);
        assert forall|g: int, i: int|
            0 <= g < groups.len() && 0 <= i < instances implies #[trigger] reads_a_value(
            groups[g],
            values,
            i,
        ) by {
            if g < shape.spins.len() {
                assert(has_value(shape.spins[g], i, n_values));
            } else {
                assert(has_value(shape.cats[g - shape.spins.len()], i, n_values));
            }
        }
        assert(reads);
        assert forall|i: int|
            #![trigger axis_values(shape.cats, values, i)]
            0 <= i < instances implies row_major(
            i,
            axis_sizes(kinds, shape.cats),
            axis_values(shape.cats, values, i),
        ) < weights.len() by {
            assert(instance_index(kinds, shape, i, values) < weights.len());
        }
        assert(places);
    }
    if axes && reads && places {
        assert forall|n: int| 0 <= n < shape.cats.len() implies #[trigger] axis_defined(
            kinds,
            shape.cats,
            n,
        ) by {
            assert(shape.cats[n].len() > 0);
            assert(axis_product(kinds, shape.cats, n) <= usize::MAX);
        }
        assert forall|g: int, i: int|
            0 <= g < shape.spins.len() && 0 <= i < shape.batch() implies #[trigger] has_value(
            shape.spins[g],
            i,
            n_values,
        ) by {
            assert(reads_a_value(groups[g], values, i));
        }
        assert forall|g: int, i: int|
            0 <= g < shape.cats.len() && 0 <= i < shape.batch() implies #[trigger] has_value(
            shape.cats[g],
            i,
            n_values,
        ) by {
            assert(reads_a_value(groups[shape.spins.len() + g], values, i));
        }
        assert forall|i: int| 0 <= i < shape.batch() implies #[trigger] instance_index(
            kinds,
            shape,
            i,
            values,
        ) < weights.len() by {
            assert(axis_values(shape.cats, values, i).len() == shape.cats.len());
        }
        assert(energy_defined(kinds, shape, weights, values));
    }
}

/// The words of a block in every frame of the samples: one bit per spin, one
/// word per categorical node.
pub open spec fn frame_sizes(kinds: Seq<NodeKind>, observed: Seq<Seq<Node>>) -> Seq<int> {
    Seq::new(
        observed.len(),
        |b: int|
            if kinds[observed[b][0].0 as int] == NodeKind::Spin {
                ((observed[b].len() + 31) / 32) as int
            } else {
                observed[b].len() as int
            },
    )
}

proof fn lemma_region_sum(
    kinds: Seq<NodeKind>,
    observed: Seq<Seq<Node>>,
    n_frames: nat,
    count: nat,
)
    requires
        count <= observed.len(),
    ensures
        region_start(kinds, observed, n_frames, count) == sum_of(
            frame_sizes(kinds, observed).take(count as int),
        ) * n_frames,
    decreases count,
{
    let sizes = frame_sizes(kinds, observed);
    if count > 0 {
        lemma_region_sum(kinds, observed, n_frames, (count - 1) as nat);
        assert(sizes.take(count as int).drop_last() =~= sizes.take(count - 1));
        let before = sum_of(sizes.take(count - 1));
        let size = sizes[count - 1];
        assert((before + size) * n_frames == before * n_frames + size * n_frames)
            by (nonlinear_arith);
    } else {
        assert(sizes.take(0) =~= Seq::empty());
        assert(0 * n_frames == 0);
    }
}

/// Blocks can be observed exactly if they have nodes of the program, and the
/// samples of all of them fit in the words that a single word can count.
pub proof fn observations_fit_by_their_words(
    kinds: Seq<NodeKind>,
    observed: Seq<Seq<Node>>,
    n_samples: u32,
    n_chains: u32,
)
    ensures
        observable(kinds, observed, n_samples, n_chains) <==> {
            &&& n_samples * n_chains <= 0xFFFF_FFFF
            &&& forall|b: int|
                #![trigger observed[b]]
                0 <= b < observed.len() ==> 0 < observed[b].len() <= 0xFFFF_FFFF && (
                observed[b][0].0 as int) < kinds.len()
            &&& sum_of(frame_sizes(kinds, observed)) * (n_samples * n_chains) <= 0xFFFF_FFFF
        },
{
    assert(0 <= n_samples * n_chains) by (nonlinear_arith);
    lemma_region_sum(kinds, observed, (n_samples * n_chains) as nat, observed.len());
    assert(frame_sizes(kinds, observed).take(observed.len() as int) =~= frame_sizes(
        kinds,
        observed,
    ));
}

/// A run can be counted exactly if its updates are fewer than the counters
/// that are not reserved.
pub proof fn runs_are_counted_by_their_updates<W>(program: Program<W>, schedule: Schedule)
    ensures
        countable(program, schedule) <==> (if schedule.n_samples == 0 {
            schedule.n_warmup as int
        } else {
            schedule.n_warmup + (schedule.n_samples - 1) * schedule.steps_per_sample
        }) * program.blocks@.len() <= 0xFFFF_FFFE,
{
}

/// Moments are defined for tuples of spins of the program, and for no others.
pub proof fn moments_are_of_spins(kinds: Seq<NodeKind>, tuple: Seq<Node>)
    ensures
        all_spins(kinds, tuple) <==> forall|node: Node| #[trigger]
            tuple.contains(node) ==> (node.0 as int) < kinds.len() && kinds[node.0 as int]
                == NodeKind::Spin,
{
    if forall|node: Node| #[trigger]
        tuple.contains(node) ==> (node.0 as int) < kinds.len() && kinds[node.0 as int]
            == NodeKind::Spin {
        assert forall|i: int| #![trigger tuple[i]] 0 <= i < tuple.len() implies (tuple[i].0 as int)
            < kinds.len() && kinds[tuple[i].0 as int] == NodeKind::Spin by {
            assert(tuple.contains(tuple[i]));
        }
    }
}

proof fn lemma_product_first(first: int, rest: Seq<int>)
    ensures
        product_of(seq![first] + rest) == first * product_of(rest),
    decreases rest.len(),
{
    let all = seq![first] + rest;
    if rest.len() == 0 {
        assert(all.drop_last() =~= Seq::empty());
        reveal_with_fuel(product_of, 2);
    } else {
        lemma_product_first(first, rest.drop_last());
        assert(all.drop_last() =~= seq![first] + rest.drop_last());
        let before = product_of(rest.drop_last());
        assert((first * before) * rest.last() == first * (before * rest.last()))
            by (nonlinear_arith);
    }
}

/// The combinations of the categories of an axis and those after it.
pub proof fn lemma_axis_sizes(kinds: Seq<NodeKind>, cats: Seq<Seq<Node>>, from: int)
    requires
        0 <= from <= cats.len(),
    ensures
        axis_product(kinds, cats, from) == product_of(axis_sizes(kinds, cats).skip(from)),
    decreases cats.len() - from,
{
    let sizes = axis_sizes(kinds, cats);
    if from < cats.len() {
        lemma_axis_sizes(kinds, cats, from + 1);
        assert(sizes.skip(from) =~= seq![sizes[from]] + sizes.skip(from + 1));
        lemma_product_first(sizes[from], sizes.skip(from + 1));
    }
}

/// The chains of a state are the runs of its values, one value per node.
pub proof fn chains_are_runs_of_values(state: State, c: int)
    requires
        state.wf(),
        0 <= c < state.n_chains,
    ensures
        chains(state).len() == state.n_chains,
        chains(state)[c] == state.values@.subrange(
            c * state.n_nodes,
            c * state.n_nodes + state.n_nodes,
        ),
{
    assert(0 <= c * state.n_nodes && c * state.n_nodes + state.n_nodes <= state.n_chains
        * state.n_nodes) by (nonlinear_arith)
        requires
            0 <= c < state.n_chains,
            state.n_nodes >= 0,
    ;
    assert(chains(state)[c] =~= state.values@.subrange(
        c * state.n_nodes,
        c * state.n_nodes + state.n_nodes,
    ));
}

} // verus!
