//! Gibbs updates: how draws and fields turn into the next values of a chain.

use vstd::prelude::*;

use crate::checks::{
    block_nodes, concat, in_lists, lemma_concat_contains, lemma_no_repeat, lemma_push_contains,
    partition_error, proper,
};
use crate::cpu::countable;
use crate::energy::{field, term_sum};
use crate::factor::{DiscreteFactor, Term};
use crate::graph::{Node, NodeKind};
use crate::program::{block_compiled, ids_of, within, BlockKind, BlockProgram, Program};
use crate::record::{
    decode, framed, lemma_offset_nonnegative, parse_records, readable, record_views, spin_of,
    spin_product, tail_offset, RecordView,
};
use crate::rng::{
    below, spin_from_draw, uniform, uniform_draw, STEP_HINTON_INIT, STEP_RANDOM_INIT, UNIFORM_RANGE,
};
use crate::schedule::Schedule;
use crate::soundness::{block_sound, compiled_programs_are_sound, record_sound, valid_values};
use crate::state::{lemma_draw_range, lemma_slot, State};
use crate::streams::{compile_fits, model_error, node_records};

verus! {

/// The draws of an update turned into values, as mathematical functions.
///
/// A spin is up when its draw is below the threshold that its signed weights
/// give; a categorical node takes the category that is picked from the
/// signed weights of each of its states.
#[verifier::reject_recursive_types(W)]
pub struct Rule<W> {
    pub threshold: spec_fn(Seq<Term<W>>) -> u32,
    pub pick: spec_fn(Seq<Seq<Term<W>>>, u32) -> u32,
}

/// What a list of term lists holds.
pub open spec fn term_lists<W>(lists: Seq<Vec<Term<W>>>) -> Seq<Seq<Term<W>>> {
    Seq::new(lists.len(), |k: int| lists[k]@)
}

/// Whether the functions compute the rule.
pub open spec fn obeys<W, P: Fn(&[Term<W>]) -> u32, C: Fn(&[Vec<Term<W>>], u32) -> u32>(
    p_up: P,
    pick: C,
    rule: Rule<W>,
) -> bool {
    &&& forall|terms: &[Term<W>], r: u32| #[trigger]
        call_ensures(p_up, (terms,), r) ==> r == (rule.threshold)(terms@)
    &&& forall|fields: &[Vec<Term<W>>], draw: u32, r: u32| #[trigger]
        call_ensures(pick, (fields, draw), r) ==> r == (rule.pick)(term_lists(fields@), draw)
}

/// Whether the functions can be called on all signed weights and draws, and
/// only existing categories are picked.
pub open spec fn usable<W, P: Fn(&[Term<W>]) -> u32, C: Fn(&[Vec<Term<W>>], u32) -> u32>(
    p_up: P,
    pick: C,
) -> bool {
    &&& forall|terms: &[Term<W>]| #[trigger] call_requires(p_up, (terms,))
    &&& forall|fields: &[Vec<Term<W>>], draw: u32|
        fields@.len() > 0 && draw < UNIFORM_RANGE ==> #[trigger] call_requires(
            pick,
            (fields, draw),
        )
    &&& forall|fields: &[Vec<Term<W>>], draw: u32, r: u32| #[trigger]
        call_ensures(pick, (fields, draw), r) && fields@.len() > 0 && draw < UNIFORM_RANGE ==> r
            < fields@.len()
}

/// The signed weights that add up to the field of a node for state `k`.
pub open spec fn field_terms<W>(
    records: Seq<RecordView>,
    weights: Seq<W>,
    values: Seq<u32>,
    k: int,
) -> Seq<Term<W>> {
    Seq::new(
        records.len(),
        |j: int|
            Term {
                sign: records[j].product(values) as i32,
                weight: weights[records[j].index(values) + k * records[j].head_stride],
            },
    )
}

/// The signed weights of a node, for each of its states.
pub open spec fn all_field_terms<W>(
    records: Seq<RecordView>,
    weights: Seq<W>,
    values: Seq<u32>,
    states: nat,
) -> Seq<Seq<Term<W>>> {
    Seq::new(states, |k: int| field_terms(records, weights, values, k))
}

/// Whether the fields of the records can be evaluated for a number of states.
pub open spec fn evaluable(
    records: Seq<RecordView>,
    weight_count: nat,
    values: Seq<u32>,
    states: nat,
) -> bool {
    forall|j: int|
        #![trigger records[j]]
        0 <= j < records.len() ==> {
            &&& readable(records[j], values)
            &&& records[j].index(values) + (states - 1) * records[j].head_stride < weight_count
        }
}

/// The signed weights of the field of a spin.
pub fn accumulate_gamma<W: Copy>(records: &[u32], values: &[u32], weights: &[W]) -> (r: Vec<
    Term<W>,
>)
    requires
        framed(records@),
        evaluable(decode(records@), weights@.len(), values@, 1),
        weights@.len() <= u32::MAX,
    ensures
        r@ == field_terms(decode(records@), weights@, values@, 0),
{
    let parsed = parse_records(records);
    let ghost views = decode(records@);
    let mut gamma: Vec<Term<W>> = Vec::new();
    for j in 0..parsed.len()
        invariant
            views == record_views(parsed@),
            evaluable(views, weights@.len(), values@, 1),
            weights@.len() <= u32::MAX,
            forall|i: int|
                0 <= i < parsed@.len() ==> (#[trigger] parsed@[i]).cat_tails@.len() % 2 == 0,
            gamma@ == field_terms(views.take(j as int), weights@, values@, 0),
    {
        let record = &parsed[j];
        assert(views[j as int] == record@);
        let (sign, index) = record.evaluate(values);
        proof {
            lemma_offset_nonnegative(record@.cat_tails, values@);
        }
        gamma.push(Term { sign, weight: weights[index as usize] });
        assert(gamma@ =~= field_terms(views.take(j + 1), weights@, values@, 0));
    }
    assert(views.take(views.len() as int) =~= views);
    gamma
}

/// The signed weights of the fields of a categorical node, by state.
pub fn accumulate_theta<W: Copy>(
    records: &[u32],
    values: &[u32],
    weights: &[W],
    states: u32,
) -> (r: Vec<Vec<Term<W>>>)
    requires
        framed(records@),
        states > 0,
        evaluable(decode(records@), weights@.len(), values@, states as nat),
        weights@.len() <= u32::MAX,
    ensures
        term_lists(r@) == all_field_terms(decode(records@), weights@, values@, states as nat),
{
    let parsed = parse_records(records);
    let ghost views = decode(records@);
    let mut theta: Vec<Vec<Term<W>>> = Vec::new();
    for k in 0..states
        invariant
            theta@.len() == k,
            forall|i: int| 0 <= i < k ==> (#[trigger] theta@[i])@.len() == 0,
    {
        theta.push(Vec::new());
    }
    assert forall|i: int| 0 <= i < states implies (#[trigger] theta@[i])@ == field_terms(
        views.take(0),
        weights@,
        values@,
        i,
    ) by {
        assert(theta@[i]@ =~= field_terms(views.take(0), weights@, values@, i));
    }
    for j in 0..parsed.len()
        invariant
            states > 0,
            views == record_views(parsed@),
            evaluable(views, weights@.len(), values@, states as nat),
            weights@.len() <= u32::MAX,
            forall|i: int|
                0 <= i < parsed@.len() ==> (#[trigger] parsed@[i]).cat_tails@.len() % 2 == 0,
            theta@.len() == states,
            forall|i: int|
                0 <= i < states ==> (#[trigger] theta@[i])@ == field_terms(
                    views.take(j as int),
                    weights@,
                    values@,
                    i,
                ),
    {
        let record = &parsed[j];
        assert(views[j as int] == record@);
        proof {
            lemma_offset_nonnegative(record@.cat_tails, values@);
            assert((states - 1) * record.head_stride >= 0) by (nonlinear_arith)
                requires
                    states > 0,
                    record.head_stride >= 0,
            ;
        }
        let (sign, index) = record.evaluate(values);
        for k in 0..states
            invariant
                states > 0,
                j < parsed@.len(),
                views == record_views(parsed@),
                views[j as int] == record@,
                index == record@.index(values@),
                sign == record@.product(values@),
                index + (states - 1) * record.head_stride < weights@.len(),
                weights@.len() <= u32::MAX,
                theta@.len() == states,
                forall|i: int|
                    0 <= i < states ==> (#[trigger] theta@[i])@ == field_terms(
                        views.take(if i < k {
                            j + 1
                        } else {
                            j as int
                        }),
                        weights@,
                        values@,
                        i,
                    ),
        {
            assert(0 <= k * record.head_stride <= (states - 1) * record.head_stride)
                by (nonlinear_arith)
                requires
                    0 <= k < states,
                    record.head_stride >= 0,
            ;
            let term = Term { sign, weight: weights[(index + k * record.head_stride) as usize] };
            theta[k as usize].push(term);
            assert(theta@[k as int]@ =~= field_terms(views.take(j + 1), weights@, values@, k as int));
        }
    }
    assert(views.take(views.len() as int) =~= views);
    assert(term_lists(theta@) =~= all_field_terms(views, weights@, values@, states as nat));
    theta
}

/// Fields depend on a chain only through the nodes that their records read.
proof fn lemma_terms_agree<W>(
    records: Seq<RecordView>,
    weights: Seq<W>,
    a: Seq<u32>,
    b: Seq<u32>,
    k: int,
)
    requires
        forall|j: int, i: int|
            #![trigger records[j].spin_tails[i]]
            0 <= j < records.len() && 0 <= i < records[j].spin_tails.len()
                ==> a[records[j].spin_tails[i] as int] == b[records[j].spin_tails[i] as int],
        forall|j: int, i: int|
            #![trigger records[j].cat_tails[i]]
            0 <= j < records.len() && 0 <= i < records[j].cat_tails.len()
                ==> a[records[j].cat_tails[i].0 as int] == b[records[j].cat_tails[i].0 as int],
    ensures
        field_terms(records, weights, a, k) == field_terms(records, weights, b, k),
{
    assert forall|j: int| 0 <= j < records.len() implies field_terms(records, weights, a, k)[j]
        == field_terms(records, weights, b, k)[j] by {
        lemma_product_agrees(records[j].spin_tails, a, b);
        lemma_offset_agrees(records[j].cat_tails, a, b);
    }
    assert(field_terms(records, weights, a, k) =~= field_terms(records, weights, b, k));
}

proof fn lemma_product_agrees(ids: Seq<u32>, a: Seq<u32>, b: Seq<u32>)
    requires
        forall|i: int|
            #![trigger ids[i]]
            0 <= i < ids.len() ==> a[ids[i] as int] == b[ids[i] as int],
    ensures
        spin_product(ids, a) == spin_product(ids, b),
    decreases ids.len(),
{
    if ids.len() > 0 {
        lemma_product_agrees(ids.drop_last(), a, b);
    }
}

proof fn lemma_offset_agrees(tails: Seq<(u32, u32)>, a: Seq<u32>, b: Seq<u32>)
    requires
        forall|i: int|
            #![trigger tails[i]]
            0 <= i < tails.len() ==> a[tails[i].0 as int] == b[tails[i].0 as int],
    ensures
        tail_offset(tails, a) == tail_offset(tails, b),
    decreases tails.len(),
{
    if tails.len() > 0 {
        lemma_offset_agrees(tails.drop_last(), a, b);
        assert(tails.last() == tails[tails.len() - 1]);
    }
}

/// The value that the node at position `p` of a block is updated to.
pub open spec fn node_value<W>(
    weights: Seq<W>,
    block: BlockProgram,
    rule: Rule<W>,
    seed: u32,
    counter: u32,
    chain: u32,
    values: Seq<u32>,
    p: int,
) -> u32 {
    let records = block.node_view(p);
    let draw = uniform_draw(seed, counter, chain, block.node_ids@[p]);
    match block.kind {
        BlockKind::Spin => spin_from_draw(
            draw,
            (rule.threshold)(field_terms(records, weights, values, 0)),
        ),
        BlockKind::Categorical { states } => (rule.pick)(
            all_field_terms(records, weights, values, states as nat),
            draw,
        ),
    }
}

/// A chain after updating all nodes of a block at once.
pub open spec fn updated<W>(
    weights: Seq<W>,
    block: BlockProgram,
    rule: Rule<W>,
    seed: u32,
    counter: u32,
    chain: u32,
    values: Seq<u32>,
) -> Seq<u32> {
    Seq::new(
        values.len(),
        |v: int|
            if block.node_ids@.contains(v as u32) {
                node_value(
                    weights,
                    block,
                    rule,
                    seed,
                    counter,
                    chain,
                    values,
                    block.node_ids@.index_of(v as u32),
                )
            } else {
                values[v]
            },
    )
}

/// Records of a sound block can be evaluated on valid values.
proof fn lemma_evaluable(
    kinds: Seq<NodeKind>,
    weight_count: nat,
    block: BlockProgram,
    p: int,
    values: Seq<u32>,
)
    requires
        block_sound(kinds, weight_count, block),
        0 <= p < block.node_ids@.len(),
        valid_values(kinds, values),
    ensures
        evaluable(block.node_view(p), weight_count, values, block.kind.count() as nat),
        block.kind == BlockKind::Spin ==> evaluable(
            block.node_view(p),
            weight_count,
            values,
            1,
        ),
{
    let records = block.node_view(p);
    assert forall|j: int| 0 <= j < records.len() implies {
        &&& readable(#[trigger] records[j], values)
        &&& records[j].index(values) + (block.kind.count() - 1) * records[j].head_stride
            < weight_count
    } by {
        let record = block.node_view(p)[j];
        assert(record_sound(kinds, weight_count, block.kind.count(), block.node_ids@, record));
        assert forall|i: int| 0 <= i < record.spin_tails.len() implies (
        #[trigger] record.spin_tails[i] as int) < values.len()
            && values[record.spin_tails[i] as int] <= 1 by {
            let v = record.spin_tails[i] as int;
            assert(kinds[v] == NodeKind::Spin);
            assert(proper(kinds[v]));
            assert(values[v] < kinds[v].count());
        }
    }
    if block.kind == BlockKind::Spin {
        assert forall|j: int| 0 <= j < records.len() implies {
            &&& readable(#[trigger] records[j], values)
            &&& records[j].index(values) + (1 - 1) * records[j].head_stride < weight_count
        } by {
            assert((2 - 1) * records[j].head_stride >= 0);
        }
    }
}

/// The outcome of a node is the same whether or not other nodes of its block
/// have been updated: no record of the block reads them.
proof fn lemma_same_value<W>(
    kinds: Seq<NodeKind>,
    weights: Seq<W>,
    block: BlockProgram,
    seed: u32,
    counter: u32,
    chain: u32,
    before: Seq<u32>,
    now: Seq<u32>,
    p: int,
)
    requires
        block_sound(kinds, weights.len(), block),
        0 <= p < block.node_ids@.len(),
        kinds.len() <= u32::MAX,
        forall|v: int|
            0 <= v < kinds.len() && !block.node_ids@.contains(v as u32) ==> #[trigger] now[v]
                == before[v],
    ensures
        forall|rule: Rule<W>|
            #![trigger node_value(weights, block, rule, seed, counter, chain, now, p)]
            #![trigger node_value(weights, block, rule, seed, counter, chain, before, p)]
            node_value(weights, block, rule, seed, counter, chain, now, p) == node_value(
                weights,
                block,
                rule,
                seed,
                counter,
                chain,
                before,
                p,
            ),
{
    let records = block.node_view(p);
    let states = block.kind.count() as nat;
    assert forall|j: int, i: int|
        #![trigger records[j].spin_tails[i]]
        0 <= j < records.len() && 0 <= i < records[j].spin_tails.len() implies now[records[j].spin_tails[i] as int]
        == before[records[j].spin_tails[i] as int] by {
        let record = block.node_view(p)[j];
        assert(record_sound(kinds, weights.len(), block.kind.count(), block.node_ids@, record));
        let id = record.spin_tails[i];
        assert(!block.node_ids@.contains(id));
        assert(id as int as u32 == id);
    }
    assert forall|j: int, i: int|
        #![trigger records[j].cat_tails[i]]
        0 <= j < records.len() && 0 <= i < records[j].cat_tails.len() implies now[records[j].cat_tails[i].0 as int]
        == before[records[j].cat_tails[i].0 as int] by {
        let record = block.node_view(p)[j];
        assert(record_sound(kinds, weights.len(), block.kind.count(), block.node_ids@, record));
        let id = record.cat_tails[i].0;
        assert(!block.node_ids@.contains(id));
        assert(id as int as u32 == id);
    }
    assert forall|k: int| #[trigger]
        field_terms(records, weights, now, k) == field_terms(records, weights, before, k) by {
        lemma_terms_agree(records, weights, now, before, k);
    }
    assert(all_field_terms(records, weights, now, states) =~= all_field_terms(
        records,
        weights,
        before,
        states,
    ));
    assert(field_terms(records, weights, now, 0) == field_terms(records, weights, before, 0));
}

/// All nodes of a block are updated at once: the new value of each is drawn
/// from the values that the chain had before the update.
pub proof fn block_updates_are_simultaneous<W>(
    weights: Seq<W>,
    block: BlockProgram,
    rule: Rule<W>,
    seed: u32,
    counter: u32,
    chain: u32,
    values: Seq<u32>,
    p: int,
)
    requires
        block.node_ids@.no_duplicates(),
        0 <= p < block.node_ids@.len(),
        (block.node_ids@[p] as int) < values.len(),
    ensures
        updated(weights, block, rule, seed, counter, chain, values)[block.node_ids@[p] as int]
            == node_value(weights, block, rule, seed, counter, chain, values, p),
{
    let id = block.node_ids@[p];
    assert(block.node_ids@.contains(id));
    assert(block.node_ids@.index_of(id) == p);
}

/// The signed weights of a node add up to its field: half the energy gap of
/// a spin, the conditional energy of a category.
pub proof fn terms_add_up_to_the_field<W>(
    records: Seq<RecordView>,
    weights: Seq<W>,
    values: Seq<u32>,
    w: spec_fn(W) -> int,
    k: int,
)
    requires
        forall|j: int| 0 <= j < records.len() ==> readable(#[trigger] records[j], values),
    ensures
        term_sum(field_terms(records, weights, values, k), w) == field(
            records,
            weights,
            values,
            w,
            k,
        ),
    decreases records.len(),
{
    if records.len() > 0 {
        let fewer = records.drop_last();
        terms_add_up_to_the_field(fewer, weights, values, w, k);
        let terms = field_terms(records, weights, values, k);
        assert(terms.drop_last() =~= field_terms(fewer, weights, values, k));
        assert(readable(records[records.len() - 1], values));
        lemma_product_is_a_sign(records.last().spin_tails, values);
    }
}

proof fn lemma_product_is_a_sign(ids: Seq<u32>, values: Seq<u32>)
    requires
        forall|i: int|
            #![trigger ids[i]]
            0 <= i < ids.len() ==> values[ids[i] as int] <= 1,
    ensures
        spin_product(ids, values) == 1 || spin_product(ids, values) == -1,
    decreases ids.len(),
{
    if ids.len() > 0 {
        lemma_product_is_a_sign(ids.drop_last(), values);
        let product = spin_product(ids.drop_last(), values);
        let spin = spin_of(values[ids.last() as int]);
        assert(ids.last() == ids[ids.len() - 1]);
        assert(product * spin == 1 || product * spin == -1) by (nonlinear_arith)
            requires
                product == 1 || product == -1,
                spin == 1 || spin == -1,
        ;
    }
}

/// The new value of one node of a block, from the values of its chain.
fn sample_node<W: Copy, P: Fn(&[Term<W>]) -> u32, C: Fn(&[Vec<Term<W>>], u32) -> u32>(
    program: &Program<W>,
    block: &BlockProgram,
    position: usize,
    values: &[u32],
    seed: u32,
    counter: u32,
    chain: u32,
    p_up: &P,
    pick: &C,
) -> (r: u32)
    requires
        program.wf(),
        block_sound(program.node_kinds@, program.weights@.len(), *block),
        position < block.node_ids@.len(),
        valid_values(program.node_kinds@, values@),
        usable(*p_up, *pick),
    ensures
        r < block.kind.count(),
        forall|rule: Rule<W>| #[trigger]
            obeys(*p_up, *pick, rule) ==> r == node_value(
                program.weights@,
                *block,
                rule,
                seed,
                counter,
                chain,
                values@,
                position as int,
            ),
{
    let node_id: u32 = block.node_ids[position];
    assert(block.node_ids@[position as int] == node_id);
    assert(position + 1 < block.offsets.len());
    let records = vstd::slice::slice_subrange(
        block.records.as_slice(),
        block.offsets[position] as usize,
        block.offsets[position + 1] as usize,
    );
    assert(records@ =~= block.stream(position as int));
    proof {
        lemma_evaluable(
            program.node_kinds@,
            program.weights@.len(),
            *block,
            position as int,
            values@,
        );
        lemma_draw_range(seed, counter, chain, node_id);
    }
    let draw: u32 = uniform(seed, counter, chain, node_id);
    match block.kind {
        BlockKind::Spin => {
            let gamma = accumulate_gamma(records, values, program.weights.as_slice());
            below(draw, p_up(gamma.as_slice()))
        },
        BlockKind::Categorical { states } => {
            let theta = accumulate_theta(records, values, program.weights.as_slice(), states);
            assert(term_lists(theta@).len() == states);
            pick(theta.as_slice(), draw)
        },
    }
}

/// Setting a node of a chain to one of its states keeps the values valid.
proof fn lemma_valid_update(kinds: Seq<NodeKind>, values: Seq<u32>, node: int, value: u32)
    requires
        valid_values(kinds, values),
        0 <= node < kinds.len(),
        value < kinds[node].count(),
    ensures
        valid_values(kinds, values.update(node, value)),
{
}

/// Update all nodes of a block in one chain.
fn update_block<W: Copy, P: Fn(&[Term<W>]) -> u32, C: Fn(&[Vec<Term<W>>], u32) -> u32>(
    program: &Program<W>,
    block: &BlockProgram,
    state: &mut State,
    seed: u32,
    counter: u32,
    chain: u32,
    p_up: &P,
    pick: &C,
)
    requires
        program.wf(),
        block_sound(program.node_kinds@, program.weights@.len(), *block),
        old(state).valid_for(program.node_kinds@),
        chain < old(state).n_chains,
        usable(*p_up, *pick),
    ensures
        final(state).valid_for(program.node_kinds@),
        final(state).n_chains == old(state).n_chains,
        forall|c: int|
            0 <= c < old(state).n_chains && c != chain ==> #[trigger] final(state).chain(c) == old(
                state,
            ).chain(c),
        forall|v: int|
            0 <= v < program.node_kinds@.len() && !block.node_ids@.contains(v as u32)
                ==> #[trigger] final(state).chain(chain as int)[v] == old(state).chain(
                chain as int,
            )[v],
        forall|rule: Rule<W>| #[trigger]
            obeys(*p_up, *pick, rule) ==> final(state).chain(chain as int) == updated(
                program.weights@,
                *block,
                rule,
                seed,
                counter,
                chain,
                old(state).chain(chain as int),
            ),
{
    let ghost kinds = program.node_kinds@;
    let ghost ids = block.node_ids@;
    let ghost before = state.chain(chain as int);
    for position in 0..block.node_ids.len()
        invariant
            kinds == program.node_kinds@,
            ids == block.node_ids@,
            program.wf(),
            block_sound(kinds, program.weights@.len(), *block),
            state.valid_for(kinds),
            state.n_chains == old(state).n_chains,
            chain < state.n_chains,
            usable(*p_up, *pick),
            before.len() == kinds.len(),
            forall|c: int|
                0 <= c < state.n_chains && c != chain ==> #[trigger] state.chain(c) == old(
                    state,
                ).chain(c),
            forall|v: int|
                0 <= v < kinds.len() && !ids.take(position as int).contains(v as u32)
                    ==> #[trigger] state.chain(chain as int)[v] == before[v],
            forall|rule: Rule<W>, q: int|
                #![trigger obeys(*p_up, *pick, rule), ids[q]]
                obeys(*p_up, *pick, rule) && 0 <= q < position ==> state.chain(
                    chain as int,
                )[ids[q] as int] == node_value(
                    program.weights@,
                    *block,
                    rule,
                    seed,
                    counter,
                    chain,
                    before,
                    q,
                ),
    {
        let ghost now = state.chain(chain as int);
        let values = state.chain_values(chain);
        let value: u32 = sample_node(
            program,
            block,
            position,
            values,
            seed,
            counter,
            chain,
            p_up,
            pick,
        );
        let node_id: u32 = block.node_ids[position];
        assert(ids[position as int] == node_id);
        assert(value < kinds[node_id as int].count());
        proof {
            lemma_slot(
                state.n_nodes as int,
                state.n_chains as int,
                chain as int,
                node_id as int,
            );
            lemma_valid_update(kinds, now, node_id as int, value);
            lemma_same_value(
                kinds,
                program.weights@,
                *block,
                seed,
                counter,
                chain,
                before,
                now,
                position as int,
            );
        }
        state.set(chain, Node(node_id), value);
        proof {
            let after = state.chain(chain as int);
            assert(after == now.update(node_id as int, value));
            assert(ids.take(position + 1) =~= ids.take(position as int).push(node_id));
            assert forall|v: int|
                0 <= v < kinds.len() && !ids.take(position + 1).contains(
                    v as u32,
                ) implies #[trigger] state.chain(chain as int)[v] == before[v] by {
                lemma_push_contains(ids.take(position as int), node_id, v as u32);
                assert(v != node_id);
            }
            assert forall|rule: Rule<W>, q: int|
                #![trigger obeys(*p_up, *pick, rule), ids[q]]
                obeys(*p_up, *pick, rule) && 0 <= q < position + 1 implies after[ids[q] as int]
                == node_value(
                program.weights@,
                *block,
                rule,
                seed,
                counter,
                chain,
                before,
                q,
            ) by {
                if q < position {
                    assert(ids[q] != ids[position as int]);
                }
            }
        }
    }
    proof {
        let after = state.chain(chain as int);
        assert(ids.take(ids.len() as int) =~= ids);
        assert forall|rule: Rule<W>| #[trigger] obeys(*p_up, *pick, rule) implies after == updated(
            program.weights@,
            *block,
            rule,
            seed,
            counter,
            chain,
            before,
        ) by {
            let target = updated(program.weights@, *block, rule, seed, counter, chain, before);
            assert forall|v: int| 0 <= v < after.len() implies after[v] == target[v] by {
                if ids.contains(v as u32) {
                    let q = ids.index_of(v as u32);
                    assert(ids[q] == v);
                }
            }
            assert(after =~= target);
        }
    }
}

/// A chain after updating the first `count` blocks of a program in order.
pub open spec fn after_blocks<W>(
    program: Program<W>,
    rule: Rule<W>,
    seed: u32,
    counter: int,
    chain: u32,
    values: Seq<u32>,
    count: nat,
) -> Seq<u32>
    decreases count,
{
    if count == 0 {
        values
    } else {
        updated(
            program.weights@,
            program.blocks@[count - 1],
            rule,
            seed,
            (counter + count - 1) as u32,
            chain,
            after_blocks(program, rule, seed, counter, chain, values, (count - 1) as nat),
        )
    }
}

/// A chain after a number of steps. The block updates of a run are counted
/// from 0, and the count is part of every draw.
pub open spec fn after_steps<W>(
    program: Program<W>,
    rule: Rule<W>,
    seed: u32,
    chain: u32,
    values: Seq<u32>,
    steps: nat,
) -> Seq<u32>
    decreases steps,
{
    if steps == 0 {
        values
    } else {
        after_blocks(
            program,
            rule,
            seed,
            (steps - 1) * program.blocks@.len(),
            chain,
            after_steps(program, rule, seed, chain, values, (steps - 1) as nat),
            program.blocks@.len(),
        )
    }
}

/// Whether a node is updated by the program.
pub open spec fn is_free<W>(program: Program<W>, node: u32) -> bool {
    exists|b: int|
        0 <= b < program.blocks@.len() && (#[trigger] program.blocks@[b]).node_ids@.contains(node)
}

/// Whether all nodes that the program does not update have their values of `before`.
pub open spec fn keeps_clamped<W>(
    program: Program<W>,
    before: Seq<u32>,
    after: Seq<u32>,
) -> bool {
    &&& after.len() == before.len()
    &&& forall|v: int|
        0 <= v < before.len() && !is_free(program, v as u32) ==> #[trigger] after[v] == before[v]
}

/// Update every block of the program once, in all chains.
pub(crate) fn step<W: Copy, P: Fn(&[Term<W>]) -> u32, C: Fn(&[Vec<Term<W>>], u32) -> u32>(
    program: &Program<W>,
    state: &mut State,
    seed: u32,
    counter: &mut u32,
    p_up: &P,
    pick: &C,
)
    requires
        program.wf(),
        old(state).valid_for(program.node_kinds@),
        *old(counter) + program.blocks@.len() <= u32::MAX,
        usable(*p_up, *pick),
    ensures
        *final(counter) == *old(counter) + program.blocks@.len(),
        final(state).valid_for(program.node_kinds@),
        final(state).n_chains == old(state).n_chains,
        forall|c: int|
            0 <= c < old(state).n_chains ==> keeps_clamped(
                *program,
                old(state).chain(c),
                #[trigger] final(state).chain(c),
            ),
        forall|rule: Rule<W>, c: int|
            #![trigger obeys(*p_up, *pick, rule), final(state).chain(c)]
            obeys(*p_up, *pick, rule) && 0 <= c < old(state).n_chains ==> final(state).chain(c)
                == after_blocks(
                *program,
                rule,
                seed,
                *old(counter) as int,
                c as u32,
                old(state).chain(c),
                program.blocks@.len(),
            ),
{
    let n_chains: u32 = state.n_chains;
    let ghost start = *state;
    let ghost first = *counter as int;
    for b in 0..program.blocks.len()
        invariant
            program.wf(),
            n_chains == start.n_chains,
            state.valid_for(program.node_kinds@),
            start.valid_for(program.node_kinds@),
            state.n_chains == n_chains,
            *counter == first + b,
            first + program.blocks@.len() <= u32::MAX,
            usable(*p_up, *pick),
            forall|c: int|
                0 <= c < n_chains ==> keeps_clamped(
                    *program,
                    start.chain(c),
                    #[trigger] state.chain(c),
                ),
            forall|rule: Rule<W>, c: int|
                #![trigger obeys(*p_up, *pick, rule), state.chain(c)]
                obeys(*p_up, *pick, rule) && 0 <= c < n_chains ==> state.chain(c) == after_blocks(
                    *program,
                    rule,
                    seed,
                    first,
                    c as u32,
                    start.chain(c),
                    b as nat,
                ),
    {
        let block = &program.blocks[b];
        assert(block_sound(program.node_kinds@, program.weights@.len(), *block));
        for chain in 0..n_chains
            invariant
                program.wf(),
                b < program.blocks@.len(),
                *block == program.blocks@[b as int],
                block_sound(program.node_kinds@, program.weights@.len(), *block),
                n_chains == start.n_chains,
                state.valid_for(program.node_kinds@),
                start.valid_for(program.node_kinds@),
                state.n_chains == n_chains,
                *counter == first + b,
                usable(*p_up, *pick),
                forall|c: int|
                    0 <= c < n_chains ==> keeps_clamped(
                        *program,
                        start.chain(c),
                        #[trigger] state.chain(c),
                    ),
                forall|rule: Rule<W>, c: int|
                    #![trigger obeys(*p_up, *pick, rule), state.chain(c)]
                    obeys(*p_up, *pick, rule) && 0 <= c < n_chains ==> state.chain(c)
                        == after_blocks(
                        *program,
                        rule,
                        seed,
                        first,
                        c as u32,
                        start.chain(c),
                        if c < chain {
                            (b + 1) as nat
                        } else {
                            b as nat
                        },
                    ),
        {
            let ghost before = *state;
            update_block(program, block, state, seed, *counter, chain, p_up, pick);
            proof {
                assert(keeps_clamped(*program, start.chain(chain as int), before.chain(chain as int)));
                assert forall|c: int| 0 <= c < n_chains implies keeps_clamped(
                    *program,
                    start.chain(c),
                    #[trigger] state.chain(c),
                ) by {
                    if c == chain {
                        assert forall|v: int|
                            0 <= v < start.chain(c).len() && !is_free(
                                *program,
                                v as u32,
                            ) implies #[trigger] state.chain(c)[v] == start.chain(c)[v] by {
                            assert(!program.blocks@[b as int].node_ids@.contains(v as u32));
                            assert(before.chain(c)[v] == start.chain(c)[v]);
                        }
                    } else {
                        assert(state.chain(c) == before.chain(c));
                    }
                }
                assert forall|rule: Rule<W>, c: int|
                    #![trigger obeys(*p_up, *pick, rule), state.chain(c)]
                    obeys(*p_up, *pick, rule) && 0 <= c < n_chains implies state.chain(c)
                    == after_blocks(
                    *program,
                    rule,
                    seed,
                    first,
                    c as u32,
                    start.chain(c),
                    if c < chain + 1 {
                        (b + 1) as nat
                    } else {
                        b as nat
                    },
                ) by {
                    assert(before.chain(c) == after_blocks(
                        *program,
                        rule,
                        seed,
                        first,
                        c as u32,
                        start.chain(c),
                        if c < chain {
                            (b + 1) as nat
                        } else {
                            b as nat
                        },
                    ));
                    if c != chain {
                        assert(state.chain(c) == before.chain(c));
                    }
                }
            }
        }
        *counter = *counter + 1;
    }
}

proof fn lemma_blocks_keep_spins<W>(
    program: Program<W>,
    rule: Rule<W>,
    seed: u32,
    counter: int,
    chain: u32,
    values: Seq<u32>,
    count: nat,
    node: Node,
)
    requires
        program.wf(),
        count <= program.blocks@.len(),
        (node.0 as int) < values.len() == program.node_kinds@.len(),
        program.node_kinds@[node.0 as int] == NodeKind::Spin,
        values[node.0 as int] <= 1,
    ensures
        after_blocks(program, rule, seed, counter, chain, values, count).len() == values.len(),
        after_blocks(program, rule, seed, counter, chain, values, count)[node.0 as int] <= 1,
    decreases count,
{
    if count > 0 {
        let block = program.blocks@[count - 1];
        lemma_blocks_keep_spins(
            program,
            rule,
            seed,
            counter,
            chain,
            values,
            (count - 1) as nat,
            node,
        );
        assert(block_sound(program.node_kinds@, program.weights@.len(), block));
        if block.node_ids@.contains(node.0) {
            let p = block.node_ids@.index_of(node.0);
            assert(block.node_ids@[p] == node.0);
        }
    }
}

/// Spins stay spins, whatever the rule.
pub proof fn lemma_steps_keep_spins<W>(
    program: Program<W>,
    rule: Rule<W>,
    seed: u32,
    chain: u32,
    values: Seq<u32>,
    steps: nat,
    node: Node,
)
    requires
        program.wf(),
        (node.0 as int) < values.len() == program.node_kinds@.len(),
        program.node_kinds@[node.0 as int] == NodeKind::Spin,
        values[node.0 as int] <= 1,
    ensures
        after_steps(program, rule, seed, chain, values, steps).len() == values.len(),
        after_steps(program, rule, seed, chain, values, steps)[node.0 as int] <= 1,
    decreases steps,
{
    if steps > 0 {
        let before = (steps - 1) as nat;
        lemma_steps_keep_spins(program, rule, seed, chain, values, before, node);
        lemma_blocks_keep_spins(
            program,
            rule,
            seed,
            (steps - 1) * program.blocks@.len(),
            chain,
            after_steps(program, rule, seed, chain, values, before),
            program.blocks@.len(),
            node,
        );
    }
}

/// Whether the blocks of two partitions have the same nodes, in any order.
pub open spec fn same_blocks(a: Seq<Seq<Node>>, b: Seq<Seq<Node>>) -> bool {
    &&& a.len() == b.len()
    &&& forall|k: int| 0 <= k < a.len() ==> #[trigger] a[k].to_multiset() == b[k].to_multiset()
}

/// Updating a block does not depend on the order of its nodes.
proof fn lemma_same_update<W>(
    kinds: Seq<NodeKind>,
    factors: Seq<DiscreteFactor<W>>,
    first: Seq<Seq<Node>>,
    second: Seq<Seq<Node>>,
    a: Program<W>,
    b: Program<W>,
    k: int,
    rule: Rule<W>,
    seed: u32,
    counter: u32,
    chain: u32,
    values: Seq<u32>,
)
    requires
        same_blocks(first, second),
        a.wf(),
        b.wf(),
        a.compiled_from(kinds, first, factors),
        b.compiled_from(kinds, second, factors),
        forall|c: int, p: int|
            #![trigger a.blocks@[c].node_view(p)]
            0 <= c < first.len() && 0 <= p < first[c].len() ==> a.blocks@[c].node_view(p)
                == node_records(kinds, factors, first[c][p], factors.len()),
        forall|c: int, p: int|
            #![trigger b.blocks@[c].node_view(p)]
            0 <= c < second.len() && 0 <= p < second[c].len() ==> b.blocks@[c].node_view(p)
                == node_records(kinds, factors, second[c][p], factors.len()),
        0 <= k < first.len(),
    ensures
        updated(a.weights@, a.blocks@[k], rule, seed, counter, chain, values) == updated(
            b.weights@,
            b.blocks@[k],
            rule,
            seed,
            counter,
            chain,
            values,
        ),
{
    broadcast use vstd::seq_lib::group_to_multiset_ensures;

    let x = a.blocks@[k];
    let y = b.blocks@[k];
    assert(first[k].to_multiset() == second[k].to_multiset());
    assert(block_compiled(kinds, factors, first[k], x));
    assert(block_compiled(kinds, factors, second[k], y));
    assert(block_sound(kinds, a.weights@.len(), x));
    assert(block_sound(kinds, b.weights@.len(), y));
    let after = updated(a.weights@, x, rule, seed, counter, chain, values);
    let other = updated(b.weights@, y, rule, seed, counter, chain, values);
    assert forall|v: int| 0 <= v < values.len() implies #[trigger] after[v] == other[v] by {
        let id = v as u32;
        lemma_ids_contain(first[k], id);
        lemma_ids_contain(second[k], id);
        assert(first[k].contains(Node(id)) == (first[k].to_multiset().count(Node(id)) > 0));
        assert(second[k].contains(Node(id)) == (second[k].to_multiset().count(Node(id)) > 0));
        if x.node_ids@.contains(id) {
            let p = x.node_ids@.index_of(id);
            let q = y.node_ids@.index_of(id);
            assert(x.node_ids@[p] == id && y.node_ids@[q] == id);
            assert(first[k][p] == Node(id) && second[k][q] == Node(id));
            assert(a.blocks@[k].node_view(p) == b.blocks@[k].node_view(q));
            assert(x.kind == y.kind);
        }
    }
    assert(after =~= other);
}

proof fn lemma_ids_contain(nodes: Seq<Node>, id: u32)
    ensures
        ids_of(nodes).contains(id) == nodes.contains(Node(id)),
{
    if ids_of(nodes).contains(id) {
        let p = choose|p: int| 0 <= p < ids_of(nodes).len() && ids_of(nodes)[p] == id;
        assert(nodes[p] == Node(id));
    }
    if nodes.contains(Node(id)) {
        let p = choose|p: int| 0 <= p < nodes.len() && nodes[p] == Node(id);
        assert(ids_of(nodes)[p] == id);
    }
}

/// The order of the nodes inside a free block does not matter: the chains of
/// both programs are the same after any number of steps.
pub proof fn order_inside_blocks_does_not_matter<W>(
    kinds: Seq<NodeKind>,
    clamped: Seq<Seq<Node>>,
    factors: Seq<DiscreteFactor<W>>,
    first: Seq<Seq<Node>>,
    second: Seq<Seq<Node>>,
    a: Program<W>,
    b: Program<W>,
    rule: Rule<W>,
    seed: u32,
    chain: u32,
    values: Seq<u32>,
    steps: nat,
)
    requires
        kinds.len() <= u32::MAX,
        within(kinds, first),
        within(kinds, second),
        within(kinds, clamped),
        compile_fits(kinds, first, clamped, factors),
        compile_fits(kinds, second, clamped, factors),
        model_error(kinds, first, clamped, factors) is None,
        model_error(kinds, second, clamped, factors) is None,
        a.compiled_from(kinds, first, factors),
        b.compiled_from(kinds, second, factors),
        same_blocks(first, second),
    ensures
        after_steps(a, rule, seed, chain, values, steps) == after_steps(
            b,
            rule,
            seed,
            chain,
            values,
            steps,
        ),
    decreases steps,
{
    if steps > 0 {
        let before = (steps - 1) as nat;
        let n = a.blocks@.len();
        order_inside_blocks_does_not_matter(
            kinds,
            clamped,
            factors,
            first,
            second,
            a,
            b,
            rule,
            seed,
            chain,
            values,
            before,
        );
        compiled_programs_are_sound(kinds, first, clamped, factors, a);
        compiled_programs_are_sound(kinds, second, clamped, factors, b);
        lemma_same_blocks_step(
            kinds,
            factors,
            first,
            second,
            a,
            b,
            rule,
            seed,
            (steps - 1) * n,
            chain,
            after_steps(a, rule, seed, chain, values, before),
            n,
        );
    }
}

proof fn lemma_same_blocks_step<W>(
    kinds: Seq<NodeKind>,
    factors: Seq<DiscreteFactor<W>>,
    first: Seq<Seq<Node>>,
    second: Seq<Seq<Node>>,
    a: Program<W>,
    b: Program<W>,
    rule: Rule<W>,
    seed: u32,
    counter: int,
    chain: u32,
    values: Seq<u32>,
    count: nat,
)
    requires
        same_blocks(first, second),
        a.wf(),
        b.wf(),
        a.compiled_from(kinds, first, factors),
        b.compiled_from(kinds, second, factors),
        forall|c: int, p: int|
            #![trigger a.blocks@[c].node_view(p)]
            0 <= c < first.len() && 0 <= p < first[c].len() ==> a.blocks@[c].node_view(p)
                == node_records(kinds, factors, first[c][p], factors.len()),
        forall|c: int, p: int|
            #![trigger b.blocks@[c].node_view(p)]
            0 <= c < second.len() && 0 <= p < second[c].len() ==> b.blocks@[c].node_view(p)
                == node_records(kinds, factors, second[c][p], factors.len()),
        count <= first.len(),
    ensures
        after_blocks(a, rule, seed, counter, chain, values, count) == after_blocks(
            b,
            rule,
            seed,
            counter,
            chain,
            values,
            count,
        ),
    decreases count,
{
    if count > 0 {
        let before = (count - 1) as nat;
        lemma_same_blocks_step(
            kinds,
            factors,
            first,
            second,
            a,
            b,
            rule,
            seed,
            counter,
            chain,
            values,
            before,
        );
        lemma_same_update(
            kinds,
            factors,
            first,
            second,
            a,
            b,
            count - 1,
            rule,
            seed,
            (counter + count - 1) as u32,
            chain,
            after_blocks(a, rule, seed, counter, chain, values, before),
        );
    }
}

/// No two block updates of a run share a counter, and none has the counter of
/// an initialization draw: no two draws have the same coordinates.
pub proof fn counters_never_collide<W>(
    program: Program<W>,
    schedule: Schedule,
    step: int,
    block: int,
    other_step: int,
    other_block: int,
)
    requires
        countable(program, schedule),
        0 <= step < schedule.total_steps(),
        0 <= block < program.blocks@.len(),
        0 <= other_step < schedule.total_steps(),
        0 <= other_block < program.blocks@.len(),
    ensures
        ({
            let n = program.blocks@.len();
            &&& 0 <= step * n + block < STEP_HINTON_INIT < STEP_RANDOM_INIT
            &&& step * n + block == other_step * n + other_block ==> step == other_step && block
                == other_block
        }),
{
    let n = program.blocks@.len() as int;
    lemma_counter(n, schedule.total_steps(), step, block);
    lemma_counter(n, schedule.total_steps(), other_step, other_block);
}

proof fn lemma_counter(n: int, total_steps: int, step: int, block: int)
    requires
        0 <= step < total_steps,
        0 <= block < n,
    ensures
        0 <= step * n + block < total_steps * n,
        (step * n + block) / n == step,
        (step * n + block) % n == block,
{
    assert(0 <= step * n && step * n + n <= total_steps * n) by (nonlinear_arith)
        requires
            0 <= step < total_steps,
            0 < n,
    ;
    vstd::arithmetic::div_mod::lemma_fundamental_div_mod_converse(step * n + block, n, step, block);
}

/// The nodes of the clamped blocks of a model keep whatever state they were
/// assigned: its program does not update them.
pub proof fn clamped_nodes_are_not_free<W>(
    kinds: Seq<NodeKind>,
    free: Seq<Seq<Node>>,
    clamped: Seq<Seq<Node>>,
    factors: Seq<DiscreteFactor<W>>,
    program: Program<W>,
    node: Node,
)
    requires
        program.compiled_from(kinds, free, factors),
        partition_error(kinds, free, clamped) is None,
        in_lists(clamped, node),
    ensures
        !is_free(program, node.0),
{
    let a = concat(free, free.len() as int);
    let b = concat(clamped, clamped.len() as int);
    lemma_no_repeat(block_nodes(free, clamped));
    lemma_concat_contains(clamped, clamped.len() as int, node);
    if is_free(program, node.0) {
        let k = choose|k: int|
            0 <= k < program.blocks@.len() && (
            #[trigger] program.blocks@[k]).node_ids@.contains(node.0);
        let ids = program.blocks@[k].node_ids@;
        assert(ids == ids_of(free[k]));
        let p = choose|p: int| 0 <= p < ids.len() && ids[p] == node.0;
        assert(free[k][p] == node);
        assert(free[k].contains(node));
        lemma_concat_contains(free, free.len() as int, node);
        let i = choose|i: int| 0 <= i < a.len() && a[i] == node;
        let j = choose|j: int| 0 <= j < b.len() && b[j] == node;
        assert((a + b)[i] == (a + b)[a.len() + j]);
    }
}

/// Every free node of a model is updated by its program.
pub proof fn free_nodes_are_free<W>(
    kinds: Seq<NodeKind>,
    free: Seq<Seq<Node>>,
    factors: Seq<DiscreteFactor<W>>,
    program: Program<W>,
    node: Node,
)
    requires
        program.compiled_from(kinds, free, factors),
        in_lists(free, node),
    ensures
        is_free(program, node.0),
{
    let k = choose|k: int| 0 <= k < free.len() && (#[trigger] free[k]).contains(node);
    let p = choose|p: int| 0 <= p < free[k].len() && free[k][p] == node;
    assert(block_compiled(kinds, factors, free[k], program.blocks@[k]));
    assert(program.blocks@[k].node_ids@[p] == node.0);
}

} // verus!
