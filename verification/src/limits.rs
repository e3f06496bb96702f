//! Models that are small enough to be compiled: everything that is counted
//! fits in one word.

use std::collections::HashMap;

use vstd::prelude::*;

use crate::checks::{
    axes_error, block_nodes, concat, covered, factor_check, factor_error, first_error, groups_error,
    lemma_axes_found, lemma_concat_prefix, lemma_first_error_none, lemma_first_error_some,
    lemma_groups, lemma_no_repeat, partition_error,
};
use crate::error::Error;
use crate::factor::{axis_product, node_lists, DiscreteFactor, Shape};
use crate::graph::{Block, Graph, Node, NodeKind};
use crate::models::{ising_shaped, ising_shapes};
use crate::program::{
    axis_states, blocks_readable, check_groups, check_partition, lemma_covered_within,
    lemma_weights_prefix, locates, marks, within,
};
use crate::record::{encode_all, lemma_encode_concat, RecordView, MAX_TAILS};
use crate::streams::{
    block_stream, compile_fits, factor_fits, factor_records, factors_error, head_count, head_node,
    head_record, instance_records, model_error, node_records, weights_of,
};

verus! {

/// An upper bound on the words of a record of the shape.
pub open spec fn record_words(shape: Shape) -> nat {
    3 + shape.spins.len() + 2 * shape.cats.len()
}

/// An upper bound on the words that the first `n` factors add to a block.
pub open spec fn stream_words<W>(factors: Seq<DiscreteFactor<W>>, n: nat) -> nat
    decreases n,
{
    if n == 0 {
        0
    } else {
        let shape = factors[n - 1].shape();
        stream_words(factors, (n - 1) as nat) + shape.batch() * (head_count(shape) * record_words(
            shape,
        ))
    }
}

/// Whether the sizes of a factor of a model fit.
#[verifier::opaque]
pub open spec fn fits_at<W>(
    kinds: Seq<NodeKind>,
    free: Seq<Seq<Node>>,
    clamped: Seq<Seq<Node>>,
    factors: Seq<DiscreteFactor<W>>,
    k: int,
) -> bool {
    factor_fits(
        kinds,
        free,
        clamped,
        factors[k].shape(),
        weights_of(factors, k as nat).len(),
        factors[k].weights@.len(),
    )
}

/// Whether all that is counted when a model is compiled fits in its words, up
/// to the first error. All records together fit in one stream.
pub open spec fn small<W>(
    kinds: Seq<NodeKind>,
    free: Seq<Seq<Node>>,
    clamped: Seq<Seq<Node>>,
    factors: Seq<DiscreteFactor<W>>,
) -> bool {
    partition_error(kinds, free, clamped) is None ==> {
        &&& forall|k: int|
            0 <= k < factors.len() && first_error(
                factor_check(kinds, free, clamped, factors),
                k,
            ) is None ==> #[trigger] fits_at(kinds, free, clamped, factors, k)
        &&& factors_error(kinds, free, clamped, factors) is None ==> stream_words(
            factors,
            factors.len(),
        ) <= u32::MAX
    }
}

/// The first `n` values of a function added up.
spec fn sum_to(f: spec_fn(int) -> nat, n: nat) -> nat
    decreases n,
{
    if n == 0 {
        0
    } else {
        sum_to(f, (n - 1) as nat) + f(n - 1)
    }
}

proof fn lemma_sum_add(
    f: spec_fn(int) -> nat,
    g: spec_fn(int) -> nat,
    h: spec_fn(int) -> nat,
    n: nat,
)
    requires
        forall|i: int| 0 <= i < n ==> #[trigger] h(i) == f(i) + g(i),
    ensures
        sum_to(h, n) == sum_to(f, n) + sum_to(g, n),
    decreases n,
{
    if n > 0 {
        lemma_sum_add(f, g, h, (n - 1) as nat);
        assert(h(n - 1) == f(n - 1) + g(n - 1));
    }
}

proof fn lemma_sum_zero(f: spec_fn(int) -> nat, n: nat)
    requires
        forall|i: int| 0 <= i < n ==> #[trigger] f(i) == 0,
    ensures
        sum_to(f, n) == 0,
    decreases n,
{
    if n > 0 {
        lemma_sum_zero(f, (n - 1) as nat);
        assert(f(n - 1) == 0);
    }
}

/// A sum in which at most one term is not zero.
proof fn lemma_sum_once(nodes: Seq<Node>, node: Node, f: spec_fn(int) -> nat, bound: nat, n: nat)
    requires
        nodes.no_duplicates(),
        n <= nodes.len(),
        forall|i: int|
            0 <= i < n ==> #[trigger] f(i) <= bound && (nodes[i] != node ==> f(i) == 0),
    ensures
        sum_to(f, n) <= bound,
        !nodes.take(n as int).contains(node) ==> sum_to(f, n) == 0,
    decreases n,
{
    if n > 0 {
        let before = nodes.take(n - 1);
        lemma_sum_once(nodes, node, f, bound, (n - 1) as nat);
        assert(f(n - 1) <= bound);
        assert(nodes.take(n as int)[n - 1] == nodes[n - 1]);
        if before.contains(node) {
            let i = choose|i: int| 0 <= i < before.len() && before[i] == node;
            assert(nodes[i] == node && nodes[n - 1] != node);
            assert(nodes.take(n as int)[i] == node);
        } else if nodes[n - 1] == node {
            assert(nodes.take(n as int).contains(node));
        }
    }
}

proof fn lemma_encode_len(record: RecordView)
    ensures
        record.encode().len() == 3 + record.spin_tails.len() + 2 * record.cat_tails.len(),
{
}

proof fn lemma_encode_push(records: Seq<RecordView>, record: RecordView)
    ensures
        encode_all(records.push(record)).len() == encode_all(records).len() + record.encode().len(),
{
    assert(records.push(record).drop_last() =~= records);
}

spec fn instance_len(kinds: Seq<NodeKind>, shape: Shape, base: int, nodes: Seq<Node>, i: int, count:
    nat) -> spec_fn(int) -> nat {
    |p: int| encode_all(instance_records(kinds, shape, base, nodes[p], i, count)).len()
}

/// One instance adds at most one record per position to all nodes of a block.
proof fn lemma_instance_words(
    kinds: Seq<NodeKind>,
    shape: Shape,
    base: int,
    nodes: Seq<Node>,
    i: int,
    count: nat,
)
    requires
        nodes.no_duplicates(),
        count <= head_count(shape),
    ensures
        sum_to(instance_len(kinds, shape, base, nodes, i, count), nodes.len()) <= count
            * record_words(shape),
    decreases count,
{
    let n = nodes.len();
    let words = record_words(shape);
    if count == 0 {
        lemma_sum_zero(instance_len(kinds, shape, base, nodes, i, 0), n);
        assert(0 * words == 0) by (nonlinear_arith);
    } else {
        let t = count - 1;
        lemma_instance_words(kinds, shape, base, nodes, i, t as nat);
        let node = head_node(shape, i, t);
        let record = head_record(kinds, shape, base, i, t);
        lemma_encode_len(record);
        let added = |p: int|
            if nodes[p] == node {
                record.encode().len()
            } else {
                0
            };
        let before = instance_len(kinds, shape, base, nodes, i, t as nat);
        let after = instance_len(kinds, shape, base, nodes, i, count);
        assert forall|p: int| 0 <= p < n implies #[trigger] after(p) == before(p) + added(p) by {
            lemma_encode_push(
                instance_records(kinds, shape, base, nodes[p], i, t as nat),
                record,
            );
        }
        lemma_sum_add(before, added, after, n);
        assert(record.encode().len() <= words);
        lemma_sum_once(nodes, node, added, words, n);
        assert((t + 1) * words == t * words + words) by (nonlinear_arith);
    }
}

spec fn factor_len(kinds: Seq<NodeKind>, shape: Shape, base: int, nodes: Seq<Node>, count: nat) ->
    spec_fn(int) -> nat {
    |p: int| encode_all(factor_records(kinds, shape, base, nodes[p], count)).len()
}

proof fn lemma_factor_words(
    kinds: Seq<NodeKind>,
    shape: Shape,
    base: int,
    nodes: Seq<Node>,
    count: nat,
)
    requires
        nodes.no_duplicates(),
    ensures
        sum_to(factor_len(kinds, shape, base, nodes, count), nodes.len()) <= count * (head_count(
            shape,
        ) * record_words(shape)),
    decreases count,
{
    let n = nodes.len();
    let words = head_count(shape) * record_words(shape);
    if count == 0 {
        lemma_sum_zero(factor_len(kinds, shape, base, nodes, 0), n);
        assert(0 * words == 0) by (nonlinear_arith);
    } else {
        let i = count - 1;
        lemma_factor_words(kinds, shape, base, nodes, i as nat);
        lemma_instance_words(kinds, shape, base, nodes, i, head_count(shape));
        let before = factor_len(kinds, shape, base, nodes, i as nat);
        let added = instance_len(kinds, shape, base, nodes, i, head_count(shape));
        let after = factor_len(kinds, shape, base, nodes, count);
        assert forall|p: int| 0 <= p < n implies #[trigger] after(p) == before(p) + added(p) by {
            lemma_encode_concat(
                factor_records(kinds, shape, base, nodes[p], i as nat),
                instance_records(kinds, shape, base, nodes[p], i, head_count(shape)),
            );
        }
        lemma_sum_add(before, added, after, n);
        assert((i + 1) * words == i * words + words) by (nonlinear_arith);
    }
}

spec fn model_len<W>(
    kinds: Seq<NodeKind>,
    factors: Seq<DiscreteFactor<W>>,
    nodes: Seq<Node>,
    count: nat,
) -> spec_fn(int) -> nat {
    |p: int| encode_all(node_records(kinds, factors, nodes[p], count)).len()
}

proof fn lemma_model_words<W>(
    kinds: Seq<NodeKind>,
    factors: Seq<DiscreteFactor<W>>,
    nodes: Seq<Node>,
    count: nat,
)
    requires
        nodes.no_duplicates(),
        count <= factors.len(),
    ensures
        sum_to(model_len(kinds, factors, nodes, count), nodes.len()) <= stream_words(
            factors,
            count,
        ),
    decreases count,
{
    let n = nodes.len();
    if count == 0 {
        lemma_sum_zero(model_len(kinds, factors, nodes, 0), n);
    } else {
        let k = count - 1;
        let shape = factors[k].shape();
        let base = weights_of(factors, k as nat).len() as int;
        lemma_model_words(kinds, factors, nodes, k as nat);
        lemma_factor_words(kinds, shape, base, nodes, shape.batch());
        let before = model_len(kinds, factors, nodes, k as nat);
        let added = factor_len(kinds, shape, base, nodes, shape.batch());
        let after = model_len(kinds, factors, nodes, count);
        assert forall|p: int| 0 <= p < n implies #[trigger] after(p) == before(p) + added(p) by {
            lemma_encode_concat(
                node_records(kinds, factors, nodes[p], k as nat),
                factor_records(kinds, shape, base, nodes[p], shape.batch()),
            );
        }
        lemma_sum_add(before, added, after, n);
    }
}

proof fn lemma_stream_sum<W>(
    kinds: Seq<NodeKind>,
    factors: Seq<DiscreteFactor<W>>,
    nodes: Seq<Node>,
    count: nat,
)
    requires
        count <= nodes.len(),
    ensures
        block_stream(kinds, factors, nodes, count).len() == sum_to(
            model_len(kinds, factors, nodes, factors.len()),
            count,
        ),
    decreases count,
{
    if count > 0 {
        lemma_stream_sum(kinds, factors, nodes, (count - 1) as nat);
    }
}

/// No block of a valid partition repeats a node.
proof fn lemma_block_distinct(
    kinds: Seq<NodeKind>,
    free: Seq<Seq<Node>>,
    clamped: Seq<Seq<Node>>,
    b: int,
)
    requires
        partition_error(kinds, free, clamped) is None,
        0 <= b < free.len(),
    ensures
        free[b].no_duplicates(),
{
    let all = block_nodes(free, clamped);
    lemma_no_repeat(all);
    let start = concat(free, b).len() as int;
    lemma_concat_prefix(free, b + 1, free.len() as int);
    assert forall|p: int| 0 <= p < free[b].len() implies #[trigger] free[b][p] == all[start
        + p] by {
        let front = concat(free, b + 1);
        assert(front[start + p] == free[b][p]);
        assert(concat(free, free.len() as int).take(front.len() as int)[start + p] == concat(
            free,
            free.len() as int,
        )[start + p]);
    }
}

/// Small models can be compiled.
pub proof fn small_models_fit<W>(
    kinds: Seq<NodeKind>,
    free: Seq<Seq<Node>>,
    clamped: Seq<Seq<Node>>,
    factors: Seq<DiscreteFactor<W>>,
)
    requires
        small(kinds, free, clamped, factors),
    ensures
        compile_fits(kinds, free, clamped, factors),
{
    reveal(fits_at);
    assert forall|k: int|
        partition_error(kinds, free, clamped) is None && 0 <= k < factors.len() && first_error(
            factor_check(kinds, free, clamped, factors),
            k,
        ) is None implies factor_fits(
        kinds,
        free,
        clamped,
        (#[trigger] factors[k]).shape(),
        weights_of(factors, k as nat).len(),
        factors[k].weights@.len(),
    ) by {
        assert(fits_at(kinds, free, clamped, factors, k));
    }
    if model_error(kinds, free, clamped, factors) is None {
        assert forall|b: int| 0 <= b < free.len() implies block_stream(
            kinds,
            factors,
            #[trigger] free[b],
            free[b].len(),
        ).len() <= u32::MAX by {
            lemma_block_distinct(kinds, free, clamped, b);
            lemma_stream_sum(kinds, factors, free[b], free[b].len());
            lemma_model_words(kinds, factors, free[b], factors.len());
        }
    }
}

/// Ising models can be compiled with any partition as long as their nodes and
/// edges can be counted.
pub proof fn small_ising_models_fit<W>(
    kinds: Seq<NodeKind>,
    free: Seq<Seq<Node>>,
    clamped: Seq<Seq<Node>>,
    nodes: Seq<Node>,
    edges: Seq<(Node, Node)>,
    factors: Seq<DiscreteFactor<W>>,
)
    requires
        ising_shaped(nodes, edges, factors),
        4 * nodes.len() + 10 * edges.len() <= u32::MAX,
    ensures
        compile_fits(kinds, free, clamped, factors),
{
    let n = factors.len();
    reveal_with_fuel(weights_of, 3);
    reveal_with_fuel(stream_words, 3);
    assert forall|k: int| 0 <= k < n implies {
        let shape = (#[trigger] factors[k]).shape();
        &&& shape.spins.len() <= 2
        &&& shape.cats.len() == 0
        &&& shape.batch() * axis_product(kinds, shape.cats, 0) == shape.batch()
        &&& factors[k].weights@.len() == shape.batch()
        &&& shape.batch() * (head_count(shape) * record_words(shape)) == if shape.spins.len() == 1 {
            4 * nodes.len()
        } else {
            10 * edges.len()
        }
    } by {
        let shape = factors[k].shape();
        assert(shape == ising_shapes(nodes, edges)[k]);
        assert(axis_product(kinds, shape.cats, 0) == 1);
        let batch = shape.batch();
        let heads = head_count(shape);
        let words = record_words(shape);
        assert(batch * 1 == batch) by (nonlinear_arith);
        assert(batch * (1 * 4) == 4 * batch) by (nonlinear_arith);
        assert(batch * (2 * 5) == 10 * batch) by (nonlinear_arith);
        if shape.spins.len() == 1 {
            assert(heads == 1 && words == 4);
            assert(heads * words == 1 * 4);
        } else {
            assert(heads == 2 && words == 5);
            assert(heads * words == 2 * 5);
        }
    }
    reveal(fits_at);
    assert forall|k: int| 0 <= k < n implies #[trigger] fits_at(
        kinds,
        free,
        clamped,
        factors,
        k,
    ) by {
        assert(factors[k].shape().spins.len() <= 2);
        lemma_weights_prefix(factors, (k + 1) as nat, n);
        assert(weights_of(factors, n).len() <= nodes.len() + edges.len());
    }
    assert(small(kinds, free, clamped, factors));
    small_models_fit(kinds, free, clamped, factors);
}

/// The product of the axes of a factor. There is none where it, or the
/// product of its last axes, takes more than one word.
fn axis_size<W>(
    graph: &Graph,
    factor: &DiscreteFactor<W>,
    Ghost(free): Ghost<Seq<Seq<Node>>>,
    Ghost(clamped): Ghost<Seq<Seq<Node>>>,
) -> (r: Result<Option<u64>, Error>)
    requires
        within(graph@, free),
        within(graph@, clamped),
        groups_error(graph@, free, clamped, factor.shape()) is None,
    ensures
        ({
            let cats = factor.shape().cats;
            match r {
                Ok(Some(product)) => {
                    &&& axes_error(graph@, cats, 0) is None
                    &&& product == axis_product(graph@, cats, 0) <= u32::MAX
                    &&& forall|c: int|
                        0 <= c < cats.len() ==> #[trigger] axis_product(graph@, cats, c) <= u32::MAX
                },
                Ok(None) => exists|c: int|
                    0 <= c < cats.len() && axes_error(graph@, cats, c) is None
                        && #[trigger] axis_product(graph@, cats, c) > u32::MAX,
                Err(error) => {
                    &&& axes_error(graph@, cats, 0) == Some(error)
                    &&& forall|c: int|
                        0 <= c < cats.len() && axes_error(graph@, cats, c) is None
                            ==> #[trigger] axis_product(graph@, cats, c) <= u32::MAX
                },
            }
        }),
{
    let ghost cats = factor.shape().cats;
    let mut product: u64 = 1;
    let mut c: usize = factor.cat_groups.len();
    proof {
        lemma_groups(graph@, free, clamped, factor.shape());
    }
    while c > 0
        invariant
            within(graph@, free),
            within(graph@, clamped),
            groups_error(graph@, free, clamped, factor.shape()) is None,
            forall|g: int|
                0 <= g < cats.len() ==> (#[trigger] cats[g]).len() == factor.shape().batch(),
            forall|g: int, j: int|
                #![trigger cats[g][j]]
                0 <= g < cats.len() && 0 <= j < factor.shape().batch() ==> covered(
                    free,
                    clamped,
                    cats[g][j],
                ),
            factor.shape().batch() > 0,
            cats == factor.shape().cats,
            c <= cats.len(),
            cats.len() == factor.cat_groups@.len(),
            axes_error(graph@, cats, c as int) is None,
            product == axis_product(graph@, cats, c as int),
            product <= u32::MAX,
            forall|d: int|
                c <= d < cats.len() ==> #[trigger] axis_product(graph@, cats, d) <= u32::MAX,
        decreases c,
    {
        c = c - 1;
        let block = &factor.cat_groups[c];
        assert(cats[c as int] == block@);
        assert forall|j: int| 0 <= j < block@.len() implies graph.has(#[trigger] block@[j]) by {
            assert(cats[c as int][j] == block@[j]);
            lemma_covered_within(graph@, free, clamped, block@[j]);
        }
        match axis_states(graph, block) {
            Ok(states) => {
                assert(axes_error(graph@, cats, c as int) is None);
                assert(states * product <= 0xFFFF_FFFF * 0xFFFF_FFFF) by (nonlinear_arith)
                    requires
                        0 <= states <= 0xFFFF_FFFF,
                        0 <= product <= 0xFFFF_FFFF,
                ;
                assert(axis_product(graph@, cats, c as int) == states as nat * product as nat);
                if states as u64 * product > 0xFFFF_FFFF {
                    return Ok(None);
                }
                product = states as u64 * product;
            },
            Err(error) => {
                assert(axes_error(graph@, cats, c as int) == Some(error));
                assert forall|d: int| 0 <= d <= c implies axes_error(graph@, cats, d) == Some(
                    error,
                ) by {
                    lemma_axes_found(graph@, cats, d, c as int);
                }
                return Err(error);
            },
        }
    }
    Ok(Some(product))
}

/// How compiling a factor goes on.
enum Outcome {
    /// Its records are compiled.
    Sound,
    /// It has an error.
    Error,
    /// A count does not fit.
    TooLarge,
}

/// How compiling a factor goes on after a number of weights.
fn try_factor<W>(
    graph: &Graph,
    factor: &DiscreteFactor<W>,
    base: u64,
    locations: &HashMap<u32, (usize, usize)>,
    marked: &HashMap<u32, ()>,
    Ghost(free): Ghost<Seq<Seq<Node>>>,
    Ghost(clamped): Ghost<Seq<Seq<Node>>>,
) -> (r: Outcome)
    requires
        base <= u32::MAX,
        locates(locations@, free),
        marks(marked@, clamped),
        within(graph@, free),
        within(graph@, clamped),
    ensures
        ({
            let fits = factor_fits(
                graph@,
                free,
                clamped,
                factor.shape(),
                base as nat,
                factor.weights@.len(),
            );
            let error = factor_error(graph@, free, clamped, factor.shape(), factor.weights@.len());
            match r {
                Outcome::Sound => fits && error is None && base + factor.weights@.len() <= u32::MAX,
                Outcome::Error => fits && error is Some,
                Outcome::TooLarge => !fits,
            }
        }),
{
    let ghost shape = factor.shape();
    if check_groups(graph, factor, locations, marked, Ghost(free), Ghost(clamped)).is_some() {
        return Outcome::Error;
    }
    match axis_size(graph, factor, Ghost(free), Ghost(clamped)) {
        Err(_) => Outcome::Error,
        Ok(None) => Outcome::TooLarge,
        Ok(Some(product)) => {
            let batch: usize = factor.batch_len();
            let count: usize = factor.weights.len();
            assert(0 <= batch * product <= 0xFFFF_FFFF_FFFF_FFFF * 0xFFFF_FFFF)
                by (nonlinear_arith)
                requires
                    0 <= batch <= 0xFFFF_FFFF_FFFF_FFFF,
                    0 <= product <= 0xFFFF_FFFF,
            ;
            let expected: u128 = batch as u128 * product as u128;
            assert(expected == shape.batch() * axis_product(graph@, shape.cats, 0));
            if expected > usize::MAX as u128 {
                Outcome::TooLarge
            } else if count as u128 != expected {
                Outcome::Error
            } else if factor.spin_groups.len() > MAX_TAILS || factor.cat_groups.len() > MAX_TAILS
                || count as u64 > 0xFFFF_FFFF - base {
                Outcome::TooLarge
            } else {
                Outcome::Sound
            }
        },
    }
}

/// The words that a factor adds to a stream on top of a number, if they fit in one word.
fn add_words<W>(words: Option<u64>, factor: &DiscreteFactor<W>) -> (r: Option<u64>)
    requires
        words matches Some(before) ==> before <= u32::MAX,
    ensures
        ({
            let shape = factor.shape();
            let added = shape.batch() * (head_count(shape) * record_words(shape));
            match r {
                Some(after) => {
                    &&& words is Some
                    &&& after == words.unwrap() + added
                    &&& after <= u32::MAX
                },
                None => words is None || words.unwrap() + added > u32::MAX,
            }
        }),
{
    let ghost shape = factor.shape();
    let before: u64 = match words {
        Some(before) => before,
        None => {
            return None;
        },
    };
    let batch: usize = factor.batch_len();
    let heads: u128 = factor.spin_groups.len() as u128 + factor.cat_groups.len() as u128;
    let record: u128 = 3 + factor.spin_groups.len() as u128 + 2 * factor.cat_groups.len() as u128;
    assert(heads == head_count(shape) && record == record_words(shape));
    if batch == 0 {
        assert(0 * (head_count(shape) * record_words(shape)) == 0) by (nonlinear_arith);
        return Some(before);
    }
    assert(heads * record >= 0) by (nonlinear_arith)
        requires
            heads >= 0,
            record >= 0,
    ;
    if heads > 0xFFFF_FFFF || record > 0xFFFF_FFFF {
        assert(batch * (heads * record) > 0xFFFF_FFFF) by (nonlinear_arith)
            requires
                batch >= 1,
                heads >= 1,
                record >= 1,
                heads > 0xFFFF_FFFF || record > 0xFFFF_FFFF,
        ;
        return None;
    }
    assert(heads * record <= 0xFFFF_FFFF * 0xFFFF_FFFF) by (nonlinear_arith)
        requires
            0 <= heads <= 0xFFFF_FFFF,
            0 <= record <= 0xFFFF_FFFF,
    ;
    let ghost each = heads * record;
    assert(0 <= batch * each <= 0xFFFF_FFFF_FFFF_FFFF * (0xFFFF_FFFF * 0xFFFF_FFFF))
        by (nonlinear_arith)
        requires
            0 <= batch <= 0xFFFF_FFFF_FFFF_FFFF,
            0 <= each <= 0xFFFF_FFFF * 0xFFFF_FFFF,
    ;
    let added: u128 = batch as u128 * (heads * record);
    if added > 0xFFFF_FFFF - before as u128 {
        None
    } else {
        Some(before + added as u64)
    }
}

/// Whether the model is small.
pub fn is_small<W>(
    graph: &Graph,
    free_blocks: &[Block],
    clamped_blocks: &[Block],
    factors: &[DiscreteFactor<W>],
) -> (r: bool)
    requires
        blocks_readable(graph@, node_lists(free_blocks@), node_lists(clamped_blocks@)),
    ensures
        r == small(graph@, node_lists(free_blocks@), node_lists(clamped_blocks@), factors@),
{
    let ghost kinds = graph@;
    let ghost free = node_lists(free_blocks@);
    let ghost clamped = node_lists(clamped_blocks@);
    let (locations, marked, _, _) = match check_partition(graph, free_blocks, clamped_blocks) {
        Ok(found) => found,
        Err(_) => {
            return true;
        },
    };
    let ghost check = factor_check(kinds, free, clamped, factors@);
    let mut weights: u64 = 0;
    let mut words: Option<u64> = Some(0);
    for k in 0..factors.len()
        invariant
            kinds == graph@,
            free == node_lists(free_blocks@),
            clamped == node_lists(clamped_blocks@),
            partition_error(kinds, free, clamped) is None,
            within(kinds, free),
            within(kinds, clamped),
            locates(locations@, free),
            marks(marked@, clamped),
            check == factor_check(kinds, free, clamped, factors@),
            first_error(check, k as int) is None,
            weights == weights_of(factors@, k as nat).len(),
            weights <= u32::MAX,
            match words {
                Some(words) => words == stream_words(factors@, k as nat) <= u32::MAX,
                None => stream_words(factors@, k as nat) > u32::MAX,
            },
            forall|j: int|
                0 <= j < k ==> #[trigger] fits_at(kinds, free, clamped, factors@, j),
    {
        let factor = &factors[k];
        assert(*factor == factors@[k as int]);
        let outcome = try_factor(
            graph,
            factor,
            weights,
            &locations,
            &marked,
            Ghost(free),
            Ghost(clamped),
        );
        assert(fits_at(kinds, free, clamped, factors@, k as int) == !(outcome is TooLarge)) by {
            reveal(fits_at);
        }
        match outcome {
            Outcome::Sound => {},
            Outcome::Error => {
                proof {
                    assert(check(k as int) is Some);
                    lemma_first_error_some(check, factors@.len() as int, k as int);
                    assert forall|j: int|
                        0 <= j < factors@.len() && first_error(
                            check,
                            j,
                        ) is None implies #[trigger] fits_at(
                        kinds,
                        free,
                        clamped,
                        factors@,
                        j,
                    ) by {
                        if j > k {
                            lemma_first_error_none(check, j, k as int);
                        }
                    }
                }
                return true;
            },
            Outcome::TooLarge => {
                return false;
            },
        }
        assert(check(k as int) is None);
        words = add_words(words, factor);
        weights = weights + factor.weights.len() as u64;
    }
    words.is_some()
}

} // verus!
