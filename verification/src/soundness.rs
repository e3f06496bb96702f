//! What a compiled program guarantees to the samplers that run it.

use vstd::prelude::*;

use crate::checks::{
    axes_error, block_check, block_error, concat, groups_error, lemma_axes, lemma_first_error_none,
    lemma_groups, lemma_no_repeat, mixed_check, partition_error, proper,
};
use crate::factor::{axis_product, cat_offset, DiscreteFactor, Shape};
use crate::graph::{Node, NodeKind};
use crate::program::{
    block_compiled, lemma_covered_within, lemma_weights_prefix, within, BlockKind, BlockProgram,
    Program,
};
use crate::record::{
    all_tail_ids, decode, decode_undoes_encode, encode_all, framed, spin_of, spin_product,
    tail_offset, RecordView,
};
use crate::streams::{
    block_stream, cat_pairs, compile_fits, factors_error, head_count, head_node, head_record,
    interaction_check, interaction_node_check, lemma_factor_sound, lemma_record_origin,
    lemma_records_fit, model_error, node_records, tail_check, weights_of,
};

verus! {

/// Whether every node with an admissible number of states has one of them.
pub open spec fn valid_values(kinds: Seq<NodeKind>, values: Seq<u32>) -> bool {
    &&& values.len() == kinds.len()
    &&& forall|v: int|
        0 <= v < kinds.len() && proper(kinds[v]) ==> #[trigger] values[v] < kinds[v].count()
}

impl BlockKind {
    /// Number of values that a node of the block can take.
    pub open spec fn count(self) -> u32 {
        match self {
            BlockKind::Spin => 2,
            BlockKind::Categorical { states } => states,
        }
    }
}

impl BlockProgram {
    /// The update stream of the node at position `p`.
    pub open spec fn stream(&self, p: int) -> Seq<u32> {
        self.records@.subrange(self.offsets@[p] as int, self.offsets@[p + 1] as int)
    }

    /// The records of the node at position `p`.
    pub open spec fn node_view(&self, p: int) -> Seq<RecordView> {
        decode(self.stream(p))
    }
}

/// Whether a record of a block can be evaluated on all valid values, and
/// reads no node of the block.
pub open spec fn record_sound(
    kinds: Seq<NodeKind>,
    weight_count: nat,
    states: u32,
    ids: Seq<u32>,
    record: RecordView,
) -> bool {
    &&& forall|j: int|
        #![trigger record.spin_tails[j]]
        0 <= j < record.spin_tails.len() ==> (record.spin_tails[j] as int) < kinds.len()
            && kinds[record.spin_tails[j] as int] == NodeKind::Spin && !ids.contains(
            record.spin_tails[j],
        )
    &&& forall|j: int|
        #![trigger record.cat_tails[j]]
        0 <= j < record.cat_tails.len() ==> (record.cat_tails[j].0 as int) < kinds.len()
            && !ids.contains(record.cat_tails[j].0)
    &&& forall|values: Seq<u32>| #[trigger]
        valid_values(kinds, values) ==> record.index(values) + (states - 1) * record.head_stride
            < weight_count
}

/// Whether a block program can be run on all valid values.
pub open spec fn block_sound(
    kinds: Seq<NodeKind>,
    weight_count: nat,
    block: BlockProgram,
) -> bool {
    &&& block.offsets@.len() == block.node_ids@.len() + 1
    &&& block.node_ids@.no_duplicates()
    &&& 2 <= block.kind.count() <= 256
    &&& forall|p: int|
        #![trigger block.node_ids@[p]]
        0 <= p < block.node_ids@.len() ==> {
            &&& (block.node_ids@[p] as int) < kinds.len()
            &&& BlockKind::of(kinds[block.node_ids@[p] as int]) == block.kind
            &&& block.offsets@[p] <= block.offsets@[p + 1] <= block.records@.len()
            &&& framed(block.stream(p))
        }
    &&& forall|p: int, j: int|
        #![trigger block.node_view(p)[j]]
        0 <= p < block.node_ids@.len() && 0 <= j < block.node_view(p).len() ==> record_sound(
            kinds,
            weight_count,
            block.kind.count(),
            block.node_ids@,
            block.node_view(p)[j],
        )
}

impl<W> Program<W> {
    /// Whether the program can be run on all valid values, updating no node twice in a step.
    pub open spec fn wf(&self) -> bool {
        &&& self.node_kinds@.len() <= u32::MAX
        &&& self.weights@.len() <= u32::MAX
        &&& forall|b: int|
            0 <= b < self.blocks@.len() ==> block_sound(
                self.node_kinds@,
                self.weights@.len(),
                #[trigger] self.blocks@[b],
            )
        &&& forall|a: int, b: int, p: int|
            #![trigger self.blocks@[a].node_ids@[p], self.blocks@[b]]
            0 <= a < self.blocks@.len() && 0 <= b < self.blocks@.len() && a != b && 0 <= p
                < self.blocks@[a].node_ids@.len() ==> !self.blocks@[b].node_ids@.contains(
                self.blocks@[a].node_ids@[p],
            )
    }
}

// Offsets into the weight tensor.

/// The tensor offset of an index with the given digits, one per axis.
pub open spec fn digit_sum(
    kinds: Seq<NodeKind>,
    cats: Seq<Seq<Node>>,
    digits: Seq<int>,
    count: nat,
) -> int
    decreases count,
{
    if count == 0 {
        0
    } else {
        digit_sum(kinds, cats, digits, (count - 1) as nat) + digits[count - 1] * axis_product(
            kinds,
            cats,
            count as int,
        )
    }
}

/// The values of the categorical nodes of an instance, one per axis.
pub open spec fn digits_of(cats: Seq<Seq<Node>>, i: int, values: Seq<u32>) -> Seq<int> {
    Seq::new(cats.len(), |c: int| values[cats[c][i].0 as int] as int)
}

/// Digits below the state counts give an offset within the instance.
pub proof fn lemma_digit_sum_bound(
    kinds: Seq<NodeKind>,
    cats: Seq<Seq<Node>>,
    digits: Seq<int>,
    count: nat,
)
    requires
        count <= cats.len(),
        digits.len() == cats.len(),
        forall|c: int|
            0 <= c < cats.len() ==> 0 <= #[trigger] digits[c] < kinds[cats[c][0].0 as int].count(),
    ensures
        0 <= digit_sum(kinds, cats, digits, count),
        digit_sum(kinds, cats, digits, count) + axis_product(kinds, cats, count as int)
            <= axis_product(kinds, cats, 0),
    decreases count,
{
    if count > 0 {
        let c = count - 1;
        lemma_digit_sum_bound(kinds, cats, digits, c as nat);
        let states = kinds[cats[c][0].0 as int].count() as int;
        let inner = axis_product(kinds, cats, count as int) as int;
        let outer = axis_product(kinds, cats, c) as int;
        assert(outer == states * inner);
        let d = digits[c];
        assert(0 <= d < states);
        assert(0 <= d * inner && d * inner + inner <= states * inner) by (nonlinear_arith)
            requires
                0 <= d < states,
                inner >= 0,
        ;
    }
}

pub proof fn lemma_digit_sum_update(
    kinds: Seq<NodeKind>,
    cats: Seq<Seq<Node>>,
    digits: Seq<int>,
    c: int,
    d: int,
    count: nat,
)
    requires
        0 <= c < digits.len(),
        count <= digits.len(),
    ensures
        digit_sum(kinds, cats, digits.update(c, d), count) == digit_sum(
            kinds,
            cats,
            digits,
            count,
        ) + if c < count {
            (d - digits[c]) * axis_product(kinds, cats, c + 1)
        } else {
            0
        },
    decreases count,
{
    if count > 0 {
        lemma_digit_sum_update(kinds, cats, digits, c, d, (count - 1) as nat);
        if c == count - 1 {
            let inner = axis_product(kinds, cats, count as int) as int;
            assert(d * inner == digits[c] * inner + (d - digits[c]) * inner) by (nonlinear_arith);
        }
    }
}

pub proof fn lemma_cat_offset_digits(
    kinds: Seq<NodeKind>,
    cats: Seq<Seq<Node>>,
    i: int,
    values: Seq<u32>,
    count: nat,
)
    requires
        count <= cats.len(),
    ensures
        cat_offset(kinds, cats, i, values, count) == digit_sum(
            kinds,
            cats,
            digits_of(cats, i, values),
            count,
        ),
    decreases count,
{
    if count > 0 {
        lemma_cat_offset_digits(kinds, cats, i, values, (count - 1) as nat);
    }
}

pub proof fn lemma_tail_offset_digits(
    kinds: Seq<NodeKind>,
    shape: Shape,
    i: int,
    values: Seq<u32>,
    count: nat,
)
    requires
        count <= shape.cats.len(),
        forall|c: int|
            0 < c <= shape.cats.len() ==> #[trigger] axis_product(kinds, shape.cats, c) <= u32::MAX,
    ensures
        tail_offset(cat_pairs(kinds, shape, i).take(count as int), values) == digit_sum(
            kinds,
            shape.cats,
            digits_of(shape.cats, i, values),
            count,
        ),
    decreases count,
{
    if count > 0 {
        lemma_tail_offset_digits(kinds, shape, i, values, (count - 1) as nat);
        let pairs = cat_pairs(kinds, shape, i);
        assert(pairs.take(count as int).drop_last() =~= pairs.take(count - 1));
        assert(axis_product(kinds, shape.cats, count as int) <= u32::MAX);
    }
}

pub proof fn lemma_tail_offset_remove(tails: Seq<(u32, u32)>, values: Seq<u32>, h: int)
    requires
        0 <= h < tails.len(),
    ensures
        tail_offset(tails, values) == tail_offset(tails.remove(h), values)
            + values[tails[h].0 as int] * tails[h].1,
    decreases tails.len(),
{
    let last = tails.len() - 1;
    if h == last {
        assert(tails.remove(h) =~= tails.drop_last());
    } else {
        lemma_tail_offset_remove(tails.drop_last(), values, h);
        assert(tails.remove(h).drop_last() =~= tails.drop_last().remove(h));
        assert(tails.remove(h).last() == tails.last());
    }
}

pub proof fn lemma_spin_product_remove(ids: Seq<u32>, values: Seq<u32>, h: int)
    requires
        0 <= h < ids.len(),
    ensures
        spin_product(ids, values) == spin_product(ids.remove(h), values) * spin_of(
            values[ids[h] as int],
        ),
    decreases ids.len(),
{
    let last = ids.len() - 1;
    if h == last {
        assert(ids.remove(h) =~= ids.drop_last());
    } else {
        lemma_spin_product_remove(ids.drop_last(), values, h);
        assert(ids.remove(h).drop_last() =~= ids.drop_last().remove(h));
        assert(ids.remove(h).last() == ids.last());
        let a = spin_product(ids.drop_last().remove(h), values);
        let b = spin_of(values[ids[h] as int]);
        let c = spin_of(values[ids.last() as int]);
        assert((a * b) * c == (a * c) * b) by (nonlinear_arith);
    }
}

// Records of sound factors.

/// Whether the strides and weight indices of a factor fit their words.
pub open spec fn factor_in_range(kinds: Seq<NodeKind>, shape: Shape, base: int) -> bool {
    &&& base >= 0
    &&& base + shape.batch() * axis_product(kinds, shape.cats, 0) <= u32::MAX
    &&& forall|c: int|
        0 <= c <= shape.cats.len() ==> #[trigger] axis_product(kinds, shape.cats, c) <= u32::MAX
}

/// The record of a spin reads the weight of the instance; the record of a
/// categorical node reads, for its state `k`, the weight at its digit `k`.
pub proof fn lemma_head_record_index(
    kinds: Seq<NodeKind>,
    shape: Shape,
    base: int,
    i: int,
    t: int,
    values: Seq<u32>,
    k: int,
)
    requires
        factor_in_range(kinds, shape, base),
        0 <= i < shape.batch(),
        0 <= t < head_count(shape),
    ensures
        ({
            let record = head_record(kinds, shape, base, i, t);
            let start = base + i * axis_product(kinds, shape.cats, 0);
            let digits = digits_of(shape.cats, i, values);
            let n = shape.cats.len();
            record.index(values) + k * record.head_stride == start + if t < shape.spins.len() {
                digit_sum(kinds, shape.cats, digits, n)
            } else {
                digit_sum(kinds, shape.cats, digits.update(t - shape.spins.len(), k), n)
            }
        }),
{
    let record = head_record(kinds, shape, base, i, t);
    let p0 = axis_product(kinds, shape.cats, 0) as int;
    let start = base + i * p0;
    let digits = digits_of(shape.cats, i, values);
    let n = shape.cats.len();
    assert(0 <= i * p0 <= shape.batch() * p0) by (nonlinear_arith)
        requires
            0 <= i < shape.batch(),
            p0 >= 0,
    ;
    assert(record.weight_base == start);
    let pairs = cat_pairs(kinds, shape, i);
    lemma_tail_offset_digits(kinds, shape, i, values, n);
    assert(pairs.take(n as int) =~= pairs);
    if t < shape.spins.len() {
        assert(k * 0 == 0);
    } else {
        let h = t - shape.spins.len();
        lemma_tail_offset_remove(pairs, values, h);
        lemma_digit_sum_update(kinds, shape.cats, digits, h, k, n);
        let inner = axis_product(kinds, shape.cats, h + 1) as int;
        assert(inner <= u32::MAX);
        assert(record.head_stride == inner);
        assert(digits[h] == values[pairs[h].0 as int]);
        assert((k - digits[h]) * inner == k * inner - digits[h] * inner) by (nonlinear_arith);
    }
}

/// A spin tail of the record of one position is the spin node at another.
pub proof fn lemma_spin_tail(
    kinds: Seq<NodeKind>,
    shape: Shape,
    base: int,
    i: int,
    t: int,
    j: int,
) -> (g: int)
    requires
        0 <= t < head_count(shape),
        0 <= j < head_record(kinds, shape, base, i, t).spin_tails.len(),
    ensures
        0 <= g < shape.spins.len(),
        g != t,
        head_record(kinds, shape, base, i, t).spin_tails[j] == shape.spins[g][i].0,
{
    if t < shape.spins.len() && j >= t {
        j + 1
    } else {
        j
    }
}

/// A categorical tail of the record of one position is the categorical node at another.
pub proof fn lemma_cat_tail(
    kinds: Seq<NodeKind>,
    shape: Shape,
    base: int,
    i: int,
    t: int,
    j: int,
) -> (c: int)
    requires
        0 <= t < head_count(shape),
        0 <= j < head_record(kinds, shape, base, i, t).cat_tails.len(),
    ensures
        0 <= c < shape.cats.len(),
        shape.spins.len() + c != t,
        head_record(kinds, shape, base, i, t).cat_tails[j].0 == shape.cats[c][i].0,
{
    if t >= shape.spins.len() && j >= t - shape.spins.len() {
        j + 1
    } else {
        j
    }
}

/// The digits of valid values are below the state counts of their axes.
pub proof fn lemma_digits_valid(
    kinds: Seq<NodeKind>,
    free: Seq<Seq<Node>>,
    clamped: Seq<Seq<Node>>,
    shape: Shape,
    i: int,
    values: Seq<u32>,
)
    requires
        within(kinds, free),
        within(kinds, clamped),
        groups_error(kinds, free, clamped, shape) is None,
        axes_error(kinds, shape.cats, 0) is None,
        0 <= i < shape.batch(),
        valid_values(kinds, values),
    ensures
        forall|c: int|
            0 <= c < shape.cats.len() ==> 0 <= #[trigger] digits_of(shape.cats, i, values)[c]
                < kinds[shape.cats[c][0].0 as int].count(),
{
    lemma_groups(kinds, free, clamped, shape);
    assert forall|c: int| 0 <= c < shape.cats.len() implies 0 <= #[trigger] digits_of(
        shape.cats,
        i,
        values,
    )[c] < kinds[shape.cats[c][0].0 as int].count() by {
        lemma_axes(kinds, shape.cats, 0, c, i);
        let node = shape.cats[c][i];
        lemma_covered_within(kinds, free, clamped, node);
        assert(values[node.0 as int] < kinds[node.0 as int].count());
    }
}

/// What sound factors establish about the ranges of their indices.
pub proof fn lemma_factor_in_range<W>(
    kinds: Seq<NodeKind>,
    free: Seq<Seq<Node>>,
    clamped: Seq<Seq<Node>>,
    factors: Seq<DiscreteFactor<W>>,
    k: int,
)
    requires
        0 <= k < factors.len(),
        partition_error(kinds, free, clamped) is None,
        factors_error(kinds, free, clamped, factors) is None,
        compile_fits(kinds, free, clamped, factors),
    ensures
        factor_in_range(kinds, factors[k].shape(), weights_of(factors, k as nat).len() as int),
{
    lemma_factor_sound(kinds, free, clamped, factors, k);
    let shape = factors[k].shape();
    let check = crate::checks::factor_check(kinds, free, clamped, factors);
    lemma_first_error_none(check, factors.len() as int, k);
    assert(crate::streams::factor_fits(
        kinds,
        free,
        clamped,
        factors[k].shape(),
        weights_of(factors, k as nat).len(),
        factors[k].weights@.len(),
    ));
    assert forall|c: int| 0 <= c <= shape.cats.len() implies #[trigger] axis_product(
        kinds,
        shape.cats,
        c,
    ) <= u32::MAX by {
        if c < shape.cats.len() {
            crate::checks::lemma_axes_suffix(kinds, shape.cats, 0, c);
        }
    }
}

/// A record that a sound factor contributes can be evaluated on all valid
/// values; which nodes it reads is up to the caller.
proof fn lemma_record_sound<W>(
    kinds: Seq<NodeKind>,
    free: Seq<Seq<Node>>,
    clamped: Seq<Seq<Node>>,
    factors: Seq<DiscreteFactor<W>>,
    k: int,
    i: int,
    t: int,
    ids: Seq<u32>,
)
    requires
        within(kinds, free),
        within(kinds, clamped),
        partition_error(kinds, free, clamped) is None,
        factors_error(kinds, free, clamped, factors) is None,
        compile_fits(kinds, free, clamped, factors),
        0 <= k < factors.len(),
        0 <= i < factors[k].shape().batch(),
        0 <= t < head_count(factors[k].shape()),
        ({
            let record = head_record(
                kinds,
                factors[k].shape(),
                weights_of(factors, k as nat).len() as int,
                i,
                t,
            );
            forall|j: int|
                0 <= j < record.tail_ids().len() ==> !ids.contains(#[trigger] record.tail_ids()[j])
        }),
    ensures
        record_sound(
            kinds,
            weights_of(factors, factors.len()).len(),
            kinds[head_node(factors[k].shape(), i, t).0 as int].count(),
            ids,
            head_record(
                kinds,
                factors[k].shape(),
                weights_of(factors, k as nat).len() as int,
                i,
                t,
            ),
        ),
{
    let shape = factors[k].shape();
    let base = weights_of(factors, k as nat).len() as int;
    let record = head_record(kinds, shape, base, i, t);
    let head = head_node(shape, i, t);
    let states = kinds[head.0 as int].count();
    let n_spins = shape.spins.len() as int;
    lemma_factor_sound(kinds, free, clamped, factors, k);
    lemma_factor_in_range(kinds, free, clamped, factors, k);
    lemma_groups(kinds, free, clamped, shape);
    assert forall|j: int| #![trigger record.spin_tails[j]] 0 <= j < record.spin_tails.len() implies (
    record.spin_tails[j] as int) < kinds.len() && kinds[record.spin_tails[j] as int]
        == NodeKind::Spin && !ids.contains(record.spin_tails[j]) by {
        let g = lemma_spin_tail(kinds, shape, base, i, t, j);
        lemma_covered_within(kinds, free, clamped, shape.spins[g][i]);
        assert(record.tail_ids()[j] == record.spin_tails[j]);
    }
    assert forall|j: int| #![trigger record.cat_tails[j]] 0 <= j < record.cat_tails.len() implies (
    record.cat_tails[j].0 as int) < kinds.len() && !ids.contains(record.cat_tails[j].0) by {
        let c = lemma_cat_tail(kinds, shape, base, i, t, j);
        lemma_covered_within(kinds, free, clamped, shape.cats[c][i]);
        assert(record.tail_ids()[record.spin_tails.len() + j] == record.cat_tails[j].0);
    }
    let total = weights_of(factors, factors.len()).len();
    lemma_weights_prefix(factors, (k + 1) as nat, factors.len());
    let p0 = axis_product(kinds, shape.cats, 0) as int;
    assert forall|values: Seq<u32>| #[trigger] valid_values(kinds, values) implies record.index(
        values,
    ) + (states - 1) * record.head_stride < total by {
        lemma_head_record_index(kinds, shape, base, i, t, values, states - 1);
        lemma_digits_valid(kinds, free, clamped, shape, i, values);
        let digits = digits_of(shape.cats, i, values);
        let n = shape.cats.len();
        let full = if t < n_spins {
            digits
        } else {
            digits.update(t - n_spins, states - 1)
        };
        if t >= n_spins {
            lemma_axes(kinds, shape.cats, 0, t - n_spins, i);
        }
        assert forall|c: int| 0 <= c < n implies 0 <= #[trigger] full[c]
            < kinds[shape.cats[c][0].0 as int].count() by {
            assert(0 <= digits[c] < kinds[shape.cats[c][0].0 as int].count());
        }
        lemma_digit_sum_bound(kinds, shape.cats, full, n);
        assert(i * p0 + p0 <= shape.batch() * p0) by (nonlinear_arith)
            requires
                0 <= i < shape.batch(),
                p0 >= 0,
        ;
    }
}

pub proof fn lemma_tail_listed(records: Seq<RecordView>, j: int, x: int) -> (y: int)
    requires
        0 <= j < records.len(),
        0 <= x < records[j].tail_ids().len(),
    ensures
        0 <= y < all_tail_ids(records).len(),
        all_tail_ids(records)[y] == records[j].tail_ids()[x],
    decreases records.len(),
{
    let before = all_tail_ids(records.drop_last());
    if j == records.len() - 1 {
        before.len() + x
    } else {
        lemma_tail_listed(records.drop_last(), j, x)
    }
}

/// The part of a block stream between two offsets is the stream of one node.
proof fn lemma_block_stream_part<W>(
    kinds: Seq<NodeKind>,
    factors: Seq<DiscreteFactor<W>>,
    nodes: Seq<Node>,
    p: nat,
    n: nat,
)
    requires
        p < n,
    ensures
        block_stream(kinds, factors, nodes, p).len() <= block_stream(
            kinds,
            factors,
            nodes,
            p + 1,
        ).len() <= block_stream(kinds, factors, nodes, n).len(),
        block_stream(kinds, factors, nodes, n).subrange(
            block_stream(kinds, factors, nodes, p).len() as int,
            block_stream(kinds, factors, nodes, p + 1).len() as int,
        ) == encode_all(node_records(kinds, factors, nodes[p as int], factors.len())),
    decreases n,
{
    let a = block_stream(kinds, factors, nodes, p).len() as int;
    let b = block_stream(kinds, factors, nodes, p + 1).len() as int;
    let part = encode_all(node_records(kinds, factors, nodes[p as int], factors.len()));
    if p + 1 == n {
        assert(block_stream(kinds, factors, nodes, n).subrange(a, b) =~= part);
    } else {
        lemma_block_stream_part(kinds, factors, nodes, p, (n - 1) as nat);
        assert(block_stream(kinds, factors, nodes, n).subrange(a, b) =~= block_stream(
            kinds,
            factors,
            nodes,
            (n - 1) as nat,
        ).subrange(a, b));
    }
}

/// The nodes of an accepted partition: no two blocks share one, and all
/// nodes of a block are of its admissible kind.
pub proof fn lemma_partition(
    kinds: Seq<NodeKind>,
    free: Seq<Seq<Node>>,
    clamped: Seq<Seq<Node>>,
    a: int,
    p: int,
    b: int,
    q: int,
)
    requires
        partition_error(kinds, free, clamped) is None,
        0 <= a < free.len(),
        0 <= b < free.len(),
        0 <= p < free[a].len(),
        0 <= q < free[b].len(),
    ensures
        free[a][p] == free[b][q] ==> a == b && p == q,
        proper(kinds[free[a][p].0 as int]),
        kinds[free[a][p].0 as int] == kinds[free[a][0].0 as int],
{
    let all = crate::checks::block_nodes(free, clamped);
    lemma_no_repeat(all);
    lemma_concat_index(free, free.len() as int, a, p);
    lemma_concat_index(free, free.len() as int, b, q);
    let x = concat(free, a).len() + p;
    let y = concat(free, b).len() + q;
    assert(all[x] == free[a][p]);
    assert(all[y] == free[b][q]);
    if a < b {
        lemma_concat_index(free, free.len() as int, a, free[a].len() - 1);
        crate::checks::lemma_concat_prefix(free, a + 1, b);
    }
    if b < a {
        crate::checks::lemma_concat_prefix(free, b + 1, a);
    }
    lemma_first_error_none(block_check(kinds, free), free.len() as int, a);
    lemma_first_error_none(mixed_check(kinds, free[a]), free[a].len() as int, p);
}

proof fn lemma_concat_index(lists: Seq<Seq<Node>>, n: int, b: int, p: int)
    requires
        0 <= b < n <= lists.len(),
        0 <= p < lists[b].len(),
    ensures
        concat(lists, b).len() + p < concat(lists, n).len(),
        concat(lists, n)[concat(lists, b).len() + p] == lists[b][p],
    decreases n,
{
    if b < n - 1 {
        lemma_concat_index(lists, n - 1, b, p);
    }
}

/// What a model compiles to can be run on all valid values.
pub proof fn compiled_programs_are_sound<W>(
    kinds: Seq<NodeKind>,
    free: Seq<Seq<Node>>,
    clamped: Seq<Seq<Node>>,
    factors: Seq<DiscreteFactor<W>>,
    program: Program<W>,
)
    requires
        kinds.len() <= u32::MAX,
        within(kinds, free),
        within(kinds, clamped),
        compile_fits(kinds, free, clamped, factors),
        model_error(kinds, free, clamped, factors) is None,
        program.compiled_from(kinds, free, factors),
    ensures
        program.wf(),
        forall|b: int, p: int|
            #![trigger program.blocks@[b].node_view(p)]
            0 <= b < free.len() && 0 <= p < free[b].len() ==> program.blocks@[b].node_view(p)
                == node_records(kinds, factors, free[b][p], factors.len()),
{
    assert(program.weights@.len() <= u32::MAX) by {
        if factors.len() > 0 {
            lemma_factor_sound(kinds, free, clamped, factors, factors.len() - 1);
        }
    }
    assert forall|b: int, p: int|
        #![trigger program.blocks@[b].node_view(p)]
        0 <= b < free.len() && 0 <= p < free[b].len() implies program.blocks@[b].node_view(p)
        == node_records(kinds, factors, free[b][p], factors.len()) by {
        lemma_node_view(kinds, free, clamped, factors, program.blocks@[b], b, p);
    }
    assert forall|b: int| 0 <= b < program.blocks@.len() implies block_sound(
        kinds,
        program.weights@.len(),
        #[trigger] program.blocks@[b],
    ) by {
        lemma_block_sound(kinds, free, clamped, factors, program.blocks@[b], b);
    }
    assert forall|a: int, b: int, p: int|
        #![trigger program.blocks@[a].node_ids@[p], program.blocks@[b]]
        0 <= a < program.blocks@.len() && 0 <= b < program.blocks@.len() && a != b && 0 <= p
            < program.blocks@[a].node_ids@.len() implies !program.blocks@[b].node_ids@.contains(
        program.blocks@[a].node_ids@[p],
    ) by {
        let ids = program.blocks@[b].node_ids@;
        assert(block_compiled(kinds, factors, free[a], program.blocks@[a]));
        assert(block_compiled(kinds, factors, free[b], program.blocks@[b]));
        let id = program.blocks@[a].node_ids@[p];
        if ids.contains(id) {
            let q = choose|q: int| 0 <= q < ids.len() && ids[q] == id;
            assert(free[a][p] == free[b][q]);
            lemma_partition(kinds, free, clamped, a, p, b, q);
        }
    }
}

proof fn lemma_node_view<W>(
    kinds: Seq<NodeKind>,
    free: Seq<Seq<Node>>,
    clamped: Seq<Seq<Node>>,
    factors: Seq<DiscreteFactor<W>>,
    block: BlockProgram,
    b: int,
    p: int,
)
    requires
        compile_fits(kinds, free, clamped, factors),
        model_error(kinds, free, clamped, factors) is None,
        0 <= b < free.len(),
        0 <= p < free[b].len(),
        block_compiled(kinds, factors, free[b], block),
    ensures
        block.offsets@[p] <= block.offsets@[p + 1] <= block.records@.len(),
        framed(block.stream(p)),
        block.node_view(p) == node_records(kinds, factors, free[b][p], factors.len()),
{
    let nodes = free[b];
    lemma_block_stream_part(kinds, factors, nodes, p as nat, nodes.len());
    assert(block_stream(kinds, factors, nodes, nodes.len()).len() <= u32::MAX);
    lemma_records_fit(kinds, free, clamped, factors, nodes[p]);
    decode_undoes_encode(node_records(kinds, factors, nodes[p], factors.len()));
}

proof fn lemma_block_sound<W>(
    kinds: Seq<NodeKind>,
    free: Seq<Seq<Node>>,
    clamped: Seq<Seq<Node>>,
    factors: Seq<DiscreteFactor<W>>,
    block: BlockProgram,
    b: int,
)
    requires
        within(kinds, free),
        within(kinds, clamped),
        compile_fits(kinds, free, clamped, factors),
        model_error(kinds, free, clamped, factors) is None,
        0 <= b < free.len(),
        block_compiled(kinds, factors, free[b], block),
    ensures
        block_sound(kinds, weights_of(factors, factors.len()).len(), block),
{
    let nodes = free[b];
    let ids = block.node_ids@;
    lemma_first_error_none(block_check(kinds, free), free.len() as int, b);
    assert(block_error(kinds, nodes) is None);
    assert(ids.no_duplicates()) by {
        assert forall|p: int, q: int| 0 <= p < ids.len() && 0 <= q < ids.len() && p != q implies ids[p]
            != ids[q] by {
            lemma_partition(kinds, free, clamped, b, p, b, q);
        }
    }
    assert forall|p: int| #![trigger ids[p]] 0 <= p < ids.len() implies (ids[p] as int)
        < kinds.len() && BlockKind::of(kinds[ids[p] as int]) == block.kind
        && block.offsets@[p] <= block.offsets@[p + 1] <= block.records@.len() && framed(
        block.stream(p),
    ) by {
        assert(ids[p] == free[b][p].0);
        lemma_partition(kinds, free, clamped, b, p, b, p);
        lemma_node_view(kinds, free, clamped, factors, block, b, p);
    }
    assert forall|p: int, j: int|
        #![trigger block.node_view(p)[j]]
        0 <= p < ids.len() && 0 <= j < block.node_view(p).len() implies record_sound(
        kinds,
        weights_of(factors, factors.len()).len(),
        block.kind.count(),
        ids,
        block.node_view(p)[j],
    ) by {
        let node = nodes[p];
        lemma_node_view(kinds, free, clamped, factors, block, b, p);
        lemma_partition(kinds, free, clamped, b, p, b, p);
        let records = node_records(kinds, factors, node, factors.len());
        let (k, i, t) = lemma_record_origin(kinds, factors, node, factors.len(), j);
        let record = records[j];
        assert forall|x: int| 0 <= x < record.tail_ids().len() implies !ids.contains(
            #[trigger] record.tail_ids()[x],
        ) by {
            let tails = all_tail_ids(records);
            let y = lemma_tail_listed(records, j, x);
            lemma_first_error_none(interaction_check(kinds, factors, free), free.len() as int, b);
            lemma_first_error_none(
                interaction_node_check(kinds, factors, nodes),
                nodes.len() as int,
                p,
            );
            lemma_first_error_none(tail_check(nodes, node, tails), tails.len() as int, y);
            if ids.contains(tails[y]) {
                let q = choose|q: int| 0 <= q < ids.len() && ids[q] == tails[y];
                assert(nodes[q] == Node(tails[y]));
                assert(nodes.contains(Node(tails[y])));
            }
        }
        lemma_record_sound(kinds, free, clamped, factors, k, i, t, ids);
    }
}

/// Whether two lists of factors differ in the values of their weights alone.
pub open spec fn same_structure<W>(
    a: Seq<DiscreteFactor<W>>,
    b: Seq<DiscreteFactor<W>>,
) -> bool {
    &&& a.len() == b.len()
    &&& forall|k: int|
        #![trigger a[k]]
        #![trigger b[k]]
        0 <= k < a.len() ==> a[k].shape() == b[k].shape() && a[k].weights@.len()
            == b[k].weights@.len()
}

proof fn lemma_same_records<W>(
    kinds: Seq<NodeKind>,
    a: Seq<DiscreteFactor<W>>,
    b: Seq<DiscreteFactor<W>>,
    node: Node,
    count: nat,
)
    requires
        same_structure(a, b),
        count <= a.len(),
    ensures
        weights_of(a, count).len() == weights_of(b, count).len(),
        node_records(kinds, a, node, count) == node_records(kinds, b, node, count),
    decreases count,
{
    if count > 0 {
        lemma_same_records(kinds, a, b, node, (count - 1) as nat);
        assert(a[count - 1].shape() == b[count - 1].shape());
    }
}

proof fn lemma_same_stream<W>(
    kinds: Seq<NodeKind>,
    a: Seq<DiscreteFactor<W>>,
    b: Seq<DiscreteFactor<W>>,
    nodes: Seq<Node>,
    count: nat,
)
    requires
        same_structure(a, b),
        count <= nodes.len(),
    ensures
        block_stream(kinds, a, nodes, count) == block_stream(kinds, b, nodes, count),
    decreases count,
{
    if count > 0 {
        lemma_same_stream(kinds, a, b, nodes, (count - 1) as nat);
        lemma_same_records(kinds, a, b, nodes[count - 1], a.len());
    }
}

/// Replacing the weights gives the program that compiling the new factors
/// gives, as long as only the values of the weights differ.
pub proof fn replaced_weights_match_recompilation<W>(
    kinds: Seq<NodeKind>,
    free: Seq<Seq<Node>>,
    before: Program<W>,
    factors: Seq<DiscreteFactor<W>>,
    after: Program<W>,
    replaced: Seq<DiscreteFactor<W>>,
)
    requires
        before.compiled_from(kinds, free, factors),
        same_structure(factors, replaced),
        after.node_kinds@ == before.node_kinds@,
        after.blocks@ == before.blocks@,
        after.max_states == before.max_states,
        after.weights@ == weights_of(replaced, replaced.len()),
    ensures
        after.weights@.len() == before.weights@.len(),
        after.compiled_from(kinds, free, replaced),
{
    lemma_same_records(kinds, factors, replaced, Node(0), factors.len());
    assert forall|b: int| 0 <= b < free.len() implies block_compiled(
        kinds,
        replaced,
        free[b],
        #[trigger] after.blocks@[b],
    ) by {
        let nodes = free[b];
        let block = before.blocks@[b];
        assert(block_compiled(kinds, factors, nodes, block));
        assert forall|p: int| 0 <= p <= nodes.len() implies #[trigger] block_stream(
            kinds,
            factors,
            nodes,
            p as nat,
        ) == block_stream(kinds, replaced, nodes, p as nat) by {
            lemma_same_stream(kinds, factors, replaced, nodes, p as nat);
        }
        let offsets = Seq::new(
            nodes.len() + 1,
            |p: int| block_stream(kinds, replaced, nodes, p as nat).len() as u32,
        );
        assert forall|p: int| 0 <= p < nodes.len() + 1 implies block.offsets@[p] == offsets[p] by {
            lemma_same_stream(kinds, factors, replaced, nodes, p as nat);
        }
        assert(block.offsets@ =~= offsets);
        lemma_same_stream(kinds, factors, replaced, nodes, nodes.len());
    }
}

} // verus!
