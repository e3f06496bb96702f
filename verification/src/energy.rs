//! What the records of a node have to do with the energy of the model.
//!
//! Weights are numbers here by way of an arbitrary interpretation `w`: the
//! statements are linear in the weights, so they hold for every one.

use vstd::prelude::*;

use crate::checks::{lemma_axes, lemma_first_error_none, lemma_groups};
use crate::factor::{
    axis_product, energy_terms, instance_index, instance_sign, lemma_sign, DiscreteFactor, Shape,
    Term,
};
use crate::graph::{Node, NodeKind};
use crate::program::{lemma_covered_within, lemma_weights_prefix, within, Program};
use crate::record::{all_tail_ids, spin_of, spin_product, RecordView};
use crate::soundness::{
    compiled_programs_are_sound, digit_sum, digits_of, lemma_cat_offset_digits,
    lemma_digit_sum_bound, lemma_digits_valid, lemma_factor_in_range, lemma_head_record_index,
    lemma_spin_product_remove, lemma_tail_listed, valid_values,
};
use crate::streams::{
    compile_fits, factor_records, head_count, head_node, head_record, instance_records,
    interaction_check, interaction_node_check, lemma_factor_sound, model_error, node_records,
    spin_ids, tail_check, weights_of,
};

verus! {

/// The signed weight of instance `i`: its energy is the negative of this.
pub open spec fn instance_value<W>(
    kinds: Seq<NodeKind>,
    shape: Shape,
    weights: Seq<W>,
    values: Seq<u32>,
    w: spec_fn(W) -> int,
    i: int,
) -> int {
    instance_sign(shape.spins, i, values, shape.spins.len()) * w(
        weights[instance_index(kinds, shape, i, values) as int],
    )
}

/// The energy of the first `count` instances of a factor.
pub open spec fn factor_energy<W>(
    kinds: Seq<NodeKind>,
    shape: Shape,
    weights: Seq<W>,
    values: Seq<u32>,
    w: spec_fn(W) -> int,
    count: nat,
) -> int
    decreases count,
{
    if count == 0 {
        0
    } else {
        factor_energy(kinds, shape, weights, values, w, (count - 1) as nat) - instance_value(
            kinds,
            shape,
            weights,
            values,
            w,
            count - 1,
        )
    }
}

/// The energy of the first `count` factors of a model.
pub open spec fn model_energy<W>(
    kinds: Seq<NodeKind>,
    factors: Seq<DiscreteFactor<W>>,
    values: Seq<u32>,
    w: spec_fn(W) -> int,
    count: nat,
) -> int
    decreases count,
{
    if count == 0 {
        0
    } else {
        let k = count - 1;
        model_energy(kinds, factors, values, w, k as nat) + factor_energy(
            kinds,
            factors[k].shape(),
            factors[k].weights@,
            values,
            w,
            factors[k].shape().batch(),
        )
    }
}

/// The signed weights added up, under an interpretation of the weights as numbers.
pub open spec fn term_sum<W>(terms: Seq<Term<W>>, w: spec_fn(W) -> int) -> int
    decreases terms.len(),
{
    if terms.len() == 0 {
        0
    } else {
        term_sum(terms.drop_last(), w) + terms.last().sign * w(terms.last().weight)
    }
}

/// The energy of a factor is minus the sum of the signed weights of its instances.
pub proof fn energy_is_minus_the_terms<W>(
    kinds: Seq<NodeKind>,
    shape: Shape,
    weights: Seq<W>,
    values: Seq<u32>,
    w: spec_fn(W) -> int,
    count: nat,
)
    requires
        count <= shape.batch(),
    ensures
        factor_energy(kinds, shape, weights, values, w, count) == -term_sum(
            energy_terms(kinds, shape, weights, values).take(count as int),
            w,
        ),
    decreases count,
{
    let terms = energy_terms(kinds, shape, weights, values);
    if count > 0 {
        energy_is_minus_the_terms(kinds, shape, weights, values, w, (count - 1) as nat);
        assert(terms.take(count as int).drop_last() =~= terms.take(count - 1));
        assert(terms.take(count as int).last() == terms[count - 1]);
        lemma_sign(shape.spins, count - 1, values, shape.spins.len());
    }
}

/// What a record adds to the field of its head for state `k`.
pub open spec fn record_value<W>(
    record: RecordView,
    weights: Seq<W>,
    values: Seq<u32>,
    w: spec_fn(W) -> int,
    k: int,
) -> int {
    record.product(values) * w(weights[record.index(values) + k * record.head_stride])
}

/// The field of a node for state `k`: `gamma` of a spin, `theta[k]` of a
/// categorical node.
pub open spec fn field<W>(
    records: Seq<RecordView>,
    weights: Seq<W>,
    values: Seq<u32>,
    w: spec_fn(W) -> int,
    k: int,
) -> int
    decreases records.len(),
{
    if records.len() == 0 {
        0
    } else {
        field(records.drop_last(), weights, values, w, k) + record_value(
            records.last(),
            weights,
            values,
            w,
            k,
        )
    }
}

/// What the field of a node takes off the energy when the node has value `x`.
pub open spec fn field_at<W>(
    kind: NodeKind,
    records: Seq<RecordView>,
    weights: Seq<W>,
    values: Seq<u32>,
    w: spec_fn(W) -> int,
    x: u32,
) -> int {
    match kind {
        NodeKind::Spin => spin_of(x) * field(records, weights, values, w, 0),
        NodeKind::Categorical { .. } => field(records, weights, values, w, x as int),
    }
}

proof fn lemma_field_concat<W>(
    a: Seq<RecordView>,
    b: Seq<RecordView>,
    weights: Seq<W>,
    values: Seq<u32>,
    w: spec_fn(W) -> int,
    k: int,
)
    ensures
        field(a + b, weights, values, w, k) == field(a, weights, values, w, k) + field(
            b,
            weights,
            values,
            w,
            k,
        ),
    decreases b.len(),
{
    if b.len() == 0 {
        assert(a + b =~= a);
    } else {
        lemma_field_concat(a, b.drop_last(), weights, values, w, k);
        assert((a + b).drop_last() =~= a + b.drop_last());
        assert((a + b).last() == b.last());
    }
}

proof fn lemma_field_at_concat<W>(
    kind: NodeKind,
    a: Seq<RecordView>,
    b: Seq<RecordView>,
    weights: Seq<W>,
    values: Seq<u32>,
    w: spec_fn(W) -> int,
    x: u32,
)
    ensures
        field_at(kind, a + b, weights, values, w, x) == field_at(kind, a, weights, values, w, x)
            + field_at(kind, b, weights, values, w, x),
{
    match kind {
        NodeKind::Spin => {
            lemma_field_concat(a, b, weights, values, w, 0);
            let p = field(a, weights, values, w, 0);
            let q = field(b, weights, values, w, 0);
            assert(spin_of(x) * (p + q) == spin_of(x) * p + spin_of(x) * q) by (nonlinear_arith);
        },
        NodeKind::Categorical { .. } => {
            lemma_field_concat(a, b, weights, values, w, x as int);
        },
    }
}

proof fn lemma_spin_product_same(ids: Seq<u32>, values: Seq<u32>, other: Seq<u32>)
    requires
        forall|j: int| 0 <= j < ids.len() ==> values[(#[trigger] ids[j]) as int] == other[ids[j]
            as int],
    ensures
        spin_product(ids, values) == spin_product(ids, other),
    decreases ids.len(),
{
    if ids.len() > 0 {
        let init = ids.drop_last();
        assert forall|j: int| 0 <= j < init.len() implies values[(#[trigger] init[j]) as int]
            == other[init[j] as int] by {
            assert(init[j] == ids[j]);
        }
        lemma_spin_product_same(init, values, other);
        assert(ids.last() == ids[ids.len() - 1]);
    }
}

/// For spins stored as 0 or 1, the sign of an instance is the product of its spins.
proof fn lemma_sign_is_product(shape: Shape, i: int, values: Seq<u32>, count: nat)
    requires
        count <= shape.spins.len(),
        forall|g: int|
            0 <= g < shape.spins.len() ==> values[(#[trigger] shape.spins[g])[i].0 as int] <= 1,
    ensures
        instance_sign(shape.spins, i, values, count) == spin_product(
            spin_ids(shape, i).take(count as int),
            values,
        ),
    decreases count,
{
    if count > 0 {
        lemma_sign_is_product(shape, i, values, (count - 1) as nat);
        let ids = spin_ids(shape, i);
        assert(ids.take(count as int).drop_last() =~= ids.take(count - 1));
        assert(values[shape.spins[count - 1][i].0 as int] <= 1);
    }
}

/// The records that an instance contributes to a node at only one of its positions.
proof fn lemma_instance_records_unique(
    kinds: Seq<NodeKind>,
    shape: Shape,
    base: int,
    node: Node,
    i: int,
    count: nat,
    t: int,
)
    requires
        forall|u: int|
            0 <= u < head_count(shape) && #[trigger] head_node(shape, i, u) == node ==> u == t,
        0 <= t < head_count(shape) ==> head_node(shape, i, t) == node,
        count <= head_count(shape),
    ensures
        instance_records(kinds, shape, base, node, i, count) == if 0 <= t < count {
            seq![head_record(kinds, shape, base, i, t)]
        } else {
            Seq::empty()
        },
    decreases count,
{
    if count > 0 {
        lemma_instance_records_unique(kinds, shape, base, node, i, (count - 1) as nat, t);
        if head_node(shape, i, count - 1) == node {
            assert(instance_records(kinds, shape, base, node, i, count) =~= seq![
                head_record(kinds, shape, base, i, t),
            ]);
        }
    }
}

/// A node at two positions of an instance is among its own tails.
pub proof fn lemma_repeated_node_is_tail(
    kinds: Seq<NodeKind>,
    shape: Shape,
    base: int,
    i: int,
    t: int,
    u: int,
)
    requires
        0 <= t < head_count(shape),
        0 <= u < head_count(shape),
        t != u,
    ensures
        head_record(kinds, shape, base, i, t).tail_ids().contains(head_node(shape, i, u).0),
{
    let record = head_record(kinds, shape, base, i, t);
    let n_spins = shape.spins.len() as int;
    if u < n_spins {
        let j = if t < n_spins && u > t {
            u - 1
        } else {
            u
        };
        assert(record.spin_tails[j] == shape.spins[u][i].0);
        assert(record.tail_ids()[j] == shape.spins[u][i].0);
    } else {
        let c = u - n_spins;
        let j = if t >= n_spins && u > t {
            c - 1
        } else {
            c
        };
        assert(record.cat_tails[j].0 == shape.cats[c][i].0);
        assert(record.tail_ids()[record.spin_tails.len() + j] == shape.cats[c][i].0);
    }
}

/// Everything that the statements about one node of a compiled model build on.
pub open spec fn model_sound<W>(
    kinds: Seq<NodeKind>,
    free: Seq<Seq<Node>>,
    clamped: Seq<Seq<Node>>,
    factors: Seq<DiscreteFactor<W>>,
) -> bool {
    &&& kinds.len() <= u32::MAX
    &&& within(kinds, free)
    &&& within(kinds, clamped)
    &&& compile_fits(kinds, free, clamped, factors)
    &&& model_error(kinds, free, clamped, factors) is None
}

/// The sign of an instance is the product of its spins.
proof fn lemma_instance_sign<W>(
    kinds: Seq<NodeKind>,
    free: Seq<Seq<Node>>,
    clamped: Seq<Seq<Node>>,
    factors: Seq<DiscreteFactor<W>>,
    k: int,
    i: int,
    values: Seq<u32>,
)
    requires
        model_sound(kinds, free, clamped, factors),
        0 <= k < factors.len(),
        0 <= i < factors[k].shape().batch(),
        valid_values(kinds, values),
    ensures
        instance_sign(
            factors[k].shape().spins,
            i,
            values,
            factors[k].shape().spins.len(),
        ) == spin_product(spin_ids(factors[k].shape(), i), values),
{
    let shape = factors[k].shape();
    let ids = spin_ids(shape, i);
    lemma_factor_sound(kinds, free, clamped, factors, k);
    lemma_groups(kinds, free, clamped, shape);
    assert forall|g: int| 0 <= g < shape.spins.len() implies values[(
    #[trigger] shape.spins[g])[i].0 as int] <= 1 by {
        lemma_covered_within(kinds, free, clamped, shape.spins[g][i]);
        assert(values[shape.spins[g][i].0 as int] < kinds[shape.spins[g][i].0 as int].count());
    }
    lemma_sign_is_product(shape, i, values, shape.spins.len());
    assert(ids.take(shape.spins.len() as int) =~= ids);
}

/// The weight of an instance stands in the weights of the model, behind those
/// of the factors before it.
proof fn lemma_instance_weight<W>(
    kinds: Seq<NodeKind>,
    free: Seq<Seq<Node>>,
    clamped: Seq<Seq<Node>>,
    factors: Seq<DiscreteFactor<W>>,
    k: int,
    i: int,
    values: Seq<u32>,
)
    requires
        model_sound(kinds, free, clamped, factors),
        0 <= k < factors.len(),
        0 <= i < factors[k].shape().batch(),
        valid_values(kinds, values),
    ensures
        ({
            let shape = factors[k].shape();
            let index = instance_index(kinds, shape, i, values);
            &&& index < factors[k].weights@.len()
            &&& index == i * axis_product(kinds, shape.cats, 0) + digit_sum(
                kinds,
                shape.cats,
                digits_of(shape.cats, i, values),
                shape.cats.len(),
            )
            &&& weights_of(factors, factors.len())[weights_of(factors, k as nat).len() as int + index]
                == factors[k].weights@[index as int]
        }),
{
    let shape = factors[k].shape();
    let base = weights_of(factors, k as nat).len() as int;
    let n_cats = shape.cats.len();
    let p0 = axis_product(kinds, shape.cats, 0) as int;
    lemma_factor_sound(kinds, free, clamped, factors, k);
    lemma_cat_offset_digits(kinds, shape.cats, i, values, n_cats);
    lemma_digits_valid(kinds, free, clamped, shape, i, values);
    lemma_digit_sum_bound(kinds, shape.cats, digits_of(shape.cats, i, values), n_cats);
    let index = instance_index(kinds, shape, i, values);
    assert(i * p0 >= 0 && i * p0 + p0 <= shape.batch() * p0) by (nonlinear_arith)
        requires
            0 <= i < shape.batch(),
            p0 >= 0,
    ;
    lemma_weights_prefix(factors, (k + 1) as nat, factors.len());
    assert(weights_of(factors, (k + 1) as nat)[base + index] == factors[k].weights@[index as int]);
}

/// One instance: its signed weight varies with the value of a node at
/// position `t` as the field of the record says.
#[verifier::spinoff_prover]
#[verifier::rlimit(30)]
proof fn lemma_instance_field<W>(
    kinds: Seq<NodeKind>,
    free: Seq<Seq<Node>>,
    clamped: Seq<Seq<Node>>,
    factors: Seq<DiscreteFactor<W>>,
    k: int,
    i: int,
    t: int,
    values: Seq<u32>,
    w: spec_fn(W) -> int,
    x: u32,
)
    requires
        model_sound(kinds, free, clamped, factors),
        0 <= k < factors.len(),
        0 <= i < factors[k].shape().batch(),
        0 <= t < head_count(factors[k].shape()),
        forall|u: int|
            0 <= u < head_count(factors[k].shape()) && #[trigger] head_node(
                factors[k].shape(),
                i,
                u,
            ) == head_node(factors[k].shape(), i, t) ==> u == t,
        valid_values(kinds, values),
        x < kinds[head_node(factors[k].shape(), i, t).0 as int].count(),
    ensures
        ({
            let shape = factors[k].shape();
            let node = head_node(shape, i, t);
            let record = head_record(
                kinds,
                shape,
                weights_of(factors, k as nat).len() as int,
                i,
                t,
            );
            instance_value(
                kinds,
                shape,
                factors[k].weights@,
                values.update(node.0 as int, x),
                w,
                i,
            ) == field_at(
                kinds[node.0 as int],
                seq![record],
                weights_of(factors, factors.len()),
                values,
                w,
                x,
            )
        }),
{
    let shape = factors[k].shape();
    let base = weights_of(factors, k as nat).len() as int;
    let node = head_node(shape, i, t);
    let record = head_record(kinds, shape, base, i, t);
    let next = values.update(node.0 as int, x);
    let n_spins = shape.spins.len() as int;
    let n_cats = shape.cats.len();
    let ids = spin_ids(shape, i);
    let all = weights_of(factors, factors.len());
    lemma_factor_sound(kinds, free, clamped, factors, k);
    lemma_factor_in_range(kinds, free, clamped, factors, k);
    lemma_groups(kinds, free, clamped, shape);
    if t < n_spins {
        lemma_covered_within(kinds, free, clamped, shape.spins[t][i]);
    } else {
        lemma_covered_within(kinds, free, clamped, shape.cats[t - n_spins][i]);
        lemma_axes(kinds, shape.cats, 0, t - n_spins, i);
    }
    assert(valid_values(kinds, next));
    // Which values change.
    assert forall|g: int| 0 <= g < n_spins && g != t implies (#[trigger] shape.spins[g])[i].0
        != node.0 by {
        assert(head_node(shape, i, g) == shape.spins[g][i]);
        if shape.spins[g][i].0 == node.0 {
            assert(head_node(shape, i, g) == node);
        }
    }
    assert forall|c: int| 0 <= c < n_cats && n_spins + c != t implies (
    #[trigger] shape.cats[c])[i].0 != node.0 by {
        assert(head_node(shape, i, n_spins + c) == shape.cats[c][i]);
        if shape.cats[c][i].0 == node.0 {
            assert(head_node(shape, i, n_spins + c) == node);
        }
    }
    lemma_instance_sign(kinds, free, clamped, factors, k, i, next);
    lemma_instance_weight(kinds, free, clamped, factors, k, i, next);
    let digits = digits_of(shape.cats, i, values);
    let digits_next = digits_of(shape.cats, i, next);
    let index = instance_index(kinds, shape, i, next);
    lemma_head_record_index(kinds, shape, base, i, t, values, x as int);
    lemma_head_record_index(kinds, shape, base, i, t, values, 0);
    assert(seq![record].drop_last() =~= Seq::empty());
    assert(seq![record].last() == record);
    reveal_with_fuel(field, 2);
    if t < n_spins {
        assert(digits_next =~= digits);
        lemma_spin_product_remove(ids, next, t);
        let rest = ids.remove(t);
        assert forall|j: int| 0 <= j < rest.len() implies next[(#[trigger] rest[j]) as int]
            == values[rest[j] as int] by {
            let g = if j < t {
                j
            } else {
                j + 1
            };
            assert(rest[j] == shape.spins[g][i].0);
        }
        lemma_spin_product_same(rest, next, values);
        assert(record.index(values) == base + index);
        let a = spin_product(rest, values);
        let b = spin_of(x);
        let c = w(all[base + index]);
        assert((a * b) * c == b * (a * c)) by (nonlinear_arith);
        assert(record_value(record, all, values, w, 0) == a * c);
    } else {
        let h = t - n_spins;
        assert(digits_next =~= digits.update(h, x as int));
        assert forall|j: int| 0 <= j < ids.len() implies next[(#[trigger] ids[j]) as int]
            == values[ids[j] as int] by {
            assert(ids[j] == shape.spins[j][i].0);
        }
        lemma_spin_product_same(ids, next, values);
        assert(record.index(values) + x * record.head_stride == base + index);
    }
}

/// The nodes of a sound factor are in the graph.
proof fn lemma_head_within<W>(
    kinds: Seq<NodeKind>,
    free: Seq<Seq<Node>>,
    clamped: Seq<Seq<Node>>,
    factors: Seq<DiscreteFactor<W>>,
    k: int,
    i: int,
    t: int,
)
    requires
        model_sound(kinds, free, clamped, factors),
        0 <= k < factors.len(),
        0 <= i < factors[k].shape().batch(),
        0 <= t < head_count(factors[k].shape()),
    ensures
        (head_node(factors[k].shape(), i, t).0 as int) < kinds.len(),
{
    let shape = factors[k].shape();
    let n_spins = shape.spins.len() as int;
    lemma_factor_sound(kinds, free, clamped, factors, k);
    lemma_groups(kinds, free, clamped, shape);
    if t < n_spins {
        lemma_covered_within(kinds, free, clamped, shape.spins[t][i]);
    } else {
        lemma_covered_within(kinds, free, clamped, shape.cats[t - n_spins][i]);
    }
}

/// An instance that a node has no part in does not depend on its value.
proof fn lemma_instance_unrelated<W>(
    kinds: Seq<NodeKind>,
    shape: Shape,
    weights: Seq<W>,
    i: int,
    node: Node,
    values: Seq<u32>,
    w: spec_fn(W) -> int,
    x: u32,
)
    requires
        (node.0 as int) < values.len(),
        forall|u: int|
            0 <= u < head_count(shape) ==> #[trigger] head_node(shape, i, u) != node && (head_node(
                shape,
                i,
                u,
            ).0 as int) < values.len(),
    ensures
        instance_value(kinds, shape, weights, values.update(node.0 as int, x), w, i)
            == instance_value(kinds, shape, weights, values, w, i),
{
    let next = values.update(node.0 as int, x);
    let n_spins = shape.spins.len() as int;
    lemma_sign_unrelated(shape, i, node, values, x, shape.spins.len());
    assert(digits_of(shape.cats, i, next) =~= digits_of(shape.cats, i, values)) by {
        assert forall|c: int| 0 <= c < shape.cats.len() implies digits_of(shape.cats, i, next)[c]
            == digits_of(shape.cats, i, values)[c] by {
            assert(head_node(shape, i, n_spins + c) == shape.cats[c][i]);
            assert(shape.cats[c][i].0 != node.0) by {
                if shape.cats[c][i].0 == node.0 {
                    assert(shape.cats[c][i] == node);
                }
            }
        }
    }
    lemma_cat_offset_digits(kinds, shape.cats, i, next, shape.cats.len());
    lemma_cat_offset_digits(kinds, shape.cats, i, values, shape.cats.len());
}

proof fn lemma_sign_unrelated(
    shape: Shape,
    i: int,
    node: Node,
    values: Seq<u32>,
    x: u32,
    count: nat,
)
    requires
        count <= shape.spins.len(),
        (node.0 as int) < values.len(),
        forall|u: int|
            0 <= u < head_count(shape) ==> #[trigger] head_node(shape, i, u) != node && (head_node(
                shape,
                i,
                u,
            ).0 as int) < values.len(),
    ensures
        instance_sign(shape.spins, i, values.update(node.0 as int, x), count) == instance_sign(
            shape.spins,
            i,
            values,
            count,
        ),
    decreases count,
{
    if count > 0 {
        lemma_sign_unrelated(shape, i, node, values, x, (count - 1) as nat);
        let other = shape.spins[count - 1][i];
        assert(head_node(shape, i, count - 1) == other);
        assert(other.0 != node.0) by {
            if other.0 == node.0 {
                assert(other == node);
            }
        }
    }
}

/// One factor: the energy and the field of a node balance.
proof fn lemma_factor_field<W>(
    kinds: Seq<NodeKind>,
    free: Seq<Seq<Node>>,
    clamped: Seq<Seq<Node>>,
    factors: Seq<DiscreteFactor<W>>,
    k: int,
    node: Node,
    values: Seq<u32>,
    w: spec_fn(W) -> int,
    x: u32,
    y: u32,
    count: nat,
)
    requires
        model_sound(kinds, free, clamped, factors),
        0 <= k < factors.len(),
        count <= factors[k].shape().batch(),
        forall|i: int, t: int, u: int|
            0 <= i < factors[k].shape().batch() && 0 <= t < head_count(factors[k].shape()) && 0
                <= u < head_count(factors[k].shape()) && #[trigger] head_node(
                factors[k].shape(),
                i,
                t,
            ) == node && #[trigger] head_node(factors[k].shape(), i, u) == node ==> t == u,
        valid_values(kinds, values),
        (node.0 as int) < kinds.len(),
        x < kinds[node.0 as int].count(),
        y < kinds[node.0 as int].count(),
    ensures
        ({
            let shape = factors[k].shape();
            let base = weights_of(factors, k as nat).len() as int;
            let records = factor_records(kinds, shape, base, node, count);
            let all = weights_of(factors, factors.len());
            let kind = kinds[node.0 as int];
            let at_x = values.update(node.0 as int, x);
            let at_y = values.update(node.0 as int, y);
            factor_energy(kinds, shape, factors[k].weights@, at_x, w, count) + field_at(
                kind,
                records,
                all,
                values,
                w,
                x,
            ) == factor_energy(kinds, shape, factors[k].weights@, at_y, w, count) + field_at(
                kind,
                records,
                all,
                values,
                w,
                y,
            )
        }),
    decreases count,
{
    let shape = factors[k].shape();
    let weights = factors[k].weights@;
    let base = weights_of(factors, k as nat).len() as int;
    let all = weights_of(factors, factors.len());
    let kind = kinds[node.0 as int];
    if count == 0 {
        assert(spin_of(x) * 0 == 0 && spin_of(y) * 0 == 0);
    } else {
        let i = count - 1;
        lemma_factor_field(
            kinds,
            free,
            clamped,
            factors,
            k,
            node,
            values,
            w,
            x,
            y,
            i as nat,
        );
        let before = factor_records(kinds, shape, base, node, i as nat);
        let added = instance_records(kinds, shape, base, node, i, head_count(shape));
        lemma_field_at_concat(kind, before, added, all, values, w, x);
        lemma_field_at_concat(kind, before, added, all, values, w, y);
        if exists|t: int|
            0 <= t < head_count(shape) && #[trigger] head_node(shape, i, t) == node {
            let t = choose|t: int|
                0 <= t < head_count(shape) && #[trigger] head_node(shape, i, t) == node;
            lemma_instance_records_unique(kinds, shape, base, node, i, head_count(shape), t);
            lemma_instance_field(kinds, free, clamped, factors, k, i, t, values, w, x);
            lemma_instance_field(kinds, free, clamped, factors, k, i, t, values, w, y);
        } else {
            lemma_instance_records_unique(kinds, shape, base, node, i, head_count(shape), -1);
            assert forall|u: int| 0 <= u < head_count(shape) implies #[trigger] head_node(
                shape,
                i,
                u,
            ) != node && (head_node(shape, i, u).0 as int) < values.len() by {
                lemma_head_within(kinds, free, clamped, factors, k, i, u);
            }
            lemma_instance_unrelated(kinds, shape, weights, i, node, values, w, x);
            lemma_instance_unrelated(kinds, shape, weights, i, node, values, w, y);
            assert(spin_of(x) * 0 == 0 && spin_of(y) * 0 == 0);
        }
    }
}

/// The first factors of a model: the energy and the field of a node balance.
proof fn lemma_model_field<W>(
    kinds: Seq<NodeKind>,
    free: Seq<Seq<Node>>,
    clamped: Seq<Seq<Node>>,
    factors: Seq<DiscreteFactor<W>>,
    node: Node,
    values: Seq<u32>,
    w: spec_fn(W) -> int,
    x: u32,
    y: u32,
    count: nat,
)
    requires
        model_sound(kinds, free, clamped, factors),
        count <= factors.len(),
        forall|k: int, i: int, t: int, u: int|
            0 <= k < factors.len() && 0 <= i < factors[k].shape().batch() && 0 <= t < head_count(
                factors[k].shape(),
            ) && 0 <= u < head_count(factors[k].shape()) && #[trigger] head_node(
                factors[k].shape(),
                i,
                t,
            ) == node && #[trigger] head_node(factors[k].shape(), i, u) == node ==> t == u,
        valid_values(kinds, values),
        (node.0 as int) < kinds.len(),
        x < kinds[node.0 as int].count(),
        y < kinds[node.0 as int].count(),
    ensures
        ({
            let records = node_records(kinds, factors, node, count);
            let all = weights_of(factors, factors.len());
            let kind = kinds[node.0 as int];
            model_energy(kinds, factors, values.update(node.0 as int, x), w, count) + field_at(
                kind,
                records,
                all,
                values,
                w,
                x,
            ) == model_energy(kinds, factors, values.update(node.0 as int, y), w, count)
                + field_at(kind, records, all, values, w, y)
        }),
    decreases count,
{
    let all = weights_of(factors, factors.len());
    let kind = kinds[node.0 as int];
    if count == 0 {
        assert(spin_of(x) * 0 == 0 && spin_of(y) * 0 == 0);
    } else {
        let k = count - 1;
        let shape = factors[k].shape();
        lemma_model_field(
            kinds,
            free,
            clamped,
            factors,
            node,
            values,
            w,
            x,
            y,
            k as nat,
        );
        lemma_factor_field(
            kinds,
            free,
            clamped,
            factors,
            k,
            node,
            values,
            w,
            x,
            y,
            shape.batch(),
        );
        let before = node_records(kinds, factors, node, k as nat);
        let added = factor_records(
            kinds,
            shape,
            weights_of(factors, k as nat).len() as int,
            node,
            shape.batch(),
        );
        lemma_field_at_concat(kind, before, added, all, values, w, x);
        lemma_field_at_concat(kind, before, added, all, values, w, y);
    }
}

/// A free node takes part in an instance at most once.
proof fn lemma_free_node_once<W>(
    kinds: Seq<NodeKind>,
    free: Seq<Seq<Node>>,
    clamped: Seq<Seq<Node>>,
    factors: Seq<DiscreteFactor<W>>,
    b: int,
    p: int,
    k: int,
    i: int,
    t: int,
    u: int,
)
    requires
        model_sound(kinds, free, clamped, factors),
        0 <= b < free.len(),
        0 <= p < free[b].len(),
        0 <= k < factors.len(),
        0 <= i < factors[k].shape().batch(),
        0 <= t < head_count(factors[k].shape()),
        0 <= u < head_count(factors[k].shape()),
        head_node(factors[k].shape(), i, t) == free[b][p],
        head_node(factors[k].shape(), i, u) == free[b][p],
    ensures
        t == u,
{
    if t != u {
        let shape = factors[k].shape();
        let base = weights_of(factors, k as nat).len() as int;
        let node = free[b][p];
        let record = head_record(kinds, shape, base, i, t);
        lemma_repeated_node_is_tail(kinds, shape, base, i, t, u);
        let x = choose|x: int|
            0 <= x < record.tail_ids().len() && record.tail_ids()[x] == node.0;
        let records = node_records(kinds, factors, node, factors.len());
        let j = lemma_record_listed(kinds, factors, node, factors.len(), k, i, t);
        let tails = all_tail_ids(records);
        let y = lemma_tail_listed(records, j, x);
        lemma_first_error_none(interaction_check(kinds, factors, free), free.len() as int, b);
        lemma_first_error_none(
            interaction_node_check(kinds, factors, free[b]),
            free[b].len() as int,
            p,
        );
        lemma_first_error_none(tail_check(free[b], node, tails), tails.len() as int, y);
        assert(free[b].contains(Node(tails[y])));
    }
}

/// Every position of an instance that a node has contributes one of its records.
pub proof fn lemma_record_listed<W>(
    kinds: Seq<NodeKind>,
    factors: Seq<DiscreteFactor<W>>,
    node: Node,
    count: nat,
    k: int,
    i: int,
    t: int,
) -> (j: int)
    requires
        0 <= k < count <= factors.len(),
        0 <= i < factors[k].shape().batch(),
        0 <= t < head_count(factors[k].shape()),
        head_node(factors[k].shape(), i, t) == node,
    ensures
        0 <= j < node_records(kinds, factors, node, count).len(),
        node_records(kinds, factors, node, count)[j] == head_record(
            kinds,
            factors[k].shape(),
            weights_of(factors, k as nat).len() as int,
            i,
            t,
        ),
    decreases count,
{
    if k < count - 1 {
        lemma_record_listed(kinds, factors, node, (count - 1) as nat, k, i, t)
    } else {
        let shape = factors[k].shape();
        let base = weights_of(factors, k as nat).len() as int;
        let j = lemma_factor_listed(kinds, shape, base, node, shape.batch(), i, t);
        node_records(kinds, factors, node, k as nat).len() + j
    }
}

proof fn lemma_factor_listed(
    kinds: Seq<NodeKind>,
    shape: Shape,
    base: int,
    node: Node,
    count: nat,
    i: int,
    t: int,
) -> (j: int)
    requires
        0 <= i < count,
        0 <= t < head_count(shape),
        head_node(shape, i, t) == node,
    ensures
        0 <= j < factor_records(kinds, shape, base, node, count).len(),
        factor_records(kinds, shape, base, node, count)[j] == head_record(
            kinds,
            shape,
            base,
            i,
            t,
        ),
    decreases count,
{
    if i < count - 1 {
        lemma_factor_listed(kinds, shape, base, node, (count - 1) as nat, i, t)
    } else {
        let j = lemma_instance_listed(kinds, shape, base, node, i, head_count(shape), t);
        factor_records(kinds, shape, base, node, i as nat).len() + j
    }
}

proof fn lemma_instance_listed(
    kinds: Seq<NodeKind>,
    shape: Shape,
    base: int,
    node: Node,
    i: int,
    count: nat,
    t: int,
) -> (j: int)
    requires
        0 <= t < count,
        head_node(shape, i, t) == node,
    ensures
        0 <= j < instance_records(kinds, shape, base, node, i, count).len(),
        instance_records(kinds, shape, base, node, i, count)[j] == head_record(
            kinds,
            shape,
            base,
            i,
            t,
        ),
    decreases count,
{
    if t < count - 1 {
        lemma_instance_listed(kinds, shape, base, node, i, (count - 1) as nat, t)
    } else {
        instance_records(kinds, shape, base, node, i, t as nat).len() as int
    }
}

/// The records of a free node give its conditional energy: with all other
/// values fixed, the energy of the model varies with the value of the node
/// exactly as its field says. Sampling the node from its field is therefore
/// sampling it from the Boltzmann distribution of the model, conditioned on
/// the other nodes.
pub proof fn field_is_conditional_energy<W>(
    kinds: Seq<NodeKind>,
    free: Seq<Seq<Node>>,
    clamped: Seq<Seq<Node>>,
    factors: Seq<DiscreteFactor<W>>,
    program: Program<W>,
    b: int,
    p: int,
    values: Seq<u32>,
    w: spec_fn(W) -> int,
    x: u32,
    y: u32,
)
    requires
        model_sound(kinds, free, clamped, factors),
        program.compiled_from(kinds, free, factors),
        0 <= b < free.len(),
        0 <= p < free[b].len(),
        valid_values(kinds, values),
        x < kinds[free[b][p].0 as int].count(),
        y < kinds[free[b][p].0 as int].count(),
    ensures
        ({
            let node = free[b][p].0 as int;
            let records = program.blocks@[b].node_view(p);
            let energy_x = model_energy(kinds, factors, values.update(node, x), w, factors.len());
            let energy_y = model_energy(kinds, factors, values.update(node, y), w, factors.len());
            energy_x - energy_y == field_at(
                kinds[node],
                records,
                program.weights@,
                values,
                w,
                y,
            ) - field_at(kinds[node], records, program.weights@, values, w, x)
        }),
{
    let node = free[b][p];
    compiled_programs_are_sound(kinds, free, clamped, factors, program);
    assert(program.blocks@[b].node_view(p) == node_records(kinds, factors, node, factors.len()));
    assert forall|k: int, i: int, t: int, u: int|
        0 <= k < factors.len() && 0 <= i < factors[k].shape().batch() && 0 <= t < head_count(
            factors[k].shape(),
        ) && 0 <= u < head_count(factors[k].shape()) && #[trigger] head_node(
            factors[k].shape(),
            i,
            t,
        ) == node && #[trigger] head_node(factors[k].shape(), i, u) == node implies t == u by {
        lemma_free_node_once(kinds, free, clamped, factors, b, p, k, i, t, u);
    }
    lemma_model_field(kinds, free, clamped, factors, node, values, w, x, y, factors.len());
}

/// The special case of a spin: flipping it up lowers the energy by twice its field.
pub proof fn spin_field_is_half_the_energy_gap<W>(
    kinds: Seq<NodeKind>,
    free: Seq<Seq<Node>>,
    clamped: Seq<Seq<Node>>,
    factors: Seq<DiscreteFactor<W>>,
    program: Program<W>,
    b: int,
    p: int,
    values: Seq<u32>,
    w: spec_fn(W) -> int,
)
    requires
        model_sound(kinds, free, clamped, factors),
        program.compiled_from(kinds, free, factors),
        0 <= b < free.len(),
        0 <= p < free[b].len(),
        kinds[free[b][p].0 as int] == NodeKind::Spin,
        valid_values(kinds, values),
    ensures
        ({
            let node = free[b][p].0 as int;
            let gamma = field(program.blocks@[b].node_view(p), program.weights@, values, w, 0);
            let down = model_energy(kinds, factors, values.update(node, 0), w, factors.len());
            let up = model_energy(kinds, factors, values.update(node, 1), w, factors.len());
            down - up == 2 * gamma
        }),
{
    field_is_conditional_energy(kinds, free, clamped, factors, program, b, p, values, w, 0, 1);
    let gamma = field(program.blocks@[b].node_view(p), program.weights@, values, w, 0);
    assert(spin_of(1) * gamma - spin_of(0) * gamma == 2 * gamma) by (nonlinear_arith)
        requires
            spin_of(1) == 1,
            spin_of(0) == -1,
    ;
}

} // verus!
