//! Which models compile, and what an error says about one that does not.
//!
//! The conditions are written out over the blocks and the factors. In all of
//! them the free and the clamped blocks form one list, the free ones first.

use vstd::prelude::*;

use crate::checks::{
    axes_error, axis_error, axis_node_check, block_check, block_error, block_nodes, blocks_error,
    concat, cover_check, covered, factor_check, factor_error, first_error, first_repeat,
    group_check, groups_error, lemma_error_origin, lemma_first_error_none, lemma_first_error_some,
    lemma_groups, lemma_no_error, lemma_no_repeat, lemma_repeat_none, lemma_repeat_prefix,
    lemma_repeat_push, mixed_check, proper, spin_group_check, spin_node_check,
};
use crate::coloring::{lemma_tail_is_other, lemma_tail_origin};
use crate::energy::{lemma_record_listed, lemma_repeated_node_is_tail};
use crate::error::Error;
use crate::factor::{axis_product, DiscreteFactor, Shape};
use crate::formulas::{axis_sizes, lemma_axis_sizes, product_of, sum_of};
use crate::graph::{Node, NodeKind};
use crate::limits::{fits_at, small, small_models_fit, stream_words};
use crate::program::{blocks_readable, lemma_weights_prefix};
use crate::record::all_tail_ids;
use crate::soundness::lemma_tail_listed;
use crate::streams::{
    compile_fits, factors_error, head_count, head_node, head_record, interaction_check,
    interaction_node_check, lemma_record_origin, model_error, node_records, tail_check, weights_of,
};

verus! {

/// The number of states of a node.
pub open spec fn states_of(kind: NodeKind) -> int {
    match kind {
        NodeKind::Spin => 2,
        NodeKind::Categorical { states } => states as int,
    }
}

/// Whether a block can be updated as one: it has nodes, all of one kind, and
/// that kind has at least 2 and at most 256 states.
pub open spec fn sound_block(kinds: Seq<NodeKind>, nodes: Seq<Node>) -> bool {
    &&& nodes.len() > 0
    &&& 2 <= states_of(kinds[nodes[0].0 as int]) <= 256
    &&& forall|j: int|
        #![trigger nodes[j]]
        0 <= j < nodes.len() ==> kinds[nodes[j].0 as int] == kinds[nodes[0].0 as int]
}

/// Whether a node is in one of the blocks.
pub open spec fn in_some_block(lists: Seq<Seq<Node>>, node: Node) -> bool {
    exists|b: int| 0 <= b < lists.len() && (#[trigger] lists[b]).contains(node)
}

/// Whether a factor can be compiled with the given blocks: its groups have
/// one and the same length, above zero, and nodes of the blocks only; its spin
/// groups hold spins, each of its categorical groups categorical nodes of one
/// kind with at least 2 and at most 256 states; and there is one weight for
/// every instance and every combination of categories.
pub open spec fn sound_factor(
    kinds: Seq<NodeKind>,
    lists: Seq<Seq<Node>>,
    shape: Shape,
    weight_count: nat,
) -> bool {
    let groups = shape.spins + shape.cats;
    &&& groups.len() > 0
    &&& groups[0].len() > 0
    &&& forall|g: int|
        #![trigger groups[g]]
        0 <= g < groups.len() ==> groups[g].len() == groups[0].len()
    &&& forall|g: int, i: int|
        #![trigger groups[g][i]]
        0 <= g < groups.len() && 0 <= i < groups[g].len() ==> in_some_block(lists, groups[g][i])
    &&& forall|g: int, i: int|
        #![trigger shape.spins[g][i]]
        0 <= g < shape.spins.len() && 0 <= i < shape.spins[g].len()
            ==> kinds[shape.spins[g][i].0 as int] == NodeKind::Spin
    &&& forall|c: int|
        #![trigger shape.cats[c]]
        0 <= c < shape.cats.len() ==> sound_block(kinds, shape.cats[c])
            && kinds[shape.cats[c][0].0 as int] != NodeKind::Spin
    &&& weight_count == groups[0].len() * product_of(axis_sizes(kinds, shape.cats))
}

/// Whether two positions of an instance hold nodes of one free block.
pub open spec fn meet(free: Seq<Seq<Node>>, shape: Shape, i: int, t: int, u: int, b: int) -> bool {
    let groups = shape.spins + shape.cats;
    &&& 0 <= t < groups.len()
    &&& 0 <= u < groups.len()
    &&& t != u
    &&& 0 <= i < groups[0].len()
    &&& 0 <= b < free.len()
    &&& free[b].contains(groups[t][i])
    &&& free[b].contains(groups[u][i])
}

/// Whether no two nodes of an instance are in one free block.
pub open spec fn kept_apart(free: Seq<Seq<Node>>, shape: Shape) -> bool {
    forall|i: int, t: int, u: int, b: int| !#[trigger] meet(free, shape, i, t, u, b)
}

proof fn lemma_concat_is_flatten(lists: Seq<Seq<Node>>, n: int)
    requires
        0 <= n <= lists.len(),
    ensures
        concat(lists, n) == lists.take(n).flatten(),
    decreases n,
{
    lists.take(n).lemma_flatten_and_flatten_alt_are_equivalent();
    if n > 0 {
        lemma_concat_is_flatten(lists, n - 1);
        lists.take(n - 1).lemma_flatten_and_flatten_alt_are_equivalent();
        assert(lists.take(n).drop_last() =~= lists.take(n - 1));
        assert(lists.take(n).last() == lists[n - 1]);
    }
}

proof fn lemma_all_nodes(free: Seq<Seq<Node>>, clamped: Seq<Seq<Node>>)
    ensures
        block_nodes(free, clamped) == (free + clamped).flatten(),
{
    lemma_concat_is_flatten(free, free.len() as int);
    lemma_concat_is_flatten(clamped, clamped.len() as int);
    assert(free.take(free.len() as int) =~= free);
    assert(clamped.take(clamped.len() as int) =~= clamped);
    vstd::seq_lib::lemma_flatten_concat(free, clamped);
}

proof fn lemma_in_some_block(free: Seq<Seq<Node>>, clamped: Seq<Seq<Node>>, node: Node)
    ensures
        covered(free, clamped, node) <==> in_some_block(free + clamped, node),
{
    let lists = free + clamped;
    if in_some_block(lists, node) {
        let b = choose|b: int| 0 <= b < lists.len() && (#[trigger] lists[b]).contains(node);
        if b < free.len() {
            assert(free[b].contains(node));
        } else {
            assert(clamped[b - free.len()].contains(node));
        }
    }
    if covered(free, clamped, node) {
        if exists|b: int| 0 <= b < free.len() && (#[trigger] free[b]).contains(node) {
            let b = choose|b: int| 0 <= b < free.len() && (#[trigger] free[b]).contains(node);
            assert(lists[b].contains(node));
        } else {
            let b = choose|b: int|
                0 <= b < clamped.len() && (#[trigger] clamped[b]).contains(node);
            assert(lists[free.len() + b].contains(node));
        }
    }
}

proof fn lemma_block(kinds: Seq<NodeKind>, nodes: Seq<Node>)
    ensures
        block_error(kinds, nodes) is None <==> sound_block(kinds, nodes),
{
    let n = nodes.len() as int;
    let check = mixed_check(kinds, nodes);
    if block_error(kinds, nodes) is None {
        assert forall|j: int| #![trigger nodes[j]] 0 <= j < n implies kinds[nodes[j].0 as int]
            == kinds[nodes[0].0 as int] by {
            lemma_first_error_none(check, n, j);
        }
    }
    if sound_block(kinds, nodes) {
        assert forall|j: int| 0 <= j < n implies (#[trigger] check(j)) is None by {
            assert(kinds[nodes[j].0 as int] == kinds[nodes[0].0 as int]);
        }
        lemma_no_error(check, n);
    }
}

proof fn lemma_blocks(kinds: Seq<NodeKind>, free: Seq<Seq<Node>>, clamped: Seq<Seq<Node>>)
    ensures
        blocks_error(kinds, free, clamped) is None <==> forall|b: int|
            0 <= b < free.len() + clamped.len() ==> sound_block(
                kinds,
                #[trigger] (free + clamped)[b],
            ),
{
    let lists = free + clamped;
    if blocks_error(kinds, free, clamped) is None {
        assert forall|b: int| 0 <= b < lists.len() implies sound_block(
            kinds,
            #[trigger] lists[b],
        ) by {
            lemma_block(kinds, lists[b]);
            if b < free.len() {
                lemma_first_error_none(block_check(kinds, free), free.len() as int, b);
            } else {
                lemma_first_error_none(
                    block_check(kinds, clamped),
                    clamped.len() as int,
                    b - free.len(),
                );
            }
        }
    }
    if forall|b: int| 0 <= b < lists.len() ==> sound_block(kinds, #[trigger] lists[b]) {
        assert forall|b: int| 0 <= b < free.len() implies (#[trigger] block_check(kinds, free)(
            b,
        )) is None by {
            assert(lists[b] == free[b]);
            lemma_block(kinds, free[b]);
        }
        assert forall|b: int| 0 <= b < clamped.len() implies (#[trigger] block_check(
            kinds,
            clamped,
        )(b)) is None by {
            assert(lists[free.len() + b] == clamped[b]);
            lemma_block(kinds, clamped[b]);
        }
        lemma_no_error(block_check(kinds, free), free.len() as int);
        lemma_no_error(block_check(kinds, clamped), clamped.len() as int);
    }
}

proof fn lemma_axis(kinds: Seq<NodeKind>, nodes: Seq<Node>)
    requires
        nodes.len() > 0,
    ensures
        axis_error(kinds, nodes) is None <==> sound_block(kinds, nodes) && kinds[nodes[0].0 as int]
            != NodeKind::Spin,
{
    let n = nodes.len() as int;
    let check = axis_node_check(kinds, nodes);
    if axis_error(kinds, nodes) is None {
        assert forall|j: int| #![trigger nodes[j]] 0 <= j < n implies kinds[nodes[j].0 as int]
            == kinds[nodes[0].0 as int] by {
            lemma_first_error_none(check, n, j);
        }
    }
    if sound_block(kinds, nodes) && kinds[nodes[0].0 as int] != NodeKind::Spin {
        assert forall|j: int| 0 <= j < n implies (#[trigger] check(j)) is None by {
            assert(kinds[nodes[j].0 as int] == kinds[nodes[0].0 as int]);
        }
        lemma_no_error(check, n);
    }
}

proof fn lemma_axes_sound(kinds: Seq<NodeKind>, cats: Seq<Seq<Node>>, from: int)
    requires
        0 <= from <= cats.len(),
        forall|c: int| 0 <= c < cats.len() ==> (#[trigger] cats[c]).len() > 0,
    ensures
        axes_error(kinds, cats, from) is None <==> forall|c: int|
            #![trigger cats[c]]
            from <= c < cats.len() ==> sound_block(kinds, cats[c]) && kinds[cats[c][0].0 as int]
                != NodeKind::Spin,
    decreases cats.len() - from,
{
    if from < cats.len() {
        lemma_axes_sound(kinds, cats, from + 1);
        lemma_axis(kinds, cats[from]);
    }
}

proof fn lemma_groups_sound(
    kinds: Seq<NodeKind>,
    free: Seq<Seq<Node>>,
    clamped: Seq<Seq<Node>>,
    shape: Shape,
)
    ensures
        groups_error(kinds, free, clamped, shape) is None <==> {
            let groups = shape.spins + shape.cats;
            &&& groups.len() > 0
            &&& groups[0].len() > 0
            &&& forall|g: int|
                #![trigger groups[g]]
                0 <= g < groups.len() ==> groups[g].len() == groups[0].len()
            &&& forall|g: int, i: int|
                #![trigger groups[g][i]]
                0 <= g < groups.len() && 0 <= i < groups[g].len() ==> in_some_block(
                    free + clamped,
                    groups[g][i],
                )
            &&& forall|g: int, i: int|
                #![trigger shape.spins[g][i]]
                0 <= g < shape.spins.len() && 0 <= i < shape.spins[g].len()
                    ==> kinds[shape.spins[g][i].0 as int] == NodeKind::Spin
        },
        shape.spins.len() + shape.cats.len() > 0 ==> shape.batch() == (shape.spins
            + shape.cats)[0].len(),
        shape.spins.len() + shape.cats.len() == 0 ==> shape.batch() == 0,
{
    let groups = shape.spins + shape.cats;
    let lists = free + clamped;
    let sound = {
        &&& groups.len() > 0
        &&& groups[0].len() > 0
        &&& forall|g: int|
            #![trigger groups[g]]
            0 <= g < groups.len() ==> groups[g].len() == groups[0].len()
        &&& forall|g: int, i: int|
            #![trigger groups[g][i]]
            0 <= g < groups.len() && 0 <= i < groups[g].len() ==> in_some_block(
                lists,
                groups[g][i],
            )
        &&& forall|g: int, i: int|
            #![trigger shape.spins[g][i]]
            0 <= g < shape.spins.len() && 0 <= i < shape.spins[g].len()
                ==> kinds[shape.spins[g][i].0 as int] == NodeKind::Spin
    };
    if groups.len() > 0 {
        if shape.spins.len() > 0 {
            assert(groups[0] == shape.spins[0]);
        } else {
            assert(groups[0] == shape.cats[0]);
        }
    }
    if groups_error(kinds, free, clamped, shape) is None {
        lemma_groups(kinds, free, clamped, shape);
        assert forall|g: int| #![trigger groups[g]] 0 <= g < groups.len() implies groups[g].len()
            == groups[0].len() by {
            if g < shape.spins.len() {
                assert(groups[g] == shape.spins[g]);
            } else {
                assert(groups[g] == shape.cats[g - shape.spins.len()]);
            }
        }
        assert forall|g: int, i: int|
            #![trigger groups[g][i]]
            0 <= g < groups.len() && 0 <= i < groups[g].len() implies in_some_block(
            lists,
            groups[g][i],
        ) by {
            lemma_in_some_block(free, clamped, groups[g][i]);
            if g < shape.spins.len() {
                assert(groups[g] == shape.spins[g]);
                assert(covered(free, clamped, shape.spins[g][i]));
            } else {
                assert(groups[g] == shape.cats[g - shape.spins.len()]);
                assert(covered(free, clamped, shape.cats[g - shape.spins.len()][i]));
            }
        }
        assert(sound);
    }
    if sound {
        let check = group_check(free, clamped, groups, shape.batch());
        assert forall|g: int| 0 <= g < groups.len() implies (#[trigger] check(g)) is None by {
            let cover = cover_check(free, clamped, groups[g]);
            assert forall|i: int| 0 <= i < groups[g].len() implies (#[trigger] cover(
                i,
            )) is None by {
                assert(in_some_block(lists, groups[g][i]));
                lemma_in_some_block(free, clamped, groups[g][i]);
            }
            lemma_no_error(cover, groups[g].len() as int);
        }
        lemma_no_error(check, groups.len() as int);
        let spin_check = spin_group_check(kinds, shape.spins);
        assert forall|g: int| 0 <= g < shape.spins.len() implies (#[trigger] spin_check(
            g,
        )) is None by {
            let node_check = spin_node_check(kinds, shape.spins[g]);
            assert forall|i: int| 0 <= i < shape.spins[g].len() implies (#[trigger] node_check(
                i,
            )) is None by {
                assert(kinds[shape.spins[g][i].0 as int] == NodeKind::Spin);
            }
            lemma_no_error(node_check, shape.spins[g].len() as int);
        }
        lemma_no_error(spin_check, shape.spins.len() as int);
    }
}

proof fn lemma_factor(
    kinds: Seq<NodeKind>,
    free: Seq<Seq<Node>>,
    clamped: Seq<Seq<Node>>,
    shape: Shape,
    weight_count: nat,
)
    ensures
        factor_error(kinds, free, clamped, shape, weight_count) is None <==> sound_factor(
            kinds,
            free + clamped,
            shape,
            weight_count,
        ),
{
    lemma_groups_sound(kinds, free, clamped, shape);
    let groups = shape.spins + shape.cats;
    if groups_error(kinds, free, clamped, shape) is None {
        assert forall|c: int| 0 <= c < shape.cats.len() implies (
        #[trigger] shape.cats[c]).len() > 0 by {
            assert(groups[shape.spins.len() + c] == shape.cats[c]);
        }
        lemma_axes_sound(kinds, shape.cats, 0);
        lemma_axis_sizes(kinds, shape.cats, 0);
        assert(axis_sizes(kinds, shape.cats).skip(0) =~= axis_sizes(kinds, shape.cats));
    }
}

proof fn lemma_interactions<W>(
    kinds: Seq<NodeKind>,
    free: Seq<Seq<Node>>,
    factors: Seq<DiscreteFactor<W>>,
)
    ensures
        first_error(interaction_check(kinds, factors, free), free.len() as int) is None
            <==> forall|k: int|
            #![trigger factors[k]]
            0 <= k < factors.len() ==> kept_apart(free, factors[k].shape()),
{
    let outer = interaction_check(kinds, factors, free);
    if first_error(outer, free.len() as int) is None {
        assert forall|k: int| #![trigger factors[k]] 0 <= k < factors.len() implies kept_apart(
            free,
            factors[k].shape(),
        ) by {
            let shape = factors[k].shape();
            let groups = shape.spins + shape.cats;
            assert forall|i: int, t: int, u: int, b: int| !#[trigger] meet(
                free,
                shape,
                i,
                t,
                u,
                b,
            ) by {
                if meet(free, shape, i, t, u, b) {
                    lemma_meeting_is_reported(kinds, free, factors, k, i, t, u, b);
                }
            }
        }
    }
    if forall|k: int|
        #![trigger factors[k]]
        0 <= k < factors.len() ==> kept_apart(free, factors[k].shape()) {
        assert forall|b: int| 0 <= b < free.len() implies (#[trigger] outer(b)) is None by {
            let inner = interaction_node_check(kinds, factors, free[b]);
            assert forall|p: int| 0 <= p < free[b].len() implies (#[trigger] inner(p)) is None by {
                let node = free[b][p];
                let tails = all_tail_ids(node_records(kinds, factors, node, factors.len()));
                assert forall|y: int| 0 <= y < tails.len() implies (#[trigger] tail_check(
                    free[b],
                    node,
                    tails,
                )(y)) is None by {
                    let (k, i, t, u) = lemma_tail_place(kinds, factors, node, y);
                    assert(!meet(free, factors[k].shape(), i, t, u, b));
                }
                lemma_no_error(tail_check(free[b], node, tails), tails.len() as int);
            }
            lemma_no_error(inner, free[b].len() as int);
        }
        lemma_no_error(outer, free.len() as int);
    }
}

/// The instance and the two positions that put a node among the tails of another.
proof fn lemma_tail_place<W>(
    kinds: Seq<NodeKind>,
    factors: Seq<DiscreteFactor<W>>,
    node: Node,
    y: int,
) -> (r: (int, int, int, int))
    requires
        0 <= y < all_tail_ids(node_records(kinds, factors, node, factors.len())).len(),
    ensures
        0 <= r.0 < factors.len(),
        ({
            let shape = factors[r.0].shape();
            let groups = shape.spins + shape.cats;
            &&& groups.len() > 0
            &&& 0 <= r.1 < groups[0].len()
            &&& 0 <= r.2 < groups.len()
            &&& 0 <= r.3 < groups.len()
            &&& r.2 != r.3
            &&& groups[r.2][r.1] == node
            &&& groups[r.3][r.1] == Node(
                all_tail_ids(node_records(kinds, factors, node, factors.len()))[y],
            )
        }),
{
    let records = node_records(kinds, factors, node, factors.len());
    let (j, x) = lemma_tail_origin(records, y);
    let (k, i, t) = lemma_record_origin(kinds, factors, node, factors.len(), j);
    let shape = factors[k].shape();
    let base = weights_of(factors, k as nat).len() as int;
    let u = lemma_tail_is_other(kinds, shape, base, i, t, x);
    let groups = shape.spins + shape.cats;
    assert(groups[t][i] == head_node(shape, i, t));
    assert(groups[u][i] == head_node(shape, i, u));
    if shape.spins.len() > 0 {
        assert(groups[0] == shape.spins[0]);
    } else {
        assert(groups[0] == shape.cats[0]);
    }
    (k, i, t, u)
}

/// The nodes that a node meets are among its tails.
proof fn lemma_meeting_is_listed<W>(
    kinds: Seq<NodeKind>,
    free: Seq<Seq<Node>>,
    factors: Seq<DiscreteFactor<W>>,
    k: int,
    i: int,
    t: int,
    u: int,
    b: int,
) -> (r: (Seq<u32>, int))
    requires
        0 <= k < factors.len(),
        meet(free, factors[k].shape(), i, t, u, b),
    ensures
        ({
            let groups = factors[k].shape().spins + factors[k].shape().cats;
            &&& r.0 == all_tail_ids(node_records(kinds, factors, groups[t][i], factors.len()))
            &&& 0 <= r.1 < r.0.len()
            &&& Node(r.0[r.1]) == groups[u][i]
        }),
{
    let shape = factors[k].shape();
    let groups = shape.spins + shape.cats;
    let base = weights_of(factors, k as nat).len() as int;
    let node = groups[t][i];
    let other = groups[u][i];
    assert(node == head_node(shape, i, t) && other == head_node(shape, i, u));
    if shape.spins.len() > 0 {
        assert(groups[0] == shape.spins[0]);
    } else {
        assert(groups[0] == shape.cats[0]);
    }
    let record = head_record(kinds, shape, base, i, t);
    lemma_repeated_node_is_tail(kinds, shape, base, i, t, u);
    let x = choose|x: int| 0 <= x < record.tail_ids().len() && record.tail_ids()[x] == other.0;
    let records = node_records(kinds, factors, node, factors.len());
    let j = lemma_record_listed(kinds, factors, node, factors.len(), k, i, t);
    let y = lemma_tail_listed(records, j, x);
    (all_tail_ids(records), y)
}

proof fn lemma_meeting_is_reported<W>(
    kinds: Seq<NodeKind>,
    free: Seq<Seq<Node>>,
    factors: Seq<DiscreteFactor<W>>,
    k: int,
    i: int,
    t: int,
    u: int,
    b: int,
)
    requires
        0 <= k < factors.len(),
        meet(free, factors[k].shape(), i, t, u, b),
    ensures
        first_error(interaction_check(kinds, factors, free), free.len() as int) is Some,
{
    let node = (factors[k].shape().spins + factors[k].shape().cats)[t][i];
    let p = choose|p: int| 0 <= p < free[b].len() && free[b][p] == node;
    let (tails, y) = lemma_meeting_is_listed(kinds, free, factors, k, i, t, u, b);
    if first_error(interaction_check(kinds, factors, free), free.len() as int) is None {
        lemma_first_error_none(interaction_check(kinds, factors, free), free.len() as int, b);
        lemma_first_error_none(
            interaction_node_check(kinds, factors, free[b]),
            free[b].len() as int,
            p,
        );
        lemma_first_error_none(tail_check(free[b], node, tails), tails.len() as int, y);
        assert(free[b].contains(Node(tails[y])));
    }
}

/// A model compiles exactly if its blocks hold no node twice and can each be
/// updated as one, its factors fit the blocks, and no two nodes of a factor
/// instance are in one free block.
pub proof fn models_compile_exactly_if_sound<W>(
    kinds: Seq<NodeKind>,
    free: Seq<Seq<Node>>,
    clamped: Seq<Seq<Node>>,
    factors: Seq<DiscreteFactor<W>>,
)
    ensures
        model_error(kinds, free, clamped, factors) is None <==> {
            &&& (free + clamped).flatten().no_duplicates()
            &&& forall|b: int|
                0 <= b < free.len() + clamped.len() ==> sound_block(
                    kinds,
                    #[trigger] (free + clamped)[b],
                )
            &&& forall|k: int|
                #![trigger factors[k]]
                0 <= k < factors.len() ==> sound_factor(
                    kinds,
                    free + clamped,
                    factors[k].shape(),
                    factors[k].weights@.len(),
                ) && kept_apart(free, factors[k].shape())
        },
{
    lemma_all_nodes(free, clamped);
    let nodes = block_nodes(free, clamped);
    if first_repeat(nodes) is None {
        lemma_no_repeat(nodes);
    }
    if nodes.no_duplicates() {
        lemma_repeat_none(nodes);
    }
    lemma_blocks(kinds, free, clamped);
    lemma_factors(kinds, free, clamped, factors);
    lemma_interactions(kinds, free, factors);
}

proof fn lemma_factors<W>(
    kinds: Seq<NodeKind>,
    free: Seq<Seq<Node>>,
    clamped: Seq<Seq<Node>>,
    factors: Seq<DiscreteFactor<W>>,
)
    ensures
        factors_error(kinds, free, clamped, factors) is None <==> forall|k: int|
            #![trigger factors[k]]
            0 <= k < factors.len() ==> sound_factor(
                kinds,
                free + clamped,
                factors[k].shape(),
                factors[k].weights@.len(),
            ),
{
    let check = factor_check(kinds, free, clamped, factors);
    if factors_error(kinds, free, clamped, factors) is None {
        assert forall|k: int| #![trigger factors[k]] 0 <= k < factors.len() implies sound_factor(
            kinds,
            free + clamped,
            factors[k].shape(),
            factors[k].weights@.len(),
        ) by {
            lemma_first_error_none(check, factors.len() as int, k);
            lemma_factor(kinds, free, clamped, factors[k].shape(), factors[k].weights@.len());
        }
    }
    if forall|k: int|
        #![trigger factors[k]]
        0 <= k < factors.len() ==> sound_factor(
            kinds,
            free + clamped,
            factors[k].shape(),
            factors[k].weights@.len(),
        ) {
        assert forall|k: int| 0 <= k < factors.len() implies (#[trigger] check(k)) is None by {
            lemma_factor(kinds, free, clamped, factors[k].shape(), factors[k].weights@.len());
        }
        lemma_no_error(check, factors.len() as int);
    }
}

/// Where nodes repeat, the error names the first that has occurred before.
pub proof fn repeats_are_reported_first<W>(
    kinds: Seq<NodeKind>,
    free: Seq<Seq<Node>>,
    clamped: Seq<Seq<Node>>,
    factors: Seq<DiscreteFactor<W>>,
    j: int,
)
    requires
        0 <= j < (free + clamped).flatten().len(),
        (free + clamped).flatten().take(j).no_duplicates(),
        (free + clamped).flatten().take(j).contains((free + clamped).flatten()[j]),
    ensures
        model_error(kinds, free, clamped, factors) == Some(
            Error::DuplicateNode((free + clamped).flatten()[j]),
        ),
{
    lemma_all_nodes(free, clamped);
    let nodes = block_nodes(free, clamped);
    let prefix = nodes.take(j);
    lemma_repeat_none(prefix);
    lemma_repeat_push(prefix, nodes[j]);
    assert(prefix.push(nodes[j]) =~= nodes.take(j + 1));
    lemma_repeat_prefix(nodes, j + 1);
}

/// The error of a block that cannot be updated as one: it is empty, or its
/// first node has an improper number of states, or a node differs in kind
/// from the first.
pub open spec fn faults_block(kinds: Seq<NodeKind>, nodes: Seq<Node>, error: Error) -> bool {
    if nodes.len() == 0 {
        error == Error::EmptyBlock
    } else if states_of(kinds[nodes[0].0 as int]) < 2 || states_of(kinds[nodes[0].0 as int])
        > 256 {
        error == Error::BadStateCount(nodes[0])
    } else {
        exists|j: int|
            {
                &&& 0 <= j < nodes.len()
                &&& kinds[nodes[j].0 as int] != kinds[nodes[0].0 as int]
                &&& forall|h: int|
                    #![trigger nodes[h]]
                    0 <= h < j ==> kinds[nodes[h].0 as int] == kinds[nodes[0].0 as int]
                &&& error == Error::MixedBlock(nodes[0], #[trigger] nodes[j])
            }
    }
}

proof fn lemma_block_fault(kinds: Seq<NodeKind>, nodes: Seq<Node>)
    requires
        !sound_block(kinds, nodes),
    ensures
        block_error(kinds, nodes) is Some,
        faults_block(kinds, nodes, block_error(kinds, nodes).unwrap()),
{
    lemma_block(kinds, nodes);
    let n = nodes.len() as int;
    let check = mixed_check(kinds, nodes);
    if n > 0 && proper(kinds[nodes[0].0 as int]) {
        let j = lemma_first_fault(check, n);
        assert forall|h: int| #![trigger nodes[h]] 0 <= h < j implies kinds[nodes[h].0 as int]
            == kinds[nodes[0].0 as int] by {
            assert(check(h) is None);
        }
        assert(nodes[j] == nodes[j]);
    }
}

/// Without repeats, the error is that of the first block that cannot be
/// updated as one.
pub proof fn faulty_blocks_are_reported_next<W>(
    kinds: Seq<NodeKind>,
    free: Seq<Seq<Node>>,
    clamped: Seq<Seq<Node>>,
    factors: Seq<DiscreteFactor<W>>,
    b: int,
)
    requires
        (free + clamped).flatten().no_duplicates(),
        0 <= b < free.len() + clamped.len(),
        !sound_block(kinds, (free + clamped)[b]),
        forall|a: int| 0 <= a < b ==> sound_block(kinds, #[trigger] (free + clamped)[a]),
    ensures
        model_error(kinds, free, clamped, factors) matches Some(error) && faults_block(
            kinds,
            (free + clamped)[b],
            error,
        ),
{
    let lists = free + clamped;
    lemma_all_nodes(free, clamped);
    lemma_repeat_none(block_nodes(free, clamped));
    lemma_block_fault(kinds, lists[b]);
    let first = block_check(kinds, free);
    let second = block_check(kinds, clamped);
    if b < free.len() {
        assert forall|a: int| 0 <= a < b implies (#[trigger] first(a)) is None by {
            assert(sound_block(kinds, lists[a]));
            lemma_block(kinds, free[a]);
        }
        lemma_no_error(first, b);
        lemma_first_error_some(first, free.len() as int, b);
    } else {
        let c = b - free.len();
        assert forall|a: int| 0 <= a < free.len() implies (#[trigger] first(a)) is None by {
            assert(sound_block(kinds, lists[a]));
            lemma_block(kinds, free[a]);
        }
        lemma_no_error(first, free.len() as int);
        assert forall|a: int| 0 <= a < c implies (#[trigger] second(a)) is None by {
            assert(sound_block(kinds, lists[free.len() + a]));
            lemma_block(kinds, clamped[a]);
        }
        lemma_no_error(second, c);
        lemma_first_error_some(second, clamped.len() as int, c);
    }
}

/// The first position with an error.
proof fn lemma_first_fault(check: spec_fn(int) -> Option<Error>, n: int) -> (j: int)
    requires
        first_error(check, n) is Some,
    ensures
        0 <= j < n,
        check(j) is Some,
        first_error(check, n) == check(j),
        forall|i: int| 0 <= i < j ==> (#[trigger] check(i)) is None,
    decreases n,
{
    if first_error(check, n - 1) is Some {
        lemma_first_fault(check, n - 1)
    } else {
        assert forall|i: int| 0 <= i < n - 1 implies (#[trigger] check(i)) is None by {
            lemma_first_error_none(check, n - 1, i);
        }
        n - 1
    }
}

/// Whether a group has the length of the others and nodes of the blocks only.
pub open spec fn sound_group(lists: Seq<Seq<Node>>, nodes: Seq<Node>, batch: nat) -> bool {
    &&& nodes.len() == batch
    &&& forall|i: int|
        0 <= i < nodes.len() ==> in_some_block(lists, #[trigger] nodes[i])
}

/// The error of a group: another length, or else its first node that is in no block.
pub open spec fn faults_group(
    lists: Seq<Seq<Node>>,
    nodes: Seq<Node>,
    batch: nat,
    error: Error,
) -> bool {
    if nodes.len() != batch {
        error == Error::GroupLengthMismatch
    } else {
        exists|i: int|
            {
                &&& 0 <= i < nodes.len()
                &&& !in_some_block(lists, nodes[i])
                &&& forall|h: int| 0 <= h < i ==> in_some_block(lists, #[trigger] nodes[h])
                &&& error == Error::UncoveredNode(#[trigger] nodes[i])
            }
    }
}

/// The error of a spin group: its first node that is no spin.
pub open spec fn faults_spins(kinds: Seq<NodeKind>, nodes: Seq<Node>, error: Error) -> bool {
    exists|i: int|
        {
            &&& 0 <= i < nodes.len()
            &&& kinds[nodes[i].0 as int] != NodeKind::Spin
            &&& forall|h: int|
                #![trigger nodes[h]]
                0 <= h < i ==> kinds[nodes[h].0 as int] == NodeKind::Spin
            &&& error == Error::GroupKindMismatch(#[trigger] nodes[i])
        }
}

/// The error of a categorical group: a first node that is a spin or has an
/// improper number of states, or else the first node of another kind.
pub open spec fn faults_axis(kinds: Seq<NodeKind>, nodes: Seq<Node>, error: Error) -> bool {
    let first = kinds[nodes[0].0 as int];
    if first == NodeKind::Spin {
        error == Error::GroupKindMismatch(nodes[0])
    } else if states_of(first) < 2 || states_of(first) > 256 {
        error == Error::BadStateCount(nodes[0])
    } else {
        exists|i: int|
            {
                &&& 0 <= i < nodes.len()
                &&& kinds[nodes[i].0 as int] != first
                &&& forall|h: int|
                    #![trigger nodes[h]]
                    0 <= h < i ==> kinds[nodes[h].0 as int] == first
                &&& error == if kinds[nodes[i].0 as int] == NodeKind::Spin {
                    Error::GroupKindMismatch(nodes[i])
                } else {
                    Error::MixedBlock(nodes[0], #[trigger] nodes[i])
                }
            }
    }
}

/// The error of a factor that does not fit its blocks. The groups are looked
/// at for their length and their blocks, then the spin groups for their kind,
/// then the categorical groups from the last to the first, then the weights.
pub open spec fn faults_factor(
    kinds: Seq<NodeKind>,
    lists: Seq<Seq<Node>>,
    shape: Shape,
    weight_count: nat,
    error: Error,
) -> bool {
    let groups = shape.spins + shape.cats;
    let batch = if groups.len() > 0 {
        groups[0].len()
    } else {
        0
    };
    let no_axis_after = |c: int|
        forall|d: int|
            #![trigger shape.cats[d]]
            c < d < shape.cats.len() ==> sound_block(kinds, shape.cats[d])
                && kinds[shape.cats[d][0].0 as int] != NodeKind::Spin;
    if batch == 0 {
        error == Error::EmptyBlock
    } else if exists|g: int|
        0 <= g < groups.len() && !sound_group(lists, #[trigger] groups[g], batch) {
        exists|g: int|
            {
                &&& 0 <= g < groups.len()
                &&& !sound_group(lists, #[trigger] groups[g], batch)
                &&& forall|h: int|
                    0 <= h < g ==> sound_group(lists, #[trigger] groups[h], batch)
                &&& faults_group(lists, groups[g], batch, error)
            }
    } else if exists|g: int, i: int|
        #![trigger shape.spins[g][i]]
        0 <= g < shape.spins.len() && 0 <= i < shape.spins[g].len()
            && kinds[shape.spins[g][i].0 as int] != NodeKind::Spin {
        exists|g: int|
            {
                &&& 0 <= g < shape.spins.len()
                &&& forall|h: int, i: int|
                    #![trigger shape.spins[h][i]]
                    0 <= h < g && 0 <= i < shape.spins[h].len()
                        ==> kinds[shape.spins[h][i].0 as int] == NodeKind::Spin
                &&& faults_spins(kinds, #[trigger] shape.spins[g], error)
            }
    } else if !no_axis_after(-1) {
        exists|c: int|
            {
                &&& 0 <= c < shape.cats.len()
                &&& no_axis_after(c)
                &&& faults_axis(kinds, #[trigger] shape.cats[c], error)
            }
    } else {
        error == Error::WeightLengthMismatch {
            expected: (batch * product_of(axis_sizes(kinds, shape.cats))) as usize,
            actual: weight_count as usize,
        }
    }
}

proof fn lemma_group_fault(
    free: Seq<Seq<Node>>,
    clamped: Seq<Seq<Node>>,
    groups: Seq<Seq<Node>>,
    batch: nat,
    g: int,
)
    requires
        0 <= g < groups.len(),
    ensures
        match group_check(free, clamped, groups, batch)(g) {
            Some(error) => !sound_group(free + clamped, groups[g], batch) && faults_group(
                free + clamped,
                groups[g],
                batch,
                error,
            ),
            None => sound_group(free + clamped, groups[g], batch),
        },
{
    let nodes = groups[g];
    let n = nodes.len() as int;
    let cover = cover_check(free, clamped, nodes);
    let lists = free + clamped;
    if n == batch {
        if first_error(cover, n) is Some {
            let i = lemma_first_fault(cover, n);
            lemma_in_some_block(free, clamped, nodes[i]);
            assert forall|h: int| 0 <= h < i implies in_some_block(lists, #[trigger] nodes[h]) by {
                assert(cover(h) is None);
                lemma_in_some_block(free, clamped, nodes[h]);
            }
            assert(!in_some_block(lists, nodes[i]));
        } else {
            assert forall|i: int| 0 <= i < n implies in_some_block(lists, #[trigger] nodes[i]) by {
                lemma_first_error_none(cover, n, i);
                lemma_in_some_block(free, clamped, nodes[i]);
            }
        }
    }
}

proof fn lemma_spin_fault(kinds: Seq<NodeKind>, nodes: Seq<Node>)
    ensures
        match first_error(spin_node_check(kinds, nodes), nodes.len() as int) {
            Some(error) => faults_spins(kinds, nodes, error) && exists|i: int|
                0 <= i < nodes.len() && kinds[(#[trigger] nodes[i]).0 as int] != NodeKind::Spin,
            None => forall|i: int|
                #![trigger nodes[i]]
                0 <= i < nodes.len() ==> kinds[nodes[i].0 as int] == NodeKind::Spin,
        },
{
    let n = nodes.len() as int;
    let check = spin_node_check(kinds, nodes);
    if first_error(check, n) is Some {
        let i = lemma_first_fault(check, n);
        assert forall|h: int| #![trigger nodes[h]] 0 <= h < i implies kinds[nodes[h].0 as int]
            == NodeKind::Spin by {
            assert(check(h) is None);
        }
        assert(kinds[nodes[i].0 as int] != NodeKind::Spin);
    } else {
        assert forall|i: int| #![trigger nodes[i]] 0 <= i < n implies kinds[nodes[i].0 as int]
            == NodeKind::Spin by {
            lemma_first_error_none(check, n, i);
        }
    }
}

proof fn lemma_axis_fault(kinds: Seq<NodeKind>, nodes: Seq<Node>)
    requires
        nodes.len() > 0,
        axis_error(kinds, nodes) is Some,
    ensures
        faults_axis(kinds, nodes, axis_error(kinds, nodes).unwrap()),
{
    let n = nodes.len() as int;
    let check = axis_node_check(kinds, nodes);
    let first = kinds[nodes[0].0 as int];
    if first != NodeKind::Spin && proper(first) {
        let i = lemma_first_fault(check, n);
        assert forall|h: int| #![trigger nodes[h]] 0 <= h < i implies kinds[nodes[h].0 as int]
            == first by {
            assert(check(h) is None);
        }
        assert(kinds[nodes[i].0 as int] != first);
    }
}

proof fn lemma_axes_fault(kinds: Seq<NodeKind>, cats: Seq<Seq<Node>>, from: int) -> (c: int)
    requires
        0 <= from <= cats.len(),
        forall|c: int| 0 <= c < cats.len() ==> (#[trigger] cats[c]).len() > 0,
        axes_error(kinds, cats, from) is Some,
    ensures
        from <= c < cats.len(),
        axis_error(kinds, cats[c]) == axes_error(kinds, cats, from),
        forall|d: int|
            #![trigger cats[d]]
            c < d < cats.len() ==> sound_block(kinds, cats[d]) && kinds[cats[d][0].0 as int]
                != NodeKind::Spin,
    decreases cats.len() - from,
{
    if axes_error(kinds, cats, from + 1) is Some {
        lemma_axes_fault(kinds, cats, from + 1)
    } else {
        lemma_axes_sound(kinds, cats, from + 1);
        from
    }
}

proof fn lemma_factor_fault(
    kinds: Seq<NodeKind>,
    free: Seq<Seq<Node>>,
    clamped: Seq<Seq<Node>>,
    shape: Shape,
    weight_count: nat,
)
    requires
        factor_error(kinds, free, clamped, shape, weight_count) is Some,
    ensures
        faults_factor(
            kinds,
            free + clamped,
            shape,
            weight_count,
            factor_error(kinds, free, clamped, shape, weight_count).unwrap(),
        ),
{
    lemma_groups_sound(kinds, free, clamped, shape);
    let lists = free + clamped;
    let groups = shape.spins + shape.cats;
    let batch = shape.batch();
    let check = group_check(free, clamped, groups, batch);
    let spin_check = spin_group_check(kinds, shape.spins);
    if batch > 0 {
        if first_error(check, groups.len() as int) is Some {
            let g = lemma_first_fault(check, groups.len() as int);
            lemma_group_fault(free, clamped, groups, batch, g);
            assert forall|h: int| 0 <= h < g implies sound_group(
                lists,
                #[trigger] groups[h],
                batch,
            ) by {
                assert(check(h) is None);
                lemma_group_fault(free, clamped, groups, batch, h);
            }
            assert(!sound_group(lists, groups[g], batch));
        } else {
            assert forall|g: int| 0 <= g < groups.len() implies sound_group(
                lists,
                #[trigger] groups[g],
                batch,
            ) by {
                lemma_first_error_none(check, groups.len() as int, g);
                lemma_group_fault(free, clamped, groups, batch, g);
            }
            if first_error(spin_check, shape.spins.len() as int) is Some {
                let g = lemma_first_fault(spin_check, shape.spins.len() as int);
                lemma_spin_fault(kinds, shape.spins[g]);
                let i = choose|i: int|
                    0 <= i < shape.spins[g].len() && kinds[(
                    #[trigger] shape.spins[g][i]).0 as int] != NodeKind::Spin;
                assert(kinds[shape.spins[g][i].0 as int] != NodeKind::Spin);
                assert forall|h: int, i: int|
                    #![trigger shape.spins[h][i]]
                    0 <= h < g && 0 <= i
                        < shape.spins[h].len() implies kinds[shape.spins[h][i].0 as int]
                    == NodeKind::Spin by {
                    assert(spin_check(h) is None);
                    lemma_spin_fault(kinds, shape.spins[h]);
                }
                assert(faults_spins(
                    kinds,
                    shape.spins[g],
                    factor_error(kinds, free, clamped, shape, weight_count).unwrap(),
                ));
            } else {
                assert forall|g: int, i: int|
                    #![trigger shape.spins[g][i]]
                    0 <= g < shape.spins.len() && 0 <= i
                        < shape.spins[g].len() implies kinds[shape.spins[g][i].0 as int]
                    == NodeKind::Spin by {
                    lemma_first_error_none(spin_check, shape.spins.len() as int, g);
                    lemma_spin_fault(kinds, shape.spins[g]);
                }
                assert forall|c: int| 0 <= c < shape.cats.len() implies (
                #[trigger] shape.cats[c]).len() > 0 by {
                    assert(groups[shape.spins.len() + c] == shape.cats[c]);
                    assert(sound_group(lists, groups[shape.spins.len() + c], batch));
                }
                lemma_axes_sound(kinds, shape.cats, 0);
                if axes_error(kinds, shape.cats, 0) is Some {
                    let c = lemma_axes_fault(kinds, shape.cats, 0);
                    lemma_axis_fault(kinds, shape.cats[c]);
                } else {
                    lemma_axis_sizes(kinds, shape.cats, 0);
                    assert(axis_sizes(kinds, shape.cats).skip(0) =~= axis_sizes(
                        kinds,
                        shape.cats,
                    ));
                }
            }
        }
    }
}

/// With sound blocks, the error is that of the first factor that does not fit them.
pub proof fn faulty_factors_are_reported_next<W>(
    kinds: Seq<NodeKind>,
    free: Seq<Seq<Node>>,
    clamped: Seq<Seq<Node>>,
    factors: Seq<DiscreteFactor<W>>,
    k: int,
)
    requires
        (free + clamped).flatten().no_duplicates(),
        forall|b: int|
            0 <= b < free.len() + clamped.len() ==> sound_block(
                kinds,
                #[trigger] (free + clamped)[b],
            ),
        0 <= k < factors.len(),
        !sound_factor(kinds, free + clamped, factors[k].shape(), factors[k].weights@.len()),
        forall|h: int|
            #![trigger factors[h]]
            0 <= h < k ==> sound_factor(
                kinds,
                free + clamped,
                factors[h].shape(),
                factors[h].weights@.len(),
            ),
    ensures
        model_error(kinds, free, clamped, factors) matches Some(error) && faults_factor(
            kinds,
            free + clamped,
            factors[k].shape(),
            factors[k].weights@.len(),
            error,
        ),
{
    lemma_all_nodes(free, clamped);
    lemma_repeat_none(block_nodes(free, clamped));
    lemma_blocks(kinds, free, clamped);
    let check = factor_check(kinds, free, clamped, factors);
    assert forall|h: int| 0 <= h < k implies (#[trigger] check(h)) is None by {
        lemma_factor(kinds, free, clamped, factors[h].shape(), factors[h].weights@.len());
    }
    lemma_no_error(check, k);
    lemma_factor(kinds, free, clamped, factors[k].shape(), factors[k].weights@.len());
    lemma_factor_fault(kinds, free, clamped, factors[k].shape(), factors[k].weights@.len());
    lemma_first_error_some(check, factors.len() as int, k);
}

/// Whether a node meets another node of its block in some instance.
pub open spec fn meets_its_block<W>(
    free: Seq<Seq<Node>>,
    factors: Seq<DiscreteFactor<W>>,
    b: int,
    node: Node,
) -> bool {
    exists|k: int, i: int, t: int, u: int|
        0 <= k < factors.len() && #[trigger] meet(free, factors[k].shape(), i, t, u, b) && (
        factors[k].shape().spins + factors[k].shape().cats)[t][i] == node
}

/// With sound blocks and factors, an error is left only where two nodes of an
/// instance are in one free block. It names the first such node of the first
/// such block, and one that it meets.
pub proof fn interactions_are_reported_last<W>(
    kinds: Seq<NodeKind>,
    free: Seq<Seq<Node>>,
    clamped: Seq<Seq<Node>>,
    factors: Seq<DiscreteFactor<W>>,
)
    requires
        (free + clamped).flatten().no_duplicates(),
        forall|b: int|
            0 <= b < free.len() + clamped.len() ==> sound_block(
                kinds,
                #[trigger] (free + clamped)[b],
            ),
        forall|k: int|
            #![trigger factors[k]]
            0 <= k < factors.len() ==> sound_factor(
                kinds,
                free + clamped,
                factors[k].shape(),
                factors[k].weights@.len(),
            ),
        model_error(kinds, free, clamped, factors) is Some,
    ensures
        exists|k: int, i: int, t: int, u: int, b: int, p: int|
            #![trigger meet(free, factors[k].shape(), i, t, u, b), free[b][p]]
            {
                let groups = factors[k].shape().spins + factors[k].shape().cats;
                &&& 0 <= k < factors.len()
                &&& meet(free, factors[k].shape(), i, t, u, b)
                &&& 0 <= p < free[b].len()
                &&& groups[t][i] == free[b][p]
                &&& model_error(kinds, free, clamped, factors) == Some(
                    Error::IntraBlockInteraction(free[b][p], groups[u][i]),
                )
                &&& forall|q: int|
                    0 <= q < p ==> !meets_its_block(free, factors, b, #[trigger] free[b][q])
                &&& forall|a: int, q: int|
                    #![trigger free[a][q]]
                    0 <= a < b && 0 <= q < free[a].len() ==> !meets_its_block(
                        free,
                        factors,
                        a,
                        free[a][q],
                    )
            },
{
    lemma_all_nodes(free, clamped);
    lemma_repeat_none(block_nodes(free, clamped));
    lemma_blocks(kinds, free, clamped);
    lemma_factors(kinds, free, clamped, factors);
    let outer = interaction_check(kinds, factors, free);
    let b = lemma_first_fault(outer, free.len() as int);
    let inner = interaction_node_check(kinds, factors, free[b]);
    let p = lemma_first_fault(inner, free[b].len() as int);
    let node = free[b][p];
    let tails = all_tail_ids(node_records(kinds, factors, node, factors.len()));
    let y = lemma_error_origin(tail_check(free[b], node, tails), tails.len() as int);
    let (k, i, t, u) = lemma_tail_place(kinds, factors, node, y);
    assert(free[b].contains(node));
    assert(meet(free, factors[k].shape(), i, t, u, b));
    assert forall|q: int| 0 <= q < p implies !meets_its_block(
        free,
        factors,
        b,
        #[trigger] free[b][q],
    ) by {
        assert(inner(q) is None);
        lemma_silent_node_meets_none(kinds, free, factors, b, q);
    }
    assert forall|a: int, q: int|
        #![trigger free[a][q]]
        0 <= a < b && 0 <= q < free[a].len() implies !meets_its_block(
        free,
        factors,
        a,
        free[a][q],
    ) by {
        assert(outer(a) is None);
        lemma_first_error_none(
            interaction_node_check(kinds, factors, free[a]),
            free[a].len() as int,
            q,
        );
        lemma_silent_node_meets_none(kinds, free, factors, a, q);
    }
}

proof fn lemma_silent_node_meets_none<W>(
    kinds: Seq<NodeKind>,
    free: Seq<Seq<Node>>,
    factors: Seq<DiscreteFactor<W>>,
    b: int,
    q: int,
)
    requires
        0 <= b < free.len(),
        0 <= q < free[b].len(),
        interaction_node_check(kinds, factors, free[b])(q) is None,
    ensures
        !meets_its_block(free, factors, b, free[b][q]),
{
    let node = free[b][q];
    if meets_its_block(free, factors, b, node) {
        let (k, i, t, u) = choose|k: int, i: int, t: int, u: int|
            0 <= k < factors.len() && #[trigger] meet(free, factors[k].shape(), i, t, u, b) && (
            factors[k].shape().spins + factors[k].shape().cats)[t][i] == node;
        let (tails, y) = lemma_meeting_is_listed(kinds, free, factors, k, i, t, u, b);
        lemma_first_error_none(tail_check(free[b], node, tails), tails.len() as int, y);
        assert(free[b].contains(Node(tails[y])));
    }
}

/// Blocks of the graph can always be read.
pub proof fn blocks_of_the_graph_are_readable(
    kinds: Seq<NodeKind>,
    free: Seq<Seq<Node>>,
    clamped: Seq<Seq<Node>>,
)
    requires
        forall|b: int, p: int|
            #![trigger (free + clamped)[b][p]]
            0 <= b < free.len() + clamped.len() && 0 <= p < (free + clamped)[b].len() ==> ((free
                + clamped)[b][p].0 as int) < kinds.len(),
    ensures
        blocks_readable(kinds, free, clamped),
{
    let lists = free + clamped;
    assert forall|b: int, j: int|
        #![trigger free[b][j]]
        0 <= b < free.len() && 0 <= j < free[b].len() implies (free[b][j].0 as int)
        < kinds.len() by {
        assert(lists[b][j] == free[b][j]);
    }
    assert forall|b: int, j: int|
        #![trigger clamped[b][j]]
        0 <= b < clamped.len() && 0 <= j < clamped[b].len() implies (clamped[b][j].0 as int)
        < kinds.len() by {
        assert(lists[free.len() + b][j] == clamped[b][j]);
    }
}

/// The words that the records of a factor take at most: for every instance
/// and every node of it a header of three, one for every spin and two for
/// every categorical node.
pub open spec fn factor_words<W>(factors: Seq<DiscreteFactor<W>>) -> Seq<int> {
    Seq::new(
        factors.len(),
        |k: int|
            {
                let shape = factors[k].shape();
                let groups = shape.spins + shape.cats;
                if groups.len() == 0 {
                    0
                } else {
                    (groups[0].len() * (groups.len() * (3 + shape.spins.len() + 2
                        * shape.cats.len()))) as int
                }
            },
    )
}

/// The weights of the factors.
pub open spec fn weight_counts<W>(factors: Seq<DiscreteFactor<W>>) -> Seq<int> {
    Seq::new(factors.len(), |k: int| factors[k].weights@.len() as int)
}

/// A model whose weights and records can each be counted in a word is small,
/// as long as no instance has more than 65535 nodes in spin groups or in
/// categorical groups, and the categories of an instance have no more
/// combinations than a word counts.
pub proof fn countable_models_are_small<W>(
    kinds: Seq<NodeKind>,
    free: Seq<Seq<Node>>,
    clamped: Seq<Seq<Node>>,
    factors: Seq<DiscreteFactor<W>>,
)
    requires
        sum_of(weight_counts(factors)) <= 0xFFFF_FFFF,
        sum_of(factor_words(factors)) <= 0xFFFF_FFFF,
        forall|k: int|
            #![trigger factors[k]]
            0 <= k < factors.len() ==> {
                let shape = factors[k].shape();
                &&& shape.spins.len() <= 65535
                &&& shape.cats.len() <= 65535
                &&& forall|n: int|
                    0 <= n <= shape.cats.len() ==> product_of(
                        #[trigger] axis_sizes(kinds, shape.cats).skip(n),
                    ) <= 0xFFFF_FFFF
                &&& shape.batch() * product_of(axis_sizes(kinds, shape.cats)) <= usize::MAX
            },
    ensures
        small(kinds, free, clamped, factors),
        compile_fits(kinds, free, clamped, factors),
{
    lemma_stream_sum(factors, factors.len());
    assert(factor_words(factors).take(factors.len() as int) =~= factor_words(factors));
    assert forall|k: int| 0 <= k < factors.len() implies #[trigger] fits_at(
        kinds,
        free,
        clamped,
        factors,
        k,
    ) by {
        reveal(fits_at);
        let shape = factors[k].shape();
        let sizes = axis_sizes(kinds, shape.cats);
        assert forall|c: int| 0 <= c < shape.cats.len() implies #[trigger] axis_product(
            kinds,
            shape.cats,
            c,
        ) <= u32::MAX by {
            lemma_axis_sizes(kinds, shape.cats, c);
            assert(product_of(sizes.skip(c)) <= 0xFFFF_FFFF);
        }
        lemma_axis_sizes(kinds, shape.cats, 0);
        assert(sizes.skip(0) =~= sizes);
        lemma_weight_sum(factors, (k + 1) as nat);
        lemma_weights_prefix(factors, (k + 1) as nat, factors.len());
        lemma_weight_sum(factors, factors.len());
        assert(weight_counts(factors).take(factors.len() as int) =~= weight_counts(factors));
    }
    small_models_fit(kinds, free, clamped, factors);
}

proof fn lemma_weight_sum<W>(factors: Seq<DiscreteFactor<W>>, count: nat)
    requires
        count <= factors.len(),
    ensures
        weights_of(factors, count).len() == sum_of(weight_counts(factors).take(count as int)),
    decreases count,
{
    let all = weight_counts(factors);
    if count > 0 {
        lemma_weight_sum(factors, (count - 1) as nat);
        assert(all.take(count as int).drop_last() =~= all.take(count - 1));
    }
}

proof fn lemma_stream_sum<W>(factors: Seq<DiscreteFactor<W>>, count: nat)
    requires
        count <= factors.len(),
    ensures
        stream_words(factors, count) == sum_of(factor_words(factors).take(count as int)),
    decreases count,
{
    let all = factor_words(factors);
    if count > 0 {
        lemma_stream_sum(factors, (count - 1) as nat);
        assert(all.take(count as int).drop_last() =~= all.take(count - 1));
        let shape = factors[count - 1].shape();
        let groups = shape.spins + shape.cats;
        if shape.spins.len() > 0 {
            assert(groups[0] == shape.spins[0]);
        } else if shape.cats.len() > 0 {
            assert(groups[0] == shape.cats[0]);
        } else {
            assert(shape.batch() == 0);
            assert(0 * (head_count(shape) * (3 + shape.spins.len() + 2 * shape.cats.len())) == 0)
                by (nonlinear_arith);
        }
    }
}

} // verus!
