//! What a model compiles to: the update records of every node, and their
//! layout in per-block streams.

use vstd::prelude::*;

use crate::checks::{
    axes_error, either_error, factor_check, factor_error, first_error, groups_error,
    lemma_first_error_none, partition_error,
};
use crate::error::Error;
use crate::factor::{axis_product, DiscreteFactor, Shape};
use crate::graph::{Node, NodeKind};
use crate::record::{all_tail_ids, encode_all, RecordView, MAX_TAILS};

verus! {

/// The spin node ids of instance `i`, by group.
pub open spec fn spin_ids(shape: Shape, i: int) -> Seq<u32> {
    Seq::new(shape.spins.len(), |g: int| shape.spins[g][i].0)
}

/// The categorical node ids of instance `i` with the strides of their axes, by group.
pub open spec fn cat_pairs(kinds: Seq<NodeKind>, shape: Shape, i: int) -> Seq<(u32, u32)> {
    Seq::new(
        shape.cats.len(),
        |c: int| (shape.cats[c][i].0, axis_product(kinds, shape.cats, c + 1) as u32),
    )
}

/// Number of nodes of one instance.
pub open spec fn head_count(shape: Shape) -> nat {
    shape.spins.len() + shape.cats.len()
}

/// The node at position `t` of instance `i`: spins come first.
pub open spec fn head_node(shape: Shape, i: int, t: int) -> Node {
    if t < shape.spins.len() {
        shape.spins[t][i]
    } else {
        shape.cats[t - shape.spins.len()][i]
    }
}

/// The record that instance `i` contributes to its node at position `t`,
/// for a factor whose weights start at `base`: the other nodes are its tails.
pub open spec fn head_record(
    kinds: Seq<NodeKind>,
    shape: Shape,
    base: int,
    i: int,
    t: int,
) -> RecordView {
    let weight_base = (base + i * axis_product(kinds, shape.cats, 0)) as u32;
    let n_spins = shape.spins.len();
    if t < n_spins {
        RecordView {
            weight_base,
            head_stride: 0,
            spin_tails: spin_ids(shape, i).remove(t),
            cat_tails: cat_pairs(kinds, shape, i),
        }
    } else {
        RecordView {
            weight_base,
            head_stride: cat_pairs(kinds, shape, i)[t - n_spins].1,
            spin_tails: spin_ids(shape, i),
            cat_tails: cat_pairs(kinds, shape, i).remove(t - n_spins),
        }
    }
}

/// The records that the first `count` positions of instance `i` contribute to a node.
pub open spec fn instance_records(
    kinds: Seq<NodeKind>,
    shape: Shape,
    base: int,
    node: Node,
    i: int,
    count: nat,
) -> Seq<RecordView>
    decreases count,
{
    if count == 0 {
        Seq::empty()
    } else {
        let before = instance_records(kinds, shape, base, node, i, (count - 1) as nat);
        if head_node(shape, i, count - 1) == node {
            before.push(head_record(kinds, shape, base, i, count - 1))
        } else {
            before
        }
    }
}

/// The records that the first `count` instances of a factor contribute to a node.
pub open spec fn factor_records(
    kinds: Seq<NodeKind>,
    shape: Shape,
    base: int,
    node: Node,
    count: nat,
) -> Seq<RecordView>
    decreases count,
{
    if count == 0 {
        Seq::empty()
    } else {
        factor_records(kinds, shape, base, node, (count - 1) as nat) + instance_records(
            kinds,
            shape,
            base,
            node,
            count - 1,
            head_count(shape),
        )
    }
}

/// The weights of the first `count` factors, one after the other.
pub open spec fn weights_of<W>(factors: Seq<DiscreteFactor<W>>, count: nat) -> Seq<W>
    decreases count,
{
    if count == 0 {
        Seq::empty()
    } else {
        weights_of(factors, (count - 1) as nat) + factors[count - 1].weights@
    }
}

/// The records that the first `count` factors contribute to a node.
pub open spec fn node_records<W>(
    kinds: Seq<NodeKind>,
    factors: Seq<DiscreteFactor<W>>,
    node: Node,
    count: nat,
) -> Seq<RecordView>
    decreases count,
{
    if count == 0 {
        Seq::empty()
    } else {
        node_records(kinds, factors, node, (count - 1) as nat) + factor_records(
            kinds,
            factors[count - 1].shape(),
            weights_of(factors, (count - 1) as nat).len() as int,
            node,
            factors[count - 1].shape().batch(),
        )
    }
}

/// The update stream of the first `count` nodes of a block.
pub open spec fn block_stream<W>(
    kinds: Seq<NodeKind>,
    factors: Seq<DiscreteFactor<W>>,
    nodes: Seq<Node>,
    count: nat,
) -> Seq<u32>
    decreases count,
{
    if count == 0 {
        Seq::empty()
    } else {
        block_stream(kinds, factors, nodes, (count - 1) as nat) + encode_all(
            node_records(kinds, factors, nodes[count - 1], factors.len()),
        )
    }
}

pub open spec fn tail_check(block: Seq<Node>, node: Node, tails: Seq<u32>) -> spec_fn(
    int,
) -> Option<Error> {
    |j: int|
        if block.contains(Node(tails[j])) {
            Some(Error::IntraBlockInteraction(node, Node(tails[j])))
        } else {
            None
        }
}

/// The first node of its own block that the records of a node read.
pub open spec fn interaction_error<W>(
    kinds: Seq<NodeKind>,
    factors: Seq<DiscreteFactor<W>>,
    block: Seq<Node>,
    node: Node,
) -> Option<Error> {
    let tails = all_tail_ids(node_records(kinds, factors, node, factors.len()));
    first_error(tail_check(block, node, tails), tails.len() as int)
}

pub open spec fn interaction_node_check<W>(
    kinds: Seq<NodeKind>,
    factors: Seq<DiscreteFactor<W>>,
    block: Seq<Node>,
) -> spec_fn(int) -> Option<Error> {
    |p: int| interaction_error(kinds, factors, block, block[p])
}

pub open spec fn interaction_check<W>(
    kinds: Seq<NodeKind>,
    factors: Seq<DiscreteFactor<W>>,
    free: Seq<Seq<Node>>,
) -> spec_fn(int) -> Option<Error> {
    |b: int|
        first_error(interaction_node_check(kinds, factors, free[b]), free[b].len() as int)
}

/// Errors in the factors and in how they fit the blocks.
pub open spec fn factors_error<W>(
    kinds: Seq<NodeKind>,
    free: Seq<Seq<Node>>,
    clamped: Seq<Seq<Node>>,
    factors: Seq<DiscreteFactor<W>>,
) -> Option<Error> {
    first_error(factor_check(kinds, free, clamped, factors), factors.len() as int)
}

/// Why a model cannot be compiled: errors of the partition come first, then
/// those of the factors, in order, then interactions within a free block.
pub open spec fn model_error<W>(
    kinds: Seq<NodeKind>,
    free: Seq<Seq<Node>>,
    clamped: Seq<Seq<Node>>,
    factors: Seq<DiscreteFactor<W>>,
) -> Option<Error> {
    either_error(
        partition_error(kinds, free, clamped),
        either_error(
            factors_error(kinds, free, clamped, factors),
            first_error(interaction_check(kinds, factors, free), free.len() as int),
        ),
    )
}

/// Whether the sizes of a factor fit the machine words that hold them.
///
/// Only what compilation gets to is asked for: strides of the axes that are
/// reached, the tensor size where all axes are sound, and the record layout
/// and weight indices where the factor is.
pub open spec fn factor_fits(
    kinds: Seq<NodeKind>,
    free: Seq<Seq<Node>>,
    clamped: Seq<Seq<Node>>,
    shape: Shape,
    base: nat,
    weight_count: nat,
) -> bool {
    groups_error(kinds, free, clamped, shape) is None ==> {
        &&& forall|c: int|
            0 <= c < shape.cats.len() && axes_error(kinds, shape.cats, c) is None
                ==> #[trigger] axis_product(kinds, shape.cats, c) <= u32::MAX
        &&& axes_error(kinds, shape.cats, 0) is None ==> {
            &&& shape.batch() * axis_product(kinds, shape.cats, 0) <= usize::MAX
            &&& weight_count == shape.batch() * axis_product(kinds, shape.cats, 0) ==> {
                &&& shape.spins.len() <= MAX_TAILS
                &&& shape.cats.len() <= MAX_TAILS
                &&& base + weight_count <= u32::MAX
            }
        }
    }
}

/// Whether the sizes of a model fit the machine words that hold them.
pub open spec fn compile_fits<W>(
    kinds: Seq<NodeKind>,
    free: Seq<Seq<Node>>,
    clamped: Seq<Seq<Node>>,
    factors: Seq<DiscreteFactor<W>>,
) -> bool {
    partition_error(kinds, free, clamped) is None ==> {
        &&& forall|k: int|
            0 <= k < factors.len() && first_error(
                factor_check(kinds, free, clamped, factors),
                k,
            ) is None ==> factor_fits(
                kinds,
                free,
                clamped,
                (#[trigger] factors[k]).shape(),
                weights_of(factors, k as nat).len(),
                factors[k].weights@.len(),
            )
        &&& model_error(kinds, free, clamped, factors) is None ==> forall|b: int|
            0 <= b < free.len() ==> block_stream(
                kinds,
                factors,
                #[trigger] free[b],
                free[b].len(),
            ).len() <= u32::MAX
    }
}

/// Every record of a node is what one position of one instance of one factor
/// contributes to it.
pub proof fn lemma_instance_origin(
    kinds: Seq<NodeKind>,
    shape: Shape,
    base: int,
    node: Node,
    i: int,
    count: nat,
    j: int,
) -> (t: int)
    requires
        0 <= j < instance_records(kinds, shape, base, node, i, count).len(),
    ensures
        0 <= t < count,
        head_node(shape, i, t) == node,
        instance_records(kinds, shape, base, node, i, count)[j] == head_record(
            kinds,
            shape,
            base,
            i,
            t,
        ),
    decreases count,
{
    let before = instance_records(kinds, shape, base, node, i, (count - 1) as nat);
    if j < before.len() {
        lemma_instance_origin(kinds, shape, base, node, i, (count - 1) as nat, j)
    } else {
        count - 1
    }
}

pub proof fn lemma_factor_origin(
    kinds: Seq<NodeKind>,
    shape: Shape,
    base: int,
    node: Node,
    count: nat,
    j: int,
) -> (r: (int, int))
    requires
        0 <= j < factor_records(kinds, shape, base, node, count).len(),
    ensures
        0 <= r.0 < count,
        0 <= r.1 < head_count(shape),
        head_node(shape, r.0, r.1) == node,
        factor_records(kinds, shape, base, node, count)[j] == head_record(
            kinds,
            shape,
            base,
            r.0,
            r.1,
        ),
    decreases count,
{
    let before = factor_records(kinds, shape, base, node, (count - 1) as nat);
    if j < before.len() {
        lemma_factor_origin(kinds, shape, base, node, (count - 1) as nat, j)
    } else {
        let t = lemma_instance_origin(
            kinds,
            shape,
            base,
            node,
            count - 1,
            head_count(shape),
            j - before.len(),
        );
        (count - 1, t)
    }
}

pub proof fn lemma_record_origin<W>(
    kinds: Seq<NodeKind>,
    factors: Seq<DiscreteFactor<W>>,
    node: Node,
    count: nat,
    j: int,
) -> (r: (int, int, int))
    requires
        0 <= j < node_records(kinds, factors, node, count).len(),
        count <= factors.len(),
    ensures
        0 <= r.0 < count,
        0 <= r.1 < factors[r.0].shape().batch(),
        0 <= r.2 < head_count(factors[r.0].shape()),
        head_node(factors[r.0].shape(), r.1, r.2) == node,
        node_records(kinds, factors, node, count)[j] == head_record(
            kinds,
            factors[r.0].shape(),
            weights_of(factors, r.0 as nat).len() as int,
            r.1,
            r.2,
        ),
    decreases count,
{
    let before = node_records(kinds, factors, node, (count - 1) as nat);
    if j < before.len() {
        lemma_record_origin(kinds, factors, node, (count - 1) as nat, j)
    } else {
        let k = count - 1;
        let (i, t) = lemma_factor_origin(
            kinds,
            factors[k].shape(),
            weights_of(factors, k as nat).len() as int,
            node,
            factors[k].shape().batch(),
            j - before.len(),
        );
        (k, i, t)
    }
}

/// What sound factors of a model establish about each of them.
pub proof fn lemma_factor_sound<W>(
    kinds: Seq<NodeKind>,
    free: Seq<Seq<Node>>,
    clamped: Seq<Seq<Node>>,
    factors: Seq<DiscreteFactor<W>>,
    k: int,
)
    requires
        0 <= k < factors.len(),
        partition_error(kinds, free, clamped) is None,
        factors_error(kinds, free, clamped, factors) is None,
        compile_fits(kinds, free, clamped, factors),
    ensures
        factor_error(
            kinds,
            free,
            clamped,
            factors[k].shape(),
            factors[k].weights@.len(),
        ) is None,
        groups_error(kinds, free, clamped, factors[k].shape()) is None,
        axes_error(kinds, factors[k].shape().cats, 0) is None,
        factors[k].weights@.len() == factors[k].shape().batch() * axis_product(
            kinds,
            factors[k].shape().cats,
            0,
        ),
        factors[k].shape().spins.len() <= MAX_TAILS,
        factors[k].shape().cats.len() <= MAX_TAILS,
        weights_of(factors, k as nat).len() + factors[k].weights@.len() <= u32::MAX,
        weights_of(factors, (k + 1) as nat).len() <= u32::MAX,
{
    let check = factor_check(kinds, free, clamped, factors);
    lemma_first_error_none(check, factors.len() as int, k);
    assert(check(k) is None);
    assert(factor_fits(
        kinds,
        free,
        clamped,
        factors[k].shape(),
        weights_of(factors, k as nat).len(),
        factors[k].weights@.len(),
    ));
}

/// The records of sound factors fit the stream layout.
pub proof fn lemma_records_fit<W>(
    kinds: Seq<NodeKind>,
    free: Seq<Seq<Node>>,
    clamped: Seq<Seq<Node>>,
    factors: Seq<DiscreteFactor<W>>,
    node: Node,
)
    requires
        partition_error(kinds, free, clamped) is None,
        factors_error(kinds, free, clamped, factors) is None,
        compile_fits(kinds, free, clamped, factors),
    ensures
        forall|j: int|
            0 <= j < node_records(kinds, factors, node, factors.len()).len() ==> (
            #[trigger] node_records(kinds, factors, node, factors.len())[j]).fits(),
{
    assert forall|j: int|
        0 <= j < node_records(kinds, factors, node, factors.len()).len() implies (
    #[trigger] node_records(kinds, factors, node, factors.len())[j]).fits() by {
        let (k, i, t) = lemma_record_origin(kinds, factors, node, factors.len(), j);
        lemma_factor_sound(kinds, free, clamped, factors, k);
    }
}

/// The weights of a program are those of its factors, one factor after the other.
pub proof fn weights_follow_each_other<W>(factors: Seq<DiscreteFactor<W>>, count: nat)
    requires
        count <= factors.len(),
    ensures
        weights_of(factors, count) == Seq::new(count, |k: int| factors[k].weights@).flatten(),
    decreases count,
{
    let lists = Seq::new(count, |k: int| factors[k].weights@);
    lists.lemma_flatten_and_flatten_alt_are_equivalent();
    if count > 0 {
        let fewer = Seq::new((count - 1) as nat, |k: int| factors[k].weights@);
        weights_follow_each_other(factors, (count - 1) as nat);
        fewer.lemma_flatten_and_flatten_alt_are_equivalent();
        assert(lists.drop_last() =~= fewer);
    }
}

} // verus!
