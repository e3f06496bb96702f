//! Compiling a model into a block Gibbs sampling schedule.

use std::collections::HashMap;

use vstd::prelude::*;

use crate::checks::{
    axes_error, axis_error, axis_node_check, block_check, block_error, block_nodes, concat,
    cover_check, covered, factor_check, factor_error, first_error, first_repeat, group_check,
    groups_error, in_lists, lemma_add_contains, lemma_axes, lemma_axes_found, lemma_concat_contains,
    lemma_concat_prefix, lemma_first_error_none, lemma_first_error_some, lemma_groups,
    lemma_push_contains, lemma_repeat_prefix, lemma_repeat_push, mixed_check, partition_error,
    proper, repeat_error, spin_group_check, spin_node_check, MAX_CATEGORICAL_STATES,
};
use crate::error::Error;
use crate::factor::{axis_product, node_lists, DiscreteFactor, Shape};
use crate::graph::{append, copy_of, Block, Graph, Node, NodeKind};
use crate::record::{
    all_tail_ids, count_word, decode_undoes_encode, encode_all, lemma_encode_concat, pair_words,
    record_tail_ids, MAX_TAILS,
};
use crate::soundness::compiled_programs_are_sound;
use crate::streams::{
    block_stream, cat_pairs, compile_fits, factor_fits, factor_records, factors_error, head_count,
    head_node, head_record, instance_records, interaction_check, interaction_node_check,
    lemma_records_fit, model_error, node_records, spin_ids, tail_check, weights_of,
};

verus! {

broadcast use vstd::std_specs::hash::group_hash_axioms;

/// Kind shared by all nodes of one block.
#[derive(Clone, Copy, Debug, PartialEq, Eq, Structural)]
pub enum BlockKind {
    Spin,
    Categorical { states: u32 },
}

impl BlockKind {
    /// The kind of a block whose nodes are of the given kind.
    pub open spec fn of(kind: NodeKind) -> BlockKind {
        match kind {
            NodeKind::Spin => BlockKind::Spin,
            NodeKind::Categorical { states } => BlockKind::Categorical { states },
        }
    }
}

/// The kind of a block whose nodes are of the given kind.
fn kind_of(kind: NodeKind) -> (r: BlockKind)
    ensures
        r == BlockKind::of(kind),
{
    match kind {
        NodeKind::Spin => BlockKind::Spin,
        NodeKind::Categorical { states } => BlockKind::Categorical { states },
    }
}

/// The kind of a block, or the reason why its nodes do not make up one.
fn block_kind(graph: &Graph, block: &Block) -> (r: Result<BlockKind, Error>)
    requires
        block_readable(graph@, block@),
    ensures
        match r {
            Ok(kind) => block_error(graph@, block@) is None && kind == BlockKind::of(
                graph.kind(block@[0]),
            ),
            Err(error) => block_error(graph@, block@) == Some(error),
        },
{
    if block.nodes.len() == 0 {
        return Err(Error::EmptyBlock);
    }
    let first: Node = block.nodes[0];
    assert(graph.has(block@[0]));
    let first_kind: NodeKind = graph.node_kind(first);
    let states: u32 = first_kind.state_count();
    if !(2 <= states && states <= MAX_CATEGORICAL_STATES) {
        return Err(Error::BadStateCount(first));
    }
    let ghost check = mixed_check(graph@, block@);
    for j in 0..block.nodes.len()
        invariant
            block_readable(graph@, block@),
            block@.len() > 0,
            first == block@[0],
            first_kind == graph.kind(first),
            proper(first_kind),
            check == mixed_check(graph@, block@),
            first_error(check, j as int) is None,
    {
        let node: Node = block.nodes[j];
        assert(graph.has(block@[j as int]));
        if graph.node_kind(node) != first_kind {
            proof {
                lemma_first_error_some(check, block@.len() as int, j as int);
            }
            return Err(Error::MixedBlock(first, node));
        }
    }
    Ok(kind_of(first_kind))
}

/// Whether the map holds the location of every node of the lists, and no other.
pub open spec fn locates(map: Map<u32, (usize, usize)>, lists: Seq<Seq<Node>>) -> bool {
    &&& forall|id: u32| #[trigger] map.contains_key(id) <==> in_lists(lists, Node(id))
    &&& forall|b: int, p: int|
        #![trigger lists[b][p]]
        0 <= b < lists.len() && 0 <= p < lists[b].len() ==> map[lists[b][p].0] == (
            b as usize,
            p as usize,
        )
}

/// Whether the map holds exactly the nodes of the lists.
pub open spec fn marks(map: Map<u32, ()>, lists: Seq<Seq<Node>>) -> bool {
    forall|id: u32| #[trigger] map.contains_key(id) <==> in_lists(lists, Node(id))
}

/// Locate every free node by (block, position) and mark the clamped ones.
fn locate(free: &[Block], clamped: &[Block]) -> (r: Result<
    (HashMap<u32, (usize, usize)>, HashMap<u32, ()>),
    Error,
>)
    ensures
        match r {
            Ok(maps) => {
                &&& repeat_error(node_lists(free@), node_lists(clamped@)) is None
                &&& locates(maps.0@, node_lists(free@))
                &&& marks(maps.1@, node_lists(clamped@))
            },
            Err(error) => repeat_error(node_lists(free@), node_lists(clamped@)) == Some(error),
        },
{
    let ghost free_lists = node_lists(free@);
    let ghost clamped_lists = node_lists(clamped@);
    let ghost all = block_nodes(free_lists, clamped_lists);
    let ghost n_free = free_lists.len() as int;
    let mut locations: HashMap<u32, (usize, usize)> = HashMap::new();
    let mut marked: HashMap<u32, ()> = HashMap::new();
    for b in 0..free.len()
        invariant
            free_lists == node_lists(free@),
            clamped_lists == node_lists(clamped@),
            all == block_nodes(free_lists, clamped_lists),
            n_free == free_lists.len(),
            first_repeat(concat(free_lists, b as int)) is None,
            forall|id: u32|
                #[trigger] locations@.contains_key(id) <==> concat(free_lists, b as int).contains(
                    Node(id),
                ),
            forall|c: int, p: int|
                #![trigger free_lists[c][p]]
                0 <= c < b && 0 <= p < free_lists[c].len() ==> locations@[free_lists[c][p].0] == (
                    c as usize,
                    p as usize,
                ),
    {
        let block = &free[b];
        let ghost nodes = block@;
        let ghost before = concat(free_lists, b as int);
        assert(free_lists[b as int] == nodes);
        assert(before + nodes.take(0) =~= before);
        for p in 0..block.nodes.len()
            invariant
                0 <= b < free@.len(),
                block == free@[b as int],
                nodes == block@,
                free_lists == node_lists(free@),
                clamped_lists == node_lists(clamped@),
                all == block_nodes(free_lists, clamped_lists),
                n_free == free_lists.len(),
                free_lists[b as int] == nodes,
                before == concat(free_lists, b as int),
                first_repeat(before + nodes.take(p as int)) is None,
                forall|id: u32|
                    #[trigger] locations@.contains_key(id) <==> (before + nodes.take(
                        p as int,
                    )).contains(Node(id)),
                forall|c: int, q: int|
                    #![trigger free_lists[c][q]]
                    0 <= c < b && 0 <= q < free_lists[c].len()
                        ==> locations@[free_lists[c][q].0] == (c as usize, q as usize),
                forall|q: int|
                    #![trigger nodes[q]]
                    0 <= q < p ==> locations@[nodes[q].0] == (b, q as usize),
        {
            let node: Node = block.nodes[p];
            let ghost seen = before + nodes.take(p as int);
            let ghost next = before + nodes.take(p + 1);
            assert(next =~= seen.push(node));
            proof {
                lemma_repeat_push(seen, node);
                assert forall|id: u32| next.contains(Node(id)) <==> seen.contains(Node(id)) || node
                    == Node(id) by {
                    lemma_push_contains(seen, node, Node(id));
                }
            }
            let ghost old_map = locations@;
            match locations.insert(node.0, (b, p)) {
                Some(_) => {
                    proof {
                        lemma_concat_prefix(free_lists, b + 1, n_free);
                        let whole = concat(free_lists, b + 1);
                        assert(whole == before + nodes);
                        assert(all.take(next.len() as int) =~= next) by {
                            assert(all.take(whole.len() as int) =~= concat(
                                free_lists,
                                n_free,
                            ).take(whole.len() as int));
                            assert forall|i: int| 0 <= i < next.len() implies all[i]
                                == next[i] by {
                                assert(all[i] == all.take(whole.len() as int)[i]);
                            }
                        }
                        lemma_repeat_prefix(all, next.len() as int);
                    }
                    return Err(Error::DuplicateNode(node));
                },
                None => {},
            }
            proof {
                assert(!old_map.contains_key(node.0));
                assert(!seen.contains(node));
                assert forall|c: int, q: int|
                    #![trigger free_lists[c][q]]
                    0 <= c < b && 0 <= q
                        < free_lists[c].len() implies locations@[free_lists[c][q].0] == (
                    c as usize,
                    q as usize,
                ) by {
                    let other = free_lists[c][q];
                    assert(free_lists[c].contains(other));
                    lemma_concat_contains(free_lists, b as int, other);
                    lemma_add_contains(before, nodes.take(p as int), other);
                    assert(other != node);
                }
                assert forall|q: int| #![trigger nodes[q]] 0 <= q < p + 1 implies locations@[nodes[q].0] == (b, q as usize) by {
                    if q < p {
                        assert(seen[before.len() + q] == nodes[q]);
                        assert(nodes[q] != node);
                    }
                }
            }
        }
        assert(before + nodes.take(nodes.len() as int) =~= concat(free_lists, b + 1));
    }
    let ghost free_nodes = concat(free_lists, n_free);
    assert(free_nodes + concat(clamped_lists, 0) =~= free_nodes);
    for b in 0..clamped.len()
        invariant
            free_lists == node_lists(free@),
            clamped_lists == node_lists(clamped@),
            all == block_nodes(free_lists, clamped_lists),
            n_free == free_lists.len(),
            free_nodes == concat(free_lists, n_free),
            first_repeat(free_nodes + concat(clamped_lists, b as int)) is None,
            forall|id: u32|
                #[trigger] locations@.contains_key(id) <==> free_nodes.contains(Node(id)),
            forall|id: u32|
                #[trigger] marked@.contains_key(id) <==> concat(clamped_lists, b as int).contains(
                    Node(id),
                ),
    {
        let block = &clamped[b];
        let ghost nodes = block@;
        let ghost before = concat(clamped_lists, b as int);
        assert(clamped_lists[b as int] == nodes);
        assert(before + nodes.take(0) =~= before);
        for p in 0..block.nodes.len()
            invariant
                0 <= b < clamped@.len(),
                block == clamped@[b as int],
                nodes == block@,
                free_lists == node_lists(free@),
                clamped_lists == node_lists(clamped@),
                all == block_nodes(free_lists, clamped_lists),
                n_free == free_lists.len(),
                free_nodes == concat(free_lists, n_free),
                clamped_lists[b as int] == nodes,
                before == concat(clamped_lists, b as int),
                first_repeat(free_nodes + (before + nodes.take(p as int))) is None,
                forall|id: u32|
                    #[trigger] locations@.contains_key(id) <==> free_nodes.contains(Node(id)),
                forall|id: u32|
                    #[trigger] marked@.contains_key(id) <==> (before + nodes.take(
                        p as int,
                    )).contains(Node(id)),
        {
            let node: Node = block.nodes[p];
            let ghost seen = before + nodes.take(p as int);
            let ghost next = before + nodes.take(p + 1);
            assert(next =~= seen.push(node));
            proof {
                assert((free_nodes + seen).push(node) =~= free_nodes + next);
                lemma_repeat_push(free_nodes + seen, node);
                lemma_add_contains(free_nodes, seen, node);
                assert forall|id: u32| next.contains(Node(id)) <==> seen.contains(Node(id)) || node
                    == Node(id) by {
                    lemma_push_contains(seen, node, Node(id));
                }
            }
            if locations.contains_key(&node.0) || marked.insert(node.0, ()).is_some() {
                proof {
                    lemma_concat_prefix(clamped_lists, b + 1, clamped_lists.len() as int);
                    let whole = concat(clamped_lists, b + 1);
                    let last = concat(clamped_lists, clamped_lists.len() as int);
                    assert(whole == before + nodes);
                    let front = free_nodes + next;
                    assert(all.take(front.len() as int) =~= front) by {
                        assert forall|i: int| 0 <= i < front.len() implies all[i] == front[i] by {
                            if i >= free_nodes.len() {
                                let j = i - free_nodes.len();
                                assert(last[j] == last.take(whole.len() as int)[j]);
                            }
                        }
                    }
                    lemma_repeat_prefix(all, front.len() as int);
                }
                return Err(Error::DuplicateNode(node));
            }
        }
        assert(before + nodes.take(nodes.len() as int) =~= concat(clamped_lists, b + 1));
    }
    proof {
        assert forall|id: u32| #[trigger] locations@.contains_key(id) <==> in_lists(
            free_lists,
            Node(id),
        ) by {
            lemma_concat_contains(free_lists, n_free, Node(id));
        }
        assert forall|id: u32| #[trigger] marked@.contains_key(id) <==> in_lists(
            clamped_lists,
            Node(id),
        ) by {
            lemma_concat_contains(clamped_lists, clamped_lists.len() as int, Node(id));
        }
    }
    Ok((locations, marked))
}

/// Whether all nodes of the lists are in the graph.
pub open spec fn within(kinds: Seq<NodeKind>, lists: Seq<Seq<Node>>) -> bool {
    forall|b: int, p: int|
        #![trigger lists[b][p]]
        0 <= b < lists.len() && 0 <= p < lists[b].len() ==> (lists[b][p].0 as int) < kinds.len()
}

/// Whether all nodes of a block are in the graph that are looked at to tell
/// its kind: the first, and the others up to one of another kind.
pub open spec fn block_readable(kinds: Seq<NodeKind>, nodes: Seq<Node>) -> bool {
    forall|j: int|
        #![trigger nodes[j]]
        0 <= j < nodes.len() && (j == 0 || (proper(kinds[nodes[0].0 as int]) && first_error(
            mixed_check(kinds, nodes),
            j,
        ) is None)) ==> (nodes[j].0 as int) < kinds.len()
}

/// Whether the kinds of the lists can be told, up to one that has none.
pub open spec fn lists_readable(kinds: Seq<NodeKind>, lists: Seq<Seq<Node>>) -> bool {
    forall|b: int|
        0 <= b < lists.len() && first_error(block_check(kinds, lists), b) is None
            ==> block_readable(kinds, #[trigger] lists[b])
}

/// Whether the graph has all nodes that are looked at to check a partition:
/// none where a node appears more than once, and those of the blocks, in
/// order, otherwise.
pub open spec fn blocks_readable(
    kinds: Seq<NodeKind>,
    free: Seq<Seq<Node>>,
    clamped: Seq<Seq<Node>>,
) -> bool {
    repeat_error(free, clamped) is None ==> {
        &&& lists_readable(kinds, free)
        &&& first_error(block_check(kinds, free), free.len() as int) is None ==> lists_readable(
            kinds,
            clamped,
        )
    }
}

/// All nodes of lists without errors are looked at.
proof fn lemma_readable_within(kinds: Seq<NodeKind>, lists: Seq<Seq<Node>>)
    requires
        lists_readable(kinds, lists),
        first_error(block_check(kinds, lists), lists.len() as int) is None,
    ensures
        within(kinds, lists),
{
    assert forall|b: int, p: int|
        #![trigger lists[b][p]]
        0 <= b < lists.len() && 0 <= p < lists[b].len() implies (lists[b][p].0 as int)
        < kinds.len() by {
        lemma_first_error_none(block_check(kinds, lists), lists.len() as int, b);
        lemma_first_error_none(mixed_check(kinds, lists[b]), lists[b].len() as int, p);
        assert(block_readable(kinds, lists[b]));
    }
}

/// Covered nodes are in the graph where the blocks are.
pub proof fn lemma_covered_within(
    kinds: Seq<NodeKind>,
    free: Seq<Seq<Node>>,
    clamped: Seq<Seq<Node>>,
    node: Node,
)
    requires
        within(kinds, free),
        within(kinds, clamped),
        covered(free, clamped, node),
    ensures
        (node.0 as int) < kinds.len(),
{
    if in_lists(free, node) {
        let b = choose|b: int| 0 <= b < free.len() && (#[trigger] free[b]).contains(node);
        let p = choose|p: int| 0 <= p < free[b].len() && free[b][p] == node;
        assert(free[b][p] == node);
    } else {
        let b = choose|b: int| 0 <= b < clamped.len() && (#[trigger] clamped[b]).contains(node);
        let p = choose|p: int| 0 <= p < clamped[b].len() && clamped[b][p] == node;
        assert(clamped[b][p] == node);
    }
}

/// The first uncovered node of a group.
fn check_covered(
    block: &Block,
    locations: &HashMap<u32, (usize, usize)>,
    marked: &HashMap<u32, ()>,
    Ghost(free): Ghost<Seq<Seq<Node>>>,
    Ghost(clamped): Ghost<Seq<Seq<Node>>>,
) -> (r: Option<Error>)
    requires
        locates(locations@, free),
        marks(marked@, clamped),
    ensures
        r == first_error(cover_check(free, clamped, block@), block@.len() as int),
{
    let ghost check = cover_check(free, clamped, block@);
    for j in 0..block.nodes.len()
        invariant
            locates(locations@, free),
            marks(marked@, clamped),
            check == cover_check(free, clamped, block@),
            first_error(check, j as int) is None,
    {
        let node: Node = block.nodes[j];
        assert(Node(node.0) == node);
        if !locations.contains_key(&node.0) && !marked.contains_key(&node.0) {
            proof {
                lemma_first_error_some(check, block@.len() as int, j as int);
            }
            return Some(Error::UncoveredNode(node));
        }
    }
    None
}

/// The first node of a group that is not a spin.
fn check_spins(graph: &Graph, block: &Block) -> (r: Option<Error>)
    requires
        forall|j: int| 0 <= j < block@.len() ==> graph.has(#[trigger] block@[j]),
    ensures
        r == first_error(spin_node_check(graph@, block@), block@.len() as int),
{
    let ghost check = spin_node_check(graph@, block@);
    for j in 0..block.nodes.len()
        invariant
            forall|i: int| 0 <= i < block@.len() ==> graph.has(#[trigger] block@[i]),
            check == spin_node_check(graph@, block@),
            first_error(check, j as int) is None,
    {
        let node: Node = block.nodes[j];
        assert(graph.has(block@[j as int]));
        if graph.node_kind(node) != NodeKind::Spin {
            proof {
                lemma_first_error_some(check, block@.len() as int, j as int);
            }
            return Some(Error::GroupKindMismatch(node));
        }
    }
    None
}

/// Errors in the node groups of a factor, before its axes are looked at.
pub(crate) fn check_groups<W>(
    graph: &Graph,
    factor: &DiscreteFactor<W>,
    locations: &HashMap<u32, (usize, usize)>,
    marked: &HashMap<u32, ()>,
    Ghost(free): Ghost<Seq<Seq<Node>>>,
    Ghost(clamped): Ghost<Seq<Seq<Node>>>,
) -> (r: Option<Error>)
    requires
        locates(locations@, free),
        marks(marked@, clamped),
        within(graph@, free),
        within(graph@, clamped),
    ensures
        r == groups_error(graph@, free, clamped, factor.shape()),
{
    let ghost shape = factor.shape();
    let ghost groups = shape.spins + shape.cats;
    let batch: usize = factor.batch_len();
    if batch == 0 {
        return Some(Error::EmptyBlock);
    }
    let ghost check = group_check(free, clamped, groups, batch as nat);
    let n_spins: usize = factor.spin_groups.len();
    let n_cats: usize = factor.cat_groups.len();
    for g in 0..n_spins
        invariant
            locates(locations@, free),
            marks(marked@, clamped),
            shape == factor.shape(),
            groups == shape.spins + shape.cats,
            n_spins == shape.spins.len(),
            n_spins == factor.spin_groups@.len(),
            batch == shape.batch(),
            batch > 0,
            check == group_check(free, clamped, groups, batch as nat),
            first_error(check, g as int) is None,
    {
        let block = &factor.spin_groups[g];
        assert(groups[g as int] == block@);
        if block.len() != batch {
            proof {
                lemma_first_error_some(check, groups.len() as int, g as int);
            }
            return Some(Error::GroupLengthMismatch);
        }
        let error = check_covered(block, locations, marked, Ghost(free), Ghost(clamped));
        if error.is_some() {
            proof {
                lemma_first_error_some(check, groups.len() as int, g as int);
            }
            return error;
        }
    }
    for g in 0..n_cats
        invariant
            locates(locations@, free),
            marks(marked@, clamped),
            shape == factor.shape(),
            groups == shape.spins + shape.cats,
            n_spins == shape.spins.len(),
            n_cats == shape.cats.len(),
            n_cats == factor.cat_groups@.len(),
            batch == shape.batch(),
            batch > 0,
            check == group_check(free, clamped, groups, batch as nat),
            first_error(check, n_spins + g) is None,
    {
        let block = &factor.cat_groups[g];
        assert(groups[n_spins + g] == block@);
        if block.len() != batch {
            proof {
                lemma_first_error_some(check, groups.len() as int, n_spins + g);
            }
            return Some(Error::GroupLengthMismatch);
        }
        let error = check_covered(block, locations, marked, Ghost(free), Ghost(clamped));
        if error.is_some() {
            proof {
                lemma_first_error_some(check, groups.len() as int, n_spins + g);
            }
            return error;
        }
    }
    let ghost kind_check = spin_group_check(graph@, shape.spins);
    assert(first_error(check, groups.len() as int) is None);
    for g in 0..n_spins
        invariant
            within(graph@, free),
            within(graph@, clamped),
            shape == factor.shape(),
            groups == shape.spins + shape.cats,
            n_spins == shape.spins.len(),
            n_spins == factor.spin_groups@.len(),
            batch == shape.batch(),
            batch > 0,
            check == group_check(free, clamped, groups, batch as nat),
            first_error(check, groups.len() as int) is None,
            kind_check == spin_group_check(graph@, shape.spins),
            first_error(kind_check, g as int) is None,
    {
        let block = &factor.spin_groups[g];
        assert(shape.spins[g as int] == block@);
        assert(groups[g as int] == block@);
        proof {
            lemma_first_error_none(check, groups.len() as int, g as int);
            assert forall|j: int| 0 <= j < block@.len() implies graph.has(#[trigger] block@[j]) by {
                lemma_first_error_none(
                    cover_check(free, clamped, block@),
                    block@.len() as int,
                    j,
                );
                lemma_covered_within(graph@, free, clamped, block@[j]);
            }
        }
        let error = check_spins(graph, block);
        if error.is_some() {
            proof {
                lemma_first_error_some(kind_check, shape.spins.len() as int, g as int);
            }
            return error;
        }
    }
    None
}

/// The number of states shared by the nodes of one axis, or the reason why
/// they do not share one.
pub(crate) fn axis_states(graph: &Graph, block: &Block) -> (r: Result<u32, Error>)
    requires
        block@.len() > 0,
        forall|j: int| 0 <= j < block@.len() ==> graph.has(#[trigger] block@[j]),
    ensures
        match r {
            Ok(states) => axis_error(graph@, block@) is None && states == graph.kind(
                block@[0],
            ).count() && 2 <= states <= MAX_CATEGORICAL_STATES,
            Err(error) => axis_error(graph@, block@) == Some(error),
        },
{
    let first: Node = block.nodes[0];
    let ghost check = axis_node_check(graph@, block@);
    assert(graph.has(block@[0]));
    let group_states: u32 = match graph.node_kind(first) {
        NodeKind::Categorical { states } => {
            if !(2 <= states && states <= MAX_CATEGORICAL_STATES) {
                return Err(Error::BadStateCount(first));
            }
            states
        },
        NodeKind::Spin => {
            return Err(Error::GroupKindMismatch(first));
        },
    };
    for j in 0..block.nodes.len()
        invariant
            forall|i: int| 0 <= i < block@.len() ==> graph.has(#[trigger] block@[i]),
            block@.len() > 0,
            first == block@[0],
            graph.kind(first) is Categorical,
            group_states == graph.kind(first).count(),
            proper(graph.kind(first)),
            check == axis_node_check(graph@, block@),
            first_error(check, j as int) is None,
    {
        let node: Node = block.nodes[j];
        assert(graph.has(block@[j as int]));
        match graph.node_kind(node) {
            NodeKind::Categorical { states } => {
                if states != group_states {
                    proof {
                        lemma_first_error_some(check, block@.len() as int, j as int);
                    }
                    return Err(Error::MixedBlock(first, node));
                }
            },
            NodeKind::Spin => {
                proof {
                    lemma_first_error_some(check, block@.len() as int, j as int);
                }
                return Err(Error::GroupKindMismatch(node));
            },
        }
    }
    Ok(group_states)
}

/// Row-major strides of the categorical axes of the weight tensor, innermost
/// axis first; the last entry is the stride between instances.
fn axis_strides<W>(
    graph: &Graph,
    factor: &DiscreteFactor<W>,
    Ghost(free): Ghost<Seq<Seq<Node>>>,
    Ghost(clamped): Ghost<Seq<Seq<Node>>>,
    Ghost(base): Ghost<nat>,
) -> (r: Result<Vec<u32>, Error>)
    requires
        within(graph@, free),
        within(graph@, clamped),
        groups_error(graph@, free, clamped, factor.shape()) is None,
        factor_fits(graph@, free, clamped, factor.shape(), base, factor.weights@.len()),
    ensures
        match r {
            Ok(strides) => {
                &&& axes_error(graph@, factor.shape().cats, 0) is None
                &&& strides@.len() == factor.shape().cats.len() + 1
                &&& forall|j: int|
                    0 <= j < strides@.len() ==> #[trigger] strides@[j] == axis_product(
                        graph@,
                        factor.shape().cats,
                        factor.shape().cats.len() - j,
                    )
            },
            Err(error) => axes_error(graph@, factor.shape().cats, 0) == Some(error),
        },
{
    let ghost cats = factor.shape().cats;
    let n_cats: usize = factor.cat_groups.len();
    let mut strides: Vec<u32> = Vec::new();
    let mut stride: u32 = 1;
    strides.push(stride);
    proof {
        lemma_groups(graph@, free, clamped, factor.shape());
    }
    let mut done: usize = 0;
    while done < n_cats
        invariant
            within(graph@, free),
            within(graph@, clamped),
            groups_error(graph@, free, clamped, factor.shape()) is None,
            factor_fits(graph@, free, clamped, factor.shape(), base, factor.weights@.len()),
            forall|g: int|
                0 <= g < cats.len() ==> (#[trigger] cats[g]).len() == factor.shape().batch(),
            forall|g: int, j: int|
                #![trigger cats[g][j]]
                0 <= g < cats.len() && 0 <= j < factor.shape().batch() ==> covered(
                    free,
                    clamped,
                    cats[g][j],
                ),
            factor.shape().batch() > 0,
            cats == factor.shape().cats,
            n_cats == cats.len(),
            n_cats == factor.cat_groups@.len(),
            done <= n_cats,
            axes_error(graph@, cats, n_cats - done) is None,
            stride == axis_product(graph@, cats, n_cats - done),
            strides@.len() == done + 1,
            forall|j: int|
                0 <= j <= done ==> #[trigger] strides@[j] == axis_product(graph@, cats, n_cats - j),
        decreases n_cats - done,
    {
        let c: usize = n_cats - 1 - done;
        let block = &factor.cat_groups[c];
        assert(cats[c as int] == block@);
        proof {
            assert forall|j: int| 0 <= j < block@.len() implies graph.has(#[trigger] block@[j]) by {
                assert(cats[c as int][j] == block@[j]);
                lemma_covered_within(graph@, free, clamped, block@[j]);
            }
        }
        match axis_states(graph, block) {
            Ok(states) => {
                assert(axes_error(graph@, cats, c as int) is None);
                assert(axis_product(graph@, cats, c as int) <= u32::MAX);
                assert(states as nat * stride as nat == axis_product(graph@, cats, c as int));
                stride = states * stride;
                strides.push(stride);
            },
            Err(error) => {
                proof {
                    lemma_axes_found(graph@, cats, 0, c as int);
                }
                return Err(error);
            },
        }
        done = done + 1;
    }
    Ok(strides)
}

/// The sequence without the element at `t`, or all of it where there is none.
spec fn without<T>(items: Seq<T>, t: int) -> Seq<T> {
    if 0 <= t < items.len() {
        items.remove(t)
    } else {
        items
    }
}

proof fn lemma_without_step<T>(items: Seq<T>, t: int, n: int)
    requires
        0 <= n < items.len(),
    ensures
        without(items.take(n + 1), t) == if n == t {
            without(items.take(n), t)
        } else {
            without(items.take(n), t).push(items[n])
        },
{
    if n == t {
        assert(without(items.take(n + 1), t) =~= without(items.take(n), t));
    } else {
        assert(without(items.take(n + 1), t) =~= without(items.take(n), t).push(items[n]));
    }
}

proof fn lemma_pair_words_push(pairs: Seq<(u32, u32)>, pair: (u32, u32))
    ensures
        pair_words(pairs.push(pair)) == pair_words(pairs).push(pair.0).push(pair.1),
{
    assert(pair_words(pairs.push(pair)) =~= pair_words(pairs).push(pair.0).push(pair.1));
}

/// Whether the strides are those of the categorical axes, innermost axis
/// first, up to the stride between instances.
spec fn are_strides(strides: Seq<u32>, kinds: Seq<NodeKind>, cats: Seq<Seq<Node>>) -> bool {
    &&& strides.len() == cats.len() + 1
    &&& forall|j: int|
        0 <= j < strides.len() ==> #[trigger] strides[j] == axis_product(
            kinds,
            cats,
            cats.len() - j,
        )
}

/// Append the record that instance `i` contributes to its node at position `t`.
fn push_record<W>(
    factor: &DiscreteFactor<W>,
    strides: &Vec<u32>,
    weight_base: u32,
    i: usize,
    t: usize,
    records: &mut Vec<u32>,
    Ghost(kinds): Ghost<Seq<NodeKind>>,
    Ghost(base): Ghost<int>,
)
    requires
        are_strides(strides@, kinds, factor.shape().cats),
        t < head_count(factor.shape()),
        i < factor.shape().batch(),
        forall|g: int|
            0 <= g < factor.shape().spins.len() ==> (#[trigger] factor.shape().spins[g]).len()
                == factor.shape().batch(),
        forall|g: int|
            0 <= g < factor.shape().cats.len() ==> (#[trigger] factor.shape().cats[g]).len()
                == factor.shape().batch(),
        factor.shape().spins.len() <= MAX_TAILS,
        factor.shape().cats.len() <= MAX_TAILS,
        weight_base == (base + i * axis_product(kinds, factor.shape().cats, 0)) as u32,
    ensures
        final(records)@ == old(records)@ + head_record(
            kinds,
            factor.shape(),
            base,
            i as int,
            t as int,
        ).encode(),
{
    let ghost shape = factor.shape();
    let n_spins: usize = factor.spin_groups.len();
    let n_cats: usize = factor.cat_groups.len();
    let ghost record = head_record(kinds, shape, base, i as int, t as int);
    let ghost ids = spin_ids(shape, i as int);
    let ghost pairs = cat_pairs(kinds, shape, i as int);
    let ghost u = t - n_spins;
    let spin_head: bool = t < n_spins;
    let head_stride: u32 = if spin_head {
        0
    } else {
        strides[n_cats - 1 - (t - n_spins)]
    };
    let spin_count: u32 = if spin_head {
        (n_spins - 1) as u32
    } else {
        n_spins as u32
    };
    let cat_count: u32 = if spin_head {
        n_cats as u32
    } else {
        (n_cats - 1) as u32
    };
    records.push(weight_base);
    records.push(head_stride);
    records.push(spin_count | (cat_count << 16));
    let ghost header = old(records)@ + seq![
        record.weight_base,
        record.head_stride,
        count_word(record.spin_tails.len() as u32, record.cat_tails.len() as u32),
    ];
    assert(records@ =~= header + without(ids.take(0), t as int));
    for g in 0..n_spins
        invariant
            shape == factor.shape(),
            n_spins == factor.spin_groups@.len(),
            i < shape.batch(),
            forall|h: int|
                0 <= h < shape.spins.len() ==> (#[trigger] shape.spins[h]).len() == shape.batch(),
            ids == spin_ids(shape, i as int),
            records@ == header + without(ids.take(g as int), t as int),
    {
        proof {
            lemma_without_step(ids, t as int, g as int);
        }
        if g != t {
            let block = &factor.spin_groups[g];
            assert(shape.spins[g as int] == block@);
            records.push(block.nodes[i].0);
            assert(records@ =~= header + without(ids.take(g + 1), t as int));
        }
    }
    assert(ids.take(n_spins as int) =~= ids);
    let ghost middle = records@;
    assert(middle + pair_words(without(pairs.take(0), u)) =~= middle);
    for c in 0..n_cats
        invariant
            shape == factor.shape(),
            n_spins == factor.spin_groups@.len(),
            n_cats == factor.cat_groups@.len(),
            are_strides(strides@, kinds, shape.cats),
            i < shape.batch(),
            forall|h: int|
                0 <= h < shape.cats.len() ==> (#[trigger] shape.cats[h]).len() == shape.batch(),
            n_spins <= MAX_TAILS,
            n_cats <= MAX_TAILS,
            u == t - n_spins,
            pairs == cat_pairs(kinds, shape, i as int),
            records@ == middle + pair_words(without(pairs.take(c as int), u)),
    {
        proof {
            lemma_without_step(pairs, u, c as int);
        }
        if n_spins + c != t {
            let block = &factor.cat_groups[c];
            assert(shape.cats[c as int] == block@);
            let stride: u32 = strides[n_cats - 1 - c];
            proof {
                lemma_pair_words_push(without(pairs.take(c as int), u), pairs[c as int]);
            }
            records.push(block.nodes[i].0);
            records.push(stride);
            assert(records@ =~= middle + pair_words(without(pairs.take(c + 1), u)));
        }
    }
    assert(pairs.take(n_cats as int) =~= pairs);
    assert(records@ =~= old(records)@ + record.encode());
}

/// The streams of all nodes, with the records of a factor added that its first
/// instances, and the first positions of the next one, contribute to free nodes.
spec fn extended(
    kinds: Seq<NodeKind>,
    free: Seq<Seq<Node>>,
    shape: Shape,
    base: int,
    streams: Seq<Vec<u32>>,
    result: Seq<Vec<u32>>,
    i: nat,
    t: nat,
) -> bool {
    &&& result.len() == streams.len()
    &&& forall|v: int|
        0 <= v < result.len() ==> (#[trigger] result[v])@ == if in_lists(free, Node(v as u32)) {
            streams[v]@ + encode_all(
                factor_records(kinds, shape, base, Node(v as u32), i) + instance_records(
                    kinds,
                    shape,
                    base,
                    Node(v as u32),
                    i as int,
                    t,
                ),
            )
        } else {
            streams[v]@
        }
}

/// Check a factor and append its records to the streams of its free nodes.
fn compile_factor<W>(
    graph: &Graph,
    factor: &DiscreteFactor<W>,
    weight_base: u32,
    locations: &HashMap<u32, (usize, usize)>,
    marked: &HashMap<u32, ()>,
    streams: &mut Vec<Vec<u32>>,
    Ghost(free): Ghost<Seq<Seq<Node>>>,
    Ghost(clamped): Ghost<Seq<Seq<Node>>>,
) -> (r: Result<(), Error>)
    requires
        graph.wf(),
        locates(locations@, free),
        marks(marked@, clamped),
        within(graph@, free),
        within(graph@, clamped),
        old(streams)@.len() == graph@.len(),
        factor_fits(
            graph@,
            free,
            clamped,
            factor.shape(),
            weight_base as nat,
            factor.weights@.len(),
        ),
    ensures
        match r {
            Ok(_) => {
                &&& factor_error(
                    graph@,
                    free,
                    clamped,
                    factor.shape(),
                    factor.weights@.len(),
                ) is None
                &&& final(streams)@.len() == old(streams)@.len()
                &&& forall|v: int|
                    0 <= v < final(streams)@.len() ==> (#[trigger] final(streams)@[v])@
                        == if in_lists(free, Node(v as u32)) {
                        old(streams)@[v]@ + encode_all(
                            factor_records(
                                graph@,
                                factor.shape(),
                                weight_base as int,
                                Node(v as u32),
                                factor.shape().batch(),
                            ),
                        )
                    } else {
                        old(streams)@[v]@
                    }
            },
            Err(error) => {
                &&& factor_error(
                    graph@,
                    free,
                    clamped,
                    factor.shape(),
                    factor.weights@.len(),
                ) == Some(error)
                &&& final(streams)@ == old(streams)@
            },
        },
{
    let ghost kinds = graph@;
    let ghost shape = factor.shape();
    let ghost base = weight_base as int;
    if let Some(error) = check_groups(
        graph,
        factor,
        locations,
        marked,
        Ghost(free),
        Ghost(clamped),
    ) {
        return Err(error);
    }
    let strides: Vec<u32> = match axis_strides(
        graph,
        factor,
        Ghost(free),
        Ghost(clamped),
        Ghost(weight_base as nat),
    ) {
        Ok(strides) => strides,
        Err(error) => {
            return Err(error);
        },
    };
    let n_spins: usize = factor.spin_groups.len();
    let n_cats: usize = factor.cat_groups.len();
    let batch: usize = factor.batch_len();
    let instance_stride: u32 = strides[n_cats];
    assert(instance_stride == axis_product(kinds, shape.cats, 0));
    let expected: usize = batch * instance_stride as usize;
    if factor.weights.len() != expected {
        return Err(Error::WeightLengthMismatch { expected, actual: factor.weights.len() });
    }
    proof {
        lemma_groups(kinds, free, clamped, shape);
        assert forall|c: int| 0 <= c < shape.cats.len() implies kinds[(
        #[trigger] shape.cats[c])[0].0 as int].count() > 0 by {
            lemma_axes(kinds, shape.cats, 0, c, 0);
        }
        lemma_axis_product_positive(kinds, shape.cats, 0);
    }
    let ghost start = streams@;
    proof {
        assert forall|v: int| 0 <= v < start.len() implies (#[trigger] start[v])@ == if in_lists(
            free,
            Node(v as u32),
        ) {
            start[v]@ + encode_all(
                factor_records(kinds, shape, base, Node(v as u32), 0) + instance_records(
                    kinds,
                    shape,
                    base,
                    Node(v as u32),
                    0,
                    0,
                ),
            )
        } else {
            start[v]@
        } by {
            assert(factor_records(kinds, shape, base, Node(v as u32), 0) + instance_records(
                kinds,
                shape,
                base,
                Node(v as u32),
                0,
                0,
            ) =~= Seq::empty());
            assert(encode_all(Seq::empty()) =~= Seq::empty());
        }
    }
    for i in 0..batch
        invariant
            kinds == graph@,
            graph.wf(),
            shape == factor.shape(),
            base == weight_base,
            locates(locations@, free),
            within(kinds, free),
            start.len() == kinds.len(),
            are_strides(strides@, kinds, shape.cats),
            n_spins == factor.spin_groups@.len(),
            n_cats == factor.cat_groups@.len(),
            batch == shape.batch(),
            instance_stride == axis_product(kinds, shape.cats, 0),
            instance_stride >= 1,
            shape.spins.len() <= MAX_TAILS,
            shape.cats.len() <= MAX_TAILS,
            weight_base + batch * instance_stride <= u32::MAX,
            forall|g: int|
                0 <= g < shape.spins.len() ==> (#[trigger] shape.spins[g]).len() == batch,
            forall|g: int|
                0 <= g < shape.cats.len() ==> (#[trigger] shape.cats[g]).len() == batch,
            extended(kinds, free, shape, base, start, streams@, i as nat, 0),
    {
        assert(i * instance_stride <= batch * instance_stride) by (nonlinear_arith)
            requires
                i <= batch,
                instance_stride >= 0,
        ;
        assert(i * instance_stride <= u32::MAX);
        assert((i as u32) * instance_stride == i * instance_stride) by {
            assert(i <= u32::MAX) by {
                assert(i * instance_stride >= i) by (nonlinear_arith)
                    requires
                        i >= 0,
                        instance_stride >= 1,
                ;
            }
        }
        let record_base: u32 = weight_base + i as u32 * instance_stride;
        for t in 0..n_spins + n_cats
            invariant
                kinds == graph@,
                graph.wf(),
                shape == factor.shape(),
                base == weight_base,
                locates(locations@, free),
                within(kinds, free),
                start.len() == kinds.len(),
                are_strides(strides@, kinds, shape.cats),
                n_spins == factor.spin_groups@.len(),
                n_cats == factor.cat_groups@.len(),
                n_spins <= MAX_TAILS,
                n_cats <= MAX_TAILS,
                batch == shape.batch(),
                i < batch,
                record_base == weight_base + i * axis_product(kinds, shape.cats, 0),
                forall|g: int|
                    0 <= g < shape.spins.len() ==> (#[trigger] shape.spins[g]).len() == batch,
                forall|g: int|
                    0 <= g < shape.cats.len() ==> (#[trigger] shape.cats[g]).len() == batch,
                extended(kinds, free, shape, base, start, streams@, i as nat, t as nat),
        {
            let head: Node = if t < n_spins {
                assert(shape.spins[t as int] == factor.spin_groups@[t as int]@);
                factor.spin_groups[t].nodes[i]
            } else {
                assert(shape.cats[t - n_spins] == factor.cat_groups@[t - n_spins]@);
                factor.cat_groups[t - n_spins].nodes[i]
            };
            assert(head == head_node(shape, i as int, t as int));
            let ghost before = streams@;
            if locations.contains_key(&head.0) {
                proof {
                    assert(Node(head.0) == head);
                    lemma_covered_within(kinds, free, Seq::empty(), head);
                }
                push_record(
                    factor,
                    &strides,
                    record_base,
                    i,
                    t,
                    &mut streams[head.index()],
                    Ghost(kinds),
                    Ghost(base),
                );
            }
            proof {
                lemma_extend(
                    kinds,
                    free,
                    shape,
                    base,
                    start,
                    before,
                    streams@,
                    i as nat,
                    t as nat,
                );
            }
        }
        proof {
            assert forall|v: int| 0 <= v < streams@.len() implies (#[trigger] streams@[v])@
                == if in_lists(free, Node(v as u32)) {
                start[v]@ + encode_all(
                    factor_records(kinds, shape, base, Node(v as u32), (i + 1) as nat)
                        + instance_records(kinds, shape, base, Node(v as u32), i + 1, 0),
                )
            } else {
                start[v]@
            } by {
                let done = factor_records(kinds, shape, base, Node(v as u32), (i + 1) as nat);
                assert(done + instance_records(kinds, shape, base, Node(v as u32), i + 1, 0)
                    =~= done);
            }
        }
    }
    proof {
        assert forall|v: int| 0 <= v < streams@.len() implies (#[trigger] streams@[v])@
            == if in_lists(free, Node(v as u32)) {
            start[v]@ + encode_all(
                factor_records(kinds, shape, base, Node(v as u32), batch as nat),
            )
        } else {
            start[v]@
        } by {
            let done = factor_records(kinds, shape, base, Node(v as u32), batch as nat);
            assert(done + instance_records(kinds, shape, base, Node(v as u32), batch as int, 0)
                =~= done);
        }
    }
    Ok(())
}

/// Sound axes span at least one weight.
pub proof fn lemma_axis_product_positive(kinds: Seq<NodeKind>, cats: Seq<Seq<Node>>, from: int)
    requires
        forall|c: int| 0 <= c < cats.len() ==> kinds[(#[trigger] cats[c])[0].0 as int].count() > 0,
    ensures
        axis_product(kinds, cats, from) > 0,
    decreases cats.len() - from,
{
    if 0 <= from < cats.len() {
        lemma_axis_product_positive(kinds, cats, from + 1);
        let states = kinds[cats[from][0].0 as int].count() as nat;
        assert(states > 0);
        assert(states * axis_product(kinds, cats, from + 1) > 0) by (nonlinear_arith)
            requires
                states > 0,
                axis_product(kinds, cats, from + 1) > 0,
        ;
    }
}

/// One more position of an instance extends the stream of its node, if that is free.
proof fn lemma_extend(
    kinds: Seq<NodeKind>,
    free: Seq<Seq<Node>>,
    shape: Shape,
    base: int,
    start: Seq<Vec<u32>>,
    before: Seq<Vec<u32>>,
    after: Seq<Vec<u32>>,
    i: nat,
    t: nat,
)
    requires
        extended(kinds, free, shape, base, start, before, i, t),
        after.len() == before.len(),
        start.len() <= u32::MAX,
        forall|v: int|
            0 <= v < before.len() ==> (#[trigger] after[v])@ == if in_lists(free, Node(v as u32))
                && head_node(shape, i as int, t as int) == Node(v as u32) {
                before[v]@ + head_record(kinds, shape, base, i as int, t as int).encode()
            } else {
                before[v]@
            },
    ensures
        extended(kinds, free, shape, base, start, after, i, t + 1),
{
    assert forall|v: int| 0 <= v < after.len() implies (#[trigger] after[v])@ == if in_lists(
        free,
        Node(v as u32),
    ) {
        start[v]@ + encode_all(
            factor_records(kinds, shape, base, Node(v as u32), i) + instance_records(
                kinds,
                shape,
                base,
                Node(v as u32),
                i as int,
                t + 1,
            ),
        )
    } else {
        start[v]@
    } by {
        let node = Node(v as u32);
        let done = factor_records(kinds, shape, base, node, i);
        let part = instance_records(kinds, shape, base, node, i as int, t);
        let record = head_record(kinds, shape, base, i as int, t as int);
        if in_lists(free, node) && head_node(shape, i as int, t as int) == node {
            assert((done + part.push(record)).drop_last() =~= done + part);
            assert((done + part.push(record)).last() == record);
            assert(start[v]@ + encode_all(done + part) + record.encode() =~= start[v]@ + (encode_all(
                done + part,
            ) + record.encode()));
        }
    }
}

/// Compiled update schedule of a single free block.
///
/// For every node of the block, `records` holds the contributions of all
/// factor instances that involve the node, as a flat `u32` stream indexed
/// by CSR-style `offsets`. The layout of a record is described in
/// [`record`](crate::record).
#[derive(Debug)]
pub struct BlockProgram {
    pub node_ids: Vec<u32>,
    pub kind: BlockKind,
    pub offsets: Vec<u32>,
    pub records: Vec<u32>,
}

/// A model compiled into a block Gibbs sampling schedule.
///
/// Produced by [`Program::compile`] from a set of factors and a partition
/// of the interacting nodes into *free* blocks (updated in order, one
/// full pass per step) and *clamped* blocks (read but never updated).
pub struct Program<W> {
    pub node_kinds: Vec<NodeKind>,
    pub weights: Vec<W>,
    pub blocks: Vec<BlockProgram>,
    /// Largest number of states of a node of a free block, at least 2.
    pub max_states: u32,
    /// Tells programs apart whose data is kept elsewhere; 0 until assigned.
    pub id: u64,
    /// Changes with every update of the weights.
    pub weights_generation: u64,
}

/// The ids of a list of nodes.
pub open spec fn ids_of(nodes: Seq<Node>) -> Seq<u32> {
    Seq::new(nodes.len(), |p: int| nodes[p].0)
}

/// The largest state count of the first `n` blocks, at least 2.
pub open spec fn most_states(kinds: Seq<NodeKind>, lists: Seq<Seq<Node>>, n: int) -> u32
    decreases n,
{
    if n <= 0 {
        2
    } else {
        let states = kinds[lists[n - 1][0].0 as int].count();
        if states > most_states(kinds, lists, n - 1) {
            states
        } else {
            most_states(kinds, lists, n - 1)
        }
    }
}

/// Whether a block program holds the update streams of the nodes, in order.
pub open spec fn block_compiled<W>(
    kinds: Seq<NodeKind>,
    factors: Seq<DiscreteFactor<W>>,
    nodes: Seq<Node>,
    block: BlockProgram,
) -> bool {
    &&& block.node_ids@ == ids_of(nodes)
    &&& block.kind == BlockKind::of(kinds[nodes[0].0 as int])
    &&& block.offsets@ == Seq::new(
        nodes.len() + 1,
        |p: int| block_stream(kinds, factors, nodes, p as nat).len() as u32,
    )
    &&& block.records@ == block_stream(kinds, factors, nodes, nodes.len())
}

impl<W> Program<W> {
    /// Whether the program is what the model compiles to.
    pub open spec fn compiled_from(
        &self,
        kinds: Seq<NodeKind>,
        free: Seq<Seq<Node>>,
        factors: Seq<DiscreteFactor<W>>,
    ) -> bool {
        &&& self.node_kinds@ == kinds
        &&& self.weights@ == weights_of(factors, factors.len())
        &&& self.blocks@.len() == free.len()
        &&& forall|b: int|
            0 <= b < free.len() ==> block_compiled(kinds, factors, free[b], #[trigger] self.blocks@[b])
        &&& self.max_states == most_states(kinds, free, free.len() as int)
    }

    /// Total number of nodes in the source graph.
    pub fn node_count(&self) -> (r: usize)
        ensures
            r == self.node_kinds@.len(),
    {
        self.node_kinds.len()
    }

    /// Assign the number that tells this program apart.
    pub fn set_id(&mut self, id: u64)
        ensures
            *final(self) == (Program { id, ..*old(self) }),
            old(self).wf() ==> final(self).wf(),
    {
        self.id = id;
    }

    /// Number of free blocks updated per sampling step.
    pub fn block_count(&self) -> (r: usize)
        ensures
            r == self.blocks@.len(),
    {
        self.blocks.len()
    }
}

/// Locate the nodes of a partition, free ones by (block, position), and tell
/// the kinds of the free blocks and their largest state count.
pub(crate) fn check_partition(graph: &Graph, free_blocks: &[Block], clamped_blocks: &[Block]) -> (r:
    Result<(HashMap<u32, (usize, usize)>, HashMap<u32, ()>, Vec<BlockKind>, u32), Error>)
    requires
        blocks_readable(graph@, node_lists(free_blocks@), node_lists(clamped_blocks@)),
    ensures
        ({
            let kinds = graph@;
            let free = node_lists(free_blocks@);
            let clamped = node_lists(clamped_blocks@);
            match r {
                Ok((locations, marked, block_kinds, max_states)) => {
                    &&& partition_error(kinds, free, clamped) is None
                    &&& within(kinds, free)
                    &&& within(kinds, clamped)
                    &&& locates(locations@, free)
                    &&& marks(marked@, clamped)
                    &&& block_kinds@.len() == free.len()
                    &&& forall|c: int|
                        0 <= c < free.len() ==> #[trigger] block_kinds@[c] == BlockKind::of(
                            kinds[free[c][0].0 as int],
                        )
                    &&& max_states == most_states(kinds, free, free.len() as int)
                },
                Err(error) => partition_error(kinds, free, clamped) == Some(error),
            }
        }),
{
    let ghost kinds = graph@;
    let ghost free = node_lists(free_blocks@);
    let ghost clamped = node_lists(clamped_blocks@);
    let (locations, marked) = match locate(free_blocks, clamped_blocks) {
        Ok(maps) => maps,
        Err(error) => {
            return Err(error);
        },
    };

    let mut block_kinds: Vec<BlockKind> = Vec::new();
    let mut max_states: u32 = 2;
    let ghost free_check = block_check(kinds, free);
    for b in 0..free_blocks.len()
        invariant
            kinds == graph@,
            free == node_lists(free_blocks@),
            clamped == node_lists(clamped_blocks@),
            lists_readable(kinds, free),
            repeat_error(free, clamped) is None,
            free_check == block_check(kinds, free),
            first_error(free_check, b as int) is None,
            block_kinds@.len() == b,
            forall|c: int|
                0 <= c < b ==> #[trigger] block_kinds@[c] == BlockKind::of(
                    kinds[free[c][0].0 as int],
                ),
            max_states == most_states(kinds, free, b as int),
    {
        let block = &free_blocks[b];
        assert(free[b as int] == block@);
        match block_kind(graph, block) {
            Ok(kind) => {
                let states: u32 = match kind {
                    BlockKind::Spin => 2,
                    BlockKind::Categorical { states } => states,
                };
                if states > max_states {
                    max_states = states;
                }
                block_kinds.push(kind);
            },
            Err(error) => {
                proof {
                    lemma_first_error_some(free_check, free.len() as int, b as int);
                }
                return Err(error);
            },
        }
    }
    let ghost clamped_check = block_check(kinds, clamped);
    for b in 0..clamped_blocks.len()
        invariant
            kinds == graph@,
            free == node_lists(free_blocks@),
            clamped == node_lists(clamped_blocks@),
            lists_readable(kinds, clamped),
            repeat_error(free, clamped) is None,
            first_error(block_check(kinds, free), free.len() as int) is None,
            clamped_check == block_check(kinds, clamped),
            first_error(clamped_check, b as int) is None,
    {
        let block = &clamped_blocks[b];
        assert(clamped[b as int] == block@);
        match block_kind(graph, block) {
            Ok(_) => {},
            Err(error) => {
                proof {
                    lemma_first_error_some(clamped_check, clamped.len() as int, b as int);
                }
                return Err(error);
            },
        }
    }
    proof {
        lemma_readable_within(kinds, free);
        lemma_readable_within(kinds, clamped);
    }
    Ok((locations, marked, block_kinds, max_states))
}

/// Whether all nodes of a block are in the graph that are looked at to tell its kind.
fn can_read_block(graph: &Graph, block: &Block) -> (r: bool)
    ensures
        r == block_readable(graph@, block@),
{
    if block.nodes.len() == 0 {
        return true;
    }
    let first: Node = block.nodes[0];
    if first.index() >= graph.node_count() {
        assert(!graph.has(block@[0]));
        return false;
    }
    let first_kind: NodeKind = graph.node_kind(first);
    let states: u32 = first_kind.state_count();
    if !(2 <= states && states <= MAX_CATEGORICAL_STATES) {
        return true;
    }
    let ghost check = mixed_check(graph@, block@);
    for j in 0..block.nodes.len()
        invariant
            block@.len() > 0,
            first == block@[0],
            graph.has(first),
            first_kind == graph.kind(first),
            proper(first_kind),
            check == mixed_check(graph@, block@),
            first_error(check, j as int) is None,
            forall|i: int| 0 <= i < j ==> graph.has(#[trigger] block@[i]),
    {
        let node: Node = block.nodes[j];
        assert(node == block@[j as int]);
        if node.index() >= graph.node_count() {
            assert(!graph.has(block@[j as int]));
            return false;
        }
        if graph.node_kind(node) != first_kind {
            assert forall|i: int|
                #![trigger block@[i]]
                0 <= i < block@.len() && first_error(check, i) is None implies graph.has(
                block@[i],
            ) by {
                if i > j {
                    lemma_first_error_none(check, i, j as int);
                }
            }
            return true;
        }
    }
    true
}

/// Whether the kinds of the blocks can be told, up to one that has none, and
/// whether they all have one.
fn can_read_lists(graph: &Graph, blocks: &[Block]) -> (r: (bool, bool))
    ensures
        r.0 == lists_readable(graph@, node_lists(blocks@)),
        r.0 ==> r.1 == (first_error(
            block_check(graph@, node_lists(blocks@)),
            blocks@.len() as int,
        ) is None),
{
    let ghost lists = node_lists(blocks@);
    let ghost check = block_check(graph@, lists);
    for b in 0..blocks.len()
        invariant
            lists == node_lists(blocks@),
            check == block_check(graph@, lists),
            first_error(check, b as int) is None,
            forall|c: int| 0 <= c < b ==> block_readable(graph@, #[trigger] lists[c]),
    {
        let block = &blocks[b];
        assert(lists[b as int] == block@);
        if !can_read_block(graph, block) {
            assert(!block_readable(graph@, lists[b as int]));
            return (false, false);
        }
        if block_kind(graph, block).is_err() {
            proof {
                lemma_first_error_some(check, lists.len() as int, b as int);
                assert forall|c: int|
                    0 <= c < lists.len() && first_error(check, c) is None implies block_readable(
                    graph@,
                    #[trigger] lists[c],
                ) by {
                    if c > b {
                        lemma_first_error_none(check, c, b as int);
                    }
                }
            }
            return (true, false);
        }
    }
    (true, true)
}

/// Whether the graph has all nodes that are looked at to check a partition.
pub fn can_read_blocks(graph: &Graph, free_blocks: &[Block], clamped_blocks: &[Block]) -> (r: bool)
    ensures
        r == blocks_readable(graph@, node_lists(free_blocks@), node_lists(clamped_blocks@)),
{
    match locate(free_blocks, clamped_blocks) {
        Ok(_) => {
            let (readable, sound) = can_read_lists(graph, free_blocks);
            readable && (!sound || can_read_lists(graph, clamped_blocks).0)
        },
        Err(_) => true,
    }
}

/// Flatten the records of the nodes of a block into one stream, rejecting
/// interactions within the block.
fn flatten_block<W>(
    block: &Block,
    block_index: usize,
    kind: BlockKind,
    streams: &Vec<Vec<u32>>,
    locations: &HashMap<u32, (usize, usize)>,
    Ghost(kinds): Ghost<Seq<NodeKind>>,
    Ghost(free): Ghost<Seq<Seq<Node>>>,
    Ghost(clamped): Ghost<Seq<Seq<Node>>>,
    Ghost(factors): Ghost<Seq<DiscreteFactor<W>>>,
) -> (r: Result<BlockProgram, Error>)
    requires
        kinds.len() <= u32::MAX,
        locates(locations@, free),
        within(kinds, free),
        block_index < free.len(),
        free.len() <= usize::MAX,
        free[block_index as int] == block@,
        block@.len() > 0,
        kind == BlockKind::of(kinds[block@[0].0 as int]),
        partition_error(kinds, free, clamped) is None,
        factors_error(kinds, free, clamped, factors) is None,
        compile_fits(kinds, free, clamped, factors),
        streams@.len() == kinds.len(),
        forall|v: int|
            0 <= v < streams@.len() && in_lists(free, Node(v as u32)) ==> (
            #[trigger] streams@[v])@ == encode_all(
                node_records(kinds, factors, Node(v as u32), factors.len()),
            ),
    ensures
        match r {
            Ok(program) => {
                &&& first_error(
                    interaction_node_check(kinds, factors, block@),
                    block@.len() as int,
                ) is None
                &&& block_compiled(kinds, factors, block@, program)
            },
            Err(error) => first_error(
                interaction_node_check(kinds, factors, block@),
                block@.len() as int,
            ) == Some(error),
        },
{
    let ghost nodes = block@;
    let ghost node_check = interaction_node_check(kinds, factors, nodes);
    let mut node_ids: Vec<u32> = Vec::new();
    let mut offsets: Vec<u32> = Vec::new();
    let mut records: Vec<u32> = Vec::new();
    offsets.push(0);
    for p in 0..block.nodes.len()
        invariant
            kinds.len() <= u32::MAX,
            locates(locations@, free),
            within(kinds, free),
            block_index < free.len(),
            free.len() <= usize::MAX,
            free[block_index as int] == nodes,
            nodes == block@,
            partition_error(kinds, free, clamped) is None,
            factors_error(kinds, free, clamped, factors) is None,
            compile_fits(kinds, free, clamped, factors),
            streams@.len() == kinds.len(),
            forall|v: int|
                0 <= v < streams@.len() && in_lists(free, Node(v as u32)) ==> (
                #[trigger] streams@[v])@ == encode_all(
                    node_records(kinds, factors, Node(v as u32), factors.len()),
                ),
            node_check == interaction_node_check(kinds, factors, nodes),
            first_error(node_check, p as int) is None,
            node_ids@ =~= ids_of(nodes.take(p as int)),
            records@ == block_stream(kinds, factors, nodes, p as nat),
            offsets@ =~= Seq::new(
                (p + 1) as nat,
                |q: int| block_stream(kinds, factors, nodes, q as nat).len() as u32,
            ),
    {
        let node: Node = block.nodes[p];
        assert(free[block_index as int][p as int] == node);
        assert(free[block_index as int].contains(node));
        assert(in_lists(free, node));
        let ghost views = node_records(kinds, factors, node, factors.len());
        let stream = &streams[node.index()];
        assert(Node(node.0 as int as u32) == node);
        assert(stream@ == encode_all(views));
        proof {
            lemma_records_fit(kinds, free, clamped, factors, node);
            decode_undoes_encode(views);
        }
        let tails: Vec<u32> = record_tail_ids(stream);
        let ghost check = tail_check(nodes, node, tails@);
        for j in 0..tails.len()
            invariant
                locates(locations@, free),
                block_index < free.len(),
                free.len() <= usize::MAX,
                free[block_index as int] == nodes,
                nodes == block@,
                0 <= p < nodes.len(),
                node == nodes[p as int],
                views == node_records(kinds, factors, node, factors.len()),
                tails@ == all_tail_ids(views),
                check == tail_check(nodes, node, tails@),
                first_error(check, j as int) is None,
                node_check == interaction_node_check(kinds, factors, nodes),
                first_error(node_check, p as int) is None,
        {
            let tail: u32 = tails[j];
            let same: bool = match locations.get(&tail) {
                Some(location) => location.0 == block_index,
                None => false,
            };
            proof {
                lemma_location(locations@, free, tail, block_index as int);
            }
            if same {
                proof {
                    lemma_first_error_some(check, tails@.len() as int, j as int);
                    assert(node_check(p as int) == Some(
                        Error::IntraBlockInteraction(node, Node(tail)),
                    ));
                    lemma_first_error_some(node_check, nodes.len() as int, p as int);
                }
                return Err(Error::IntraBlockInteraction(node, Node(tail)));
            }
        }
        assert(node_check(p as int) is None);
        node_ids.push(node.0);
        append(&mut records, stream);
        offsets.push(records.len() as u32);
    }
    assert(nodes.take(nodes.len() as int) =~= nodes);
    Ok(BlockProgram { node_ids, kind, offsets, records })
}

/// The map tells whether a node belongs to a given block.
proof fn lemma_location(
    map: Map<u32, (usize, usize)>,
    lists: Seq<Seq<Node>>,
    id: u32,
    b: int,
)
    requires
        locates(map, lists),
        0 <= b < lists.len(),
        b <= usize::MAX,
        lists.len() <= usize::MAX,
    ensures
        (map.contains_key(id) && map[id].0 == b) <==> lists[b].contains(Node(id)),
{
    if lists[b].contains(Node(id)) {
        let p = choose|p: int| 0 <= p < lists[b].len() && lists[b][p] == Node(id);
        assert(lists[b][p] == Node(id));
        assert(in_lists(lists, Node(id)));
    }
    if map.contains_key(id) {
        let c = choose|c: int| 0 <= c < lists.len() && (#[trigger] lists[c]).contains(Node(id));
        let p = choose|p: int| 0 <= p < lists[c].len() && lists[c][p] == Node(id);
        assert(lists[c][p] == Node(id));
    }
}

impl<W: Copy> Program<W> {
    /// Compile `factors` into a sampling program.
    ///
    /// Every step of the resulting program updates the free blocks
    /// sequentially, in the given order. Nodes within one block are
    /// updated in parallel, so they must not interact with each other.
    /// Nodes of `clamped_blocks` keep whatever state they were assigned.
    pub fn compile(
        graph: &Graph,
        free_blocks: &[Block],
        clamped_blocks: &[Block],
        factors: &[DiscreteFactor<W>],
    ) -> (r: Result<Self, Error>)
        requires
            graph.wf(),
            blocks_readable(graph@, node_lists(free_blocks@), node_lists(clamped_blocks@)),
            compile_fits(
                graph@,
                node_lists(free_blocks@),
                node_lists(clamped_blocks@),
                factors@,
            ),
        ensures
            match r {
                Ok(program) => {
                    &&& model_error(
                        graph@,
                        node_lists(free_blocks@),
                        node_lists(clamped_blocks@),
                        factors@,
                    ) is None
                    &&& program.compiled_from(graph@, node_lists(free_blocks@), factors@)
                    &&& program.wf()
                    &&& program.id == 0
                    &&& program.weights_generation == 0
                },
                Err(error) => model_error(
                    graph@,
                    node_lists(free_blocks@),
                    node_lists(clamped_blocks@),
                    factors@,
                ) == Some(error),
            },
    {
        let ghost kinds = graph@;
        let ghost free = node_lists(free_blocks@);
        let ghost clamped = node_lists(clamped_blocks@);
        let (locations, marked, block_kinds, max_states) = match check_partition(
            graph,
            free_blocks,
            clamped_blocks,
        ) {
            Ok(found) => found,
            Err(error) => {
                return Err(error);
            },
        };

        // Gather the records of each free node.
        let mut streams: Vec<Vec<u32>> = Vec::new();
        let n_nodes: usize = graph.node_count();
        for v in 0..n_nodes
            invariant
                streams@.len() == v,
                forall|u: int| 0 <= u < v ==> (#[trigger] streams@[u])@ == Seq::<u32>::empty(),
        {
            streams.push(Vec::new());
        }
        let mut weights: Vec<W> = Vec::new();
        let ghost check = factor_check(kinds, free, clamped, factors@);
        assert(encode_all(Seq::empty()) =~= Seq::<u32>::empty());
        for k in 0..factors.len()
            invariant
                kinds == graph@,
                graph.wf(),
                free == node_lists(free_blocks@),
                clamped == node_lists(clamped_blocks@),
                within(kinds, free),
                within(kinds, clamped),
                locates(locations@, free),
                marks(marked@, clamped),
                partition_error(kinds, free, clamped) is None,
                compile_fits(kinds, free, clamped, factors@),
                check == factor_check(kinds, free, clamped, factors@),
                first_error(check, k as int) is None,
                weights@ == weights_of(factors@, k as nat),
                weights@.len() <= u32::MAX,
                streams@.len() == kinds.len(),
                forall|v: int|
                    0 <= v < streams@.len() && in_lists(free, Node(v as u32)) ==> (
                    #[trigger] streams@[v])@ == encode_all(
                        node_records(kinds, factors@, Node(v as u32), k as nat),
                    ),
        {
            let factor = &factors[k];
            assert(factor_fits(
                kinds,
                free,
                clamped,
                factors@[k as int].shape(),
                weights_of(factors@, k as nat).len(),
                factors@[k as int].weights@.len(),
            ));
            match compile_factor(
                graph,
                factor,
                weights.len() as u32,
                &locations,
                &marked,
                &mut streams,
                Ghost(free),
                Ghost(clamped),
            ) {
                Ok(_) => {},
                Err(error) => {
                    proof {
                        lemma_first_error_some(check, factors@.len() as int, k as int);
                    }
                    return Err(error);
                },
            }
            proof {
                assert(check(k as int) is None);
                assert forall|v: int|
                    0 <= v < streams@.len() && in_lists(free, Node(v as u32)) implies (
                #[trigger] streams@[v])@ == encode_all(
                    node_records(kinds, factors@, Node(v as u32), (k + 1) as nat),
                ) by {
                    lemma_encode_concat(
                        node_records(kinds, factors@, Node(v as u32), k as nat),
                        factor_records(
                            kinds,
                            factor.shape(),
                            weights@.len() as int,
                            Node(v as u32),
                            factor.shape().batch(),
                        ),
                    );
                }
            }
            append(&mut weights, &factor.weights);
        }

        // Flatten per-node records into per-block streams,
        // rejecting interactions within one block.
        let mut blocks: Vec<BlockProgram> = Vec::new();
        let ghost tail_checks = interaction_check(kinds, factors@, free);
        for b in 0..free_blocks.len()
            invariant
                kinds == graph@,
                graph.wf(),
                free == node_lists(free_blocks@),
                clamped == node_lists(clamped_blocks@),
                within(kinds, free),
                locates(locations@, free),
                partition_error(kinds, free, clamped) is None,
                factors_error(kinds, free, clamped, factors@) is None,
                compile_fits(kinds, free, clamped, factors@),
                streams@.len() == kinds.len(),
                forall|v: int|
                    0 <= v < streams@.len() && in_lists(free, Node(v as u32)) ==> (
                    #[trigger] streams@[v])@ == encode_all(
                        node_records(kinds, factors@, Node(v as u32), factors@.len()),
                    ),
                block_kinds@.len() == free.len(),
                forall|c: int|
                    0 <= c < free.len() ==> #[trigger] block_kinds@[c] == BlockKind::of(
                        kinds[free[c][0].0 as int],
                    ),
                tail_checks == interaction_check(kinds, factors@, free),
                first_error(tail_checks, b as int) is None,
                blocks@.len() == b,
                forall|c: int|
                    0 <= c < b ==> block_compiled(kinds, factors@, free[c], #[trigger] blocks@[c]),
        {
            let block = &free_blocks[b];
            assert(free[b as int] == block@);
            proof {
                lemma_first_error_none(block_check(kinds, free), free.len() as int, b as int);
                assert(block_error(kinds, free[b as int]) is None);
            }
            match flatten_block::<W>(
                block,
                b,
                block_kinds[b],
                &streams,
                &locations,
                Ghost(kinds),
                Ghost(free),
                Ghost(clamped),
                Ghost(factors@),
            ) {
                Ok(program) => {
                    blocks.push(program);
                },
                Err(error) => {
                    proof {
                        lemma_first_error_some(tail_checks, free.len() as int, b as int);
                    }
                    return Err(error);
                },
            }
        }
        let program = Program {
            node_kinds: copy_of(&graph.kinds),
            weights,
            blocks,
            max_states,
            id: 0,
            weights_generation: 0,
        };
        proof {
            compiled_programs_are_sound(kinds, free, clamped, factors@, program);
        }
        Ok(program)
    }

    /// Replace the weight values of the program without recompiling.
    ///
    /// The factors must have the same node structure as the ones the
    /// program was compiled from; only the weight values may differ.
    /// The record streams reference weights by index, so this is all
    /// that a training loop needs between epochs.
    pub fn update_weights(&mut self, factors: &[DiscreteFactor<W>]) -> (r: Result<(), Error>)
        requires
            weights_of(factors@, factors@.len()).len() <= usize::MAX,
        ensures
            old(self).wf() ==> final(self).wf(),
            match r {
                Ok(_) => {
                    &&& weights_of(factors@, factors@.len()).len() == old(self).weights@.len()
                    &&& final(self).weights@ == weights_of(factors@, factors@.len())
                    &&& final(self).weights_generation
                        == old(self).weights_generation.wrapping_add(1)
                    &&& final(self).node_kinds == old(self).node_kinds
                    &&& final(self).blocks == old(self).blocks
                    &&& final(self).max_states == old(self).max_states
                    &&& final(self).id == old(self).id
                },
                Err(error) => {
                    &&& weights_of(factors@, factors@.len()).len() != old(self).weights@.len()
                    &&& error == Error::WeightLengthMismatch {
                        expected: old(self).weights@.len() as usize,
                        actual: weights_of(factors@, factors@.len()).len() as usize,
                    }
                    &&& *final(self) == *old(self)
                },
            },
    {
        let mut total: usize = 0;
        for k in 0..factors.len()
            invariant
                weights_of(factors@, factors@.len()).len() <= usize::MAX,
                total == weights_of(factors@, k as nat).len(),
        {
            proof {
                lemma_weights_prefix(factors@, (k + 1) as nat, factors@.len());
            }
            total = total + factors[k].weights.len();
        }
        if self.weights.len() != total {
            return Err(
                Error::WeightLengthMismatch { expected: self.weights.len(), actual: total },
            );
        }
        let mut weights: Vec<W> = Vec::new();
        for k in 0..factors.len()
            invariant
                weights@ == weights_of(factors@, k as nat),
        {
            append(&mut weights, &factors[k].weights);
        }
        self.weights = weights;
        self.weights_generation = self.weights_generation.wrapping_add(1);
        Ok(())
    }
}

pub proof fn lemma_weights_prefix<W>(factors: Seq<DiscreteFactor<W>>, a: nat, b: nat)
    requires
        a <= b,
    ensures
        weights_of(factors, a).len() <= weights_of(factors, b).len(),
        forall|j: int|
            0 <= j < weights_of(factors, a).len() ==> weights_of(factors, a)[j] == weights_of(
                factors,
                b,
            )[j],
    decreases b,
{
    if a < b {
        lemma_weights_prefix(factors, a, (b - 1) as nat);
    }
}

/// The largest number of states of a program is that of one of its blocks,
/// or 2, and no block has more.
pub proof fn most_states_are_the_maximum(kinds: Seq<NodeKind>, lists: Seq<Seq<Node>>, n: int)
    requires
        0 <= n <= lists.len(),
    ensures
        most_states(kinds, lists, n) >= 2,
        forall|b: int|
            #![trigger lists[b]]
            0 <= b < n ==> match kinds[lists[b][0].0 as int] {
                NodeKind::Spin => true,
                NodeKind::Categorical { states } => states <= most_states(kinds, lists, n),
            },
        most_states(kinds, lists, n) > 2 ==> exists|b: int|
            0 <= b < n && kinds[(#[trigger] lists[b])[0].0 as int] == (NodeKind::Categorical {
                states: most_states(kinds, lists, n),
            }),
    decreases n,
{
    if n > 0 {
        most_states_are_the_maximum(kinds, lists, n - 1);
        assert(lists[n - 1] == lists[n - 1]);
        let most = most_states(kinds, lists, n);
        if most > 2 {
            if most == most_states(kinds, lists, n - 1) {
                let b = choose|b: int|
                    0 <= b < n - 1 && kinds[(#[trigger] lists[b])[0].0 as int] == (
                    NodeKind::Categorical { states: most_states(kinds, lists, n - 1) });
                assert(kinds[lists[b][0].0 as int] == (NodeKind::Categorical { states: most }));
            } else {
                assert(kinds[lists[n - 1][0].0 as int] == (NodeKind::Categorical {
                    states: most,
                }));
            }
        }
    }
}

} // verus!
