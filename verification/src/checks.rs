//! What a model has to satisfy to be compiled, and which error is reported
//! where it does not.

use vstd::prelude::*;

use crate::error::Error;
use crate::factor::{axis_product, DiscreteFactor, Shape};
use crate::graph::{Node, NodeKind};

verus! {

/// Maximum number of states of a categorical node.
///
/// Bounded by the fixed-size scratch array in the GPU kernel.
pub const MAX_CATEGORICAL_STATES: u32 = 256;

/// The first error among the checks `0 .. n`.
pub open spec fn first_error(check: spec_fn(int) -> Option<Error>, n: int) -> Option<Error>
    decreases n,
{
    if n <= 0 {
        None
    } else if first_error(check, n - 1) is Some {
        first_error(check, n - 1)
    } else {
        check(n - 1)
    }
}

/// The first of two errors.
pub open spec fn either_error(first: Option<Error>, second: Option<Error>) -> Option<Error> {
    if first is Some {
        first
    } else {
        second
    }
}

/// The nodes of the first `n` lists, in order.
pub open spec fn concat(lists: Seq<Seq<Node>>, n: int) -> Seq<Node>
    decreases n,
{
    if n <= 0 {
        Seq::empty()
    } else {
        concat(lists, n - 1) + lists[n - 1]
    }
}

/// The first node that repeats an earlier one.
pub open spec fn first_repeat(nodes: Seq<Node>) -> Option<Node>
    decreases nodes.len(),
{
    if nodes.len() == 0 {
        None
    } else if first_repeat(nodes.drop_last()) is Some {
        first_repeat(nodes.drop_last())
    } else if nodes.drop_last().contains(nodes.last()) {
        Some(nodes.last())
    } else {
        None
    }
}

/// The nodes of all blocks: the free ones, then the clamped ones.
pub open spec fn block_nodes(free: Seq<Seq<Node>>, clamped: Seq<Seq<Node>>) -> Seq<Node> {
    concat(free, free.len() as int) + concat(clamped, clamped.len() as int)
}

/// Whether one of the lists holds the node.
pub open spec fn in_lists(lists: Seq<Seq<Node>>, node: Node) -> bool {
    exists|b: int| 0 <= b < lists.len() && (#[trigger] lists[b]).contains(node)
}

/// Whether the node is in a free or a clamped block.
pub open spec fn covered(free: Seq<Seq<Node>>, clamped: Seq<Seq<Node>>, node: Node) -> bool {
    in_lists(free, node) || in_lists(clamped, node)
}

/// A node that appears more than once across the blocks.
pub open spec fn repeat_error(free: Seq<Seq<Node>>, clamped: Seq<Seq<Node>>) -> Option<Error> {
    match first_repeat(block_nodes(free, clamped)) {
        Some(node) => Some(Error::DuplicateNode(node)),
        None => None,
    }
}

/// Whether a node of this kind has an admissible number of states.
pub open spec fn proper(kind: NodeKind) -> bool {
    2 <= kind.count() <= MAX_CATEGORICAL_STATES
}

pub open spec fn mixed_check(
    kinds: Seq<NodeKind>,
    nodes: Seq<Node>,
) -> spec_fn(int) -> Option<Error> {
    |j: int|
        if kinds[nodes[j].0 as int] != kinds[nodes[0].0 as int] {
            Some(Error::MixedBlock(nodes[0], nodes[j]))
        } else {
            None
        }
}

/// Why the nodes do not make up a block: there are none, the first has a bad
/// state count, or another is of a different kind than the first.
pub open spec fn block_error(kinds: Seq<NodeKind>, nodes: Seq<Node>) -> Option<Error> {
    if nodes.len() == 0 {
        Some(Error::EmptyBlock)
    } else if !proper(kinds[nodes[0].0 as int]) {
        Some(Error::BadStateCount(nodes[0]))
    } else {
        first_error(mixed_check(kinds, nodes), nodes.len() as int)
    }
}

pub open spec fn block_check(
    kinds: Seq<NodeKind>,
    lists: Seq<Seq<Node>>,
) -> spec_fn(int) -> Option<Error> {
    |b: int| block_error(kinds, lists[b])
}

/// The first error among the free blocks, then the clamped ones.
pub open spec fn blocks_error(
    kinds: Seq<NodeKind>,
    free: Seq<Seq<Node>>,
    clamped: Seq<Seq<Node>>,
) -> Option<Error> {
    either_error(
        first_error(block_check(kinds, free), free.len() as int),
        first_error(block_check(kinds, clamped), clamped.len() as int),
    )
}

pub open spec fn cover_check(
    free: Seq<Seq<Node>>,
    clamped: Seq<Seq<Node>>,
    nodes: Seq<Node>,
) -> spec_fn(int) -> Option<Error> {
    |j: int|
        if covered(free, clamped, nodes[j]) {
            None
        } else {
            Some(Error::UncoveredNode(nodes[j]))
        }
}

pub open spec fn group_check(
    free: Seq<Seq<Node>>,
    clamped: Seq<Seq<Node>>,
    groups: Seq<Seq<Node>>,
    batch: nat,
) -> spec_fn(int) -> Option<Error> {
    |g: int|
        if groups[g].len() != batch {
            Some(Error::GroupLengthMismatch)
        } else {
            first_error(cover_check(free, clamped, groups[g]), groups[g].len() as int)
        }
}

pub open spec fn spin_node_check(
    kinds: Seq<NodeKind>,
    nodes: Seq<Node>,
) -> spec_fn(int) -> Option<Error> {
    |j: int|
        if kinds[nodes[j].0 as int] == NodeKind::Spin {
            None
        } else {
            Some(Error::GroupKindMismatch(nodes[j]))
        }
}

pub open spec fn spin_group_check(
    kinds: Seq<NodeKind>,
    spins: Seq<Seq<Node>>,
) -> spec_fn(int) -> Option<Error> {
    |g: int| first_error(spin_node_check(kinds, spins[g]), spins[g].len() as int)
}

pub open spec fn axis_node_check(
    kinds: Seq<NodeKind>,
    nodes: Seq<Node>,
) -> spec_fn(int) -> Option<Error> {
    |j: int|
        match kinds[nodes[j].0 as int] {
            NodeKind::Spin => Some(Error::GroupKindMismatch(nodes[j])),
            NodeKind::Categorical { states } => if states == kinds[nodes[0].0 as int].count() {
                None
            } else {
                Some(Error::MixedBlock(nodes[0], nodes[j]))
            },
        }
}

/// Why the nodes do not share one axis of a weight tensor.
pub open spec fn axis_error(kinds: Seq<NodeKind>, nodes: Seq<Node>) -> Option<Error> {
    match kinds[nodes[0].0 as int] {
        NodeKind::Spin => Some(Error::GroupKindMismatch(nodes[0])),
        NodeKind::Categorical { states } => if proper(kinds[nodes[0].0 as int]) {
            first_error(axis_node_check(kinds, nodes), nodes.len() as int)
        } else {
            Some(Error::BadStateCount(nodes[0]))
        },
    }
}

/// The error of the last axis from `from` on that has one.
pub open spec fn axes_error(
    kinds: Seq<NodeKind>,
    cats: Seq<Seq<Node>>,
    from: int,
) -> Option<Error>
    decreases cats.len() - from,
{
    if from < 0 || from >= cats.len() {
        None
    } else {
        either_error(axes_error(kinds, cats, from + 1), axis_error(kinds, cats[from]))
    }
}

/// Errors in the node groups of a factor, before its axes are looked at.
pub open spec fn groups_error(
    kinds: Seq<NodeKind>,
    free: Seq<Seq<Node>>,
    clamped: Seq<Seq<Node>>,
    shape: Shape,
) -> Option<Error> {
    let groups = shape.spins + shape.cats;
    if shape.batch() == 0 {
        Some(Error::EmptyBlock)
    } else {
        either_error(
            first_error(group_check(free, clamped, groups, shape.batch()), groups.len() as int),
            first_error(spin_group_check(kinds, shape.spins), shape.spins.len() as int),
        )
    }
}

/// Number of weights that the shape asks for.
pub open spec fn expected_weights(kinds: Seq<NodeKind>, shape: Shape) -> nat {
    shape.batch() * axis_product(kinds, shape.cats, 0)
}

pub open spec fn weight_error(kinds: Seq<NodeKind>, shape: Shape, actual: nat) -> Option<Error> {
    if expected_weights(kinds, shape) == actual {
        None
    } else {
        Some(
            Error::WeightLengthMismatch {
                expected: expected_weights(kinds, shape) as usize,
                actual: actual as usize,
            },
        )
    }
}

/// Why a factor with the given number of weights cannot be compiled.
pub open spec fn factor_error(
    kinds: Seq<NodeKind>,
    free: Seq<Seq<Node>>,
    clamped: Seq<Seq<Node>>,
    shape: Shape,
    weight_count: nat,
) -> Option<Error> {
    either_error(
        groups_error(kinds, free, clamped, shape),
        either_error(axes_error(kinds, shape.cats, 0), weight_error(kinds, shape, weight_count)),
    )
}

pub open spec fn factor_check<W>(
    kinds: Seq<NodeKind>,
    free: Seq<Seq<Node>>,
    clamped: Seq<Seq<Node>>,
    factors: Seq<DiscreteFactor<W>>,
) -> spec_fn(int) -> Option<Error> {
    |k: int|
        factor_error(kinds, free, clamped, factors[k].shape(), factors[k].weights@.len())
}

/// Errors in the blocks alone.
pub open spec fn partition_error(
    kinds: Seq<NodeKind>,
    free: Seq<Seq<Node>>,
    clamped: Seq<Seq<Node>>,
) -> Option<Error> {
    either_error(repeat_error(free, clamped), blocks_error(kinds, free, clamped))
}

// Facts about the checks.

pub proof fn lemma_first_error_none(check: spec_fn(int) -> Option<Error>, n: int, i: int)
    requires
        first_error(check, n) is None,
        0 <= i < n,
    ensures
        check(i) is None,
        first_error(check, i) is None,
    decreases n,
{
    if i < n - 1 {
        lemma_first_error_none(check, n - 1, i);
    }
}

/// Where there is an error, the first one is found at or before it.
pub proof fn lemma_first_error_found(check: spec_fn(int) -> Option<Error>, n: int, i: int) -> (j:
    int)
    requires
        0 <= i < n,
        check(i) is Some,
    ensures
        0 <= j <= i,
        check(j) is Some,
        first_error(check, n) == check(j),
    decreases n,
{
    if i < n - 1 {
        lemma_first_error_found(check, n - 1, i)
    } else if first_error(check, i) is None {
        i
    } else {
        lemma_error_origin(check, i)
    }
}

/// Where the first error comes from.
pub proof fn lemma_error_origin(check: spec_fn(int) -> Option<Error>, n: int) -> (j: int)
    requires
        first_error(check, n) is Some,
    ensures
        0 <= j < n,
        check(j) is Some,
        first_error(check, n) == check(j),
    decreases n,
{
    if first_error(check, n - 1) is Some {
        lemma_error_origin(check, n - 1)
    } else {
        n - 1
    }
}

/// An error found at `i` after none before it is the first of any longer run.
pub proof fn lemma_first_error_some(check: spec_fn(int) -> Option<Error>, n: int, i: int)
    requires
        0 <= i < n,
        first_error(check, i) is None,
        check(i) is Some,
    ensures
        first_error(check, n) == check(i),
    decreases n,
{
    if i < n - 1 {
        lemma_first_error_some(check, n - 1, i);
    }
}

pub proof fn lemma_no_error(check: spec_fn(int) -> Option<Error>, n: int)
    requires
        forall|i: int| 0 <= i < n ==> (#[trigger] check(i)) is None,
    ensures
        first_error(check, n) is None,
    decreases n,
{
    if n > 0 {
        lemma_no_error(check, n - 1);
    }
}

pub proof fn lemma_repeat_prefix(nodes: Seq<Node>, n: int)
    requires
        0 <= n <= nodes.len(),
        first_repeat(nodes.take(n)) is Some,
    ensures
        first_repeat(nodes) == first_repeat(nodes.take(n)),
    decreases nodes.len(),
{
    if n == nodes.len() {
        assert(nodes.take(n) =~= nodes);
    } else {
        assert(nodes.drop_last().take(n) =~= nodes.take(n));
        lemma_repeat_prefix(nodes.drop_last(), n);
    }
}

pub proof fn lemma_repeat_push(nodes: Seq<Node>, node: Node)
    requires
        first_repeat(nodes) is None,
    ensures
        first_repeat(nodes.push(node)) == if nodes.contains(node) {
            Some(node)
        } else {
            None
        },
{
    assert(nodes.push(node).drop_last() =~= nodes);
}

/// Without a repeat, no two positions hold the same node.
pub proof fn lemma_no_repeat(nodes: Seq<Node>)
    requires
        first_repeat(nodes) is None,
    ensures
        nodes.no_duplicates(),
    decreases nodes.len(),
{
    if nodes.len() > 0 {
        let init = nodes.drop_last();
        lemma_no_repeat(init);
        assert forall|i: int, j: int| 0 <= i < j < nodes.len() implies nodes[i] != nodes[j] by {
            assert(nodes[i] == init[i]);
            if j < nodes.len() - 1 {
                assert(nodes[j] == init[j]);
            }
        }
    }
}

pub proof fn lemma_repeat_none(nodes: Seq<Node>)
    requires
        nodes.no_duplicates(),
    ensures
        first_repeat(nodes) is None,
    decreases nodes.len(),
{
    if nodes.len() > 0 {
        let init = nodes.drop_last();
        assert(init.no_duplicates());
        lemma_repeat_none(init);
        if init.contains(nodes.last()) {
            let i = choose|i: int| 0 <= i < init.len() && init[i] == nodes.last();
            assert(nodes[i] == nodes[nodes.len() - 1]);
        }
    }
}

pub proof fn lemma_push_contains<T>(nodes: Seq<T>, node: T, other: T)
    ensures
        nodes.push(node).contains(other) <==> nodes.contains(other) || node == other,
{
    let pushed = nodes.push(node);
    if nodes.contains(other) {
        let i = choose|i: int| 0 <= i < nodes.len() && nodes[i] == other;
        assert(pushed[i] == other);
    }
    if node == other {
        assert(pushed[nodes.len() as int] == other);
    }
    if pushed.contains(other) {
        let i = choose|i: int| 0 <= i < pushed.len() && pushed[i] == other;
        if i < nodes.len() {
            assert(nodes[i] == other);
        }
    }
}

pub proof fn lemma_add_contains(a: Seq<Node>, b: Seq<Node>, node: Node)
    ensures
        (a + b).contains(node) <==> a.contains(node) || b.contains(node),
{
    if a.contains(node) {
        let i = choose|i: int| 0 <= i < a.len() && a[i] == node;
        assert((a + b)[i] == node);
    }
    if b.contains(node) {
        let i = choose|i: int| 0 <= i < b.len() && b[i] == node;
        assert((a + b)[a.len() + i] == node);
    }
    if (a + b).contains(node) {
        let i = choose|i: int| 0 <= i < (a + b).len() && (a + b)[i] == node;
        if i < a.len() {
            assert(a[i] == node);
        } else {
            assert(b[i - a.len()] == node);
        }
    }
}

pub proof fn lemma_concat_contains(lists: Seq<Seq<Node>>, n: int, node: Node)
    requires
        0 <= n <= lists.len(),
    ensures
        concat(lists, n).contains(node) <==> exists|b: int|
            0 <= b < n && (#[trigger] lists[b]).contains(node),
    decreases n,
{
    if n > 0 {
        lemma_concat_contains(lists, n - 1, node);
        lemma_add_contains(concat(lists, n - 1), lists[n - 1], node);
        if lists[n - 1].contains(node) {
            assert(0 <= n - 1 < n && lists[n - 1].contains(node));
        }
        if exists|b: int| 0 <= b < n && (#[trigger] lists[b]).contains(node) {
            let b = choose|b: int| 0 <= b < n && (#[trigger] lists[b]).contains(node);
            if b < n - 1 {
                assert(0 <= b < n - 1 && lists[b].contains(node));
            }
        }
    }
}

/// The nodes of the first lists are a prefix of the nodes of all lists.
pub proof fn lemma_concat_prefix(lists: Seq<Seq<Node>>, a: int, b: int)
    requires
        0 <= a <= b <= lists.len(),
    ensures
        concat(lists, a).len() <= concat(lists, b).len(),
        concat(lists, b).take(concat(lists, a).len() as int) == concat(lists, a),
    decreases b - a,
{
    if a < b {
        lemma_concat_prefix(lists, a, b - 1);
        let n = concat(lists, a).len() as int;
        assert(concat(lists, b).take(n) =~= concat(lists, b - 1).take(n));
    } else {
        assert(concat(lists, b).take(concat(lists, a).len() as int) =~= concat(lists, a));
    }
}

/// What the group checks of a factor establish.
pub proof fn lemma_groups(
    kinds: Seq<NodeKind>,
    free: Seq<Seq<Node>>,
    clamped: Seq<Seq<Node>>,
    shape: Shape,
)
    requires
        groups_error(kinds, free, clamped, shape) is None,
    ensures
        shape.batch() > 0,
        forall|g: int|
            0 <= g < shape.spins.len() ==> (#[trigger] shape.spins[g]).len() == shape.batch(),
        forall|g: int|
            0 <= g < shape.cats.len() ==> (#[trigger] shape.cats[g]).len() == shape.batch(),
        forall|g: int, j: int|
            #![trigger shape.spins[g][j]]
            0 <= g < shape.spins.len() && 0 <= j < shape.batch() ==> covered(
                free,
                clamped,
                shape.spins[g][j],
            ) && kinds[shape.spins[g][j].0 as int] == NodeKind::Spin,
        forall|g: int, j: int|
            #![trigger shape.cats[g][j]]
            0 <= g < shape.cats.len() && 0 <= j < shape.batch() ==> covered(
                free,
                clamped,
                shape.cats[g][j],
            ),
{
    let groups = shape.spins + shape.cats;
    let n = groups.len() as int;
    let check = group_check(free, clamped, groups, shape.batch());
    let kind_check = spin_group_check(kinds, shape.spins);
    assert forall|g: int| 0 <= g < n implies (#[trigger] groups[g]).len() == shape.batch() && (
    forall|j: int|
        0 <= j < shape.batch() ==> covered(free, clamped, #[trigger] groups[g][j])) by {
        lemma_first_error_none(check, n, g);
        assert forall|j: int| 0 <= j < shape.batch() implies covered(
            free,
            clamped,
            #[trigger] groups[g][j],
        ) by {
            lemma_first_error_none(
                cover_check(free, clamped, groups[g]),
                groups[g].len() as int,
                j,
            );
        }
    }
    assert forall|g: int| 0 <= g < shape.spins.len() implies (#[trigger] shape.spins[g]).len()
        == shape.batch() by {
        assert(groups[g] == shape.spins[g]);
    }
    assert forall|g: int| 0 <= g < shape.cats.len() implies (#[trigger] shape.cats[g]).len()
        == shape.batch() by {
        assert(groups[shape.spins.len() + g] == shape.cats[g]);
    }
    assert forall|g: int, j: int|
        #![trigger shape.spins[g][j]]
        0 <= g < shape.spins.len() && 0 <= j < shape.batch() implies covered(
        free,
        clamped,
        shape.spins[g][j],
    ) && kinds[shape.spins[g][j].0 as int] == NodeKind::Spin by {
        assert(groups[g] == shape.spins[g]);
        assert(covered(free, clamped, groups[g][j]));
        lemma_first_error_none(kind_check, shape.spins.len() as int, g);
        lemma_first_error_none(
            spin_node_check(kinds, shape.spins[g]),
            shape.spins[g].len() as int,
            j,
        );
    }
    assert forall|g: int, j: int|
        #![trigger shape.cats[g][j]]
        0 <= g < shape.cats.len() && 0 <= j < shape.batch() implies covered(
        free,
        clamped,
        shape.cats[g][j],
    ) by {
        assert(groups[shape.spins.len() + g] == shape.cats[g]);
        assert(covered(free, clamped, groups[shape.spins.len() + g][j]));
    }
}

/// What the axis checks of a factor establish: every node of an axis is
/// categorical, with the state count of the first.
pub proof fn lemma_axes(kinds: Seq<NodeKind>, cats: Seq<Seq<Node>>, from: int, c: int, j: int)
    requires
        axes_error(kinds, cats, from) is None,
        0 <= from <= c < cats.len(),
        0 <= j < cats[c].len(),
    ensures
        axis_error(kinds, cats[c]) is None,
        proper(kinds[cats[c][0].0 as int]),
        kinds[cats[c][j].0 as int] is Categorical,
        kinds[cats[c][j].0 as int] == kinds[cats[c][0].0 as int],
    decreases c - from,
{
    if from < c {
        lemma_axes(kinds, cats, from + 1, c, j);
    } else {
        lemma_first_error_none(axis_node_check(kinds, cats[c]), cats[c].len() as int, j);
        lemma_first_error_none(axis_node_check(kinds, cats[c]), cats[c].len() as int, 0);
    }
}

/// Axes from a later one on have no error where those from an earlier one on have none.
pub proof fn lemma_axes_suffix(kinds: Seq<NodeKind>, cats: Seq<Seq<Node>>, from: int, c: int)
    requires
        axes_error(kinds, cats, from) is None,
        0 <= from <= c <= cats.len(),
    ensures
        axes_error(kinds, cats, c) is None,
    decreases c - from,
{
    if from < c {
        lemma_axes_suffix(kinds, cats, from + 1, c);
    }
}

/// An error of the axes from a later one on is the error of those from an earlier one on.
pub proof fn lemma_axes_found(kinds: Seq<NodeKind>, cats: Seq<Seq<Node>>, from: int, c: int)
    requires
        axes_error(kinds, cats, c) is Some,
        0 <= from <= c < cats.len(),
    ensures
        axes_error(kinds, cats, from) == axes_error(kinds, cats, c),
    decreases c - from,
{
    if from < c {
        lemma_axes_found(kinds, cats, from + 1, c);
    }
}

} // verus!
