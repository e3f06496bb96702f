//! Coloring of interaction graphs.

use vstd::prelude::*;

use crate::checks::{
    block_check, block_nodes, concat, lemma_concat_contains, lemma_no_error, lemma_push_contains,
    lemma_repeat_none, mixed_check, partition_error, proper,
};
use crate::factor::{node_lists, DiscreteFactor, Shape};
use crate::graph::{Block, Graph, Node, NodeKind};
use crate::record::{all_tail_ids, RecordView};
use crate::streams::{
    cat_pairs, factors_error, head_count, head_node, head_record, interaction_check,
    interaction_node_check, lemma_record_origin, model_error, node_records, spin_ids, tail_check,
    weights_of,
};

verus! {

/// The last position of a node among the first `n`, or -1.
pub open spec fn last_index(nodes: Seq<Node>, node: Node, n: nat) -> int
    decreases n,
{
    if n == 0 {
        -1
    } else if nodes[n - 1] == node {
        n - 1
    } else {
        last_index(nodes, node, (n - 1) as nat)
    }
}

/// The position that stands for a node in the coloring.
pub open spec fn place(nodes: Seq<Node>, node: Node) -> int {
    last_index(nodes, node, nodes.len())
}

/// Whether an edge joins the nodes at two positions.
pub open spec fn joins(nodes: Seq<Node>, edge: (Node, Node), i: int, j: int) -> bool {
    ||| place(nodes, edge.0) == i && place(nodes, edge.1) == j
    ||| place(nodes, edge.1) == i && place(nodes, edge.0) == j
}

/// Whether an edge joins the nodes at two positions.
pub open spec fn adjacent(nodes: Seq<Node>, edges: Seq<(Node, Node)>, i: int, j: int) -> bool {
    exists|e: int| 0 <= e < edges.len() && #[trigger] joins(nodes, edges[e], i, j)
}

/// Whether a neighbor among the nodes colored so far has the color.
pub open spec fn taken(
    nodes: Seq<Node>,
    edges: Seq<(Node, Node)>,
    colors: Seq<nat>,
    i: int,
    color: nat,
) -> bool {
    exists|j: int|
        0 <= j < colors.len() && colors[j] == color && #[trigger] adjacent(nodes, edges, i, j)
}

/// The least color, `color` or above, that no neighbor colored so far has.
pub open spec fn first_free(
    nodes: Seq<Node>,
    edges: Seq<(Node, Node)>,
    colors: Seq<nat>,
    i: int,
    color: nat,
) -> nat
    decreases colors.len() + 1 - color,
{
    if color <= colors.len() && taken(nodes, edges, colors, i, color) {
        first_free(nodes, edges, colors, i, color + 1)
    } else {
        color
    }
}

/// The colors of the first `n` nodes: each gets the least color that no
/// neighbor before it has.
pub open spec fn greedy_colors(nodes: Seq<Node>, edges: Seq<(Node, Node)>, n: nat) -> Seq<nat>
    decreases n,
{
    if n == 0 {
        Seq::empty()
    } else {
        let before = greedy_colors(nodes, edges, (n - 1) as nat);
        before.push(first_free(nodes, edges, before, n - 1, 0))
    }
}

/// Number of colors among the first `n`.
pub open spec fn color_count(colors: Seq<nat>, n: nat) -> nat
    decreases n,
{
    if n == 0 {
        0
    } else {
        let before = color_count(colors, (n - 1) as nat);
        if colors[n - 1] < before {
            before
        } else {
            colors[n - 1] + 1
        }
    }
}

/// The nodes of a color among the first `n`, in order.
pub open spec fn color_class(nodes: Seq<Node>, colors: Seq<nat>, color: nat, n: nat) -> Seq<Node>
    decreases n,
{
    if n == 0 {
        Seq::empty()
    } else {
        let before = color_class(nodes, colors, color, (n - 1) as nat);
        if colors[n - 1] == color {
            before.push(nodes[n - 1])
        } else {
            before
        }
    }
}

/// Whether no edge joins two nodes on the same side.
pub open spec fn splits(
    nodes: Seq<Node>,
    edges: Seq<(Node, Node)>,
    second: spec_fn(int) -> bool,
) -> bool {
    forall|i: int, j: int|
        0 <= i < nodes.len() && 0 <= j < nodes.len() && i != j && #[trigger] adjacent(
            nodes,
            edges,
            i,
            j,
        ) ==> second(i) != second(j)
}

/// Whether the nodes can be put on two sides such that no edge stays on one.
pub open spec fn bipartite(nodes: Seq<Node>, edges: Seq<(Node, Node)>) -> bool {
    exists|second: spec_fn(int) -> bool| #[trigger] splits(nodes, edges, second)
}

/// Whether no edge leads out of a set of positions.
pub open spec fn closed_set(
    nodes: Seq<Node>,
    edges: Seq<(Node, Node)>,
    set: spec_fn(int) -> bool,
) -> bool {
    forall|i: int, j: int|
        0 <= i < nodes.len() && 0 <= j < nodes.len() && set(i) && #[trigger] adjacent(
            nodes,
            edges,
            i,
            j,
        ) ==> set(j)
}

/// Whether two positions are in the same component: no set that edges do not
/// lead out of has only the first.
pub open spec fn connected(nodes: Seq<Node>, edges: Seq<(Node, Node)>, i: int, j: int) -> bool {
    forall|set: spec_fn(int) -> bool| #[trigger]
        closed_set(nodes, edges, set) && set(i) ==> set(j)
}

/// Whether a position is the first of its component.
pub open spec fn leads(nodes: Seq<Node>, edges: Seq<(Node, Node)>, i: int) -> bool {
    forall|j: int| 0 <= j < i ==> !#[trigger] connected(nodes, edges, i, j)
}

/// Whether the sides split the graph, with the first node of every component
/// on the first side.
pub open spec fn two_coloring(
    nodes: Seq<Node>,
    edges: Seq<(Node, Node)>,
    second: spec_fn(int) -> bool,
) -> bool {
    &&& splits(nodes, edges, second)
    &&& forall|i: int|
        0 <= i < nodes.len() && #[trigger] leads(nodes, edges, i) ==> !second(i)
}

/// The colors of the nodes: their sides where two colors are enough, those of
/// the greedy coloring otherwise.
pub open spec fn block_colors(nodes: Seq<Node>, edges: Seq<(Node, Node)>) -> Seq<nat> {
    if bipartite(nodes, edges) {
        let second = choose|second: spec_fn(int) -> bool| #[trigger]
            two_coloring(nodes, edges, second);
        Seq::new(
            nodes.len(),
            |i: int|
                if second(i) {
                    1nat
                } else {
                    0nat
                },
        )
    } else {
        greedy_colors(nodes, edges, nodes.len())
    }
}

/// The blocks that the coloring splits the nodes into.
pub open spec fn color_classes(nodes: Seq<Node>, edges: Seq<(Node, Node)>) -> Seq<Seq<Node>> {
    let colors = block_colors(nodes, edges);
    Seq::new(
        color_count(colors, nodes.len()),
        |k: int| color_class(nodes, colors, k as nat, nodes.len()),
    )
}

/// Whether the nodes can be colored over the edges: they are nodes of the
/// graph of one kind, and every edge joins two of them.
pub open spec fn colorable(
    kinds: Seq<NodeKind>,
    nodes: Seq<Node>,
    edges: Seq<(Node, Node)>,
) -> bool {
    &&& nodes.len() > 0
    &&& forall|i: int|
        #![trigger nodes[i]]
        0 <= i < nodes.len() ==> (nodes[i].0 as int) < kinds.len() && kinds[nodes[i].0 as int]
            == kinds[nodes[0].0 as int]
    &&& forall|e: int|
        #![trigger edges[e]]
        0 <= e < edges.len() ==> nodes.contains(edges[e].0) && nodes.contains(edges[e].1)
}

proof fn lemma_last_index(nodes: Seq<Node>, node: Node, n: nat)
    requires
        n <= nodes.len(),
    ensures
        -1 <= last_index(nodes, node, n) < n,
        last_index(nodes, node, n) >= 0 ==> nodes[last_index(nodes, node, n)] == node,
        forall|i: int| last_index(nodes, node, n) < i < n ==> #[trigger] nodes[i] != node,
    decreases n,
{
    if n > 0 {
        lemma_last_index(nodes, node, (n - 1) as nat);
    }
}

proof fn lemma_place(nodes: Seq<Node>, node: Node)
    requires
        nodes.contains(node),
    ensures
        0 <= place(nodes, node) < nodes.len(),
        nodes[place(nodes, node)] == node,
{
    lemma_last_index(nodes, node, nodes.len());
    let i = choose|i: int| 0 <= i < nodes.len() && nodes[i] == node;
    assert(nodes[i] == node);
}

proof fn lemma_first_free(
    nodes: Seq<Node>,
    edges: Seq<(Node, Node)>,
    colors: Seq<nat>,
    i: int,
    color: nat,
    free: nat,
)
    requires
        color <= free <= colors.len(),
        forall|c: nat| color <= c < free ==> #[trigger] taken(nodes, edges, colors, i, c),
        !taken(nodes, edges, colors, i, free),
    ensures
        first_free(nodes, edges, colors, i, color) == free,
    decreases free - color,
{
    if color < free {
        assert(taken(nodes, edges, colors, i, color));
        lemma_first_free(nodes, edges, colors, i, color + 1, free);
    }
}

/// The positions of the nodes of a graph in a list, by node index.
fn positions(graph: &Graph, nodes: &[Node]) -> (r: Vec<usize>)
    requires
        graph.wf(),
        forall|i: int| 0 <= i < nodes@.len() ==> graph.has(#[trigger] nodes@[i]),
    ensures
        r@.len() == graph@.len(),
        forall|v: int|
            0 <= v < graph@.len() && place(nodes@, Node(v as u32)) >= 0 ==> #[trigger] r@[v]
                == place(nodes@, Node(v as u32)),
{
    let mut order: Vec<usize> = vec![usize::MAX; graph.node_count()];
    for index in 0..nodes.len()
        invariant
            graph.wf(),
            order@.len() == graph@.len(),
            forall|i: int| 0 <= i < nodes@.len() ==> graph.has(#[trigger] nodes@[i]),
            forall|v: int|
                0 <= v < graph@.len() && last_index(nodes@, Node(v as u32), index as nat) >= 0
                    ==> #[trigger] order@[v] == last_index(
                    nodes@,
                    Node(v as u32),
                    index as nat,
                ),
    {
        let node: Node = nodes[index];
        assert(graph.has(nodes@[index as int]));
        order[node.index()] = index;
        assert forall|v: int|
            0 <= v < graph@.len() && last_index(nodes@, Node(v as u32), (index + 1) as nat)
                >= 0 implies #[trigger] order@[v] == last_index(
            nodes@,
            Node(v as u32),
            (index + 1) as nat,
        ) by {
            assert(Node(v as u32).0 == v);
        }
    }
    order
}

/// The neighbors of every node of a list, as positions in the list.
fn neighbors(graph: &Graph, nodes: &[Node], edges: &[(Node, Node)]) -> (r: Vec<Vec<usize>>)
    requires
        graph.wf(),
        colorable(graph@, nodes@, edges@),
    ensures
        r@.len() == nodes@.len(),
        forall|i: int, p: int|
            #![trigger r@[i]@[p]]
            0 <= i < r@.len() && 0 <= p < r@[i]@.len() ==> r@[i]@[p] < nodes@.len() && adjacent(
                nodes@,
                edges@,
                i,
                r@[i]@[p] as int,
            ),
        forall|i: int, j: int|
            0 <= i < nodes@.len() && 0 <= j < nodes@.len() && #[trigger] adjacent(
                nodes@,
                edges@,
                i,
                j,
            ) ==> r@[i]@.contains(j as usize),
{
    assert forall|i: int| 0 <= i < nodes@.len() implies graph.has(#[trigger] nodes@[i]) by {}
    let order = positions(graph, nodes);
    let mut adjacency: Vec<Vec<usize>> = Vec::new();
    for i in 0..nodes.len()
        invariant
            adjacency@.len() == i,
            forall|k: int| 0 <= k < i ==> (#[trigger] adjacency@[k])@.len() == 0,
    {
        adjacency.push(Vec::new());
    }
    for e in 0..edges.len()
        invariant
            graph.wf(),
            colorable(graph@, nodes@, edges@),
            nodes@.len() == nodes.len(),
            order@.len() == graph@.len(),
            forall|v: int|
                0 <= v < graph@.len() && place(nodes@, Node(v as u32)) >= 0 ==> #[trigger] order@[v]
                    == place(nodes@, Node(v as u32)),
            adjacency@.len() == nodes@.len(),
            forall|i: int, p: int|
                #![trigger adjacency@[i]@[p]]
                0 <= i < adjacency@.len() && 0 <= p < adjacency@[i]@.len() ==> adjacency@[i]@[p]
                    < nodes@.len() && adjacent(nodes@, edges@, i, adjacency@[i]@[p] as int),
            forall|i: int, j: int, d: int|
                0 <= i < nodes@.len() && 0 <= j < nodes@.len() && 0 <= d < e && #[trigger] joins(
                    nodes@,
                    edges@[d],
                    i,
                    j,
                ) ==> adjacency@[i]@.contains(j as usize),
    {
        let (a, b) = edges[e];
        assert(edges@[e as int] == (a, b));
        proof {
            lemma_place(nodes@, a);
            lemma_place(nodes@, b);
            assert(Node(a.0 as int as u32) == a);
            assert(Node(b.0 as int as u32) == b);
        }
        let i: usize = order[a.index()];
        let j: usize = order[b.index()];
        assert(i == place(nodes@, a) && j == place(nodes@, b));
        assert(joins(nodes@, edges@[e as int], i as int, j as int));
        assert(joins(nodes@, edges@[e as int], j as int, i as int));
        let ghost start = adjacency@;
        adjacency[i].push(j);
        let ghost middle = adjacency@;
        adjacency[j].push(i);
        proof {
            assert forall|k: int, n: usize| 0 <= k < nodes@.len() && start[k]@.contains(
                n,
            ) implies #[trigger] adjacency@[k]@.contains(n) by {
                lemma_push_contains(start[k]@, j, n);
                lemma_push_contains(middle[k]@, i, n);
            }
            lemma_push_contains(start[i as int]@, j, j);
            lemma_push_contains(middle[i as int]@, i, j);
            lemma_push_contains(middle[j as int]@, i, i);
            assert(adjacency@[i as int]@.contains(j));
            assert(adjacency@[j as int]@.contains(i));
            assert forall|k: int, n: int, d: int|
                0 <= k < nodes@.len() && 0 <= n < nodes@.len() && 0 <= d < e + 1
                    && #[trigger] joins(nodes@, edges@[d], k, n) implies adjacency@[k]@.contains(
                n as usize,
            ) by {
                if d < e {
                    assert(start[k]@.contains(n as usize));
                }
            }
        }
    }
    adjacency
}

/// Whether one of the neighbors has the color.
spec fn has_color(neighbors: Seq<usize>, colors: Seq<usize>, color: int) -> bool {
    exists|p: int|
        #![trigger neighbors[p]]
        0 <= p < neighbors.len() && colors[neighbors[p] as int] == color
}

/// The least color, up to `count`, that none of the neighbors has.
fn free_color(neighbors: &[usize], colors: &[usize], count: usize) -> (r: usize)
    requires
        forall|p: int| 0 <= p < neighbors@.len() ==> #[trigger] neighbors@[p] < colors@.len(),
    ensures
        r <= count,
        forall|c: int| 0 <= c < r ==> has_color(neighbors@, colors@, c),
        r < count ==> !has_color(neighbors@, colors@, r as int),
{
    let mut used: Vec<bool> = vec![false; count];
    for p in 0..neighbors.len()
        invariant
            used@.len() == count,
            forall|q: int| 0 <= q < neighbors@.len() ==> #[trigger] neighbors@[q] < colors@.len(),
            forall|c: int|
                0 <= c < count ==> #[trigger] used@[c] == has_color(
                    neighbors@.take(p as int),
                    colors@,
                    c,
                ),
    {
        let color: usize = colors[neighbors[p]];
        let ghost before = used@;
        if color < count {
            used[color] = true;
        }
        assert forall|c: int| 0 <= c < count implies #[trigger] used@[c] == has_color(
            neighbors@.take(p + 1),
            colors@,
            c,
        ) by {
            let more = neighbors@.take(p + 1);
            let fewer = neighbors@.take(p as int);
            assert(before[c] == has_color(fewer, colors@, c));
            if has_color(fewer, colors@, c) {
                let q = choose|q: int|
                    #![trigger fewer[q]]
                    0 <= q < fewer.len() && colors@[fewer[q] as int] == c;
                assert(more[q] == fewer[q]);
            }
            if has_color(more, colors@, c) {
                let q = choose|q: int|
                    #![trigger more[q]]
                    0 <= q < more.len() && colors@[more[q] as int] == c;
                if q < p {
                    assert(fewer[q] == more[q]);
                }
            }
            assert(more[p as int] == neighbors@[p as int]);
        }
    }
    assert(neighbors@.take(neighbors@.len() as int) =~= neighbors@);
    let mut color: usize = 0;
    while color < count && used[color]
        invariant
            color <= count,
            used@.len() == count,
            forall|c: int| 0 <= c < count ==> #[trigger] used@[c] == has_color(neighbors@, colors@, c),
            forall|c: int| 0 <= c < color ==> has_color(neighbors@, colors@, c),
        decreases count - color,
    {
        color = color + 1;
    }
    color
}

/// Colors are below their number.
proof fn lemma_color_count(colors: Seq<nat>, n: nat)
    requires
        n <= colors.len(),
    ensures
        forall|i: int| 0 <= i < n ==> #[trigger] colors[i] < color_count(colors, n),
    decreases n,
{
    if n > 0 {
        lemma_color_count(colors, (n - 1) as nat);
    }
}

proof fn lemma_color_prefix(nodes: Seq<Node>, a: Seq<nat>, b: Seq<nat>, n: nat)
    requires
        forall|i: int| 0 <= i < n ==> a[i] == b[i],
    ensures
        color_count(a, n) == color_count(b, n),
        forall|k: nat| #[trigger] color_class(nodes, a, k, n) == color_class(nodes, b, k, n),
    decreases n,
{
    if n > 0 {
        lemma_color_prefix(nodes, a, b, (n - 1) as nat);
        assert forall|k: nat| #[trigger] color_class(nodes, a, k, n) == color_class(
            nodes,
            b,
            k,
            n,
        ) by {
            assert(color_class(nodes, a, k, (n - 1) as nat) == color_class(
                nodes,
                b,
                k,
                (n - 1) as nat,
            ));
        }
    }
}

/// Whether the lists are those of the neighbors of every position.
spec fn lists_neighbors(
    nodes: Seq<Node>,
    edges: Seq<(Node, Node)>,
    adjacency: Seq<Vec<usize>>,
) -> bool {
    &&& adjacency.len() == nodes.len()
    &&& forall|i: int, p: int|
        #![trigger adjacency[i]@[p]]
        0 <= i < adjacency.len() && 0 <= p < adjacency[i]@.len() ==> adjacency[i]@[p] < nodes.len()
            && adjacent(nodes, edges, i, adjacency[i]@[p] as int)
    &&& forall|i: int, j: int|
        0 <= i < nodes.len() && 0 <= j < nodes.len() && #[trigger] adjacent(nodes, edges, i, j)
            ==> adjacency[i]@.contains(j as usize)
}

/// The greedy colors of the nodes.
fn greedy(
    adjacency: &Vec<Vec<usize>>,
    Ghost(nodes): Ghost<Seq<Node>>,
    Ghost(edges): Ghost<Seq<(Node, Node)>>,
) -> (r: Vec<usize>)
    requires
        lists_neighbors(nodes, edges, adjacency@),
    ensures
        r@.len() == nodes.len(),
        forall|i: int|
            0 <= i < nodes.len() ==> #[trigger] r@[i] == greedy_colors(nodes, edges, nodes.len())[i],
{
    let mut colors: Vec<usize> = vec![usize::MAX; adjacency.len()];
    let mut count: usize = 0;
    let ghost mut greedy: Seq<nat> = Seq::empty();
    for index in 0..adjacency.len()
        invariant
            lists_neighbors(nodes, edges, adjacency@),
            adjacency.len() == nodes.len(),
            colors@.len() == nodes.len(),
            greedy == greedy_colors(nodes, edges, index as nat),
            greedy.len() == index,
            forall|i: int| 0 <= i < index ==> #[trigger] colors@[i] == greedy[i],
            forall|i: int| index <= i < nodes.len() ==> #[trigger] colors@[i] == usize::MAX,
            count == color_count(greedy, index as nat),
            count <= index,
    {
        let list = &adjacency[index];
        assert forall|p: int| 0 <= p < list@.len() implies #[trigger] list@[p] < colors@.len() by {
            assert(adjacency@[index as int]@[p] == list@[p]);
        }
        let color: usize = free_color(list.as_slice(), colors.as_slice(), count);
        proof {
            lemma_color_count(greedy, index as nat);
            assert forall|c: int| 0 <= c < count implies has_color(list@, colors@, c)
                == #[trigger] taken(nodes, edges, greedy, index as int, c as nat) by {
                if has_color(list@, colors@, c) {
                    let p = choose|p: int|
                        #![trigger list@[p]]
                        0 <= p < list@.len() && colors@[list@[p] as int] == c;
                    let j = adjacency@[index as int]@[p] as int;
                    assert(colors@[j] == c);
                    assert(j < index);
                    assert(adjacent(nodes, edges, index as int, j));
                }
                if taken(nodes, edges, greedy, index as int, c as nat) {
                    let j = choose|j: int|
                        0 <= j < greedy.len() && greedy[j] == c as nat && #[trigger] adjacent(
                            nodes,
                            edges,
                            index as int,
                            j,
                        );
                    assert(list@.contains(j as usize));
                    let p = choose|p: int| 0 <= p < list@.len() && list@[p] == j as usize;
                    assert(list@[p] == j);
                    assert(colors@[j] == c);
                }
            }
            assert forall|c: nat| 0 <= c < color implies #[trigger] taken(
                nodes,
                edges,
                greedy,
                index as int,
                c,
            ) by {
                assert(has_color(list@, colors@, c as int));
            }
            if color == count {
                assert(!taken(nodes, edges, greedy, index as int, color as nat));
            }
            lemma_first_free(nodes, edges, greedy, index as int, 0, color as nat);
        }
        let ghost more = greedy.push(color as nat);
        assert(more == greedy_colors(nodes, edges, (index + 1) as nat));
        proof {
            lemma_color_prefix(nodes, greedy, more, index as nat);
        }
        colors[index] = color;
        if color == count {
            count = count + 1;
        }
        proof {
            greedy = more;
        }
    }
    colors
}

/// Positions that were not seen, among the first `n`.
spec fn unseen(seen: Seq<bool>, n: nat) -> nat
    decreases n,
{
    if n == 0 {
        0
    } else {
        unseen(seen, (n - 1) as nat) + if seen[n - 1] {
            0nat
        } else {
            1nat
        }
    }
}

proof fn lemma_unseen(seen: Seq<bool>, v: int, n: nat)
    requires
        0 <= v < seen.len(),
        n <= seen.len(),
        !seen[v],
    ensures
        unseen(seen.update(v, true), n) == unseen(seen, n) - if v < n {
            1int
        } else {
            0int
        },
    decreases n,
{
    if n > 0 {
        lemma_unseen(seen, v, (n - 1) as nat);
    }
}

/// Whether the side of a seen position is known relative to the root that it
/// was reached from.
spec fn traced(
    nodes: Seq<Node>,
    edges: Seq<(Node, Node)>,
    sides: Seq<bool>,
    roots: Seq<int>,
    v: int,
) -> bool {
    &&& 0 <= roots[v] <= v
    &&& sides[v] ==> roots[v] < v
    &&& connected(nodes, edges, v, roots[v])
    &&& forall|second: spec_fn(int) -> bool| #[trigger]
        splits(nodes, edges, second) ==> (second(v) != second(roots[v])) == sides[v]
}

/// Whether all neighbors of a position were seen, on the other side.
spec fn settled(
    nodes: Seq<Node>,
    edges: Seq<(Node, Node)>,
    seen: Seq<bool>,
    sides: Seq<bool>,
    roots: Seq<int>,
    v: int,
) -> bool {
    forall|j: int|
        0 <= j < nodes.len() && #[trigger] adjacent(nodes, edges, v, j) ==> seen[j] && roots[j]
            == roots[v] && (j != v ==> sides[j] != sides[v])
}

/// The side of every node, with the first node of every component on the
/// first side, if the graph has two sides. Each component is traversed from
/// its first node.
fn two_color(
    adjacency: &Vec<Vec<usize>>,
    Ghost(nodes): Ghost<Seq<Node>>,
    Ghost(edges): Ghost<Seq<(Node, Node)>>,
) -> (r: Option<Vec<bool>>)
    requires
        lists_neighbors(nodes, edges, adjacency@),
    ensures
        match r {
            Some(sides) => {
                &&& sides@.len() == nodes.len()
                &&& two_coloring(nodes, edges, |i: int| sides@[i])
            },
            None => !bipartite(nodes, edges),
        },
{
    let count: usize = adjacency.len();
    let mut seen: Vec<bool> = vec![false; count];
    let mut sides: Vec<bool> = vec![false; count];
    let ghost mut roots: Seq<int> = Seq::new(count as nat, |i: int| i);
    for start in 0..count
        invariant
            lists_neighbors(nodes, edges, adjacency@),
            count == nodes.len(),
            seen@.len() == count,
            sides@.len() == count,
            roots.len() == count,
            forall|v: int| 0 <= v < start ==> #[trigger] seen@[v],
            forall|v: int|
                0 <= v < count && #[trigger] seen@[v] ==> traced(nodes, edges, sides@, roots, v)
                    && settled(nodes, edges, seen@, sides@, roots, v),
    {
        if !seen[start] {
            let ghost seen_before = seen@;
            let ghost sides_before = sides@;
            let ghost roots_before = roots;
            seen.set(start, true);
            sides.set(start, false);
            proof {
                roots = roots.update(start as int, start as int);
                lemma_visit(
                    nodes,
                    edges,
                    seen_before,
                    sides_before,
                    roots_before,
                    start as int,
                    false,
                    start as int,
                );
            }
            let mut stack: Vec<usize> = Vec::new();
            stack.push(start);
            assert(stack@[0] == start);
            assert(stack@.contains(start));
            while stack.len() > 0
                invariant
                    lists_neighbors(nodes, edges, adjacency@),
                    count == nodes.len(),
                    seen@.len() == count,
                    sides@.len() == count,
                    roots.len() == count,
                    start < count,
                    forall|v: int| 0 <= v <= start ==> #[trigger] seen@[v],
                    forall|v: int|
                        0 <= v < count && #[trigger] seen@[v] ==> traced(
                            nodes,
                            edges,
                            sides@,
                            roots,
                            v,
                        ),
                    forall|v: int|
                        0 <= v < count && #[trigger] seen@[v] ==> settled(
                            nodes,
                            edges,
                            seen@,
                            sides@,
                            roots,
                            v,
                        ) || stack@.contains(v as usize),
                    forall|p: int|
                        0 <= p < stack@.len() ==> (#[trigger] stack@[p]) < count
                            && seen@[stack@[p] as int] && roots[stack@[p] as int] == start,
                decreases unseen(seen@, count as nat), stack@.len(),
            {
                let ghost waiting = stack@;
                let ghost left = unseen(seen@, count as nat);
                let u: usize = stack[stack.len() - 1];
                stack.pop();
                assert(stack@ == waiting.drop_last());
                assert forall|v: int| 0 <= v < count && #[trigger] seen@[v] implies v == u
                    || settled(nodes, edges, seen@, sides@, roots, v) || stack@.contains(
                    v as usize,
                ) by {
                    if waiting.contains(v as usize) && v != u {
                        let p = choose|p: int| 0 <= p < waiting.len() && waiting[p] == v as usize;
                        assert(stack@[p] == v as usize);
                    }
                }
                let list = &adjacency[u];
                for p in 0..list.len()
                    invariant
                        lists_neighbors(nodes, edges, adjacency@),
                        u < count,
                        list == adjacency@[u as int],
                        count == nodes.len(),
                        seen@.len() == count,
                        sides@.len() == count,
                        roots.len() == count,
                        start < count,
                        seen@[u as int],
                        roots[u as int] == start,
                        unseen(seen@, count as nat) < left || unseen(seen@, count as nat) == left
                            && stack@.len() < waiting.len(),
                        forall|v: int| 0 <= v <= start ==> #[trigger] seen@[v],
                        forall|v: int|
                            0 <= v < count && #[trigger] seen@[v] ==> traced(
                                nodes,
                                edges,
                                sides@,
                                roots,
                                v,
                            ),
                        forall|v: int|
                            0 <= v < count && #[trigger] seen@[v] ==> v == u || settled(
                                nodes,
                                edges,
                                seen@,
                                sides@,
                                roots,
                                v,
                            ) || stack@.contains(v as usize),
                        forall|q: int|
                            0 <= q < stack@.len() ==> (#[trigger] stack@[q]) < count
                                && seen@[stack@[q] as int] && roots[stack@[q] as int] == start,
                        forall|q: int|
                            0 <= q < p ==> seen@[(#[trigger] list@[q]) as int]
                                && roots[list@[q] as int] == start && (list@[q] != u
                                ==> sides@[list@[q] as int] != sides@[u as int]),
                {
                    let v: usize = list[p];
                    assert(adjacency@[u as int]@[p as int] == v);
                    assert(adjacent(nodes, edges, u as int, v as int));
                    proof {
                        lemma_adjacent_symmetric(nodes, edges, u as int, v as int);
                    }
                    if !seen[v] {
                        let side: bool = !sides[u];
                        let ghost seen_before = seen@;
                        let ghost sides_before = sides@;
                        let ghost roots_before = roots;
                        let ghost stack_before = stack@;
                        seen.set(v, true);
                        sides.set(v, side);
                        stack.push(v);
                        proof {
                            roots = roots.update(v as int, start as int);
                            assert(traced(nodes, edges, sides_before, roots_before, u as int));
                            lemma_adjacent_connected(nodes, edges, v as int, u as int);
                            lemma_visit(
                                nodes,
                                edges,
                                seen_before,
                                sides_before,
                                roots_before,
                                v as int,
                                side,
                                start as int,
                            );
                            lemma_unseen(seen_before, v as int, count as nat);
                            assert forall|w: int| 0 <= w < count && #[trigger] seen@[w] implies w
                                == u || settled(nodes, edges, seen@, sides@, roots, w)
                                || stack@.contains(w as usize) by {
                                lemma_push_contains(stack_before, v, w as usize);
                                if w != v {
                                    assert(seen_before[w]);
                                }
                            }
                            assert(traced(nodes, edges, sides@, roots, v as int)) by {
                                assert(start < v);
                                assert forall|second: spec_fn(int) -> bool| #[trigger] splits(
                                    nodes,
                                    edges,
                                    second,
                                ) implies (second(v as int) != second(start as int)) == side by {
                                    assert(second(u as int) != second(v as int));
                                }
                            }
                        }
                    } else {
                        assert(roots[v as int] == start) by {
                            if v != u && !stack@.contains(v) {
                                assert(settled(nodes, edges, seen@, sides@, roots, v as int));
                                assert(adjacent(nodes, edges, v as int, u as int));
                            } else if v != u {
                                let q = choose|q: int| 0 <= q < stack@.len() && stack@[q] == v;
                                assert(roots[stack@[q] as int] == start);
                            }
                        }
                        if v != u && sides[v] == sides[u] {
                            proof {
                                assert(traced(nodes, edges, sides@, roots, u as int));
                                assert(traced(nodes, edges, sides@, roots, v as int));
                                assert forall|second: spec_fn(int) -> bool| !#[trigger] splits(
                                    nodes,
                                    edges,
                                    second,
                                ) by {
                                    if splits(nodes, edges, second) {
                                        assert(second(u as int) != second(v as int));
                                    }
                                }
                            }
                            return None;
                        }
                    }
                }
                assert(settled(nodes, edges, seen@, sides@, roots, u as int)) by {
                    assert forall|j: int|
                        0 <= j < nodes.len() && #[trigger] adjacent(
                            nodes,
                            edges,
                            u as int,
                            j,
                        ) implies seen@[j] && roots[j] == roots[u as int] && (j != u ==> sides@[j]
                        != sides@[u as int]) by {
                        assert(list@.contains(j as usize));
                        let q = choose|q: int| 0 <= q < list@.len() && list@[q] == j as usize;
                        assert(list@[q] == j);
                    }
                }
            }
        }
    }
    proof {
        let second = |i: int| sides@[i];
        assert forall|i: int, j: int|
            0 <= i < nodes.len() && 0 <= j < nodes.len() && i != j && #[trigger] adjacent(
                nodes,
                edges,
                i,
                j,
            ) implies second(i) != second(j) by {
            assert(seen@[i]);
            assert(settled(nodes, edges, seen@, sides@, roots, i));
        }
        assert forall|i: int| 0 <= i < nodes.len() && #[trigger] leads(nodes, edges, i) implies !second(
            i,
        ) by {
            assert(seen@[i]);
            assert(traced(nodes, edges, sides@, roots, i));
            if sides@[i] {
                assert(connected(nodes, edges, i, roots[i]));
            }
        }
    }
    Some(sides)
}

/// Seeing another position changes nothing for those seen before.
proof fn lemma_visit(
    nodes: Seq<Node>,
    edges: Seq<(Node, Node)>,
    seen: Seq<bool>,
    sides: Seq<bool>,
    roots: Seq<int>,
    v: int,
    side: bool,
    root: int,
)
    requires
        seen.len() == nodes.len(),
        sides.len() == nodes.len(),
        roots.len() == nodes.len(),
        0 <= v < nodes.len(),
        !seen[v],
    ensures
        forall|w: int|
            0 <= w < nodes.len() && #[trigger] seen[w] && traced(nodes, edges, sides, roots, w)
                ==> traced(nodes, edges, sides.update(v, side), roots.update(v, root), w),
        forall|w: int|
            0 <= w < nodes.len() && #[trigger] seen[w] && settled(
                nodes,
                edges,
                seen,
                sides,
                roots,
                w,
            ) ==> settled(
                nodes,
                edges,
                seen.update(v, true),
                sides.update(v, side),
                roots.update(v, root),
                w,
            ),
{
}

/// The blocks of nodes of the same color.
fn split_by_color(nodes: &[Node], colors: &Vec<usize>) -> (r: Vec<Block>)
    requires
        colors@.len() == nodes@.len(),
        forall|i: int| 0 <= i < colors@.len() ==> #[trigger] colors@[i] < usize::MAX,
    ensures
        ({
            let all = Seq::new(nodes@.len(), |i: int| colors@[i] as nat);
            node_lists(r@) == Seq::new(
                color_count(all, nodes@.len()),
                |k: int| color_class(nodes@, all, k as nat, nodes@.len()),
            )
        }),
{
    let ghost all = Seq::new(nodes@.len(), |i: int| colors@[i] as nat);
    let mut blocks: Vec<Block> = Vec::new();
    for index in 0..nodes.len()
        invariant
            colors@.len() == nodes@.len(),
            forall|i: int| 0 <= i < colors@.len() ==> #[trigger] colors@[i] < usize::MAX,
            all == Seq::new(nodes@.len(), |i: int| colors@[i] as nat),
            blocks@.len() == color_count(all, index as nat),
            forall|k: int|
                0 <= k < blocks@.len() ==> (#[trigger] blocks@[k])@ == color_class(
                    nodes@,
                    all,
                    k as nat,
                    index as nat,
                ),
    {
        let node: Node = nodes[index];
        let color: usize = colors[index];
        let ghost count = blocks@.len();
        proof {
            lemma_color_count(all, index as nat);
        }
        while blocks.len() <= color
            invariant
                color < usize::MAX,
                index < nodes@.len(),
                count == color_count(all, index as nat),
                all.len() == nodes@.len(),
                forall|i: int| 0 <= i < index ==> #[trigger] all[i] < count,
                count <= blocks@.len(),
                blocks@.len() <= count || blocks@.len() <= color + 1,
                forall|k: int|
                    0 <= k < blocks@.len() ==> (#[trigger] blocks@[k])@ == color_class(
                        nodes@,
                        all,
                        k as nat,
                        index as nat,
                    ),
            decreases usize::MAX - blocks@.len(),
        {
            let ghost next = blocks@.len();
            blocks.push(Block::new(Vec::new()));
            proof {
                lemma_absent_color(nodes@, all, next, index as nat);
            }
            assert(blocks@[next as int]@ =~= color_class(nodes@, all, next, index as nat));
        }
        blocks[color].nodes.push(node);
    }
    assert(node_lists(blocks@) =~= Seq::new(
        color_count(all, nodes@.len()),
        |k: int| color_class(nodes@, all, k as nat, nodes@.len()),
    ));
    blocks
}

/// Partition `nodes` into blocks of non-interacting nodes with a graph
/// coloring over `edges`: by their sides where the graph is bipartite, and
/// greedily otherwise.
///
/// Bipartite graphs (chains, lattices, RBMs) get two blocks; general
/// graphs may get more. The result is a valid free-block partition for
/// [`Program::compile`](crate::Program::compile). All nodes must be of the
/// same kind.
pub fn color_blocks(graph: &Graph, nodes: &[Node], edges: &[(Node, Node)]) -> (r: Vec<Block>)
    requires
        graph.wf(),
        colorable(graph@, nodes@, edges@),
    ensures
        node_lists(r@) == color_classes(nodes@, edges@),
        forall|second: spec_fn(int) -> bool| #[trigger]
            splits(nodes@, edges@, second) ==> r@.len() <= 2,
{
    let adjacency = neighbors(graph, nodes, edges);
    let colors: Vec<usize> = match two_color(&adjacency, Ghost(nodes@), Ghost(edges@)) {
        Some(sides) => {
            let mut colors: Vec<usize> = Vec::new();
            for i in 0..sides.len()
                invariant
                    colors@.len() == i,
                    forall|k: int|
                        0 <= k < i ==> #[trigger] colors@[k] == if sides@[k] {
                            1usize
                        } else {
                            0usize
                        },
            {
                colors.push(
                    if sides[i] {
                        1
                    } else {
                        0
                    },
                );
            }
            proof {
                let second = choose|second: spec_fn(int) -> bool| #[trigger]
                    two_coloring(nodes@, edges@, second);
                two_colorings_are_unique(nodes@, edges@, second, |i: int| sides@[i]);
            }
            colors
        },
        None => {
            proof {
                lemma_greedy(nodes@, edges@, 0, nodes@.len());
            }
            greedy(&adjacency, Ghost(nodes@), Ghost(edges@))
        },
    };
    let ghost all = Seq::new(nodes@.len(), |i: int| colors@[i] as nat);
    proof {
        assert(all =~= block_colors(nodes@, edges@));
        lemma_block_colors(nodes@, edges@);
        assert forall|i: int| 0 <= i < colors@.len() implies #[trigger] colors@[i] < usize::MAX by {
            assert(all[i] <= i);
        }
        if bipartite(nodes@, edges@) {
            bipartite_graphs_get_two_blocks(nodes@, edges@);
        }
    }
    let blocks = split_by_color(nodes, &colors);
    assert(node_lists(blocks@) =~= color_classes(nodes@, edges@));
    blocks
}

proof fn lemma_absent_color(nodes: Seq<Node>, colors: Seq<nat>, color: nat, n: nat)
    requires
        forall|i: int| 0 <= i < n ==> colors[i] != color,
    ensures
        color_class(nodes, colors, color, n).len() == 0,
    decreases n,
{
    if n > 0 {
        lemma_absent_color(nodes, colors, color, (n - 1) as nat);
    }
}

// Components.

proof fn lemma_adjacent_connected(nodes: Seq<Node>, edges: Seq<(Node, Node)>, i: int, j: int)
    requires
        0 <= i < nodes.len(),
        0 <= j < nodes.len(),
        adjacent(nodes, edges, i, j),
    ensures
        connected(nodes, edges, i, j),
        forall|k: int| #[trigger] connected(nodes, edges, j, k) ==> connected(nodes, edges, i, k),
{
    assert forall|k: int| #[trigger] connected(nodes, edges, j, k) implies connected(
        nodes,
        edges,
        i,
        k,
    ) by {
        assert forall|set: spec_fn(int) -> bool| #[trigger]
            closed_set(nodes, edges, set) && set(i) implies set(k) by {
            assert(set(j));
        }
    }
}

proof fn lemma_connected(nodes: Seq<Node>, edges: Seq<(Node, Node)>, i: int, j: int, k: int)
    requires
        connected(nodes, edges, i, j),
    ensures
        connected(nodes, edges, j, i),
        connected(nodes, edges, j, k) ==> connected(nodes, edges, i, k),
        connected(nodes, edges, i, k) ==> connected(nodes, edges, j, k),
{
    assert forall|set: spec_fn(int) -> bool| #[trigger]
        closed_set(nodes, edges, set) && set(j) implies set(i) by {
        if !set(i) {
            let rest = |v: int| !set(v);
            assert forall|a: int, b: int|
                0 <= a < nodes.len() && 0 <= b < nodes.len() && rest(a) && #[trigger] adjacent(
                    nodes,
                    edges,
                    a,
                    b,
                ) implies rest(b) by {
                lemma_adjacent_symmetric(nodes, edges, a, b);
                assert(adjacent(nodes, edges, b, a));
            }
            assert(closed_set(nodes, edges, rest));
            assert(rest(i));
            assert(rest(j));
        }
    }
    if connected(nodes, edges, j, k) {
        assert forall|set: spec_fn(int) -> bool| #[trigger]
            closed_set(nodes, edges, set) && set(i) implies set(k) by {
            assert(set(j));
        }
    }
    if connected(nodes, edges, i, k) {
        assert forall|set: spec_fn(int) -> bool| #[trigger]
            closed_set(nodes, edges, set) && set(j) implies set(k) by {
            assert(set(i));
        }
    }
}

/// Every component has a first position.
proof fn lemma_leader(nodes: Seq<Node>, edges: Seq<(Node, Node)>, i: int) -> (r: int)
    requires
        0 <= i,
    ensures
        0 <= r <= i,
        leads(nodes, edges, r),
        connected(nodes, edges, i, r),
    decreases i,
{
    if leads(nodes, edges, i) {
        i
    } else {
        let j = choose|j: int| 0 <= j < i && #[trigger] connected(nodes, edges, i, j);
        let r = lemma_leader(nodes, edges, j);
        lemma_connected(nodes, edges, i, j, r);
        r
    }
}

/// There is only one way to two-color a graph with the first node of every
/// component on the first side.
pub proof fn two_colorings_are_unique(
    nodes: Seq<Node>,
    edges: Seq<(Node, Node)>,
    a: spec_fn(int) -> bool,
    b: spec_fn(int) -> bool,
)
    requires
        two_coloring(nodes, edges, a),
        two_coloring(nodes, edges, b),
    ensures
        forall|i: int| 0 <= i < nodes.len() ==> #[trigger] a(i) == b(i),
{
    let same = |k: int| a(k) == b(k);
    assert forall|k: int, l: int|
        0 <= k < nodes.len() && 0 <= l < nodes.len() && same(k) && #[trigger] adjacent(
            nodes,
            edges,
            k,
            l,
        ) implies same(l) by {
        if k != l {
            assert(a(k) != a(l) && b(k) != b(l));
        }
    }
    assert(closed_set(nodes, edges, same));
    assert forall|i: int| 0 <= i < nodes.len() implies #[trigger] a(i) == b(i) by {
        let r = lemma_leader(nodes, edges, i);
        lemma_connected(nodes, edges, i, r, r);
        assert(same(r));
        assert(same(i));
    }
}

/// The first position of the component of a position.
spec fn leader(nodes: Seq<Node>, edges: Seq<(Node, Node)>, i: int) -> int {
    choose|r: int| 0 <= r <= i && #[trigger] leads(nodes, edges, r) && connected(nodes, edges, i, r)
}

/// Bipartite graphs have a two-coloring.
proof fn lemma_two_coloring(
    nodes: Seq<Node>,
    edges: Seq<(Node, Node)>,
    second: spec_fn(int) -> bool,
)
    requires
        splits(nodes, edges, second),
    ensures
        two_coloring(
            nodes,
            edges,
            |i: int| second(i) != second(leader(nodes, edges, i)),
        ),
{
    let colored = |i: int| second(i) != second(leader(nodes, edges, i));
    assert forall|i: int, j: int|
        0 <= i < nodes.len() && 0 <= j < nodes.len() && i != j && #[trigger] adjacent(
            nodes,
            edges,
            i,
            j,
        ) implies colored(i) != colored(j) by {
        lemma_leader(nodes, edges, i);
        lemma_leader(nodes, edges, j);
        let r = leader(nodes, edges, i);
        let s = leader(nodes, edges, j);
        lemma_adjacent_connected(nodes, edges, i, j);
        lemma_connected(nodes, edges, i, j, s);
        lemma_connected(nodes, edges, i, r, s);
        lemma_connected(nodes, edges, r, s, r);
        assert(r == s);
    }
    assert forall|i: int| 0 <= i < nodes.len() && #[trigger] leads(nodes, edges, i) implies !colored(
        i,
    ) by {
        lemma_leader(nodes, edges, i);
        let r = leader(nodes, edges, i);
        assert(connected(nodes, edges, i, r));
        assert(r == i);
    }
}

// What the coloring achieves.

/// A color goes to no node with a neighbor of that color before it.
proof fn lemma_first_free_is_free(
    nodes: Seq<Node>,
    edges: Seq<(Node, Node)>,
    colors: Seq<nat>,
    i: int,
    color: nat,
)
    requires
        forall|j: int| 0 <= j < colors.len() ==> #[trigger] colors[j] <= j,
        color <= colors.len(),
    ensures
        !taken(nodes, edges, colors, i, first_free(nodes, edges, colors, i, color)),
        color <= first_free(nodes, edges, colors, i, color) <= colors.len(),
        forall|c: nat|
            color <= c < first_free(nodes, edges, colors, i, color) ==> #[trigger] taken(
                nodes,
                edges,
                colors,
                i,
                c,
            ),
    decreases colors.len() + 1 - color,
{
    if taken(nodes, edges, colors, i, color) {
        let j = choose|j: int|
            0 <= j < colors.len() && colors[j] == color && #[trigger] adjacent(nodes, edges, i, j);
        assert(colors[j] <= j);
        lemma_first_free_is_free(nodes, edges, colors, i, color + 1);
    }
}

/// The colors of the first nodes do not depend on how many follow, and each
/// is at most the position of its node.
proof fn lemma_greedy(nodes: Seq<Node>, edges: Seq<(Node, Node)>, m: nat, n: nat)
    requires
        m <= n,
    ensures
        greedy_colors(nodes, edges, n).len() == n,
        greedy_colors(nodes, edges, n).take(m as int) == greedy_colors(nodes, edges, m),
        forall|i: int| 0 <= i < n ==> #[trigger] greedy_colors(nodes, edges, n)[i] <= i,
    decreases n,
{
    if n > 0 {
        let before = greedy_colors(nodes, edges, (n - 1) as nat);
        let colors = greedy_colors(nodes, edges, n);
        if m < n {
            lemma_greedy(nodes, edges, m, (n - 1) as nat);
            assert(colors.take(m as int) =~= before.take(m as int));
        } else {
            lemma_greedy(nodes, edges, (n - 1) as nat, (n - 1) as nat);
        }
        lemma_first_free_is_free(nodes, edges, before, n - 1, 0);
        if m == n {
            assert(colors.take(m as int) =~= colors);
        }
    } else {
        assert(greedy_colors(nodes, edges, n).take(0) =~= greedy_colors(nodes, edges, m));
    }
}

/// What the coloring does at one position: the color is free, and all lower
/// ones are taken by neighbors before it.
proof fn lemma_color(nodes: Seq<Node>, edges: Seq<(Node, Node)>, i: int)
    requires
        0 <= i < nodes.len(),
    ensures
        ({
            let colors = greedy_colors(nodes, edges, nodes.len());
            &&& colors.len() == nodes.len()
            &&& !taken(nodes, edges, colors.take(i), i, colors[i])
            &&& forall|c: nat| c < colors[i] ==> #[trigger] taken(nodes, edges, colors.take(i), i, c)
        }),
{
    let colors = greedy_colors(nodes, edges, nodes.len());
    lemma_greedy(nodes, edges, i as nat, nodes.len());
    lemma_greedy(nodes, edges, (i + 1) as nat, nodes.len());
    lemma_greedy(nodes, edges, i as nat, i as nat);
    let before = greedy_colors(nodes, edges, i as nat);
    assert(colors.take(i) == before);
    assert(colors.take(i + 1)[i] == colors[i]);
    assert(colors[i] == first_free(nodes, edges, before, i, 0));
    lemma_first_free_is_free(nodes, edges, before, i, 0);
}

proof fn lemma_adjacent_symmetric(nodes: Seq<Node>, edges: Seq<(Node, Node)>, i: int, j: int)
    ensures
        adjacent(nodes, edges, i, j) == adjacent(nodes, edges, j, i),
{
    if adjacent(nodes, edges, i, j) {
        let e = choose|e: int| 0 <= e < edges.len() && #[trigger] joins(nodes, edges[e], i, j);
        assert(joins(nodes, edges[e], j, i));
    }
    if adjacent(nodes, edges, j, i) {
        let e = choose|e: int| 0 <= e < edges.len() && #[trigger] joins(nodes, edges[e], j, i);
        assert(joins(nodes, edges[e], i, j));
    }
}

/// Neighbors have different greedy colors.
proof fn lemma_greedy_apart(nodes: Seq<Node>, edges: Seq<(Node, Node)>, i: int, j: int)
    requires
        0 <= i < nodes.len(),
        0 <= j < nodes.len(),
        i != j,
        adjacent(nodes, edges, i, j),
    ensures
        greedy_colors(nodes, edges, nodes.len())[i] != greedy_colors(nodes, edges, nodes.len())[j],
{
    let colors = greedy_colors(nodes, edges, nodes.len());
    lemma_color(nodes, edges, i);
    lemma_color(nodes, edges, j);
    lemma_adjacent_symmetric(nodes, edges, i, j);
    if j < i {
        assert(colors.take(i)[j] == colors[j]);
    } else {
        assert(colors.take(j)[i] == colors[i]);
    }
}

/// There is a color for every node, at most its position, and where two
/// colors are enough they are those of a two-coloring.
proof fn lemma_block_colors(nodes: Seq<Node>, edges: Seq<(Node, Node)>)
    ensures
        block_colors(nodes, edges).len() == nodes.len(),
        forall|i: int| 0 <= i < nodes.len() ==> #[trigger] block_colors(nodes, edges)[i] <= i,
        bipartite(nodes, edges) ==> two_coloring(
            nodes,
            edges,
            |i: int| block_colors(nodes, edges)[i] == 1,
        ) && forall|i: int| 0 <= i < nodes.len() ==> #[trigger] block_colors(nodes, edges)[i] <= 1,
{
    let colors = block_colors(nodes, edges);
    if bipartite(nodes, edges) {
        let any = choose|second: spec_fn(int) -> bool| #[trigger] splits(nodes, edges, second);
        lemma_two_coloring(nodes, edges, any);
        let second = choose|second: spec_fn(int) -> bool| #[trigger]
            two_coloring(nodes, edges, second);
        assert(two_coloring(nodes, edges, second));
        let colored = |i: int| colors[i] == 1;
        assert forall|i: int| 0 <= i < nodes.len() implies #[trigger] colors[i] <= i by {
            assert(leads(nodes, edges, 0));
            if i == 0 {
                assert(!second(0));
            }
        }
        assert forall|i: int, j: int|
            0 <= i < nodes.len() && 0 <= j < nodes.len() && i != j && #[trigger] adjacent(
                nodes,
                edges,
                i,
                j,
            ) implies colored(i) != colored(j) by {
            assert(second(i) != second(j));
        }
        assert forall|i: int|
            0 <= i < nodes.len() && #[trigger] leads(nodes, edges, i) implies !colored(i) by {
            assert(!second(i));
        }
        assert(two_coloring(nodes, edges, colored));
    } else {
        lemma_greedy(nodes, edges, 0, nodes.len());
    }
}

/// Neighbors have different colors.
pub proof fn neighbors_have_different_colors(
    nodes: Seq<Node>,
    edges: Seq<(Node, Node)>,
    i: int,
    j: int,
)
    requires
        0 <= i < nodes.len(),
        0 <= j < nodes.len(),
        i != j,
        adjacent(nodes, edges, i, j),
    ensures
        block_colors(nodes, edges)[i] != block_colors(nodes, edges)[j],
{
    lemma_block_colors(nodes, edges);
    if bipartite(nodes, edges) {
        let colored = |k: int| block_colors(nodes, edges)[k] == 1;
        assert(splits(nodes, edges, colored));
        assert(colored(i) != colored(j));
    } else {
        lemma_greedy_apart(nodes, edges, i, j);
    }
}

/// Bipartite graphs get two blocks, whatever the order of their nodes, or one
/// where no edge joins two different nodes.
pub proof fn bipartite_graphs_get_two_blocks(nodes: Seq<Node>, edges: Seq<(Node, Node)>)
    requires
        bipartite(nodes, edges),
    ensures
        color_classes(nodes, edges).len() <= 2,
        forall|i: int, j: int|
            0 <= i < nodes.len() && 0 <= j < nodes.len() && i != j && #[trigger] adjacent(
                nodes,
                edges,
                i,
                j,
            ) ==> color_classes(nodes, edges).len() == 2,
{
    let colors = block_colors(nodes, edges);
    lemma_block_colors(nodes, edges);
    lemma_count_bound(colors, nodes.len(), 2);
    lemma_color_count(colors, nodes.len());
    assert forall|i: int, j: int|
        0 <= i < nodes.len() && 0 <= j < nodes.len() && i != j && #[trigger] adjacent(
            nodes,
            edges,
            i,
            j,
        ) implies color_classes(nodes, edges).len() == 2 by {
        neighbors_have_different_colors(nodes, edges, i, j);
        assert(colors[i] < color_count(colors, nodes.len()));
        assert(colors[j] < color_count(colors, nodes.len()));
    }
}

/// Only bipartite graphs get by with two blocks: the blocks are the sides.
pub proof fn two_blocks_are_two_sides(nodes: Seq<Node>, edges: Seq<(Node, Node)>)
    requires
        color_classes(nodes, edges).len() <= 2,
    ensures
        splits(nodes, edges, |i: int| block_colors(nodes, edges)[i] == 1),
{
    let colors = block_colors(nodes, edges);
    let second = |i: int| block_colors(nodes, edges)[i] == 1;
    lemma_block_colors(nodes, edges);
    lemma_color_count(colors, nodes.len());
    assert forall|i: int, j: int|
        0 <= i < nodes.len() && 0 <= j < nodes.len() && i != j && #[trigger] adjacent(
            nodes,
            edges,
            i,
            j,
        ) implies second(i) != second(j) by {
        neighbors_have_different_colors(nodes, edges, i, j);
        assert(colors[i] < 2 && colors[j] < 2);
    }
}

proof fn lemma_count_bound(colors: Seq<nat>, n: nat, bound: nat)
    requires
        forall|i: int| 0 <= i < n ==> #[trigger] colors[i] < bound,
    ensures
        color_count(colors, n) <= bound,
    decreases n,
{
    if n > 0 {
        lemma_count_bound(colors, (n - 1) as nat, bound);
        assert(colors[n - 1] < bound);
    }
}

/// Where the greedy coloring gets by with two colors, the blocks are its
/// classes: a node of the second color follows a neighbor of the first.
pub proof fn greedy_colors_are_kept(nodes: Seq<Node>, edges: Seq<(Node, Node)>)
    requires
        !bipartite(nodes, edges) || color_count(
            greedy_colors(nodes, edges, nodes.len()),
            nodes.len(),
        ) <= 2,
    ensures
        block_colors(nodes, edges) == greedy_colors(nodes, edges, nodes.len()),
{
    if bipartite(nodes, edges) {
        let colors = greedy_colors(nodes, edges, nodes.len());
        let blocks = block_colors(nodes, edges);
        let second = |i: int| colors[i] == 1;
        let colored = |i: int| blocks[i] == 1;
        lemma_greedy(nodes, edges, 0, nodes.len());
        lemma_color_count(colors, nodes.len());
        lemma_block_colors(nodes, edges);
        assert forall|i: int, j: int|
            0 <= i < nodes.len() && 0 <= j < nodes.len() && i != j && #[trigger] adjacent(
                nodes,
                edges,
                i,
                j,
            ) implies second(i) != second(j) by {
            lemma_greedy_apart(nodes, edges, i, j);
            assert(colors[i] < 2 && colors[j] < 2);
        }
        assert forall|i: int|
            0 <= i < nodes.len() && #[trigger] leads(nodes, edges, i) implies !second(i) by {
            if second(i) {
                lemma_color(nodes, edges, i);
                assert(taken(nodes, edges, colors.take(i), i, 0));
                let j = choose|j: int|
                    0 <= j < colors.take(i).len() && colors.take(i)[j] == 0
                        && #[trigger] adjacent(nodes, edges, i, j);
                lemma_adjacent_connected(nodes, edges, i, j);
            }
        }
        assert(two_coloring(nodes, edges, second));
        two_colorings_are_unique(nodes, edges, second, colored);
        assert forall|i: int| 0 <= i < nodes.len() implies #[trigger] blocks[i] == colors[i] by {
            assert(second(i) == colored(i));
            assert(colors[i] < 2 && blocks[i] <= 1);
        }
        assert(blocks =~= colors);
    }
}

/// Where a node of a class comes from.
proof fn lemma_class_origin(
    nodes: Seq<Node>,
    colors: Seq<nat>,
    color: nat,
    n: nat,
    p: int,
) -> (i: int)
    requires
        0 <= p < color_class(nodes, colors, color, n).len(),
    ensures
        p <= i < n,
        colors[i] == color,
        color_class(nodes, colors, color, n)[p] == nodes[i],
        color_class(nodes, colors, color, i as nat).len() == p,
    decreases n,
{
    let before = color_class(nodes, colors, color, (n - 1) as nat);
    if p < before.len() {
        lemma_class_origin(nodes, colors, color, (n - 1) as nat, p)
    } else {
        lemma_class_len(nodes, colors, color, (n - 1) as nat);
        n - 1
    }
}

proof fn lemma_class_len(nodes: Seq<Node>, colors: Seq<nat>, color: nat, n: nat)
    ensures
        color_class(nodes, colors, color, n).len() <= n,
    decreases n,
{
    if n > 0 {
        lemma_class_len(nodes, colors, color, (n - 1) as nat);
    }
}

/// A node is in the class of its color.
proof fn lemma_class_member(nodes: Seq<Node>, colors: Seq<nat>, i: int, n: nat)
    requires
        0 <= i < n,
    ensures
        color_class(nodes, colors, colors[i], n).contains(nodes[i]),
    decreases n,
{
    let before = color_class(nodes, colors, colors[i], (n - 1) as nat);
    if i < n - 1 {
        lemma_class_member(nodes, colors, i, (n - 1) as nat);
        if colors[n - 1] == colors[i] {
            lemma_push_contains(before, nodes[n - 1], nodes[i]);
        }
    } else {
        lemma_push_contains(before, nodes[n - 1], nodes[i]);
    }
}

/// Every greedy color below their number is the color of some node.
proof fn lemma_greedy_used(nodes: Seq<Node>, edges: Seq<(Node, Node)>, color: nat, n: nat) -> (i:
    int)
    requires
        n <= nodes.len(),
        color < color_count(greedy_colors(nodes, edges, nodes.len()), n),
    ensures
        0 <= i < n,
        greedy_colors(nodes, edges, nodes.len())[i] == color,
    decreases n,
{
    let colors = greedy_colors(nodes, edges, nodes.len());
    let i = n - 1;
    if color < color_count(colors, (n - 1) as nat) {
        lemma_greedy_used(nodes, edges, color, (n - 1) as nat)
    } else if color == colors[i] {
        i
    } else {
        lemma_color(nodes, edges, i);
        assert(taken(nodes, edges, colors.take(i), i, color));
        let j = choose|j: int|
            0 <= j < colors.take(i).len() && colors.take(i)[j] == color && #[trigger] adjacent(
                nodes,
                edges,
                i,
                j,
            );
        assert(colors.take(i)[j] == colors[j]);
        j
    }
}

/// The highest color is the color of some node.
proof fn lemma_last_color_used(colors: Seq<nat>, n: nat) -> (i: int)
    requires
        color_count(colors, n) > 0,
    ensures
        0 <= i < n,
        colors[i] == color_count(colors, n) - 1,
    decreases n,
{
    if colors[n - 1] < color_count(colors, (n - 1) as nat) {
        lemma_last_color_used(colors, (n - 1) as nat)
    } else {
        n - 1
    }
}

/// Every color below their number is the color of some node.
proof fn lemma_color_used(nodes: Seq<Node>, edges: Seq<(Node, Node)>, color: nat) -> (i: int)
    requires
        color < color_count(block_colors(nodes, edges), nodes.len()),
    ensures
        0 <= i < nodes.len(),
        block_colors(nodes, edges)[i] == color,
{
    let colors = block_colors(nodes, edges);
    if bipartite(nodes, edges) {
        lemma_block_colors(nodes, edges);
        lemma_count_bound(colors, nodes.len(), 2);
        let i = lemma_last_color_used(colors, nodes.len());
        if color == 0 {
            assert(colors[0] <= 0);
            0
        } else {
            i
        }
    } else {
        lemma_greedy_used(nodes, edges, color, nodes.len())
    }
}

/// The blocks partition the nodes: every node is in the block of its color
/// and in no other, no block is empty, and none repeats a node.
pub proof fn color_blocks_partition_the_nodes(nodes: Seq<Node>, edges: Seq<(Node, Node)>)
    requires
        nodes.no_duplicates(),
    ensures
        forall|i: int|
            #![trigger nodes[i]]
            0 <= i < nodes.len() ==> {
                let color = block_colors(nodes, edges)[i] as int;
                color < color_classes(nodes, edges).len() && color_classes(
                    nodes,
                    edges,
                )[color].contains(nodes[i])
            },
        forall|k: int|
            0 <= k < color_classes(nodes, edges).len() ==> {
                &&& (#[trigger] color_classes(nodes, edges)[k]).len() > 0
                &&& color_classes(nodes, edges)[k].no_duplicates()
            },
        forall|k: int, p: int|
            #![trigger color_classes(nodes, edges)[k][p]]
            0 <= k < color_classes(nodes, edges).len() && 0 <= p < color_classes(
                nodes,
                edges,
            )[k].len() ==> nodes.contains(color_classes(nodes, edges)[k][p]),
        forall|k: int, l: int, node: Node|
            #![trigger color_classes(nodes, edges)[k].contains(node), color_classes(nodes, edges)[l].contains(node)]
            0 <= k < color_classes(nodes, edges).len() && 0 <= l < color_classes(
                nodes,
                edges,
            ).len() && color_classes(nodes, edges)[k].contains(node) && color_classes(
                nodes,
                edges,
            )[l].contains(node) ==> k == l,
{
    let n = nodes.len();
    let colors = block_colors(nodes, edges);
    let classes = color_classes(nodes, edges);
    lemma_block_colors(nodes, edges);
    lemma_color_count(colors, n);
    assert forall|i: int| #![trigger nodes[i]] 0 <= i < n implies {
        let color = colors[i] as int;
        color < classes.len() && classes[color].contains(nodes[i])
    } by {
        lemma_class_member(nodes, colors, i, n);
    }
    assert forall|k: int| 0 <= k < classes.len() implies {
        &&& (#[trigger] classes[k]).len() > 0
        &&& classes[k].no_duplicates()
    } by {
        let i = lemma_color_used(nodes, edges, k as nat);
        lemma_class_member(nodes, colors, i, n);
        assert forall|p: int, q: int| 0 <= p < q < classes[k].len() implies classes[k][p]
            != classes[k][q] by {
            let a = lemma_class_origin(nodes, colors, k as nat, n, p);
            let b = lemma_class_origin(nodes, colors, k as nat, n, q);
            assert(a != b);
        }
    }
    assert forall|k: int, p: int|
        #![trigger classes[k][p]]
        0 <= k < classes.len() && 0 <= p < classes[k].len() implies nodes.contains(
        classes[k][p],
    ) by {
        let a = lemma_class_origin(nodes, colors, k as nat, n, p);
        assert(nodes[a] == classes[k][p]);
    }
    assert forall|k: int, l: int, node: Node|
        #![trigger classes[k].contains(node), classes[l].contains(node)]
        0 <= k < classes.len() && 0 <= l < classes.len() && classes[k].contains(node)
            && classes[l].contains(node) implies k == l by {
        let p = choose|p: int| 0 <= p < classes[k].len() && classes[k][p] == node;
        let q = choose|q: int| 0 <= q < classes[l].len() && classes[l][q] == node;
        let a = lemma_class_origin(nodes, colors, k as nat, n, p);
        let b = lemma_class_origin(nodes, colors, l as nat, n, q);
        assert(nodes[a] == nodes[b]);
    }
}

proof fn lemma_concat_distinct(lists: Seq<Seq<Node>>, n: int)
    requires
        0 <= n <= lists.len(),
        forall|k: int| 0 <= k < n ==> (#[trigger] lists[k]).no_duplicates(),
        forall|k: int, l: int, node: Node|
            #![trigger lists[k].contains(node), lists[l].contains(node)]
            0 <= k < n && 0 <= l < n && lists[k].contains(node) && lists[l].contains(node) ==> k
                == l,
    ensures
        concat(lists, n).no_duplicates(),
    decreases n,
{
    if n > 0 {
        let before = concat(lists, n - 1);
        let all = concat(lists, n);
        lemma_concat_distinct(lists, n - 1);
        assert forall|i: int, j: int| 0 <= i < j < all.len() implies all[i] != all[j] by {
            if j >= before.len() {
                let node = all[j];
                assert(lists[n - 1][j - before.len()] == node);
                assert(lists[n - 1].contains(node));
                if i < before.len() {
                    if all[i] == node {
                        assert(before[i] == node);
                        assert(before.contains(node));
                        lemma_concat_contains(lists, n - 1, node);
                        let b = choose|b: int|
                            0 <= b < n - 1 && (#[trigger] lists[b]).contains(node);
                        assert(false);
                    }
                } else {
                    assert(lists[n - 1].no_duplicates());
                }
            } else {
                assert(before[i] == all[i] && before[j] == all[j]);
            }
        }
    }
}

/// Whether an edge couples two different nodes.
pub open spec fn linked(edges: Seq<(Node, Node)>, a: Node, b: Node) -> bool {
    a != b && exists|e: int|
        0 <= e < edges.len() && (#[trigger] edges[e] == (a, b) || edges[e] == (b, a))
}

/// Whether any two nodes of a factor instance are coupled by an edge.
pub open spec fn interacts_along<W>(
    edges: Seq<(Node, Node)>,
    factors: Seq<DiscreteFactor<W>>,
) -> bool {
    forall|k: int, i: int, t: int, s: int|
        #![trigger head_node(factors[k].shape(), i, t), head_node(factors[k].shape(), i, s)]
        0 <= k < factors.len() && 0 <= i < factors[k].shape().batch() && 0 <= t < head_count(
            factors[k].shape(),
        ) && 0 <= s < head_count(factors[k].shape()) && t != s ==> linked(
            edges,
            head_node(factors[k].shape(), i, t),
            head_node(factors[k].shape(), i, s),
        )
}

/// Where a tail of a list of records comes from.
pub proof fn lemma_tail_origin(records: Seq<RecordView>, y: int) -> (r: (int, int))
    requires
        0 <= y < all_tail_ids(records).len(),
    ensures
        0 <= r.0 < records.len(),
        0 <= r.1 < records[r.0].tail_ids().len(),
        all_tail_ids(records)[y] == records[r.0].tail_ids()[r.1],
    decreases records.len(),
{
    let before = all_tail_ids(records.drop_last());
    if y < before.len() {
        lemma_tail_origin(records.drop_last(), y)
    } else {
        (records.len() - 1, y - before.len())
    }
}

/// The tails of a record are the other nodes of its instance.
pub proof fn lemma_tail_is_other(
    kinds: Seq<NodeKind>,
    shape: Shape,
    base: int,
    i: int,
    t: int,
    x: int,
) -> (s: int)
    requires
        0 <= t < head_count(shape),
        0 <= x < head_record(kinds, shape, base, i, t).tail_ids().len(),
    ensures
        0 <= s < head_count(shape),
        s != t,
        head_record(kinds, shape, base, i, t).tail_ids()[x] == head_node(shape, i, s).0,
{
    let n = shape.spins.len() as int;
    let record = head_record(kinds, shape, base, i, t);
    if t < n {
        if x < t {
            x
        } else {
            assert(record.tail_ids()[x] == if x < n - 1 {
                spin_ids(shape, i)[x + 1]
            } else {
                cat_pairs(kinds, shape, i)[x - (n - 1)].0
            });
            x + 1
        }
    } else {
        if x < t {
            x
        } else {
            assert(record.tail_ids()[x] == cat_pairs(kinds, shape, i)[x - n + 1].0);
            x + 1
        }
    }
}

proof fn lemma_place_of(nodes: Seq<Node>, i: int)
    requires
        nodes.no_duplicates(),
        0 <= i < nodes.len(),
    ensures
        place(nodes, nodes[i]) == i,
{
    assert(nodes.contains(nodes[i]));
    lemma_place(nodes, nodes[i]);
}

/// Linked nodes are in different blocks.
proof fn lemma_linked_apart(
    nodes: Seq<Node>,
    edges: Seq<(Node, Node)>,
    k: int,
    a: Node,
    b: Node,
)
    requires
        nodes.no_duplicates(),
        linked(edges, a, b),
        0 <= k < color_classes(nodes, edges).len(),
        color_classes(nodes, edges)[k].contains(a),
        forall|e: int|
            #![trigger edges[e]]
            0 <= e < edges.len() ==> nodes.contains(edges[e].0) && nodes.contains(edges[e].1),
    ensures
        !color_classes(nodes, edges)[k].contains(b),
{
    let n = nodes.len();
    let colors = block_colors(nodes, edges);
    let class = color_classes(nodes, edges)[k];
    if class.contains(b) {
        let p = choose|p: int| 0 <= p < class.len() && class[p] == a;
        let q = choose|q: int| 0 <= q < class.len() && class[q] == b;
        let i = lemma_class_origin(nodes, colors, k as nat, n, p);
        let j = lemma_class_origin(nodes, colors, k as nat, n, q);
        lemma_place_of(nodes, i);
        lemma_place_of(nodes, j);
        let e = choose|e: int|
            0 <= e < edges.len() && (#[trigger] edges[e] == (a, b) || edges[e] == (b, a));
        assert(joins(nodes, edges[e], i, j));
        assert(adjacent(nodes, edges, i, j));
        neighbors_have_different_colors(nodes, edges, i, j);
    }
}

/// The blocks are a valid partition to compile with: they have no errors of
/// their own, and where factors couple nodes only along the edges, no two
/// nodes of a block interact.
pub proof fn color_blocks_are_a_valid_partition<W>(
    kinds: Seq<NodeKind>,
    nodes: Seq<Node>,
    edges: Seq<(Node, Node)>,
    factors: Seq<DiscreteFactor<W>>,
)
    requires
        colorable(kinds, nodes, edges),
        nodes.no_duplicates(),
        proper(kinds[nodes[0].0 as int]),
        interacts_along(edges, factors),
    ensures
        partition_error(kinds, color_classes(nodes, edges), Seq::empty()) is None,
        model_error(kinds, color_classes(nodes, edges), Seq::empty(), factors) == factors_error(
            kinds,
            color_classes(nodes, edges),
            Seq::empty(),
            factors,
        ),
{
    let free = color_classes(nodes, edges);
    let none = Seq::<Seq<Node>>::empty();
    color_blocks_partition_the_nodes(nodes, edges);
    lemma_concat_distinct(free, free.len() as int);
    assert(block_nodes(free, none) =~= concat(free, free.len() as int));
    lemma_repeat_none(block_nodes(free, none));
    assert forall|b: int| 0 <= b < free.len() implies (#[trigger] block_check(kinds, free)(
        b,
    )) is None by {
        let block = free[b];
        assert forall|j: int| 0 <= j < block.len() implies {
            &&& (block[j].0 as int) < kinds.len()
            &&& #[trigger] kinds[block[j].0 as int] == kinds[nodes[0].0 as int]
        } by {
            assert(nodes.contains(free[b][j]));
            let i = choose|i: int| 0 <= i < nodes.len() && nodes[i] == block[j];
            assert(nodes[i] == block[j]);
        }
        assert(kinds[block[0].0 as int] == kinds[nodes[0].0 as int]);
        assert forall|j: int| 0 <= j < block.len() implies (#[trigger] mixed_check(kinds, block)(
            j,
        )) is None by {
            assert(kinds[block[j].0 as int] == kinds[nodes[0].0 as int]);
        }
        lemma_no_error(mixed_check(kinds, block), block.len() as int);
    }
    lemma_no_error(block_check(kinds, free), free.len() as int);
    lemma_no_error(block_check(kinds, none), 0);
    assert forall|b: int| 0 <= b < free.len() implies (#[trigger] interaction_check(
        kinds,
        factors,
        free,
    )(b)) is None by {
        let block = free[b];
        assert forall|p: int| 0 <= p < block.len() implies (#[trigger] interaction_node_check(
            kinds,
            factors,
            block,
        )(p)) is None by {
            let node = block[p];
            let records = node_records(kinds, factors, node, factors.len());
            let tails = all_tail_ids(records);
            assert forall|y: int| 0 <= y < tails.len() implies (#[trigger] tail_check(
                block,
                node,
                tails,
            )(y)) is None by {
                let (j, x) = lemma_tail_origin(records, y);
                let (k, i, t) = lemma_record_origin(kinds, factors, node, factors.len(), j);
                let shape = factors[k].shape();
                let base = weights_of(factors, k as nat).len() as int;
                let s = lemma_tail_is_other(kinds, shape, base, i, t, x);
                let other = head_node(shape, i, s);
                assert(head_node(shape, i, t) == node);
                assert(linked(edges, node, other));
                assert(Node(tails[y]) == other);
                assert(block.contains(node));
                lemma_linked_apart(nodes, edges, b, node, other);
            }
            lemma_no_error(tail_check(block, node, tails), tails.len() as int);
        }
        lemma_no_error(interaction_node_check(kinds, factors, block), block.len() as int);
    }
    lemma_no_error(interaction_check(kinds, factors, free), free.len() as int);
}

/// No edge stays inside a block: the two ends of one are in different blocks.
pub proof fn edges_lead_out_of_their_block(
    nodes: Seq<Node>,
    edges: Seq<(Node, Node)>,
    e: int,
    k: int,
)
    requires
        nodes.no_duplicates(),
        forall|d: int|
            #![trigger edges[d]]
            0 <= d < edges.len() ==> nodes.contains(edges[d].0) && nodes.contains(edges[d].1),
        0 <= e < edges.len(),
        edges[e].0 != edges[e].1,
        0 <= k < color_classes(nodes, edges).len(),
    ensures
        !(color_classes(nodes, edges)[k].contains(edges[e].0) && color_classes(
            nodes,
            edges,
        )[k].contains(edges[e].1)),
{
    assert(linked(edges, edges[e].0, edges[e].1));
    if color_classes(nodes, edges)[k].contains(edges[e].0) {
        lemma_linked_apart(nodes, edges, k, edges[e].0, edges[e].1);
    }
}

/// Nodes that can be put on two sides such that every edge between different
/// nodes has an end on each get at most two blocks.
pub proof fn two_sides_make_two_blocks(
    nodes: Seq<Node>,
    edges: Seq<(Node, Node)>,
    side: spec_fn(Node) -> bool,
)
    requires
        forall|e: int|
            #![trigger edges[e]]
            0 <= e < edges.len() && edges[e].0 != edges[e].1 ==> side(edges[e].0) != side(
                edges[e].1,
            ),
    ensures
        color_classes(nodes, edges).len() <= 2,
{
    let second = |i: int| side(nodes[i]);
    assert forall|i: int, j: int|
        0 <= i < nodes.len() && 0 <= j < nodes.len() && i != j && #[trigger] adjacent(
            nodes,
            edges,
            i,
            j,
        ) implies second(i) != second(j) by {
        let e = choose|e: int| 0 <= e < edges.len() && #[trigger] joins(nodes, edges[e], i, j);
        lemma_last_index(nodes, edges[e].0, nodes.len());
        lemma_last_index(nodes, edges[e].1, nodes.len());
    }
    assert(splits(nodes, edges, second));
    bipartite_graphs_get_two_blocks(nodes, edges);
}

/// A block lists its nodes in the order in which they were given.
pub proof fn blocks_keep_the_order_of_the_nodes(
    nodes: Seq<Node>,
    edges: Seq<(Node, Node)>,
    k: int,
    p: int,
    q: int,
    i: int,
    j: int,
)
    requires
        nodes.no_duplicates(),
        0 <= k < color_classes(nodes, edges).len(),
        0 <= p < q < color_classes(nodes, edges)[k].len(),
        0 <= i < nodes.len(),
        0 <= j < nodes.len(),
        nodes[i] == color_classes(nodes, edges)[k][p],
        nodes[j] == color_classes(nodes, edges)[k][q],
    ensures
        i < j,
{
    let colors = block_colors(nodes, edges);
    let a = lemma_class_origin(nodes, colors, k as nat, nodes.len(), p);
    let b = lemma_class_origin(nodes, colors, k as nat, nodes.len(), q);
    if b < a {
        lemma_class_grows(nodes, colors, k as nat, b as nat, a as nat);
    }
}

proof fn lemma_class_grows(nodes: Seq<Node>, colors: Seq<nat>, color: nat, m: nat, n: nat)
    requires
        m <= n,
    ensures
        color_class(nodes, colors, color, m).len() <= color_class(nodes, colors, color, n).len(),
    decreases n,
{
    if m < n {
        lemma_class_grows(nodes, colors, color, m, (n - 1) as nat);
    }
}

/// No node could be moved to an earlier block: every earlier one has a node
/// that an edge couples it to.
pub proof fn earlier_blocks_have_a_neighbor(
    nodes: Seq<Node>,
    edges: Seq<(Node, Node)>,
    k: int,
    l: int,
    node: Node,
)
    requires
        nodes.no_duplicates(),
        0 <= l < k < color_classes(nodes, edges).len(),
        color_classes(nodes, edges)[k].contains(node),
    ensures
        exists|other: Node| #[trigger]
            linked(edges, node, other) && color_classes(nodes, edges)[l].contains(other),
{
    let n = nodes.len();
    let colors = block_colors(nodes, edges);
    let class = color_classes(nodes, edges)[k];
    lemma_block_colors(nodes, edges);
    let p = choose|p: int| 0 <= p < class.len() && class[p] == node;
    let i = lemma_class_origin(nodes, colors, k as nat, n, p);
    assert(nodes[i] == node && colors[i] == k);
    let j: int = if bipartite(nodes, edges) {
        bipartite_graphs_get_two_blocks(nodes, edges);
        assert(k == 1 && l == 0);
        let second = choose|second: spec_fn(int) -> bool| #[trigger]
            two_coloring(nodes, edges, second);
        assert(two_coloring(nodes, edges, second)) by {
            let split = choose|split: spec_fn(int) -> bool| #[trigger]
                splits(nodes, edges, split);
            lemma_two_coloring(nodes, edges, split);
        }
        assert(second(i));
        if forall|j: int| 0 <= j < n && j != i ==> !#[trigger] adjacent(nodes, edges, i, j) {
            let alone = |x: int| x == i;
            assert(closed_set(nodes, edges, alone));
            assert forall|x: int| 0 <= x < i implies !#[trigger] connected(
                nodes,
                edges,
                i,
                x,
            ) by {
                assert(alone(i) && !alone(x));
            }
            assert(leads(nodes, edges, i));
            assert(false);
        }
        let j = choose|j: int| 0 <= j < n && j != i && #[trigger] adjacent(nodes, edges, i, j);
        assert(second(i) != second(j));
        j
    } else {
        lemma_color(nodes, edges, i);
        assert(taken(nodes, edges, colors.take(i), i, l as nat));
        choose|j: int|
            0 <= j < colors.take(i).len() && colors.take(i)[j] == l && #[trigger] adjacent(
                nodes,
                edges,
                i,
                j,
            )
    };
    assert(0 <= j < n && j != i && colors[j] == l && adjacent(nodes, edges, i, j));
    let e = choose|e: int| 0 <= e < edges.len() && #[trigger] joins(nodes, edges[e], i, j);
    lemma_last_index(nodes, edges[e].0, n);
    lemma_last_index(nodes, edges[e].1, n);
    assert(nodes[i] != nodes[j]);
    assert(edges[e] == (nodes[i], nodes[j]) || edges[e] == (nodes[j], nodes[i]));
    lemma_class_member(nodes, colors, j, n);
    assert(linked(edges, node, nodes[j]));
}

/// Of nodes that no edge leads away from, the one given first is in the first
/// block.
pub proof fn first_nodes_are_in_the_first_block(
    nodes: Seq<Node>,
    edges: Seq<(Node, Node)>,
    set: spec_fn(Node) -> bool,
    i: int,
)
    requires
        forall|e: int|
            #![trigger edges[e]]
            0 <= e < edges.len() ==> set(edges[e].0) == set(edges[e].1),
        0 <= i < nodes.len(),
        set(nodes[i]),
        forall|j: int| 0 <= j < i ==> !set(#[trigger] nodes[j]),
    ensures
        color_classes(nodes, edges).len() > 0,
        color_classes(nodes, edges)[0].contains(nodes[i]),
{
    let n = nodes.len();
    let colors = block_colors(nodes, edges);
    let inside = |x: int| set(nodes[x]);
    lemma_block_colors(nodes, edges);
    assert forall|x: int, y: int|
        0 <= x < n && 0 <= y < n && #[trigger] adjacent(nodes, edges, x, y) implies inside(x)
        == inside(y) by {
        let e = choose|e: int| 0 <= e < edges.len() && #[trigger] joins(nodes, edges[e], x, y);
        lemma_last_index(nodes, edges[e].0, n);
        lemma_last_index(nodes, edges[e].1, n);
    }
    assert(closed_set(nodes, edges, inside));
    if bipartite(nodes, edges) {
        let second = choose|second: spec_fn(int) -> bool| #[trigger]
            two_coloring(nodes, edges, second);
        assert(two_coloring(nodes, edges, second)) by {
            let split = choose|split: spec_fn(int) -> bool| #[trigger]
                splits(nodes, edges, split);
            lemma_two_coloring(nodes, edges, split);
        }
        assert forall|j: int| 0 <= j < i implies !#[trigger] connected(nodes, edges, i, j) by {
            assert(inside(i) && !inside(j));
        }
        assert(leads(nodes, edges, i));
    } else {
        lemma_color(nodes, edges, i);
        if colors[i] > 0 {
            assert(taken(nodes, edges, colors.take(i), i, 0));
            let j = choose|j: int|
                0 <= j < colors.take(i).len() && colors.take(i)[j] == 0 && #[trigger] adjacent(
                    nodes,
                    edges,
                    i,
                    j,
                );
            assert(inside(i) == inside(j));
            assert(!set(nodes[j]));
        }
    }
    assert(colors[i] == 0);
    lemma_class_member(nodes, colors, i, n);
    lemma_color_count(colors, n);
}

/// Where two sides are not enough, a node is kept out of every earlier block
/// by a node given before it.
pub proof fn earlier_nodes_choose_first(
    nodes: Seq<Node>,
    edges: Seq<(Node, Node)>,
    k: int,
    l: int,
    i: int,
)
    requires
        nodes.no_duplicates(),
        !bipartite(nodes, edges),
        0 <= i < nodes.len(),
        0 <= l < k < color_classes(nodes, edges).len(),
        color_classes(nodes, edges)[k].contains(nodes[i]),
    ensures
        exists|j: int|
            0 <= j < i && #[trigger] linked(edges, nodes[i], nodes[j]) && color_classes(
                nodes,
                edges,
            )[l].contains(nodes[j]),
{
    let n = nodes.len();
    let colors = block_colors(nodes, edges);
    let class = color_classes(nodes, edges)[k];
    lemma_block_colors(nodes, edges);
    let p = choose|p: int| 0 <= p < class.len() && class[p] == nodes[i];
    let x = lemma_class_origin(nodes, colors, k as nat, n, p);
    assert(x == i && colors[i] == k);
    lemma_color(nodes, edges, i);
    assert(taken(nodes, edges, colors.take(i), i, l as nat));
    let j = choose|j: int|
        0 <= j < colors.take(i).len() && colors.take(i)[j] == l && #[trigger] adjacent(
            nodes,
            edges,
            i,
            j,
        );
    let e = choose|e: int| 0 <= e < edges.len() && #[trigger] joins(nodes, edges[e], i, j);
    lemma_last_index(nodes, edges[e].0, n);
    lemma_last_index(nodes, edges[e].1, n);
    assert(nodes[i] != nodes[j]);
    assert(edges[e] == (nodes[i], nodes[j]) || edges[e] == (nodes[j], nodes[i]));
    lemma_class_member(nodes, colors, j, n);
    assert(linked(edges, nodes[i], nodes[j]));
}

} // verus!
