//! What the bindings for other languages compute: they create random
//! variables as free-standing objects, group them into blocks, and exchange
//! states as nested lists.

use std::collections::HashMap;

use vstd::prelude::*;
use vstd::string::StringExecFns;

use crate::error::{error_text, Error};
use crate::factor::{node_lists, DiscreteFactor};
use crate::graph::{copy_of, Block, Graph, Node, NodeKind};
use crate::limits::small_ising_models_fit;
use crate::models::{ising_shaped, IsingModel};
use crate::program::{within, Program};
use crate::streams::{compile_fits, model_error};

verus! {

/// A random variable outside of any graph.
#[derive(Clone, Copy, Debug, PartialEq, Eq, Structural)]
pub struct Variable {
    /// Tells variables apart, in the order of their creation.
    pub id: u32,
    pub kind: NodeKind,
}

/// Why a request is turned down.
#[derive(Clone, Copy, Debug, PartialEq, Eq, Structural)]
pub enum BindingError {
    BiasCount,
    WeightCount,
    NotSpin,
    NotCovered,
    BatchSizes,
    StateLength,
    InitStates,
    ClampedData,
    ObservedNode,
    MomentNode,
    Device,
    Compile(Error),
}

/// What an error is reported as.
pub open spec fn binding_text(error: BindingError) -> Seq<char> {
    match error {
        BindingError::BiasCount => "one bias per node is required"@,
        BindingError::WeightCount => "one weight per edge is required"@,
        BindingError::NotSpin => "IsingEBM only supports spin nodes"@,
        BindingError::NotCovered => "node is not covered by any block"@,
        BindingError::BatchSizes => "inconsistent batch sizes across blocks"@,
        BindingError::StateLength => "state length mismatch"@,
        BindingError::InitStates => "one init state per free block"@,
        BindingError::ClampedData => "one data entry per clamped block"@,
        BindingError::ObservedNode => "observed node is not part of the program"@,
        BindingError::MomentNode => "moment node is not part of the program"@,
        BindingError::Device => "device must be 'auto', 'gpu', or 'cpu'"@,
        BindingError::Compile(error) => error_text(error),
    }
}

impl BindingError {
    /// What the error is reported as.
    pub fn message(&self) -> (r: String)
        ensures
            r@ == binding_text(*self),
    {
        match *self {
            BindingError::BiasCount => String::from_str("one bias per node is required"),
            BindingError::WeightCount => String::from_str("one weight per edge is required"),
            BindingError::NotSpin => String::from_str("IsingEBM only supports spin nodes"),
            BindingError::NotCovered => String::from_str("node is not covered by any block"),
            BindingError::BatchSizes => String::from_str("inconsistent batch sizes across blocks"),
            BindingError::StateLength => String::from_str("state length mismatch"),
            BindingError::InitStates => String::from_str("one init state per free block"),
            BindingError::ClampedData => String::from_str("one data entry per clamped block"),
            BindingError::ObservedNode => String::from_str(
                "observed node is not part of the program",
            ),
            BindingError::MomentNode => String::from_str("moment node is not part of the program"),
            BindingError::Device => String::from_str("device must be 'auto', 'gpu', or 'cpu'"),
            BindingError::Compile(error) => error.message(),
        }
    }
}

/// An Ising model over free-standing variables.
pub struct IsingEBM<W> {
    pub nodes: Vec<Variable>,
    pub edges: Vec<(Variable, Variable)>,
    pub biases: Vec<W>,
    pub weights: Vec<W>,
    pub beta: W,
}

/// Whether all variables are spins, those of the edges included.
pub open spec fn only_spins(nodes: Seq<Variable>, edges: Seq<(Variable, Variable)>) -> bool {
    &&& forall|i: int|
        0 <= i < nodes.len() ==> (#[trigger] nodes[i]).kind == NodeKind::Spin
    &&& forall|e: int|
        0 <= e < edges.len() ==> (#[trigger] edges[e]).0.kind == NodeKind::Spin && edges[e].1.kind
            == NodeKind::Spin
}

/// Why there is no Ising model of the given parts.
pub open spec fn ebm_error(
    nodes: Seq<Variable>,
    edges: Seq<(Variable, Variable)>,
    bias_count: nat,
    weight_count: nat,
) -> Option<BindingError> {
    if nodes.len() != bias_count {
        Some(BindingError::BiasCount)
    } else if edges.len() != weight_count {
        Some(BindingError::WeightCount)
    } else if !only_spins(nodes, edges) {
        Some(BindingError::NotSpin)
    } else {
        None
    }
}

impl<W> IsingEBM<W> {
    /// One bias per node and one weight per edge, between spins.
    pub open spec fn wf(&self) -> bool {
        ebm_error(self.nodes@, self.edges@, self.biases@.len(), self.weights@.len()) is None
    }

    /// Create a model.
    pub fn new(
        nodes: Vec<Variable>,
        edges: Vec<(Variable, Variable)>,
        biases: Vec<W>,
        weights: Vec<W>,
        beta: W,
    ) -> (r: Result<Self, BindingError>)
        ensures
            match r {
                Ok(ebm) => {
                    &&& ebm.wf()
                    &&& ebm.nodes == nodes
                    &&& ebm.edges == edges
                    &&& ebm.biases == biases
                    &&& ebm.weights == weights
                    &&& ebm.beta == beta
                },
                Err(error) => ebm_error(nodes@, edges@, biases@.len(), weights@.len()) == Some(
                    error,
                ),
            },
    {
        if nodes.len() != biases.len() {
            return Err(BindingError::BiasCount);
        }
        if edges.len() != weights.len() {
            return Err(BindingError::WeightCount);
        }
        for i in 0..nodes.len()
            invariant
                nodes@.len() == biases@.len(),
                edges@.len() == weights@.len(),
                forall|j: int| 0 <= j < i ==> (#[trigger] nodes@[j]).kind == NodeKind::Spin,
        {
            if nodes[i].kind != NodeKind::Spin {
                assert(nodes@[i as int].kind != NodeKind::Spin);
                return Err(BindingError::NotSpin);
            }
        }
        for e in 0..edges.len()
            invariant
                nodes@.len() == biases@.len(),
                edges@.len() == weights@.len(),
                forall|j: int|
                    0 <= j < nodes@.len() ==> (#[trigger] nodes@[j]).kind == NodeKind::Spin,
                forall|j: int|
                    0 <= j < e ==> (#[trigger] edges@[j]).0.kind == NodeKind::Spin
                        && edges@[j].1.kind == NodeKind::Spin,
        {
            let (a, b) = edges[e];
            if a.kind != NodeKind::Spin || b.kind != NodeKind::Spin {
                assert(edges@[e as int] == (a, b));
                return Err(BindingError::NotSpin);
            }
        }
        Ok(IsingEBM { nodes, edges, biases, weights, beta })
    }
}

/// The position of the variable with an id among the first `n`, or -1.
pub open spec fn id_index(table: Seq<Variable>, id: u32, n: nat) -> int
    decreases n,
{
    if n == 0 {
        -1
    } else if table[n - 1].id == id {
        n - 1
    } else {
        id_index(table, id, (n - 1) as nat)
    }
}

/// Whether a variable with the id is in the table.
pub open spec fn knows(table: Seq<Variable>, id: u32) -> bool {
    id_index(table, id, table.len()) >= 0
}

/// The node that stands for a variable: its position in the table.
pub open spec fn node_of(table: Seq<Variable>, id: u32) -> Node {
    Node(id_index(table, id, table.len()) as u32)
}

/// The first `n` variables, without those whose id came before.
pub open spec fn first_uses(variables: Seq<Variable>, n: nat) -> Seq<Variable>
    decreases n,
{
    if n == 0 {
        Seq::empty()
    } else {
        let before = first_uses(variables, (n - 1) as nat);
        if knows(before, variables[n - 1].id) {
            before
        } else {
            before.push(variables[n - 1])
        }
    }
}

/// What a list of variable lists holds.
pub open spec fn variable_lists(blocks: Seq<Vec<Variable>>) -> Seq<Seq<Variable>> {
    Seq::new(blocks.len(), |b: int| blocks[b]@)
}

/// The variables of the first `n` lists, in order.
pub open spec fn joined(lists: Seq<Seq<Variable>>, n: nat) -> Seq<Variable>
    decreases n,
{
    if n == 0 {
        Seq::empty()
    } else {
        joined(lists, (n - 1) as nat) + lists[n - 1]
    }
}

/// The variables of all blocks: the free ones, then the clamped ones.
pub open spec fn block_variables(
    free: Seq<Seq<Variable>>,
    clamped: Seq<Seq<Variable>>,
) -> Seq<Variable> {
    joined(free, free.len()) + joined(clamped, clamped.len())
}

/// The variables that the blocks put into a graph, by node.
pub open spec fn table_of(
    free: Seq<Seq<Variable>>,
    clamped: Seq<Seq<Variable>>,
) -> Seq<Variable> {
    let all = block_variables(free, clamped);
    first_uses(all, all.len())
}

/// The kinds of the variables of a table.
pub open spec fn table_kinds(table: Seq<Variable>) -> Seq<NodeKind> {
    Seq::new(table.len(), |i: int| table[i].kind)
}

/// Whether a map leads from the ids of a table to their nodes, and from no others.
pub open spec fn maps_table(map: Map<u32, Node>, table: Seq<Variable>) -> bool {
    forall|id: u32|
        #![trigger map.contains_key(id)]
        #![trigger map[id]]
        (map.contains_key(id) <==> knows(table, id)) && (knows(table, id) ==> map[id] == node_of(
            table,
            id,
        ))
}

pub proof fn lemma_id_index(table: Seq<Variable>, id: u32, n: nat)
    requires
        n <= table.len(),
    ensures
        -1 <= id_index(table, id, n) < n,
        id_index(table, id, n) >= 0 ==> table[id_index(table, id, n)].id == id,
    decreases n,
{
    if n > 0 {
        lemma_id_index(table, id, (n - 1) as nat);
    }
}

proof fn lemma_id_prefix(a: Seq<Variable>, b: Seq<Variable>, id: u32, n: nat)
    requires
        n <= a.len(),
        n <= b.len(),
        forall|i: int| 0 <= i < n ==> a[i] == b[i],
    ensures
        id_index(a, id, n) == id_index(b, id, n),
    decreases n,
{
    if n > 0 {
        lemma_id_prefix(a, b, id, (n - 1) as nat);
    }
}

proof fn lemma_first_uses_len(variables: Seq<Variable>, n: nat)
    ensures
        first_uses(variables, n).len() <= n,
    decreases n,
{
    if n > 0 {
        lemma_first_uses_len(variables, (n - 1) as nat);
    }
}

proof fn lemma_first_uses_prefix(a: Seq<Variable>, b: Seq<Variable>, n: nat)
    requires
        forall|i: int| 0 <= i < n ==> a[i] == b[i],
    ensures
        first_uses(a, n) == first_uses(b, n),
    decreases n,
{
    if n > 0 {
        lemma_first_uses_prefix(a, b, (n - 1) as nat);
    }
}

/// Add the variables of a block to the graph that are not there yet.
fn add_block(
    graph: &mut Graph,
    map: &mut HashMap<u32, Node>,
    block: &[Variable],
    Ghost(seen): Ghost<Seq<Variable>>,
)
    requires
        old(graph)@ == table_kinds(first_uses(seen, seen.len())),
        maps_table(old(map)@, first_uses(seen, seen.len())),
        seen.len() + block@.len() <= u32::MAX,
    ensures
        ({
            let all = seen + block@;
            &&& final(graph)@ == table_kinds(first_uses(all, all.len()))
            &&& maps_table(final(map)@, first_uses(all, all.len()))
        }),
{
    broadcast use vstd::std_specs::hash::group_hash_axioms;

    let ghost all = seen + block@;
    proof {
        lemma_first_uses_prefix(seen, all, seen.len());
    }
    for i in 0..block.len()
        invariant
            all == seen + block@,
            all.len() <= u32::MAX,
            graph@ == table_kinds(first_uses(all, (seen.len() + i) as nat)),
            maps_table(map@, first_uses(all, (seen.len() + i) as nat)),
    {
        let variable: Variable = block[i];
        let ghost n = (seen.len() + i) as nat;
        let ghost before = first_uses(all, n);
        assert(all[n as int] == variable);
        proof {
            lemma_first_uses_len(all, n);
        }
        if !map.contains_key(&variable.id) {
            let node: Node = match variable.kind {
                NodeKind::Spin => graph.add_spin(),
                NodeKind::Categorical { states } => graph.add_categorical(states),
            };
            map.insert(variable.id, node);
            proof {
                let after = before.push(variable);
                assert(after == first_uses(all, n + 1));
                assert(graph@ =~= table_kinds(after));
                assert forall|id: u32|
                    #![trigger map@.contains_key(id)]
                    #![trigger map@[id]]
                    (map@.contains_key(id) <==> knows(after, id)) && (knows(after, id) ==> map@[id]
                        == node_of(after, id)) by {
                    lemma_id_prefix(before, after, id, before.len());
                }
            }
        }
    }
    assert(first_uses(all, (seen.len() + block@.len()) as nat) == first_uses(all, all.len()));
}

/// The graph of all variables of the blocks, and the node of each by its id.
fn build_graph(free: &[Vec<Variable>], clamped: &[Vec<Variable>]) -> (r: (
    Graph,
    HashMap<u32, Node>,
))
    requires
        block_variables(variable_lists(free@), variable_lists(clamped@)).len() <= u32::MAX,
    ensures
        r.0@ == table_kinds(table_of(variable_lists(free@), variable_lists(clamped@))),
        r.0.wf(),
        maps_table(r.1@, table_of(variable_lists(free@), variable_lists(clamped@))),
{
    broadcast use vstd::std_specs::hash::group_hash_axioms;

    let ghost free_lists = variable_lists(free@);
    let ghost clamped_lists = variable_lists(clamped@);
    let ghost all = block_variables(free_lists, clamped_lists);
    let mut graph = Graph::new();
    let mut map: HashMap<u32, Node> = HashMap::new();
    assert(graph@ =~= table_kinds(first_uses(Seq::empty(), 0)));
    for b in 0..free.len()
        invariant
            free_lists == variable_lists(free@),
            clamped_lists == variable_lists(clamped@),
            all == block_variables(free_lists, clamped_lists),
            all.len() <= u32::MAX,
            graph@ == table_kinds(
                first_uses(joined(free_lists, b as nat), joined(free_lists, b as nat).len()),
            ),
            maps_table(
                map@,
                first_uses(joined(free_lists, b as nat), joined(free_lists, b as nat).len()),
            ),
    {
        let ghost seen = joined(free_lists, b as nat);
        assert(free_lists[b as int] == free@[b as int]@);
        proof {
            lemma_joined_len(free_lists, (b + 1) as nat, free_lists.len());
        }
        add_block(&mut graph, &mut map, free[b].as_slice(), Ghost(seen));
    }
    let ghost front = joined(free_lists, free_lists.len());
    assert(front + joined(clamped_lists, 0) =~= front);
    for b in 0..clamped.len()
        invariant
            free_lists == variable_lists(free@),
            clamped_lists == variable_lists(clamped@),
            front == joined(free_lists, free_lists.len()),
            all == block_variables(free_lists, clamped_lists),
            all.len() <= u32::MAX,
            graph@ == table_kinds(
                first_uses(
                    front + joined(clamped_lists, b as nat),
                    (front + joined(clamped_lists, b as nat)).len(),
                ),
            ),
            maps_table(
                map@,
                first_uses(
                    front + joined(clamped_lists, b as nat),
                    (front + joined(clamped_lists, b as nat)).len(),
                ),
            ),
    {
        let ghost seen = front + joined(clamped_lists, b as nat);
        assert(clamped_lists[b as int] == clamped@[b as int]@);
        proof {
            lemma_joined_len(clamped_lists, (b + 1) as nat, clamped_lists.len());
            assert(seen + clamped_lists[b as int] =~= front + joined(
                clamped_lists,
                (b + 1) as nat,
            ));
        }
        add_block(&mut graph, &mut map, clamped[b].as_slice(), Ghost(seen));
    }
    proof {
        lemma_first_uses_len(all, all.len());
    }
    (graph, map)
}

proof fn lemma_joined_len(lists: Seq<Seq<Variable>>, a: nat, b: nat)
    requires
        a <= b,
    ensures
        joined(lists, a).len() <= joined(lists, b).len(),
    decreases b,
{
    if a < b {
        lemma_joined_len(lists, a, (b - 1) as nat);
    }
}

/// Whether the table has all the variables.
pub open spec fn knows_all(table: Seq<Variable>, variables: Seq<Variable>) -> bool {
    forall|i: int| 0 <= i < variables.len() ==> knows(table, (#[trigger] variables[i]).id)
}

/// The nodes that stand for the variables.
pub open spec fn nodes_of(table: Seq<Variable>, variables: Seq<Variable>) -> Seq<Node> {
    Seq::new(variables.len(), |i: int| node_of(table, variables[i].id))
}

/// Whether the table has the variables of all lists.
pub open spec fn knows_lists(table: Seq<Variable>, lists: Seq<Seq<Variable>>) -> bool {
    forall|b: int| 0 <= b < lists.len() ==> knows_all(table, #[trigger] lists[b])
}

/// The nodes that stand for the variables of the lists.
pub open spec fn lists_of(table: Seq<Variable>, lists: Seq<Seq<Variable>>) -> Seq<Seq<Node>> {
    Seq::new(lists.len(), |b: int| nodes_of(table, lists[b]))
}

/// Whether the table has both ends of all edges.
pub open spec fn knows_edges(
    table: Seq<Variable>,
    edges: Seq<(Variable, Variable)>,
) -> bool {
    forall|e: int|
        0 <= e < edges.len() ==> knows(table, (#[trigger] edges[e]).0.id) && knows(
            table,
            edges[e].1.id,
        )
}

/// The edges between the nodes that stand for the variables.
pub open spec fn edges_of(
    table: Seq<Variable>,
    edges: Seq<(Variable, Variable)>,
) -> Seq<(Node, Node)> {
    Seq::new(
        edges.len(),
        |e: int| (node_of(table, edges[e].0.id), node_of(table, edges[e].1.id)),
    )
}

/// Whether a map has all the variables.
pub open spec fn map_has(map: Map<u32, Node>, variables: Seq<Variable>) -> bool {
    forall|i: int| 0 <= i < variables.len() ==> map.contains_key((#[trigger] variables[i]).id)
}

/// The nodes that a map leads to from the variables.
pub open spec fn map_nodes(map: Map<u32, Node>, variables: Seq<Variable>) -> Seq<Node> {
    Seq::new(variables.len(), |i: int| map[variables[i].id])
}

/// Whether a map has the variables of all lists.
pub open spec fn map_has_lists(map: Map<u32, Node>, lists: Seq<Seq<Variable>>) -> bool {
    forall|b: int| 0 <= b < lists.len() ==> map_has(map, #[trigger] lists[b])
}

/// The nodes that a map leads to from the variables of the lists.
pub open spec fn map_lists(map: Map<u32, Node>, lists: Seq<Seq<Variable>>) -> Seq<Seq<Node>> {
    Seq::new(lists.len(), |b: int| map_nodes(map, lists[b]))
}

/// The nodes of the variables, if they all have one.
fn lookup_all(map: &HashMap<u32, Node>, variables: &[Variable]) -> (r: Option<Vec<Node>>)
    ensures
        match r {
            Some(nodes) => map_has(map@, variables@) && nodes@ == map_nodes(map@, variables@),
            None => !map_has(map@, variables@),
        },
{
    broadcast use vstd::std_specs::hash::group_hash_axioms;

    let mut nodes: Vec<Node> = Vec::new();
    for i in 0..variables.len()
        invariant
            forall|j: int| 0 <= j < i ==> map@.contains_key((#[trigger] variables@[j]).id),
            nodes@ =~= map_nodes(map@, variables@.take(i as int)),
    {
        let variable: Variable = variables[i];
        match map.get(&variable.id) {
            Some(node) => {
                nodes.push(*node);
            },
            None => {
                assert(!map@.contains_key(variables@[i as int].id));
                return None;
            },
        }
    }
    assert(variables@.take(variables@.len() as int) =~= variables@);
    Some(nodes)
}

/// What a list of node lists holds.
pub open spec fn lists_view(lists: Seq<Vec<Node>>) -> Seq<Seq<Node>> {
    Seq::new(lists.len(), |b: int| lists[b]@)
}

/// The nodes of the variables of all lists, if they all have one.
pub fn lookup_lists(map: &HashMap<u32, Node>, lists: &[Vec<Variable>]) -> (r: Option<
    Vec<Vec<Node>>,
>)
    ensures
        match r {
            Some(nodes) => map_has_lists(map@, variable_lists(lists@)) && lists_view(nodes@)
                == map_lists(map@, variable_lists(lists@)),
            None => !map_has_lists(map@, variable_lists(lists@)),
        },
{
    let ghost views = variable_lists(lists@);
    let mut result: Vec<Vec<Node>> = Vec::new();
    for b in 0..lists.len()
        invariant
            views == variable_lists(lists@),
            forall|c: int| 0 <= c < b ==> map_has(map@, #[trigger] views[c]),
            lists_view(result@) =~= map_lists(map@, views.take(b as int)),
    {
        assert(views[b as int] == lists@[b as int]@);
        match lookup_all(map, lists[b].as_slice()) {
            Some(nodes) => {
                let ghost before = lists_view(result@);
                result.push(nodes);
                assert(lists_view(result@) =~= before.push(map_nodes(map@, views[b as int])));
            },
            None => {
                return None;
            },
        }
    }
    assert(views.take(views.len() as int) =~= views);
    Some(result)
}

/// The edges between the nodes of the variables, if they all have one.
fn lookup_edges(map: &HashMap<u32, Node>, edges: &[(Variable, Variable)]) -> (r: Option<
    Vec<(Node, Node)>,
>)
    ensures
        match r {
            Some(nodes) => {
                &&& nodes@.len() == edges@.len()
                &&& forall|e: int|
                    0 <= e < edges@.len() ==> {
                        &&& map@.contains_key((#[trigger] edges@[e]).0.id)
                        &&& map@.contains_key(edges@[e].1.id)
                        &&& nodes@[e] == (map@[edges@[e].0.id], map@[edges@[e].1.id])
                    }
            },
            None => exists|e: int|
                0 <= e < edges@.len() && !(map@.contains_key((#[trigger] edges@[e]).0.id)
                    && map@.contains_key(edges@[e].1.id)),
        },
{
    broadcast use vstd::std_specs::hash::group_hash_axioms;

    let mut result: Vec<(Node, Node)> = Vec::new();
    for e in 0..edges.len()
        invariant
            result@.len() == e,
            forall|d: int|
                0 <= d < e ==> {
                    &&& map@.contains_key((#[trigger] edges@[d]).0.id)
                    &&& map@.contains_key(edges@[d].1.id)
                    &&& result@[d] == (map@[edges@[d].0.id], map@[edges@[d].1.id])
                },
    {
        let (a, b) = edges[e];
        assert(edges@[e as int] == (a, b));
        match (map.get(&a.id), map.get(&b.id)) {
            (Some(start), Some(end)) => {
                result.push((*start, *end));
            },
            _ => {
                return None;
            },
        }
    }
    Some(result)
}

/// What a map of a table finds is what the table holds.
proof fn lemma_lookup(map: Map<u32, Node>, table: Seq<Variable>, variables: Seq<Variable>)
    requires
        maps_table(map, table),
    ensures
        map_has(map, variables) <==> knows_all(table, variables),
        knows_all(table, variables) ==> map_nodes(map, variables) == nodes_of(table, variables),
{
    if map_has(map, variables) {
        assert forall|i: int| 0 <= i < variables.len() implies knows(
            table,
            (#[trigger] variables[i]).id,
        ) by {
            assert(map.contains_key(variables[i].id));
        }
    }
    if knows_all(table, variables) {
        assert forall|i: int| 0 <= i < variables.len() implies map.contains_key(
            (#[trigger] variables[i]).id,
        ) && map[variables[i].id] == node_of(table, variables[i].id) by {
            assert(knows(table, variables[i].id));
        }
        assert(map_nodes(map, variables) =~= nodes_of(table, variables));
    }
}

proof fn lemma_lookup_lists(map: Map<u32, Node>, table: Seq<Variable>, lists: Seq<Seq<Variable>>)
    requires
        maps_table(map, table),
        knows_lists(table, lists),
    ensures
        map_has_lists(map, lists),
        map_lists(map, lists) == lists_of(table, lists),
{
    assert forall|b: int| 0 <= b < lists.len() implies map_has(map, #[trigger] lists[b])
        && map_nodes(map, lists[b]) == nodes_of(table, lists[b]) by {
        assert(knows_all(table, lists[b]));
        lemma_lookup(map, table, lists[b]);
    }
    assert(map_lists(map, lists) =~= lists_of(table, lists));
}

/// The blocks of the lists of nodes.
fn blocks_of(lists: &[Vec<Node>]) -> (r: Vec<Block>)
    ensures
        node_lists(r@) == lists_view(lists@),
{
    let mut blocks: Vec<Block> = Vec::new();
    for b in 0..lists.len()
        invariant
            node_lists(blocks@) =~= lists_view(lists@.take(b as int)),
    {
        let ghost before = node_lists(blocks@);
        blocks.push(Block::new(copy_of(lists[b].as_slice())));
        assert(node_lists(blocks@) =~= before.push(lists@[b as int]@));
    }
    assert(lists@.take(lists@.len() as int) =~= lists@);
    blocks
}

/// A model compiled for block Gibbs sampling over the given free and clamped blocks.
pub struct IsingSamplingProgram<W> {
    pub program: Program<W>,
    pub free_blocks: Vec<Vec<Node>>,
    pub clamped_blocks: Vec<Vec<Node>>,
    pub node_map: HashMap<u32, Node>,
}

/// Whether the sizes of the model fit the machine words that hold them,
/// where all its variables are covered.
pub open spec fn binding_fits<W>(
    ebm: IsingEBM<W>,
    free: Seq<Seq<Variable>>,
    clamped: Seq<Seq<Variable>>,
) -> bool {
    let table = table_of(free, clamped);
    &&& block_variables(free, clamped).len() <= u32::MAX
    &&& forall|factors: Seq<DiscreteFactor<W>>| #[trigger]
        ising_shaped(nodes_of(table, ebm.nodes@), edges_of(table, ebm.edges@), factors)
            ==> compile_fits(
            table_kinds(table),
            lists_of(table, free),
            lists_of(table, clamped),
            factors,
        )
}

/// Whether a model over nodes is the one over the variables of a table.
pub open spec fn is_model_of<W>(
    table: Seq<Variable>,
    ebm: IsingEBM<W>,
    model: IsingModel<W>,
) -> bool {
    &&& model.nodes@ == nodes_of(table, ebm.nodes@)
    &&& model.edges@ == edges_of(table, ebm.edges@)
    &&& model.biases@ == ebm.biases@
    &&& model.weights@ == ebm.weights@
    &&& model.beta == ebm.beta
}

/// Every variable of the blocks is in their table.
proof fn lemma_table_knows(variables: Seq<Variable>, n: nat, i: int)
    requires
        0 <= i < n,
    ensures
        knows(first_uses(variables, n), variables[i].id),
    decreases n,
{
    let before = first_uses(variables, (n - 1) as nat);
    let after = first_uses(variables, n);
    if i < n - 1 {
        lemma_table_knows(variables, (n - 1) as nat, i);
        lemma_id_prefix(before, after, variables[i].id, before.len());
    }
}

proof fn lemma_joined_at(lists: Seq<Seq<Variable>>, b: int, p: int, n: nat) -> (i: int)
    requires
        0 <= b < n <= lists.len(),
        0 <= p < lists[b].len(),
    ensures
        0 <= i < joined(lists, n).len(),
        joined(lists, n)[i] == lists[b][p],
    decreases n,
{
    if b == n - 1 {
        joined(lists, (n - 1) as nat).len() + p
    } else {
        lemma_joined_at(lists, b, p, (n - 1) as nat)
    }
}

/// The blocks know their own variables.
proof fn lemma_blocks_known(free: Seq<Seq<Variable>>, clamped: Seq<Seq<Variable>>)
    ensures
        knows_lists(table_of(free, clamped), free),
        knows_lists(table_of(free, clamped), clamped),
{
    let all = block_variables(free, clamped);
    let table = table_of(free, clamped);
    assert forall|b: int| 0 <= b < free.len() implies knows_all(table, #[trigger] free[b]) by {
        assert forall|p: int| 0 <= p < free[b].len() implies knows(
            table,
            (#[trigger] free[b][p]).id,
        ) by {
            let i = lemma_joined_at(free, b, p, free.len());
            assert(all[i] == free[b][p]);
            lemma_table_knows(all, all.len(), i);
        }
    }
    assert forall|b: int| 0 <= b < clamped.len() implies knows_all(
        table,
        #[trigger] clamped[b],
    ) by {
        assert forall|p: int| 0 <= p < clamped[b].len() implies knows(
            table,
            (#[trigger] clamped[b][p]).id,
        ) by {
            let i = lemma_joined_at(clamped, b, p, clamped.len());
            assert(all[joined(free, free.len()).len() + i] == clamped[b][p]);
            lemma_table_knows(all, all.len(), joined(free, free.len()).len() + i);
        }
    }
}

/// The nodes of known variables are nodes of the graph.
proof fn lemma_lists_within(table: Seq<Variable>, lists: Seq<Seq<Variable>>)
    requires
        knows_lists(table, lists),
        table.len() <= u32::MAX,
    ensures
        within(table_kinds(table), lists_of(table, lists)),
{
    assert forall|b: int, p: int|
        #![trigger lists_of(table, lists)[b][p]]
        0 <= b < lists.len() && 0 <= p < lists[b].len() implies (lists_of(
        table,
        lists,
    )[b][p].0 as int) < table.len() by {
        assert(knows_all(table, lists[b]));
        assert(knows(table, lists[b][p].id));
        lemma_id_index(table, lists[b][p].id, table.len());
    }
}

impl<W: Copy> IsingSamplingProgram<W> {
    /// What holds of the parts: the program runs on all valid states, and
    /// blocks and the map lead to nodes of it.
    pub open spec fn wf(&self) -> bool {
        let kinds = self.program.node_kinds@;
        &&& self.program.wf()
        &&& within(kinds, lists_view(self.free_blocks@))
        &&& within(kinds, lists_view(self.clamped_blocks@))
        &&& forall|id: u32| #[trigger]
            self.node_map@.contains_key(id) ==> (self.node_map@[id].0 as int) < kinds.len()
    }

    /// Compile a model over the variables of the given free and clamped blocks.
    pub fn new<S: Fn(W, W) -> W>(
        ebm: &IsingEBM<W>,
        free_blocks: &[Vec<Variable>],
        clamped_blocks: &[Vec<Variable>],
        scale: &S,
    ) -> (r: Result<Self, BindingError>)
        requires
            ebm.wf(),
            binding_fits(*ebm, variable_lists(free_blocks@), variable_lists(clamped_blocks@)),
            forall|a: W, b: W| call_requires(scale, (a, b)),
        ensures
            ({
                let free = variable_lists(free_blocks@);
                let clamped = variable_lists(clamped_blocks@);
                let table = table_of(free, clamped);
                if !knows_all(table, ebm.nodes@) || !knows_edges(table, ebm.edges@) {
                    r == Err::<Self, BindingError>(BindingError::NotCovered)
                } else {
                    exists|model: IsingModel<W>, factors: Seq<DiscreteFactor<W>>|
                        #![trigger model.scaled(*scale, factors)]
                        is_model_of(table, *ebm, model) && model.scaled(*scale, factors)
                            && match r {
                            Ok(this) => {
                                &&& model_error(
                                    table_kinds(table),
                                    lists_of(table, free),
                                    lists_of(table, clamped),
                                    factors,
                                ) is None
                                &&& this.program.compiled_from(
                                    table_kinds(table),
                                    lists_of(table, free),
                                    factors,
                                )
                                &&& lists_view(this.free_blocks@) == lists_of(table, free)
                                &&& lists_view(this.clamped_blocks@) == lists_of(table, clamped)
                                &&& maps_table(this.node_map@, table)
                                &&& this.wf()
                                &&& this.program.id == 0
                                &&& this.program.weights_generation == 0
                            },
                            Err(BindingError::Compile(error)) => model_error(
                                table_kinds(table),
                                lists_of(table, free),
                                lists_of(table, clamped),
                                factors,
                            ) == Some(error),
                            Err(_) => false,
                        }
                }
            }),
    {
        let ghost free = variable_lists(free_blocks@);
        let ghost clamped = variable_lists(clamped_blocks@);
        let ghost table = table_of(free, clamped);
        let (graph, node_map) = build_graph(free_blocks, clamped_blocks);
        proof {
            lemma_blocks_known(free, clamped);
            lemma_first_uses_len(
                block_variables(free, clamped),
                block_variables(free, clamped).len(),
            );
            lemma_lists_within(table, free);
            lemma_lists_within(table, clamped);
            lemma_lookup(node_map@, table, ebm.nodes@);
            lemma_lookup_lists(node_map@, table, free);
            lemma_lookup_lists(node_map@, table, clamped);
        }
        let nodes = match lookup_all(&node_map, ebm.nodes.as_slice()) {
            Some(nodes) => nodes,
            None => {
                return Err(BindingError::NotCovered);
            },
        };
        let edges = match lookup_edges(&node_map, ebm.edges.as_slice()) {
            Some(edges) => edges,
            None => {
                assert(!knows_edges(table, ebm.edges@));
                return Err(BindingError::NotCovered);
            },
        };
        assert(knows_edges(table, ebm.edges@)) by {
            assert forall|e: int| 0 <= e < ebm.edges@.len() implies knows(
                table,
                (#[trigger] ebm.edges@[e]).0.id,
            ) && knows(table, ebm.edges@[e].1.id) by {
                assert(node_map@.contains_key(ebm.edges@[e].0.id));
            }
        }
        assert(edges@ =~= edges_of(table, ebm.edges@)) by {
            assert forall|e: int| 0 <= e < ebm.edges@.len() implies edges@[e] == (
                node_of(table, (#[trigger] ebm.edges@[e]).0.id),
                node_of(table, ebm.edges@[e].1.id),
            ) by {
                assert(knows(table, ebm.edges@[e].0.id) && knows(table, ebm.edges@[e].1.id));
            }
        }
        let model = IsingModel {
            nodes,
            biases: copy_of(ebm.biases.as_slice()),
            edges,
            weights: copy_of(ebm.weights.as_slice()),
            beta: ebm.beta,
        };
        assert(is_model_of(table, *ebm, model));
        let free_lists = match lookup_lists(&node_map, free_blocks) {
            Some(lists) => lists,
            None => {
                return Err(BindingError::NotCovered);
            },
        };
        let clamped_lists = match lookup_lists(&node_map, clamped_blocks) {
            Some(lists) => lists,
            None => {
                return Err(BindingError::NotCovered);
            },
        };
        let free_sim = blocks_of(free_lists.as_slice());
        let clamped_sim = blocks_of(clamped_lists.as_slice());
        match model.compile(&graph, free_sim.as_slice(), clamped_sim.as_slice(), scale) {
            Ok(program) => {
                let this = IsingSamplingProgram {
                    program,
                    free_blocks: free_lists,
                    clamped_blocks: clamped_lists,
                    node_map,
                };
                assert forall|id: u32| #[trigger] this.node_map@.contains_key(
                    id,
                ) implies (this.node_map@[id].0 as int) < table.len() by {
                    lemma_id_index(table, id, table.len());
                }
                Ok(this)
            },
            Err(error) => Err(BindingError::Compile(error)),
        }
    }
}

/// Whether the variables and edges of a model can be counted when it is compiled.
pub open spec fn small_binding<W>(
    ebm: IsingEBM<W>,
    free: Seq<Seq<Variable>>,
    clamped: Seq<Seq<Variable>>,
) -> bool {
    &&& 4 * ebm.nodes@.len() + 10 * ebm.edges@.len() <= u32::MAX
    &&& block_variables(free, clamped).len() <= u32::MAX
}

/// Whether the variables and edges of a model can be counted when it is
/// compiled, so that its sizes fit.
pub fn is_small_binding<W>(
    ebm: &IsingEBM<W>,
    free_blocks: &[Vec<Variable>],
    clamped_blocks: &[Vec<Variable>],
) -> (r: bool)
    ensures
        r == small_binding(*ebm, variable_lists(free_blocks@), variable_lists(clamped_blocks@)),
        r ==> binding_fits(*ebm, variable_lists(free_blocks@), variable_lists(clamped_blocks@)),
{
    let ghost free = variable_lists(free_blocks@);
    let ghost clamped = variable_lists(clamped_blocks@);
    if ebm.nodes.len() as u128 * 4 + ebm.edges.len() as u128 * 10 > 0xFFFF_FFFF {
        return false;
    }
    let total: u64 = match count_variables(free_blocks, 0) {
        Some(total) => total,
        None => {
            return false;
        },
    };
    match count_variables(clamped_blocks, total) {
        Some(_) => {},
        None => {
            return false;
        },
    }
    proof {
        let table = table_of(free, clamped);
        lemma_blocks_known(free, clamped);
        lemma_first_uses_len(block_variables(free, clamped), block_variables(free, clamped).len());
        lemma_lists_within(table, free);
        lemma_lists_within(table, clamped);
        let nodes = nodes_of(table, ebm.nodes@);
        let edges = edges_of(table, ebm.edges@);
        assert forall|factors: Seq<DiscreteFactor<W>>| #[trigger] ising_shaped(
            nodes,
            edges,
            factors,
        ) implies compile_fits(
            table_kinds(table),
            lists_of(table, free),
            lists_of(table, clamped),
            factors,
        ) by {
            small_ising_models_fit(
                table_kinds(table),
                lists_of(table, free),
                lists_of(table, clamped),
                nodes,
                edges,
                factors,
            );
        }
    }
    true
}

/// Number of variables of the blocks on top of a number, if it fits in one word.
fn count_variables(blocks: &[Vec<Variable>], start: u64) -> (r: Option<u64>)
    requires
        start <= u32::MAX,
    ensures
        match r {
            Some(total) => total == start + joined(variable_lists(blocks@), blocks@.len()).len()
                && total <= u32::MAX,
            None => start + joined(variable_lists(blocks@), blocks@.len()).len() > u32::MAX,
        },
{
    let ghost lists = variable_lists(blocks@);
    let mut total: u64 = start;
    for b in 0..blocks.len()
        invariant
            lists == variable_lists(blocks@),
            total == start + joined(lists, b as nat).len(),
            total <= u32::MAX,
    {
        let count: u64 = blocks[b].len() as u64;
        assert(lists[b as int] == blocks@[b as int]@);
        proof {
            lemma_joined_len(lists, (b + 1) as nat, lists.len());
        }
        if count > 0xFFFF_FFFF - total {
            return None;
        }
        total = total + count;
    }
    Some(total)
}

/// Where an id is first used among some variables.
pub open spec fn first_used(variables: Seq<Variable>, q: int) -> bool {
    &&& 0 <= q < variables.len()
    &&& forall|r: int| 0 <= r < q ==> (#[trigger] variables[r]).id != variables[q].id
}

/// The variables of the blocks, the free ones first, are numbered in the
/// order of their first use: there is one node for every id, of the kind of
/// the variable that used it first, and an id used earlier has a lower number.
pub proof fn variables_are_numbered_by_first_use(
    free: Seq<Seq<Variable>>,
    clamped: Seq<Seq<Variable>>,
)
    requires
        (free + clamped).flatten().len() <= u32::MAX,
    ensures
        ({
            let all = (free + clamped).flatten();
            let table = table_of(free, clamped);
            &&& forall|q: int|
                #![trigger all[q]]
                0 <= q < all.len() ==> {
                    let node = node_of(table, all[q].id);
                    &&& knows(table, all[q].id)
                    &&& (node.0 as int) < table.len()
                    &&& table[node.0 as int].id == all[q].id
                }
            &&& forall|q: int| #[trigger]
                first_used(all, q) ==> table[node_of(table, all[q].id).0 as int] == all[q]
            &&& forall|q: int, r: int| #[trigger]
                first_used(all, q) && #[trigger] first_used(all, r) && q < r ==> node_of(
                    table,
                    all[q].id,
                ).0 < node_of(table, all[r].id).0
            &&& forall|k: int| 0 <= k < table.len() ==> is_first_use(all, #[trigger] table[k])
        }),
{
    let all = (free + clamped).flatten();
    let table = table_of(free, clamped);
    lemma_joined_is_flatten(free, free.len());
    lemma_joined_is_flatten(clamped, clamped.len());
    assert(free.take(free.len() as int) =~= free);
    assert(clamped.take(clamped.len() as int) =~= clamped);
    vstd::seq_lib::lemma_flatten_concat(free, clamped);
    assert(block_variables(free, clamped) == all);
    lemma_numbered(all, all.len());
    lemma_first_uses_len(all, all.len());
    assert(all.take(all.len() as int) =~= all);
    assert forall|q: int| #![trigger all[q]] 0 <= q < all.len() implies {
        let node = node_of(table, all[q].id);
        &&& knows(table, all[q].id)
        &&& (node.0 as int) < table.len()
        &&& table[node.0 as int].id == all[q].id
    } by {
        lemma_table_knows(all, all.len(), q);
        lemma_id_index(table, all[q].id, table.len());
    }
    assert forall|q: int| #[trigger] first_used(all, q) implies table[node_of(
        table,
        all[q].id,
    ).0 as int] == all[q] by {
        let k = node_of(table, all[q].id).0 as int;
        assert(is_first_use(all, table[k]));
        let r = choose|r: int| #[trigger] first_used(all, r) && all[r] == table[k];
        assert(all[r].id == all[q].id);
        assert(all[q].id == all[q].id);
        assert(r == q) by {
            if r < q {
                assert(all[r].id != all[q].id);
            } else if q < r {
                assert(all[q].id != all[r].id);
            }
        }
    }
    assert forall|q: int, r: int| #[trigger]
        first_used(all, q) && #[trigger] first_used(all, r) && q < r implies node_of(
        table,
        all[q].id,
    ).0 < node_of(table, all[r].id).0 by {
        let k = node_of(table, all[q].id).0 as int;
        let l = node_of(table, all[r].id).0 as int;
        assert(table[k] == all[q] && table[l] == all[r]);
        assert(all[q].id != all[r].id);
        if l < k {
            assert(uses_before(all, table, l, k, q));
        }
    }
}

proof fn lemma_joined_is_flatten(lists: Seq<Seq<Variable>>, n: nat)
    requires
        n <= lists.len(),
    ensures
        joined(lists, n) == lists.take(n as int).flatten(),
    decreases n,
{
    lists.take(n as int).lemma_flatten_and_flatten_alt_are_equivalent();
    if n > 0 {
        lemma_joined_is_flatten(lists, (n - 1) as nat);
        lists.take(n - 1).lemma_flatten_and_flatten_alt_are_equivalent();
        assert(lists.take(n as int).drop_last() =~= lists.take(n - 1));
        assert(lists.take(n as int).last() == lists[n - 1]);
    }
}

/// Whether an entry of the table is the first use of its id.
pub open spec fn is_first_use(all: Seq<Variable>, variable: Variable) -> bool {
    exists|q: int| #[trigger] first_used(all, q) && all[q] == variable
}

/// Whether a use of the id of entry `l` has one of the id of entry `k` before it.
spec fn uses_before(
    all: Seq<Variable>,
    table: Seq<Variable>,
    k: int,
    l: int,
    q: int,
) -> bool {
    all[q].id == table[l].id ==> exists|r: int| 0 <= r < q && (#[trigger] all[r]).id == table[k].id
}

proof fn lemma_numbered(all: Seq<Variable>, n: nat)
    requires
        n <= all.len(),
    ensures
        ({
            let table = first_uses(all, n);
            &&& forall|k: int|
                0 <= k < table.len() ==> is_first_use(all.take(n as int), #[trigger] table[k])
            &&& forall|k: int, l: int, q: int|
                0 <= k < l < table.len() && 0 <= q < n ==> #[trigger] uses_before(
                    all,
                    table,
                    k,
                    l,
                    q,
                )
        }),
    decreases n,
{
    if n > 0 {
        let m = (n - 1) as nat;
        let before = first_uses(all, m);
        let table = first_uses(all, n);
        let last = all[m as int];
        lemma_numbered(all, m);
        lemma_id_index(before, last.id, before.len());
        let fresh = !knows(before, last.id);
        if fresh {
            assert forall|r: int| 0 <= r < m implies (#[trigger] all[r]).id != last.id by {
                if all[r].id == last.id {
                    lemma_table_knows(all, m, r);
                }
            }
        }
        assert forall|k: int| 0 <= k < table.len() implies is_first_use(
            all.take(n as int),
            #[trigger] table[k],
        ) by {
            if k < before.len() {
                assert(is_first_use(all.take(m as int), before[k]));
                let q = choose|q: int| #[trigger]
                    first_used(all.take(m as int), q) && all.take(m as int)[q] == before[k];
                assert forall|r: int| 0 <= r < q implies (#[trigger] all.take(n as int)[r]).id
                    != all.take(n as int)[q].id by {
                    assert(all.take(m as int)[r].id != all.take(m as int)[q].id);
                }
                assert(first_used(all.take(n as int), q));
            } else {
                assert(first_used(all.take(n as int), m as int));
            }
        }
        assert forall|k: int, l: int, q: int|
            0 <= k < l < table.len() && 0 <= q < n implies #[trigger] uses_before(
            all,
            table,
            k,
            l,
            q,
        ) by {
            if all[q].id == table[l].id {
                if l < before.len() {
                    assert(is_first_use(all.take(m as int), before[l]));
                    let s = choose|s: int| #[trigger]
                        first_used(all.take(m as int), s) && all.take(m as int)[s] == before[l];
                    assert(uses_before(all, before, k, l, s));
                    let r = choose|r: int| 0 <= r < s && (#[trigger] all[r]).id == before[k].id;
                    if q < s {
                        assert(all.take(m as int)[q].id != all.take(m as int)[s].id);
                    }
                    assert(all[r].id == table[k].id);
                } else {
                    assert(is_first_use(all.take(m as int), before[k]));
                    let s = choose|s: int| #[trigger]
                        first_used(all.take(m as int), s) && all.take(m as int)[s] == before[k];
                    assert(q == m) by {
                        if q < m {
                            assert(all[q].id != last.id);
                        }
                    }
                    assert(all[s].id == table[k].id);
                }
            }
        }
    }
}

/// A program speaks of the variables that it was built for: each node, each
/// end of an edge and each position of a block leads to the variable with the
/// same id, and biases and weights stay with the nodes and edges that they
/// were given for.
pub proof fn models_speak_of_their_variables<W>(
    table: Seq<Variable>,
    map: Map<u32, Node>,
    ebm: IsingEBM<W>,
    model: IsingModel<W>,
    lists: Seq<Seq<Variable>>,
)
    requires
        table.len() <= u32::MAX,
        is_model_of(table, ebm, model),
        knows_all(table, ebm.nodes@),
        knows_edges(table, ebm.edges@),
        knows_lists(table, lists),
        maps_table(map, table),
    ensures
        model.nodes@.len() == ebm.nodes@.len(),
        model.edges@.len() == ebm.edges@.len(),
        model.biases@ == ebm.biases@,
        model.weights@ == ebm.weights@,
        model.beta == ebm.beta,
        forall|i: int|
            #![trigger model.nodes@[i]]
            0 <= i < model.nodes@.len() ==> (model.nodes@[i].0 as int) < table.len()
                && table[model.nodes@[i].0 as int].id == ebm.nodes@[i].id,
        forall|e: int|
            #![trigger model.edges@[e]]
            0 <= e < model.edges@.len() ==> {
                &&& (model.edges@[e].0.0 as int) < table.len()
                &&& (model.edges@[e].1.0 as int) < table.len()
                &&& table[model.edges@[e].0.0 as int].id == ebm.edges@[e].0.id
                &&& table[model.edges@[e].1.0 as int].id == ebm.edges@[e].1.id
            },
        lists_of(table, lists).len() == lists.len(),
        map_lists(map, lists) == lists_of(table, lists),
        forall|b: int|
            #![trigger lists[b]]
            0 <= b < lists.len() ==> lists_of(table, lists)[b].len() == lists[b].len(),
        forall|b: int, p: int|
            #![trigger lists[b][p]]
            0 <= b < lists.len() && 0 <= p < lists[b].len() ==> (lists_of(
                table,
                lists,
            )[b][p].0 as int) < table.len() && table[lists_of(table, lists)[b][p].0 as int].id
                == lists[b][p].id,
{
    assert forall|i: int|
        #![trigger model.nodes@[i]]
        0 <= i < model.nodes@.len() implies (model.nodes@[i].0 as int) < table.len()
        && table[model.nodes@[i].0 as int].id == ebm.nodes@[i].id by {
        assert(knows(table, ebm.nodes@[i].id));
        lemma_id_index(table, ebm.nodes@[i].id, table.len());
    }
    assert forall|e: int| #![trigger model.edges@[e]] 0 <= e < model.edges@.len() implies {
        &&& (model.edges@[e].0.0 as int) < table.len()
        &&& (model.edges@[e].1.0 as int) < table.len()
        &&& table[model.edges@[e].0.0 as int].id == ebm.edges@[e].0.id
        &&& table[model.edges@[e].1.0 as int].id == ebm.edges@[e].1.id
    } by {
        assert(knows(table, ebm.edges@[e].0.id) && knows(table, ebm.edges@[e].1.id));
        lemma_id_index(table, ebm.edges@[e].0.id, table.len());
        lemma_id_index(table, ebm.edges@[e].1.id, table.len());
    }
    lemma_lookup_lists(map, table, lists);
    assert forall|b: int, p: int|
        #![trigger lists[b][p]]
        0 <= b < lists.len() && 0 <= p < lists[b].len() implies (lists_of(
        table,
        lists,
    )[b][p].0 as int) < table.len() && table[lists_of(table, lists)[b][p].0 as int].id
        == lists[b][p].id by {
        assert(knows_all(table, lists[b]));
        assert(knows(table, lists[b][p].id));
        lemma_id_index(table, lists[b][p].id, table.len());
    }
}

/// A model of variables is refused for the number of its biases first, then
/// for the number of its weights, and then for a variable that is no spin,
/// among the nodes or at either end of an edge. There is no other reason.
pub proof fn models_are_refused_for_a_reason(
    nodes: Seq<Variable>,
    edges: Seq<(Variable, Variable)>,
    bias_count: nat,
    weight_count: nat,
)
    ensures
        nodes.len() != bias_count ==> ebm_error(nodes, edges, bias_count, weight_count) == Some(
            BindingError::BiasCount,
        ),
        nodes.len() == bias_count && edges.len() != weight_count ==> ebm_error(
            nodes,
            edges,
            bias_count,
            weight_count,
        ) == Some(BindingError::WeightCount),
        nodes.len() == bias_count && edges.len() == weight_count ==> {
            let other_kind = (exists|i: int|
                0 <= i < nodes.len() && (#[trigger] nodes[i]).kind != NodeKind::Spin) || (exists|
                e: int,
            |
                0 <= e < edges.len() && ((#[trigger] edges[e]).0.kind != NodeKind::Spin
                    || edges[e].1.kind != NodeKind::Spin));
            ebm_error(nodes, edges, bias_count, weight_count) == if other_kind {
                Some(BindingError::NotSpin)
            } else {
                None
            }
        },
{
}

/// A model of variables is small exactly if its nodes and edges, and the
/// variables of its blocks, can be counted in a word.
pub proof fn small_bindings_are_counted<W>(
    ebm: IsingEBM<W>,
    free: Seq<Seq<Variable>>,
    clamped: Seq<Seq<Variable>>,
)
    ensures
        small_binding(ebm, free, clamped) <==> 4 * ebm.nodes@.len() + 10 * ebm.edges@.len()
            <= 0xFFFF_FFFF && (free + clamped).flatten().len() <= 0xFFFF_FFFF,
{
    lemma_joined_is_flatten(free, free.len());
    lemma_joined_is_flatten(clamped, clamped.len());
    assert(free.take(free.len() as int) =~= free);
    assert(clamped.take(clamped.len() as int) =~= clamped);
    vstd::seq_lib::lemma_flatten_concat(free, clamped);
}

} // verus!
