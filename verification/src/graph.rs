//! The random variables of a model and ordered groups of them.

use vstd::prelude::*;

verus! {

/// Kind of a random variable.
#[derive(Clone, Copy, Debug, PartialEq, Eq, Hash, Structural)]
pub enum NodeKind {
    /// A spin variable taking values in {-1, +1}.
    ///
    /// The state is stored as 0 (down, -1) or 1 (up, +1).
    Spin,
    /// A categorical variable taking integer values in `[0, states)`.
    Categorical {
        /// Number of distinct states.
        states: u32,
    },
}

impl NodeKind {
    /// Number of distinct values a node of this kind can take.
    pub open spec fn count(self) -> u32 {
        match self {
            NodeKind::Spin => 2,
            NodeKind::Categorical { states } => states,
        }
    }

    /// Number of distinct values a node of this kind can take.
    pub fn state_count(&self) -> (r: u32)
        ensures
            r == self.count(),
    {
        match *self {
            NodeKind::Spin => 2,
            NodeKind::Categorical { states } => states,
        }
    }
}

/// Handle of a node within a [`Graph`].
///
/// Nodes are cheap copyable identifiers. They are only meaningful
/// together with the graph that created them.
#[derive(Clone, Copy, Debug, PartialEq, Eq, Hash, PartialOrd, Ord, Structural)]
pub struct Node(pub u32);

impl Node {
    /// Index of the node in the graph.
    pub fn index(&self) -> (r: usize)
        ensures
            r == self.0,
    {
        self.0 as usize
    }
}

/// A collection of random variables that make up a probabilistic graphical model.
///
/// The graph only tracks the variables themselves. Dependencies between
/// them are introduced by factors when compiling a [`Program`](crate::Program).
#[derive(Debug)]
pub struct Graph {
    /// The kind of every node, by index.
    pub kinds: Vec<NodeKind>,
}

impl View for Graph {
    type V = Seq<NodeKind>;

    open spec fn view(&self) -> Seq<NodeKind> {
        self.kinds@
    }
}

impl Clone for Graph {
    fn clone(&self) -> (r: Self)
        ensures
            r@ == self@,
    {
        Graph { kinds: copy_of(&self.kinds) }
    }
}

impl Default for Graph {
    fn default() -> (r: Self)
        ensures
            r@.len() == 0,
            r.wf(),
    {
        Graph { kinds: Vec::new() }
    }
}

/// The nodes `first`, `first + 1`, ... of a run of `count` nodes.
pub open spec fn node_run(first: int, count: int) -> Seq<Node> {
    Seq::new(count as nat, |i: int| Node((first + i) as u32))
}

impl Graph {
    /// Node indices fit in a [`Node`], and so does their number.
    pub open spec fn wf(&self) -> bool {
        self@.len() <= u32::MAX
    }

    /// Whether the node belongs to the graph.
    pub open spec fn has(&self, node: Node) -> bool {
        (node.0 as int) < self@.len()
    }

    /// The kind of a node of the graph.
    pub open spec fn kind(&self, node: Node) -> NodeKind {
        self@[node.0 as int]
    }

    /// Create an empty graph.
    pub fn new() -> (r: Self)
        ensures
            r.wf(),
            r@ == Seq::<NodeKind>::empty(),
    {
        Graph { kinds: Vec::new() }
    }

    fn add(&mut self, kind: NodeKind) -> (r: Node)
        requires
            old(self)@.len() < u32::MAX,
        ensures
            final(self).wf(),
            final(self)@ == old(self)@.push(kind),
            r.0 == old(self)@.len(),
    {
        let index: u32 = self.kinds.len() as u32;
        self.kinds.push(kind);
        Node(index)
    }

    fn add_many(&mut self, count: usize, kind: NodeKind) -> (r: Vec<Node>)
        requires
            old(self)@.len() + count <= u32::MAX,
        ensures
            final(self).wf(),
            final(self)@ == old(self)@ + Seq::new(count as nat, |i: int| kind),
            r@ == node_run(old(self)@.len() as int, count as int),
    {
        let mut nodes: Vec<Node> = Vec::new();
        for i in 0..count
            invariant
                old(self)@.len() + count <= u32::MAX,
                self@ =~= old(self)@ + Seq::new(i as nat, |j: int| kind),
                nodes@ =~= node_run(old(self)@.len() as int, i as int),
        {
            let node = self.add(kind);
            nodes.push(node);
        }
        nodes
    }

    /// Add a single spin node.
    pub fn add_spin(&mut self) -> (r: Node)
        requires
            old(self)@.len() < u32::MAX,
        ensures
            final(self).wf(),
            final(self)@ == old(self)@.push(NodeKind::Spin),
            r.0 == old(self)@.len(),
    {
        self.add(NodeKind::Spin)
    }

    /// Add `count` spin nodes.
    pub fn add_spins(&mut self, count: usize) -> (r: Vec<Node>)
        requires
            old(self)@.len() + count <= u32::MAX,
        ensures
            final(self).wf(),
            final(self)@ == old(self)@ + Seq::new(count as nat, |i: int| NodeKind::Spin),
            r@ == node_run(old(self)@.len() as int, count as int),
    {
        self.add_many(count, NodeKind::Spin)
    }

    /// Add a single categorical node with the given number of states.
    pub fn add_categorical(&mut self, states: u32) -> (r: Node)
        requires
            old(self)@.len() < u32::MAX,
        ensures
            final(self).wf(),
            final(self)@ == old(self)@.push(NodeKind::Categorical { states }),
            r.0 == old(self)@.len(),
    {
        self.add(NodeKind::Categorical { states })
    }

    /// Add `count` categorical nodes with the given number of states.
    pub fn add_categoricals(&mut self, count: usize, states: u32) -> (r: Vec<Node>)
        requires
            old(self)@.len() + count <= u32::MAX,
        ensures
            final(self).wf(),
            final(self)@ == old(self)@ + Seq::new(
                count as nat,
                |i: int| NodeKind::Categorical { states },
            ),
            r@ == node_run(old(self)@.len() as int, count as int),
    {
        self.add_many(count, NodeKind::Categorical { states })
    }

    /// Kind of the given node.
    pub fn node_kind(&self, node: Node) -> (r: NodeKind)
        requires
            self.has(node),
        ensures
            r == self.kind(node),
    {
        self.kinds[node.index()]
    }

    /// Total number of nodes in the graph.
    pub fn node_count(&self) -> (r: usize)
        ensures
            r == self@.len(),
    {
        self.kinds.len()
    }

    /// All nodes in the graph, in order.
    pub fn nodes(&self) -> (r: Vec<Node>)
        requires
            self.wf(),
        ensures
            r@ == node_run(0, self@.len() as int),
            forall|i: int| 0 <= i < r@.len() ==> self.has(#[trigger] r@[i]),
    {
        let mut nodes: Vec<Node> = Vec::new();
        for i in 0..self.kinds.len()
            invariant
                self.wf(),
                nodes@ =~= node_run(0, i as int),
        {
            nodes.push(Node(i as u32));
        }
        nodes
    }
}

/// An ordered set of nodes of the same kind.
///
/// Blocks are the unit of parallel updates in block Gibbs sampling:
/// all nodes of a block are updated simultaneously, conditioned on the
/// rest of the model. Nodes of a single block must not interact with
/// each other, which is validated at program compile time.
#[derive(Debug)]
pub struct Block {
    /// Nodes of the block, in order.
    pub nodes: Vec<Node>,
}

impl View for Block {
    type V = Seq<Node>;

    open spec fn view(&self) -> Seq<Node> {
        self.nodes@
    }
}

impl Clone for Block {
    fn clone(&self) -> (r: Self)
        ensures
            r@ == self@,
    {
        Block { nodes: copy_of(&self.nodes) }
    }
}

/// The reflexive `From` of the standard library returns its argument
/// unchanged, so that a conversion into the same type does nothing.
pub assume_specification<Any>[ <Any as core::convert::From<Any>>::from ](value: Any) -> (r: Any)
    ensures
        r == value,
;

/// `From<&[T]>` of the standard library's `Vec<T>` fills a vector by cloning
/// the items of the slice, in order.
pub assume_specification<'a, T: Clone>[ <Vec<T> as core::convert::From<&'a [T]>>::from ](
    items: &[T],
) -> (r: Vec<T>)
    ensures
        r@.len() == items@.len(),
        forall|i: int| 0 <= i < items@.len() ==> cloned::<T>(items@[i], #[trigger] r@[i]),
;

/// `From<[T; N]>` of the standard library's `Vec<T>` moves the items of the
/// array into a vector, in order.
pub assume_specification<T, const N: usize>[ <Vec<T> as core::convert::From<[T; N]>>::from ](
    items: [T; N],
) -> (r: Vec<T>)
    ensures
        r@ == items@,
;

/// A vector with the elements of the slice.
pub(crate) fn copy_of<T: Copy>(items: &[T]) -> (r: Vec<T>)
    ensures
        r@ == items@,
{
    let mut result: Vec<T> = Vec::new();
    append(&mut result, items);
    result
}

/// Append the elements of the slice to the vector.
pub(crate) fn append<T: Copy>(target: &mut Vec<T>, items: &[T])
    ensures
        final(target)@ == old(target)@ + items@,
{
    for i in 0..items.len()
        invariant
            target@ =~= old(target)@ + items@.take(i as int),
    {
        target.push(items[i]);
    }
}

impl Block {
    /// Create a block from a list of nodes.
    pub fn new<V: Into<Vec<Node>>>(nodes: V) -> (r: Self)
        ensures
            call_ensures(V::into, (nodes,), r.nodes),
    {
        Block { nodes: nodes.into() }
    }

    /// Nodes of the block, in order.
    pub fn nodes(&self) -> (r: &[Node])
        ensures
            r@ == self@,
    {
        self.nodes.as_slice()
    }

    /// Number of nodes in the block.
    pub fn len(&self) -> (r: usize)
        ensures
            r == self@.len(),
    {
        self.nodes.len()
    }

    /// Whether the block contains no nodes.
    pub fn is_empty(&self) -> (r: bool)
        ensures
            r == (self@.len() == 0),
    {
        self.nodes.len() == 0
    }
}

impl From<Vec<Node>> for Block {
    fn from(nodes: Vec<Node>) -> (r: Self) {
        Self::new(nodes)
    }
}

impl vstd::std_specs::convert::FromSpecImpl<Vec<Node>> for Block {
    open spec fn obeys_from_spec() -> bool {
        true
    }

    open spec fn from_spec(nodes: Vec<Node>) -> Block {
        Block { nodes }
    }
}

impl From<&[Node]> for Block {
    fn from(nodes: &[Node]) -> (r: Self)
        ensures
            r@ == nodes@,
    {
        Self::new(nodes)
    }
}

impl vstd::std_specs::convert::FromSpecImpl<&[Node]> for Block {
    open spec fn obeys_from_spec() -> bool {
        false
    }

    open spec fn from_spec(nodes: &[Node]) -> Block {
        arbitrary()
    }
}

impl<const N: usize> From<[Node; N]> for Block {
    fn from(nodes: [Node; N]) -> (r: Self)
        ensures
            r@ == nodes@,
    {
        Self::new(nodes)
    }
}

impl<const N: usize> vstd::std_specs::convert::FromSpecImpl<[Node; N]> for Block {
    open spec fn obeys_from_spec() -> bool {
        false
    }

    open spec fn from_spec(nodes: [Node; N]) -> Block {
        arbitrary()
    }
}

/// Nodes that are added together are numbered one after the other.
pub proof fn runs_of_nodes_count_up(first: int, count: int, i: int)
    requires
        0 <= i < count,
        0 <= first,
        first + count <= u32::MAX,
    ensures
        node_run(first, count).len() == count,
        node_run(first, count)[i].0 == first + i,
{
}

} // verus!
