//! Chain states.

use vstd::prelude::*;

use crate::checks::{proper, MAX_CATEGORICAL_STATES};
use crate::graph::{Block, Node, NodeKind};
use crate::program::Program;
use crate::rng::{pcg4d_hash, scale, scaled_draw, uniform, uniform_draw, STEP_RANDOM_INIT};
use crate::soundness::valid_values;

verus! {

/// Dense state of a batch of independent sampling chains.
///
/// Holds one value per node per chain: 0/1 for spin nodes,
/// the category index for categorical nodes.
#[derive(Debug)]
pub struct State {
    pub n_chains: u32,
    pub n_nodes: u32,
    /// The values of chain 0, then those of chain 1, and so on.
    pub values: Vec<u32>,
}

impl Clone for State {
    fn clone(&self) -> (r: Self)
        ensures
            r.n_chains == self.n_chains,
            r.n_nodes == self.n_nodes,
            r.values@ == self.values@,
    {
        State {
            n_chains: self.n_chains,
            n_nodes: self.n_nodes,
            values: crate::graph::copy_of(&self.values),
        }
    }
}

/// Position of a node of a chain in the dense values.
pub open spec fn slot_of(n_nodes: int, chain: int, node: int) -> int {
    chain * n_nodes + node
}

/// Positions of different chains do not overlap, and stay within their number.
pub proof fn lemma_slot(n_nodes: int, n_chains: int, chain: int, node: int)
    requires
        0 <= chain < n_chains,
        0 <= node < n_nodes,
    ensures
        0 <= slot_of(n_nodes, chain, node) < n_chains * n_nodes,
        0 <= chain * n_nodes,
        chain * n_nodes + n_nodes <= n_chains * n_nodes,
        forall|c: int, v: int|
            0 <= v < n_nodes && slot_of(n_nodes, chain, node) == #[trigger] slot_of(n_nodes, c, v)
                ==> c == chain && v == node,
{
    assert(chain * n_nodes + n_nodes <= n_chains * n_nodes && 0 <= chain * n_nodes)
        by (nonlinear_arith)
        requires
            0 <= chain < n_chains,
            0 < n_nodes,
    ;
    assert forall|c: int, v: int|
        0 <= v < n_nodes && slot_of(n_nodes, chain, node) == #[trigger] slot_of(
            n_nodes,
            c,
            v,
        ) implies c == chain && v == node by {
        assert(c == chain) by (nonlinear_arith)
            requires
                chain * n_nodes + node == c * n_nodes + v,
                0 <= v < n_nodes,
                0 <= node < n_nodes,
        ;
    }
}

/// A chain after assigning the first `count` values to the nodes, in order.
pub open spec fn assigned(
    chain: Seq<u32>,
    nodes: Seq<Node>,
    values: Seq<u32>,
    count: nat,
) -> Seq<u32>
    decreases count,
{
    if count == 0 {
        chain
    } else {
        assigned(chain, nodes, values, (count - 1) as nat).update(
            nodes[count - 1].0 as int,
            values[count - 1],
        )
    }
}

impl State {
    /// Whether there is one value per node and chain.
    pub open spec fn wf(&self) -> bool {
        self.values@.len() == self.n_chains * self.n_nodes
    }

    /// The values of one chain, by node.
    pub open spec fn chain(&self, chain: int) -> Seq<u32> {
        Seq::new(
            self.n_nodes as nat,
            |v: int| self.values@[slot_of(self.n_nodes as int, chain, v)],
        )
    }

    /// Whether the state holds admissible values for the nodes of a program.
    pub open spec fn valid_for(&self, kinds: Seq<NodeKind>) -> bool {
        &&& self.wf()
        &&& self.n_nodes == kinds.len()
        &&& forall|c: int| 0 <= c < self.n_chains ==> valid_values(kinds, #[trigger] self.chain(c))
    }

    /// Whether every value is one of the states of its node.
    pub open spec fn in_range(&self, kinds: Seq<NodeKind>) -> bool {
        &&& self.wf()
        &&& self.n_nodes == kinds.len()
        &&& forall|c: int, v: int|
            0 <= c < self.n_chains && 0 <= v < kinds.len() ==> #[trigger] self.chain(c)[v]
                < kinds[v].count()
    }

    /// Create an all-zero state for `n_chains` chains.
    pub fn zeros<W>(program: &Program<W>, n_chains: u32) -> (r: Self)
        requires
            program.node_kinds@.len() <= u32::MAX,
            program.node_kinds@.len() * n_chains <= usize::MAX,
        ensures
            r.wf(),
            r.n_chains == n_chains,
            r.n_nodes == program.node_kinds@.len(),
            forall|c: int, v: int|
                0 <= c < n_chains && 0 <= v < r.n_nodes ==> #[trigger] r.chain(c)[v] == 0,
            r.valid_for(program.node_kinds@),
    {
        let n_nodes: usize = program.node_count();
        let values: Vec<u32> = vec![0u32; n_nodes * n_chains as usize];
        let state = State { n_chains, n_nodes: n_nodes as u32, values };
        proof {
            assert(n_nodes * n_chains == n_chains * n_nodes) by (nonlinear_arith);
            assert forall|c: int, v: int|
                0 <= c < n_chains && 0 <= v < state.n_nodes implies #[trigger] state.chain(c)[v]
                == 0 by {
                lemma_slot(state.n_nodes as int, n_chains as int, c, v);
            }
            assert forall|c: int| 0 <= c < state.n_chains implies valid_values(
                program.node_kinds@,
                #[trigger] state.chain(c),
            ) by {
                assert forall|v: int|
                    0 <= v < program.node_kinds@.len() && proper(
                        program.node_kinds@[v],
                    ) implies #[trigger] state.chain(c)[v] < program.node_kinds@[v].count() by {
                    assert(state.chain(c)[v] == 0);
                }
            }
        }
        state
    }

    /// Create a uniformly random state for `n_chains` chains.
    pub fn random<W>(program: &Program<W>, n_chains: u32, seed: u32) -> (r: Self)
        requires
            program.node_kinds@.len() <= u32::MAX,
            program.node_kinds@.len() * n_chains <= usize::MAX,
        ensures
            r.wf(),
            r.n_chains == n_chains,
            r.n_nodes == program.node_kinds@.len(),
            forall|c: int, v: int|
                0 <= c < n_chains && 0 <= v < r.n_nodes ==> #[trigger] r.chain(c)[v] == scaled_draw(
                    uniform_draw(seed, STEP_RANDOM_INIT, c as u32, v as u32),
                    program.node_kinds@[v].count(),
                ),
            forall|c: int, v: int|
                0 <= c < n_chains && 0 <= v < r.n_nodes && program.node_kinds@[v].count() > 0
                    ==> #[trigger] r.chain(c)[v] < program.node_kinds@[v].count(),
            forall|c: int, v: int|
                0 <= c < n_chains && 0 <= v < r.n_nodes ==> #[trigger] r.chain(c)[v] == scaled_draw(
                    (pcg4d_hash((seed, 0xFFFF_FFFF, c as u32, v as u32)).0 as int / 256) as u32,
                    program.node_kinds@[v].count(),
                ),
            r.valid_for(program.node_kinds@),
    {
        let ghost kinds = program.node_kinds@;
        let mut state = State::zeros(program, n_chains);
        let n_nodes: usize = program.node_count();
        for chain in 0..n_chains
            invariant
                kinds == program.node_kinds@,
                n_nodes == kinds.len(),
                n_nodes <= u32::MAX,
                state.wf(),
                state.n_chains == n_chains,
                state.n_nodes == n_nodes,
                forall|c: int, v: int|
                    0 <= c < chain && 0 <= v < n_nodes ==> #[trigger] state.chain(c)[v]
                        == random_value(kinds, seed, c, v),
        {
            for index in 0..n_nodes
                invariant
                    kinds == program.node_kinds@,
                    n_nodes == kinds.len(),
                    n_nodes <= u32::MAX,
                    chain < n_chains,
                    state.wf(),
                    state.n_chains == n_chains,
                    state.n_nodes == n_nodes,
                    forall|c: int, v: int|
                        0 <= c < chain && 0 <= v < n_nodes ==> #[trigger] state.chain(c)[v]
                            == random_value(kinds, seed, c, v),
                    forall|v: int|
                        0 <= v < index ==> #[trigger] state.chain(chain as int)[v] == random_value(
                            kinds,
                            seed,
                            chain as int,
                            v,
                        ),
            {
                let draw: u32 = uniform(seed, STEP_RANDOM_INIT, chain, index as u32);
                let value: u32 = scale(draw, program.node_kinds[index].state_count());
                proof {
                    lemma_slot(n_nodes as int, n_chains as int, chain as int, index as int);
                }
                state.set(chain, Node(index as u32), value);
            }
        }
        proof {
            assert forall|c: int, v: int|
                0 <= c < n_chains && 0 <= v < state.n_nodes && kinds[v].count()
                    > 0 implies #[trigger] state.chain(c)[v] < kinds[v].count() by {
                assert(state.chain(c)[v] == random_value(kinds, seed, c, v));
                lemma_draw_range(seed, STEP_RANDOM_INIT, c as u32, v as u32);
                crate::rng::scaled_draw_is_below_count(
                    uniform_draw(seed, STEP_RANDOM_INIT, c as u32, v as u32),
                    kinds[v].count(),
                );
            }
            assert forall|c: int, v: int|
                0 <= c < n_chains && 0 <= v < state.n_nodes implies #[trigger] state.chain(c)[v]
                == scaled_draw(
                (pcg4d_hash((seed, 0xFFFF_FFFF, c as u32, v as u32)).0 as int / 256) as u32,
                kinds[v].count(),
            ) by {
                assert(state.chain(c)[v] == random_value(kinds, seed, c, v));
                let hash = pcg4d_hash((seed, 0xFFFF_FFFF, c as u32, v as u32)).0;
                assert(hash >> 8 == hash / 256) by (bit_vector);
            }
        }
        state
    }

    /// Number of chains.
    pub fn chain_count(&self) -> (r: u32)
        ensures
            r == self.n_chains,
    {
        self.n_chains
    }

    /// Value of a node in one chain.
    pub fn get(&self, chain: u32, node: Node) -> (r: u32)
        requires
            slot_of(self.n_nodes as int, chain as int, node.0 as int) < self.values@.len(),
        ensures
            r == self.values@[slot_of(self.n_nodes as int, chain as int, node.0 as int)],
            node.0 < self.n_nodes ==> r == self.chain(chain as int)[node.0 as int],
            r == self.values@[chain * self.n_nodes + node.0],
    {
        self.values[self.slot(chain, node)]
    }

    fn slot(&self, chain: u32, node: Node) -> (r: usize)
        requires
            slot_of(self.n_nodes as int, chain as int, node.0 as int) < self.values@.len(),
        ensures
            r == slot_of(self.n_nodes as int, chain as int, node.0 as int),
    {
        assert(slot_of(self.n_nodes as int, chain as int, node.0 as int) < self.values.len());
        assert(0 <= chain * self.n_nodes) by (nonlinear_arith)
            requires
                chain >= 0,
                self.n_nodes >= 0,
        ;
        chain as usize * self.n_nodes as usize + node.0 as usize
    }

    /// Set the value of a node in one chain.
    pub fn set(&mut self, chain: u32, node: Node, value: u32)
        requires
            slot_of(old(self).n_nodes as int, chain as int, node.0 as int) < old(
                self,
            ).values@.len(),
        ensures
            final(self).n_chains == old(self).n_chains,
            final(self).n_nodes == old(self).n_nodes,
            final(self).values@ == old(self).values@.update(
                slot_of(old(self).n_nodes as int, chain as int, node.0 as int),
                value,
            ),
            old(self).wf() ==> final(self).wf(),
            old(self).wf() && chain < old(self).n_chains && node.0 < old(self).n_nodes ==> forall|
                c: int,
            |
                0 <= c < old(self).n_chains ==> #[trigger] final(self).chain(c) == if c == chain {
                    old(self).chain(c).update(node.0 as int, value)
                } else {
                    old(self).chain(c)
                },
    {
        let slot: usize = self.slot(chain, node);
        self.values[slot] = value;
        proof {
            if old(self).wf() && chain < old(self).n_chains && node.0 < old(self).n_nodes {
                assert forall|c: int| 0 <= c < old(self).n_chains implies #[trigger] self.chain(c)
                    == if c == chain {
                    old(self).chain(c).update(node.0 as int, value)
                } else {
                    old(self).chain(c)
                } by {
                    lemma_slot(
                        self.n_nodes as int,
                        self.n_chains as int,
                        chain as int,
                        node.0 as int,
                    );
                    assert forall|v: int| 0 <= v < self.n_nodes implies self.values@[slot_of(
                        self.n_nodes as int,
                        c,
                        v,
                    )] == if c == chain && v == node.0 {
                        value
                    } else {
                        old(self).values@[slot_of(self.n_nodes as int, c, v)]
                    } by {
                        lemma_slot(self.n_nodes as int, self.n_chains as int, c, v);
                    }
                    if c == chain {
                        assert(self.chain(c) =~= old(self).chain(c).update(node.0 as int, value));
                    } else {
                        assert(self.chain(c) =~= old(self).chain(c));
                    }
                }
            }
        }
    }

    /// Assign per-node values of a block, identically in every chain.
    ///
    /// Handy for initializing clamped blocks.
    pub fn write_block(&mut self, block: &Block, values: &[u32])
        requires
            old(self).wf(),
            block@.len() == values@.len(),
            old(self).n_chains > 0 ==> forall|p: int|
                0 <= p < block@.len() ==> (#[trigger] block@[p]).0 < old(self).n_nodes,
        ensures
            final(self).wf(),
            final(self).n_chains == old(self).n_chains,
            final(self).n_nodes == old(self).n_nodes,
            forall|c: int|
                0 <= c < old(self).n_chains ==> #[trigger] final(self).chain(c) == assigned(
                    old(self).chain(c),
                    block@,
                    values@,
                    block@.len(),
                ),
    {
        let count: usize = block.len();
        let n_chains: u32 = self.n_chains;
        for chain in 0..n_chains
            invariant
                n_chains == old(self).n_chains,
                self.wf(),
                self.n_chains == old(self).n_chains,
                self.n_nodes == old(self).n_nodes,
                count == block@.len(),
                block@.len() == values@.len(),
                old(self).n_chains > 0 ==> forall|p: int|
                    0 <= p < block@.len() ==> (#[trigger] block@[p]).0 < old(self).n_nodes,
                forall|c: int|
                    0 <= c < old(self).n_chains ==> #[trigger] self.chain(c) == if c < chain {
                        assigned(old(self).chain(c), block@, values@, block@.len())
                    } else {
                        old(self).chain(c)
                    },
        {
            for p in 0..count
                invariant
                    self.wf(),
                    self.n_chains == old(self).n_chains,
                    self.n_nodes == old(self).n_nodes,
                    chain < self.n_chains,
                    count == block@.len(),
                    block@.len() == values@.len(),
                    forall|q: int|
                        0 <= q < block@.len() ==> (#[trigger] block@[q]).0 < old(self).n_nodes,
                    forall|c: int|
                        0 <= c < old(self).n_chains ==> #[trigger] self.chain(c) == if c < chain {
                            assigned(old(self).chain(c), block@, values@, block@.len())
                        } else if c == chain {
                            assigned(old(self).chain(c), block@, values@, p as nat)
                        } else {
                            old(self).chain(c)
                        },
            {
                let node: Node = block.nodes[p];
                assert(block@[p as int].0 < self.n_nodes);
                proof {
                    lemma_slot(
                        self.n_nodes as int,
                        self.n_chains as int,
                        chain as int,
                        node.0 as int,
                    );
                }
                self.set(chain, node, values[p]);
            }
        }
    }

    /// The values of one chain, by node.
    pub fn chain_values(&self, chain: u32) -> (r: &[u32])
        requires
            self.wf(),
            chain < self.n_chains,
        ensures
            r@ == self.chain(chain as int),
            r@ == self.values@.subrange(
                chain * self.n_nodes,
                chain * self.n_nodes + self.n_nodes,
            ),
    {
        assert(0 <= chain * self.n_nodes && chain * self.n_nodes + self.n_nodes <= self.n_chains
            * self.n_nodes) by (nonlinear_arith)
            requires
                0 <= chain < self.n_chains,
                self.n_nodes >= 0,
        ;
        assert(self.values@.len() == self.values.len());
        let base: usize = chain as usize * self.n_nodes as usize;
        let r = vstd::slice::slice_subrange(
            self.values.as_slice(),
            base,
            base + self.n_nodes as usize,
        );
        assert(r@ =~= self.chain(chain as int));
        r
    }
}

/// The value that a random state gives to a node.
pub open spec fn random_value(kinds: Seq<NodeKind>, seed: u32, chain: int, node: int) -> nat {
    scaled_draw(
        uniform_draw(seed, STEP_RANDOM_INIT, chain as u32, node as u32),
        kinds[node].count(),
    )
}

pub proof fn lemma_draw_range(seed: u32, step: u32, chain: u32, node: u32)
    ensures
        uniform_draw(seed, step, chain, node) < crate::rng::UNIFORM_RANGE,
{
    let first = crate::rng::pcg4d_hash((seed, step, chain, node)).0;
    assert(first >> 8 < 0x100_0000) by (bit_vector);
}

/// Reading a node of a block gives back the value written to it, in every
/// chain; nodes outside the block keep theirs.
pub proof fn assigned_values_read_back(
    chain: Seq<u32>,
    nodes: Seq<Node>,
    values: Seq<u32>,
    count: nat,
)
    requires
        count <= nodes.len(),
        nodes.len() == values.len(),
        nodes.no_duplicates(),
        forall|p: int| 0 <= p < nodes.len() ==> ((#[trigger] nodes[p]).0 as int) < chain.len(),
    ensures
        assigned(chain, nodes, values, count).len() == chain.len(),
        forall|p: int|
            0 <= p < count ==> assigned(chain, nodes, values, count)[(#[trigger] nodes[p]).0 as int]
                == values[p],
        forall|v: int|
            0 <= v < chain.len() && !nodes.take(count as int).contains(Node(v as u32)) && chain.len()
                <= u32::MAX ==> #[trigger] assigned(chain, nodes, values, count)[v] == chain[v],
    decreases count,
{
    if count > 0 {
        let n = (count - 1) as nat;
        assigned_values_read_back(chain, nodes, values, n);
        let before = assigned(chain, nodes, values, n);
        let last = nodes[n as int];
        assert((last.0 as int) < chain.len());
        assert forall|p: int| 0 <= p < count implies assigned(chain, nodes, values, count)[(
        #[trigger] nodes[p]).0 as int] == values[p] by {
            if p < n {
                assert(nodes[p] != last);
                assert(nodes[p].0 != last.0);
            }
        }
        assert forall|v: int|
            0 <= v < chain.len() && !nodes.take(count as int).contains(Node(v as u32))
                && chain.len() <= u32::MAX implies #[trigger] assigned(
            chain,
            nodes,
            values,
            count,
        )[v] == chain[v] by {
            assert(nodes.take(count as int)[n as int] == last);
            assert(last != Node(v as u32));
            if nodes.take(n as int).contains(Node(v as u32)) {
                let p = choose|p: int|
                    0 <= p < nodes.take(n as int).len() && nodes.take(n as int)[p] == Node(
                        v as u32,
                    );
                assert(nodes.take(count as int)[p] == Node(v as u32));
            }
            assert(before[v] == chain[v]);
        }
    }
}

/// A node holds the last value that was written to it, and one that nothing
/// was written to keeps its own.
pub proof fn the_last_value_written_stays(
    chain: Seq<u32>,
    nodes: Seq<Node>,
    values: Seq<u32>,
    count: nat,
    v: int,
)
    requires
        count <= nodes.len(),
        forall|p: int| 0 <= p < count ==> ((#[trigger] nodes[p]).0 as int) < chain.len(),
        0 <= v < chain.len(),
    ensures
        forall|p: int|
            #![trigger nodes[p]]
            0 <= p < count && nodes[p].0 == v && (forall|q: int|
                p < q < count ==> (#[trigger] nodes[q]).0 != v) ==> assigned(
                chain,
                nodes,
                values,
                count,
            )[v] == values[p],
        (forall|p: int| 0 <= p < count ==> (#[trigger] nodes[p]).0 != v) ==> assigned(
            chain,
            nodes,
            values,
            count,
        )[v] == chain[v],
        assigned(chain, nodes, values, count).len() == chain.len(),
    decreases count,
{
    if count > 0 {
        the_last_value_written_stays(chain, nodes, values, (count - 1) as nat, v);
        assert((nodes[count - 1].0 as int) < chain.len());
    }
}

/// Whether the state has a value for every node of the program in every chain.
fn has_shape<W>(program: &Program<W>, state: &State) -> (r: bool)
    ensures
        r == (state.wf() && state.n_nodes == program.node_kinds@.len()),
{
    if state.n_nodes as usize != program.node_count() {
        return false;
    }
    assert(state.n_chains * state.n_nodes <= 0xFFFF_FFFF * 0xFFFF_FFFF) by (nonlinear_arith)
        requires
            state.n_chains <= 0xFFFF_FFFF,
            state.n_nodes <= 0xFFFF_FFFF,
    ;
    state.values.len() as u64 == state.n_chains as u64 * state.n_nodes as u64
}

/// Whether the state holds one of its states for every node of the program,
/// in every chain.
pub fn validate_state<W>(program: &Program<W>, state: &State) -> (r: bool)
    ensures
        r == state.in_range(program.node_kinds@),
        r ==> state.valid_for(program.node_kinds@),
{
    let ghost kinds = program.node_kinds@;
    if !has_shape(program, state) {
        return false;
    }
    let n_nodes: usize = program.node_count();
    for chain in 0..state.n_chains
        invariant
            kinds == program.node_kinds@,
            n_nodes == kinds.len(),
            state.n_nodes == n_nodes,
            state.wf(),
            forall|c: int, v: int|
                0 <= c < chain && 0 <= v < n_nodes ==> #[trigger] state.chain(c)[v]
                    < kinds[v].count(),
    {
        let values = state.chain_values(chain);
        for v in 0..n_nodes
            invariant
                kinds == program.node_kinds@,
                n_nodes == kinds.len(),
                state.n_nodes == n_nodes,
                chain < state.n_chains,
                values@ == state.chain(chain as int),
                values@.len() == n_nodes,
                forall|u: int| 0 <= u < v ==> #[trigger] values@[u] < kinds[u].count(),
        {
            if values[v] >= program.node_kinds[v].state_count() {
                assert(!(state.chain(chain as int)[v as int] < kinds[v as int].count()));
                return false;
            }
        }
    }
    true
}

/// Whether the state holds one of its states for every node of the program
/// that a block can contain. The other nodes, which have no admissible number
/// of states, are never read or written.
pub fn holds_block_states<W>(program: &Program<W>, state: &State) -> (r: bool)
    ensures
        r == state.valid_for(program.node_kinds@),
{
    let ghost kinds = program.node_kinds@;
    if !has_shape(program, state) {
        return false;
    }
    let n_nodes: usize = program.node_count();
    for chain in 0..state.n_chains
        invariant
            kinds == program.node_kinds@,
            n_nodes == kinds.len(),
            state.n_nodes == n_nodes,
            state.wf(),
            forall|c: int| 0 <= c < chain ==> valid_values(kinds, #[trigger] state.chain(c)),
    {
        let values = state.chain_values(chain);
        for v in 0..n_nodes
            invariant
                kinds == program.node_kinds@,
                n_nodes == kinds.len(),
                chain < state.n_chains,
                values@ == state.chain(chain as int),
                values@.len() == n_nodes,
                forall|u: int|
                    0 <= u < v && proper(kinds[u]) ==> #[trigger] values@[u] < kinds[u].count(),
        {
            let count: u32 = program.node_kinds[v].state_count();
            if 2 <= count && count <= MAX_CATEGORICAL_STATES && values[v] >= count {
                assert(!valid_values(kinds, state.chain(chain as int)));
                return false;
            }
        }
    }
    true
}

/// A state is valid exactly if it has one value per node in every chain, and
/// each is one of the states of its node.
pub proof fn states_are_in_range_value_by_value(state: &State, kinds: Seq<NodeKind>)
    ensures
        state.in_range(kinds) <==> {
            &&& state.n_nodes == kinds.len()
            &&& state.values@.len() == state.n_chains * kinds.len()
            &&& forall|c: int, v: int|
                #![trigger state.values@[c * kinds.len() + v]]
                0 <= c < state.n_chains && 0 <= v < kinds.len() ==> state.values@[c * kinds.len()
                    + v] < match kinds[v] {
                    NodeKind::Spin => 2,
                    NodeKind::Categorical { states } => states,
                }
        },
{
    if state.in_range(kinds) {
        assert forall|c: int, v: int|
            #![trigger state.values@[c * kinds.len() + v]]
            0 <= c < state.n_chains && 0 <= v < kinds.len() implies state.values@[c * kinds.len()
            + v] < match kinds[v] {
            NodeKind::Spin => 2,
            NodeKind::Categorical { states } => states,
        } by {
            assert(state.chain(c)[v] < kinds[v].count());
        }
    }
    if state.n_nodes == kinds.len() && state.values@.len() == state.n_chains * kinds.len()
        && forall|c: int, v: int|
        #![trigger state.values@[c * kinds.len() + v]]
        0 <= c < state.n_chains && 0 <= v < kinds.len() ==> state.values@[c * kinds.len() + v]
            < match kinds[v] {
            NodeKind::Spin => 2,
            NodeKind::Categorical { states } => states,
        } {
        assert forall|c: int, v: int|
            0 <= c < state.n_chains && 0 <= v < kinds.len() implies #[trigger] state.chain(c)[v]
            < kinds[v].count() by {
            assert(state.chain(c)[v] == state.values@[c * kinds.len() + v]);
        }
    }
}

} // verus!
