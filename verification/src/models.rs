//! Models that come up often enough to have a name.

use vstd::prelude::*;

use crate::checks::{
    cover_check, covered, factor_check, group_check, lemma_first_error_found, lemma_no_error,
    partition_error, spin_group_check, spin_node_check,
};
use crate::coloring::{
    color_blocks_are_a_valid_partition, color_blocks_partition_the_nodes, color_classes, colorable,
    linked,
};
use crate::energy::{factor_energy, instance_value, model_energy};
use crate::error::Error;
use crate::factor::{axis_product, instance_index, node_lists, sign_of, DiscreteFactor, Shape};
use crate::graph::{copy_of, Block, Graph, Node, NodeKind};
use crate::program::{blocks_readable, Program};
use crate::rng::{below, pcg4d_hash, spin_from_draw, uniform, uniform_draw, STEP_HINTON_INIT};
use crate::soundness::valid_values;
use crate::state::{assigned, assigned_values_read_back, lemma_slot, State};
use crate::streams::{compile_fits, head_count, head_node, model_error};

pub use crate::coloring::color_blocks;

verus! {

/// First and second moments of an Ising model, estimated by sampling.
pub struct IsingMoments<T> {
    /// `<s_i>` for every node of the model, in order.
    pub nodes: Vec<T>,
    /// `<s_i * s_j>` for every edge of the model, in order.
    pub edges: Vec<T>,
}

/// An Ising model: spins with biases, coupled over a set of edges.
///
/// The energy function is
///
/// ```text
/// E(s) = -beta * (sum_i b_i s_i + sum_(i,j) J_ij s_i s_j)
/// ```
///
/// with all spins in {-1, +1}. Boltzmann machines in their spin formulation
/// are the same model, so this type doubles as the workhorse for
/// sampling-based training.
#[derive(Debug)]
pub struct IsingModel<W> {
    /// The spins of the model.
    pub nodes: Vec<Node>,
    /// The bias `b_i` of every node, in order.
    pub biases: Vec<W>,
    /// Pairs of distinct coupled nodes.
    pub edges: Vec<(Node, Node)>,
    /// The coupling `J_ij` of every edge, in order.
    pub weights: Vec<W>,
    /// Inverse temperature.
    pub beta: W,
}

impl<W: Copy> Clone for IsingModel<W> {
    fn clone(&self) -> (r: Self)
        ensures
            r.nodes@ == self.nodes@,
            r.biases@ == self.biases@,
            r.edges@ == self.edges@,
            r.weights@ == self.weights@,
            r.beta == self.beta,
    {
        IsingModel {
            nodes: copy_of(&self.nodes),
            biases: copy_of(&self.biases),
            edges: copy_of(&self.edges),
            weights: copy_of(&self.weights),
            beta: self.beta,
        }
    }
}

/// The first nodes of the edges.
pub open spec fn edge_starts(edges: Seq<(Node, Node)>) -> Seq<Node> {
    Seq::new(edges.len(), |e: int| edges[e].0)
}

/// The second nodes of the edges.
pub open spec fn edge_ends(edges: Seq<(Node, Node)>) -> Seq<Node> {
    Seq::new(edges.len(), |e: int| edges[e].1)
}

/// The node structure of the energy terms of an Ising model: biases, then
/// couplings, each only where there are any.
pub open spec fn ising_shapes(nodes: Seq<Node>, edges: Seq<(Node, Node)>) -> Seq<Shape> {
    let biases = Shape { spins: seq![nodes], cats: Seq::empty() };
    let couplings = Shape {
        spins: seq![edge_starts(edges), edge_ends(edges)],
        cats: Seq::empty(),
    };
    (if nodes.len() > 0 {
        seq![biases]
    } else {
        Seq::empty()
    }) + (if edges.len() > 0 {
        seq![couplings]
    } else {
        Seq::empty()
    })
}

/// Whether the factors have the shapes of the energy terms of an Ising model,
/// with one weight per instance.
pub open spec fn ising_shaped<W>(
    nodes: Seq<Node>,
    edges: Seq<(Node, Node)>,
    factors: Seq<DiscreteFactor<W>>,
) -> bool {
    &&& factors.len() == ising_shapes(nodes, edges).len()
    &&& forall|k: int|
        #![trigger factors[k]]
        0 <= k < factors.len() ==> factors[k].shape() == ising_shapes(nodes, edges)[k]
            && factors[k].weights@.len() == factors[k].shape().batch()
}

impl<W> IsingModel<W> {
    /// One bias per node, and one coupling per edge.
    pub open spec fn wf(&self) -> bool {
        &&& self.nodes@.len() == self.biases@.len()
        &&& self.edges@.len() == self.weights@.len()
    }

    /// The node structure of the energy terms.
    pub open spec fn shapes(&self) -> Seq<Shape> {
        ising_shapes(self.nodes@, self.edges@)
    }

    /// The numbers that the weights of the energy terms are scaled from.
    pub open spec fn sources(&self) -> Seq<Seq<W>> {
        (if self.nodes@.len() > 0 {
            seq![self.biases@]
        } else {
            Seq::empty()
        }) + (if self.edges@.len() > 0 {
            seq![self.weights@]
        } else {
            Seq::empty()
        })
    }

    /// Whether the factors have the shapes of the energy terms, with as many weights.
    pub open spec fn shaped(&self, factors: Seq<DiscreteFactor<W>>) -> bool {
        ising_shaped(self.nodes@, self.edges@, factors)
    }

    /// Whether the factors are the energy terms, their weights scaled by `beta`.
    pub open spec fn scaled<S: Fn(W, W) -> W>(
        &self,
        scale: S,
        factors: Seq<DiscreteFactor<W>>,
    ) -> bool {
        &&& self.shaped(factors)
        &&& forall|k: int, i: int|
            #![trigger factors[k].weights@[i]]
            0 <= k < factors.len() && 0 <= i < factors[k].weights@.len() ==> call_ensures(
                scale,
                (self.beta, self.sources()[k][i]),
                factors[k].weights@[i],
            )
    }
}

/// All numbers scaled by one.
fn scale_all<W: Copy, S: Fn(W, W) -> W>(factor: W, items: &[W], scale: &S) -> (r: Vec<W>)
    requires
        forall|i: int| 0 <= i < items@.len() ==> call_requires(scale, (factor, #[trigger] items@[i])),
    ensures
        r@.len() == items@.len(),
        forall|i: int|
            #![trigger r@[i]]
            0 <= i < items@.len() ==> call_ensures(*scale, (factor, items@[i]), r@[i]),
{
    let mut result: Vec<W> = Vec::new();
    for i in 0..items.len()
        invariant
            result@.len() == i,
            forall|j: int|
                0 <= j < items@.len() ==> call_requires(scale, (factor, #[trigger] items@[j])),
            forall|j: int|
                #![trigger result@[j]]
                0 <= j < i ==> call_ensures(*scale, (factor, items@[j]), result@[j]),
    {
        result.push(scale(factor, items[i]));
    }
    result
}

impl<W: Copy> IsingModel<W> {
    /// The energy terms of the model, with `beta` folded in by `scale`.
    pub fn factors<S: Fn(W, W) -> W>(&self, scale: &S) -> (r: Vec<DiscreteFactor<W>>)
        requires
            self.wf(),
            forall|a: W, b: W| call_requires(scale, (a, b)),
        ensures
            self.scaled(*scale, r@),
    {
        let mut factors: Vec<DiscreteFactor<W>> = Vec::new();
        if self.nodes.len() > 0 {
            let weights = scale_all(self.beta, self.biases.as_slice(), scale);
            let factor = DiscreteFactor::bias(copy_of(self.nodes.as_slice()), weights);
            assert(factor.shape().spins =~= seq![self.nodes@]);
            assert(factor.shape().cats =~= Seq::<Seq<Node>>::empty());
            factors.push(factor);
        }
        if self.edges.len() > 0 {
            let mut starts: Vec<Node> = Vec::new();
            let mut ends: Vec<Node> = Vec::new();
            for e in 0..self.edges.len()
                invariant
                    starts@ =~= edge_starts(self.edges@.take(e as int)),
                    ends@ =~= edge_ends(self.edges@.take(e as int)),
            {
                let (a, b) = self.edges[e];
                starts.push(a);
                ends.push(b);
            }
            assert(self.edges@.take(self.edges@.len() as int) =~= self.edges@);
            let weights = scale_all(self.beta, self.weights.as_slice(), scale);
            let factor = DiscreteFactor::coupling(starts, ends, weights);
            assert(factor.shape().spins =~= seq![edge_starts(self.edges@), edge_ends(self.edges@)]);
            assert(factor.shape().cats =~= Seq::<Seq<Node>>::empty());
            factors.push(factor);
        }
        factors
    }

    /// Whether the nodes and edges of the model can be counted when it is
    /// compiled, so that its sizes fit with any partition.
    pub fn is_small(&self) -> (r: bool)
        ensures
            r == (4 * self.nodes@.len() + 10 * self.edges@.len() <= u32::MAX),
    {
        4 * self.nodes.len() as u128 + 10 * self.edges.len() as u128 <= 0xFFFF_FFFF
    }

    /// Compile the model into a sampling program.
    ///
    /// The union of `free_blocks` and `clamped_blocks` must cover all
    /// the nodes of the model; see [`color_blocks`](crate::color_blocks)
    /// for building a valid partition automatically.
    pub fn compile<S: Fn(W, W) -> W>(
        &self,
        graph: &Graph,
        free_blocks: &[Block],
        clamped_blocks: &[Block],
        scale: &S,
    ) -> (r: Result<Program<W>, Error>)
        requires
            self.wf(),
            forall|a: W, b: W| call_requires(scale, (a, b)),
            graph.wf(),
            blocks_readable(graph@, node_lists(free_blocks@), node_lists(clamped_blocks@)),
            forall|factors: Seq<DiscreteFactor<W>>| #[trigger]
                self.shaped(factors) ==> compile_fits(
                    graph@,
                    node_lists(free_blocks@),
                    node_lists(clamped_blocks@),
                    factors,
                ),
        ensures
            exists|factors: Seq<DiscreteFactor<W>>| #[trigger]
                self.scaled(*scale, factors) && match r {
                    Ok(program) => {
                        &&& model_error(
                            graph@,
                            node_lists(free_blocks@),
                            node_lists(clamped_blocks@),
                            factors,
                        ) is None
                        &&& program.compiled_from(graph@, node_lists(free_blocks@), factors)
                        &&& program.wf()
                        &&& program.id == 0
                        &&& program.weights_generation == 0
                    },
                    Err(error) => model_error(
                        graph@,
                        node_lists(free_blocks@),
                        node_lists(clamped_blocks@),
                        factors,
                    ) == Some(error),
                },
    {
        let factors = self.factors(scale);
        assert(self.shaped(factors@));
        let r = Program::compile(graph, free_blocks, clamped_blocks, factors.as_slice());
        assert(self.scaled(*scale, factors@));
        r
    }
}

/// The smaller of two lengths.
pub open spec fn shorter(a: nat, b: nat) -> nat {
    if a < b {
        a
    } else {
        b
    }
}

/// The value that initialization gives to each node of a chain.
pub open spec fn hinton_values(
    seed: u32,
    chain: u32,
    nodes: Seq<Node>,
    thresholds: Seq<u32>,
) -> Seq<u32> {
    Seq::new(
        thresholds.len(),
        |i: int|
            spin_from_draw(
                uniform_draw(seed, STEP_HINTON_INIT, chain, nodes[i].0),
                thresholds[i],
            ),
    )
}

/// A chain of zeros.
pub open spec fn zero_chain(n_nodes: nat) -> Seq<u32> {
    Seq::new(n_nodes, |v: int| 0u32)
}

/// Draw every spin of the chains on its own: up when its draw is below its
/// threshold. All other nodes are zero.
pub fn hinton_state<W>(
    program: &Program<W>,
    nodes: &[Node],
    thresholds: &[u32],
    n_chains: u32,
    seed: u32,
) -> (r: State)
    requires
        program.node_kinds@.len() <= u32::MAX,
        program.node_kinds@.len() * n_chains <= usize::MAX,
        thresholds@.len() <= nodes@.len(),
        n_chains > 0 ==> forall|i: int|
            0 <= i < thresholds@.len() ==> ((#[trigger] nodes@[i]).0 as int)
                < program.node_kinds@.len(),
    ensures
        r.wf(),
        r.n_chains == n_chains,
        r.n_nodes == program.node_kinds@.len(),
        forall|c: int|
            0 <= c < n_chains ==> #[trigger] r.chain(c) == assigned(
                zero_chain(program.node_kinds@.len()),
                nodes@,
                hinton_values(seed, c as u32, nodes@, thresholds@),
                thresholds@.len(),
            ),
        r.valid_for(program.node_kinds@),
        nodes@.no_duplicates() ==> forall|c: int, i: int|
            #![trigger r.chain(c), nodes@[i]]
            0 <= c < n_chains && 0 <= i < thresholds@.len() ==> r.chain(c)[nodes@[i].0 as int] == (
            if pcg4d_hash((seed, 0xFFFF_FFFE, c as u32, nodes@[i].0)).0 as int / 256
                < thresholds@[i] {
                1u32
            } else {
                0u32
            }),
{
    let ghost kinds = program.node_kinds@;
    let ghost zero = zero_chain(kinds.len());
    let mut state = State::zeros(program, n_chains);
    assert forall|c: int| 0 <= c < n_chains implies #[trigger] state.chain(c) == zero by {
        assert forall|v: int| 0 <= v < kinds.len() implies state.chain(c)[v] == 0 by {}
        assert(state.chain(c) =~= zero);
    }
    for chain in 0..n_chains
        invariant
            kinds == program.node_kinds@,
            zero == zero_chain(kinds.len()),
            state.valid_for(kinds),
            state.n_chains == n_chains,
            thresholds@.len() <= nodes@.len(),
            forall|i: int|
                0 <= i < thresholds@.len() && n_chains > 0 ==> ((#[trigger] nodes@[i]).0 as int)
                    < kinds.len(),
            forall|c: int|
                0 <= c < n_chains ==> #[trigger] state.chain(c) == if c < chain {
                    assigned(
                        zero,
                        nodes@,
                        hinton_values(seed, c as u32, nodes@, thresholds@),
                        thresholds@.len(),
                    )
                } else {
                    zero
                },
    {
        let ghost values = hinton_values(seed, chain, nodes@, thresholds@);
        for i in 0..thresholds.len()
            invariant
                kinds == program.node_kinds@,
                zero == zero_chain(kinds.len()),
                chain < n_chains,
                values == hinton_values(seed, chain, nodes@, thresholds@),
                state.valid_for(kinds),
                state.n_chains == n_chains,
                thresholds@.len() <= nodes@.len(),
                forall|j: int|
                    0 <= j < thresholds@.len() && n_chains > 0 ==> ((
                    #[trigger] nodes@[j]).0 as int) < kinds.len(),
                forall|c: int|
                    0 <= c < n_chains ==> #[trigger] state.chain(c) == if c < chain {
                        assigned(
                            zero,
                            nodes@,
                            hinton_values(seed, c as u32, nodes@, thresholds@),
                            thresholds@.len(),
                        )
                    } else if c == chain {
                        assigned(zero, nodes@, values, i as nat)
                    } else {
                        zero
                    },
        {
            let node: Node = nodes[i];
            assert((nodes@[i as int].0 as int) < kinds.len());
            let draw: u32 = uniform(seed, STEP_HINTON_INIT, chain, node.0);
            let value: u32 = below(draw, thresholds[i]);
            proof {
                lemma_slot(state.n_nodes as int, n_chains as int, chain as int, node.0 as int);
            }
            let ghost before = state;
            state.set(chain, node, value);
            assert forall|c: int| 0 <= c < n_chains implies valid_values(
                kinds,
                #[trigger] state.chain(c),
            ) by {
                assert(valid_values(kinds, before.chain(c)));
            }
        }
    }
    proof {
        if n_chains > 0 && nodes@.no_duplicates() {
            spins_start_up_below_their_threshold(state, seed, kinds.len(), nodes@, thresholds@);
        }
    }
    state
}

impl<W: Copy> IsingModel<W> {
    /// Initialize chains by sampling every spin from its isolated
    /// marginal `P(up) = sigmoid(2 * beta * b_i)`, ignoring couplings.
    ///
    /// `p_up` gives the threshold of that probability for a `beta` and a
    /// bias. This is the classic initialization heuristic of Hinton's
    /// "A Practical Guide to Training Restricted Boltzmann Machines".
    pub fn hinton_init<P: Fn(W, W) -> u32>(
        &self,
        program: &Program<W>,
        n_chains: u32,
        seed: u32,
        p_up: &P,
    ) -> (r: State)
        requires
            program.node_kinds@.len() <= u32::MAX,
            program.node_kinds@.len() * n_chains <= usize::MAX,
            n_chains > 0 ==> forall|i: int|
                0 <= i < shorter(self.nodes@.len(), self.biases@.len()) ==> ((
                #[trigger] self.nodes@[i]).0 as int) < program.node_kinds@.len(),
            forall|a: W, b: W| call_requires(p_up, (a, b)),
        ensures
            r.valid_for(program.node_kinds@),
            r.n_chains == n_chains,
            exists|thresholds: Seq<u32>|
                {
                    &&& thresholds.len() == shorter(self.nodes@.len(), self.biases@.len())
                    &&& forall|i: int|
                        #![trigger thresholds[i]]
                        0 <= i < thresholds.len() ==> call_ensures(
                            *p_up,
                            (self.beta, self.biases@[i]),
                            thresholds[i],
                        )
                    &&& #[trigger] drawn_from(
                        r,
                        seed,
                        program.node_kinds@.len(),
                        self.nodes@,
                        thresholds,
                    )
                },
    {
        let mut thresholds: Vec<u32> = Vec::new();
        let mut i: usize = 0;
        while i < self.nodes.len() && i < self.biases.len()
            invariant
                i <= shorter(self.nodes@.len(), self.biases@.len()),
                thresholds@.len() == i,
                forall|a: W, b: W| call_requires(p_up, (a, b)),
                forall|j: int|
                    #![trigger thresholds@[j]]
                    0 <= j < i ==> call_ensures(
                        *p_up,
                        (self.beta, self.biases@[j]),
                        thresholds@[j],
                    ),
            decreases self.nodes@.len() - i,
        {
            thresholds.push(p_up(self.beta, self.biases[i]));
            i = i + 1;
        }
        let state = hinton_state(
            program,
            self.nodes.as_slice(),
            thresholds.as_slice(),
            n_chains,
            seed,
        );
        assert(drawn_from(
            state,
            seed,
            program.node_kinds@.len(),
            self.nodes@,
            thresholds@,
        ));
        state
    }

    /// The tuples whose moments describe the model: every node by itself,
    /// then the two ends of every edge.
    pub open spec fn tuples(&self) -> Seq<Seq<Node>> {
        Seq::new(
            self.nodes@.len() + self.edges@.len(),
            |m: int|
                if m < self.nodes@.len() {
                    seq![self.nodes@[m]]
                } else {
                    seq![
                        self.edges@[m - self.nodes@.len()].0,
                        self.edges@[m - self.nodes@.len()].1,
                    ]
                },
        )
    }

    /// The tuples whose moments describe the model.
    pub fn moment_tuples(&self) -> (r: Vec<Vec<Node>>)
        ensures
            tuple_lists(r@) == self.tuples(),
            r@.len() == self.nodes@.len() + self.edges@.len(),
            forall|i: int|
                #![trigger self.nodes@[i]]
                0 <= i < self.nodes@.len() ==> r@[i]@ == seq![self.nodes@[i]],
            forall|e: int|
                #![trigger self.edges@[e]]
                0 <= e < self.edges@.len() ==> r@[self.nodes@.len() + e]@ == seq![
                    self.edges@[e].0,
                    self.edges@[e].1,
                ],
    {
        let mut tuples: Vec<Vec<Node>> = Vec::new();
        for i in 0..self.nodes.len()
            invariant
                tuple_lists(tuples@) =~= self.tuples().take(i as int),
        {
            let mut tuple: Vec<Node> = Vec::new();
            tuple.push(self.nodes[i]);
            let ghost before = tuple_lists(tuples@);
            assert(tuple@ =~= self.tuples()[i as int]);
            tuples.push(tuple);
            assert(tuple_lists(tuples@) =~= before.push(self.tuples()[i as int]));
        }
        let ghost n = self.nodes@.len() as int;
        for e in 0..self.edges.len()
            invariant
                n == self.nodes@.len(),
                tuple_lists(tuples@) =~= self.tuples().take(n + e),
        {
            let (a, b) = self.edges[e];
            let mut tuple: Vec<Node> = Vec::new();
            tuple.push(a);
            tuple.push(b);
            let ghost before = tuple_lists(tuples@);
            assert(tuple@ =~= self.tuples()[n + e]);
            tuples.push(tuple);
            assert(tuple_lists(tuples@) =~= before.push(self.tuples()[n + e]));
        }
        assert(self.tuples().take(n + self.edges@.len()) =~= self.tuples());
        assert(tuple_lists(tuples@).len() == tuples@.len());
        assert forall|i: int|
            #![trigger self.nodes@[i]]
            0 <= i < self.nodes@.len() implies tuples@[i]@ == seq![self.nodes@[i]] by {
            assert(tuple_lists(tuples@)[i] == tuples@[i]@);
        }
        assert forall|e: int|
            #![trigger self.edges@[e]]
            0 <= e < self.edges@.len() implies tuples@[n + e]@ == seq![
            self.edges@[e].0,
            self.edges@[e].1,
        ] by {
            assert(tuple_lists(tuples@)[n + e] == tuples@[n + e]@);
        }
        tuples
    }

    /// Tell the moments of the nodes from those of the edges.
    pub fn split_moments<T: Copy>(&self, moments: &[T]) -> (r: IsingMoments<T>)
        requires
            self.nodes@.len() <= moments@.len(),
        ensures
            r.nodes@ == moments@.take(self.nodes@.len() as int),
            r.edges@ == moments@.skip(self.nodes@.len() as int),
    {
        let count: usize = self.nodes.len();
        let r = IsingMoments {
            nodes: copy_of(vstd::slice::slice_subrange(moments, 0, count)),
            edges: copy_of(vstd::slice::slice_subrange(moments, count, moments.len())),
        };
        assert(r.nodes@ =~= moments@.take(count as int));
        assert(r.edges@ =~= moments@.skip(count as int));
        r
    }

    /// Estimate the first moments of all nodes and the second moments
    /// of all edges by sampling.
    ///
    /// `accumulate` is handed the tuples of the model and returns one moment
    /// for each of them.
    pub fn estimate_moments<T: Copy, A: FnOnce(&[Vec<Node>]) -> Vec<T>>(
        &self,
        accumulate: A,
    ) -> (r: IsingMoments<T>)
        requires
            forall|tuples: &[Vec<Node>]|
                tuple_lists(tuples@) == self.tuples() ==> #[trigger] call_requires(
                    accumulate,
                    (tuples,),
                ),
            forall|tuples: &[Vec<Node>], moments: Vec<T>| #[trigger]
                call_ensures(accumulate, (tuples,), moments) ==> moments@.len() == tuples@.len(),
        ensures
            exists|tuples: &[Vec<Node>], moments: Vec<T>|
                {
                    &&& tuple_lists(tuples@) == self.tuples()
                    &&& #[trigger] call_ensures(accumulate, (tuples,), moments)
                    &&& r.nodes@ == moments@.take(self.nodes@.len() as int)
                    &&& r.edges@ == moments@.skip(self.nodes@.len() as int)
                    &&& r.nodes@.len() == self.nodes@.len()
                    &&& r.edges@.len() == self.edges@.len()
                    &&& forall|i: int|
                        #![trigger self.nodes@[i]]
                        0 <= i < self.nodes@.len() ==> tuples@[i]@ == seq![self.nodes@[i]]
                            && r.nodes@[i] == moments@[i]
                    &&& forall|e: int|
                        #![trigger self.edges@[e]]
                        0 <= e < self.edges@.len() ==> tuples@[self.nodes@.len() + e]@ == seq![
                            self.edges@[e].0,
                            self.edges@[e].1,
                        ] && r.edges@[e] == moments@[self.nodes@.len() + e]
                },
    {
        let tuples = self.moment_tuples();
        let moments: Vec<T> = accumulate(tuples.as_slice());
        self.split_moments(moments.as_slice())
    }

    /// Monte Carlo estimate of the gradient of the KL divergence between
    /// a data distribution and the model, with respect to the biases and
    /// the coupling weights.
    ///
    /// Takes moments estimated in the *positive* phase (data clamped)
    /// and the *negative* phase (free-running model):
    ///
    /// ```text
    /// dKL/db_i = -beta * (<s_i>+ - <s_i>-)
    /// dKL/dJ_ij = -beta * (<s_i s_j>+ - <s_i s_j>-)
    /// ```
    ///
    /// where `gradient` computes the right-hand sides. Descending this
    /// gradient trains Boltzmann machines.
    pub fn kl_gradient<T: Copy, G: Fn(W, T, T) -> T>(
        &self,
        positive: &IsingMoments<T>,
        negative: &IsingMoments<T>,
        gradient: &G,
    ) -> (r: (Vec<T>, Vec<T>))
        requires
            forall|beta: W, a: T, b: T| call_requires(gradient, (beta, a, b)),
        ensures
            paired(*gradient, self.beta, positive.nodes@, negative.nodes@, r.0@),
            paired(*gradient, self.beta, positive.edges@, negative.edges@, r.1@),
            forall|i: int|
                #![trigger r.0@[i]]
                0 <= i < positive.nodes@.len() && i < negative.nodes@.len() ==> i < r.0@.len()
                    && call_ensures(
                    *gradient,
                    (self.beta, positive.nodes@[i], negative.nodes@[i]),
                    r.0@[i],
                ),
            forall|e: int|
                #![trigger r.1@[e]]
                0 <= e < positive.edges@.len() && e < negative.edges@.len() ==> e < r.1@.len()
                    && call_ensures(
                    *gradient,
                    (self.beta, positive.edges@[e], negative.edges@[e]),
                    r.1@[e],
                ),
    {
        (
            pair_up(self.beta, positive.nodes.as_slice(), negative.nodes.as_slice(), gradient),
            pair_up(self.beta, positive.edges.as_slice(), negative.edges.as_slice(), gradient),
        )
    }
}

/// Whether every chain of a state was drawn with the given thresholds.
pub open spec fn drawn_from(
    state: State,
    seed: u32,
    n_nodes: nat,
    nodes: Seq<Node>,
    thresholds: Seq<u32>,
) -> bool {
    forall|c: int|
        0 <= c < state.n_chains ==> #[trigger] state.chain(c) == assigned(
            zero_chain(n_nodes),
            nodes,
            hinton_values(seed, c as u32, nodes, thresholds),
            thresholds.len(),
        )
}

/// With distinct nodes, node `i` starts up exactly where its own draw of the
/// reserved step is below its own threshold, in every chain, and all other
/// nodes start at zero. A threshold of 2^24 is always up, one of 0 never.
pub proof fn spins_start_up_below_their_threshold(
    state: State,
    seed: u32,
    n_nodes: nat,
    nodes: Seq<Node>,
    thresholds: Seq<u32>,
)
    requires
        drawn_from(state, seed, n_nodes, nodes, thresholds),
        nodes.no_duplicates(),
        thresholds.len() <= nodes.len(),
        n_nodes <= u32::MAX,
        forall|i: int|
            0 <= i < thresholds.len() ==> ((#[trigger] nodes[i]).0 as int) < n_nodes,
    ensures
        forall|c: int, i: int|
            #![trigger state.chain(c), nodes[i]]
            0 <= c < state.n_chains && 0 <= i < thresholds.len() ==> {
                let draw = pcg4d_hash((seed, 0xFFFF_FFFE, c as u32, nodes[i].0)).0 as int / 256;
                let value = state.chain(c)[nodes[i].0 as int];
                &&& draw < thresholds[i] ==> value == 1
                &&& draw >= thresholds[i] ==> value == 0
                &&& thresholds[i] >= 0x100_0000 ==> value == 1
                &&& thresholds[i] == 0 ==> value == 0
            },
        forall|c: int, v: int|
            #![trigger state.chain(c)[v]]
            0 <= c < state.n_chains && 0 <= v < n_nodes && !nodes.take(
                thresholds.len() as int,
            ).contains(Node(v as u32)) ==> state.chain(c)[v] == 0,
{
    let used = nodes.take(thresholds.len() as int);
    let zero = zero_chain(n_nodes);
    assert(used.no_duplicates());
    assert forall|c: int, i: int|
        #![trigger state.chain(c), nodes[i]]
        0 <= c < state.n_chains && 0 <= i < thresholds.len() implies {
        let draw = pcg4d_hash((seed, 0xFFFF_FFFE, c as u32, nodes[i].0)).0 as int / 256;
        let value = state.chain(c)[nodes[i].0 as int];
        &&& draw < thresholds[i] ==> value == 1
        &&& draw >= thresholds[i] ==> value == 0
        &&& thresholds[i] >= 0x100_0000 ==> value == 1
        &&& thresholds[i] == 0 ==> value == 0
    } by {
        let values = hinton_values(seed, c as u32, nodes, thresholds);
        lemma_assigned_by_prefix(zero, nodes, used, values, thresholds.len());
        assigned_values_read_back(zero, used, values, thresholds.len());
        assert(used[i] == nodes[i]);
        let hash = pcg4d_hash((seed, 0xFFFF_FFFE, c as u32, nodes[i].0)).0;
        assert(hash >> 8 == hash / 256) by (bit_vector);
    }
    assert forall|c: int, v: int|
        #![trigger state.chain(c)[v]]
        0 <= c < state.n_chains && 0 <= v < n_nodes && !used.contains(
            Node(v as u32),
        ) implies state.chain(c)[v] == 0 by {
        let values = hinton_values(seed, c as u32, nodes, thresholds);
        lemma_assigned_by_prefix(zero, nodes, used, values, thresholds.len());
        assigned_values_read_back(zero, used, values, thresholds.len());
        assert(used.take(thresholds.len() as int) =~= used);
        assert(assigned(zero, used, values, thresholds.len())[v] == zero[v]);
    }
}

/// An initialized model has each of its spins up exactly where the spin's own
/// draw is below the threshold of its own bias, as long as that threshold is
/// a function of `beta` and the bias.
pub proof fn spins_start_by_their_own_bias<W, P: Fn(W, W) -> u32>(
    model: &IsingModel<W>,
    p_up: P,
    threshold: spec_fn(W, W) -> u32,
    state: State,
    seed: u32,
    n_nodes: nat,
    thresholds: Seq<u32>,
)
    requires
        model.wf(),
        model.nodes@.no_duplicates(),
        n_nodes <= u32::MAX,
        forall|i: int|
            0 <= i < model.nodes@.len() ==> ((#[trigger] model.nodes@[i]).0 as int) < n_nodes,
        forall|beta: W, bias: W, x: u32| #[trigger]
            call_ensures(p_up, (beta, bias), x) ==> x == threshold(beta, bias),
        thresholds.len() == shorter(model.nodes@.len(), model.biases@.len()),
        forall|i: int|
            #![trigger thresholds[i]]
            0 <= i < thresholds.len() ==> call_ensures(
                p_up,
                (model.beta, model.biases@[i]),
                thresholds[i],
            ),
        drawn_from(state, seed, n_nodes, model.nodes@, thresholds),
    ensures
        forall|c: int, i: int|
            #![trigger state.chain(c), model.nodes@[i]]
            0 <= c < state.n_chains && 0 <= i < model.nodes@.len() ==> {
                let draw = pcg4d_hash((seed, 0xFFFF_FFFE, c as u32, model.nodes@[i].0)).0 as int
                    / 256;
                let value = state.chain(c)[model.nodes@[i].0 as int];
                &&& draw < threshold(model.beta, model.biases@[i]) ==> value == 1
                &&& draw >= threshold(model.beta, model.biases@[i]) ==> value == 0
            },
{
    spins_start_up_below_their_threshold(state, seed, n_nodes, model.nodes@, thresholds);
    assert forall|i: int| 0 <= i < thresholds.len() implies #[trigger] thresholds[i] == threshold(
        model.beta,
        model.biases@[i],
    ) by {
        assert(call_ensures(p_up, (model.beta, model.biases@[i]), thresholds[i]));
    }
}

/// Assigning reads only as many nodes as it assigns.
proof fn lemma_assigned_by_prefix(
    chain: Seq<u32>,
    nodes: Seq<Node>,
    prefix: Seq<Node>,
    values: Seq<u32>,
    count: nat,
)
    requires
        count <= prefix.len() <= nodes.len(),
        forall|i: int| 0 <= i < prefix.len() ==> prefix[i] == #[trigger] nodes[i],
    ensures
        assigned(chain, nodes, values, count) == assigned(chain, prefix, values, count),
    decreases count,
{
    if count > 0 {
        lemma_assigned_by_prefix(chain, nodes, prefix, values, (count - 1) as nat);
        assert(prefix[count - 1] == nodes[count - 1]);
    }
}

/// What a list of tuples holds.
pub open spec fn tuple_lists(tuples: Seq<Vec<Node>>) -> Seq<Seq<Node>> {
    Seq::new(tuples.len(), |m: int| tuples[m]@)
}

/// Whether the gradients belong to the pairs of moments, as far as both lists reach.
pub open spec fn paired<W, T, G: Fn(W, T, T) -> T>(
    gradient: G,
    beta: W,
    positive: Seq<T>,
    negative: Seq<T>,
    r: Seq<T>,
) -> bool {
    &&& r.len() == shorter(positive.len(), negative.len())
    &&& forall|i: int|
        #![trigger r[i]]
        0 <= i < r.len() ==> call_ensures(gradient, (beta, positive[i], negative[i]), r[i])
}

fn pair_up<W: Copy, T: Copy, G: Fn(W, T, T) -> T>(
    beta: W,
    positive: &[T],
    negative: &[T],
    gradient: &G,
) -> (r: Vec<T>)
    requires
        forall|a: W, b: T, c: T| call_requires(gradient, (a, b, c)),
    ensures
        paired(*gradient, beta, positive@, negative@, r@),
{
    let mut result: Vec<T> = Vec::new();
    let mut i: usize = 0;
    while i < positive.len() && i < negative.len()
        invariant
            i <= shorter(positive@.len(), negative@.len()),
            result@.len() == i,
            forall|a: W, b: T, c: T| call_requires(gradient, (a, b, c)),
            forall|j: int|
                #![trigger result@[j]]
                0 <= j < i ==> call_ensures(
                    *gradient,
                    (beta, positive@[j], negative@[j]),
                    result@[j],
                ),
        decreases positive@.len() - i,
    {
        result.push(gradient(beta, positive[i], negative[i]));
        i = i + 1;
    }
    result
}

/// The gradient is `-beta` times the positive moment less the negative one,
/// position by position as far as both lists reach, whenever the function
/// that computes it does so for one pair of moments.
pub proof fn gradients_descend_towards_the_data<W, T, G: Fn(W, T, T) -> T>(
    gradient: G,
    beta: W,
    positive: Seq<T>,
    negative: Seq<T>,
    r: Seq<T>,
    t: spec_fn(T) -> int,
    w: spec_fn(W) -> int,
)
    requires
        paired(gradient, beta, positive, negative, r),
        forall|b: W, p: T, n: T, x: T| #[trigger]
            call_ensures(gradient, (b, p, n), x) ==> t(x) == -w(b) * (t(p) - t(n)),
    ensures
        r.len() <= positive.len(),
        r.len() <= negative.len(),
        r.len() == positive.len() || r.len() == negative.len(),
        forall|i: int|
            #![trigger r[i]]
            0 <= i < positive.len() && i < negative.len() ==> t(r[i]) == -w(beta) * (t(positive[i])
                - t(negative[i])),
{
}

/// Swapping the phases negates the gradient, and equal phases have none, as
/// long as the function that computes it does so for one pair of moments.
pub proof fn gradients_compare_the_phases<W, T, G: Fn(W, T, T) -> T>(
    gradient: G,
    beta: W,
    positive: Seq<T>,
    negative: Seq<T>,
    r: Seq<T>,
    swapped: Seq<T>,
    equal: Seq<T>,
    negate: spec_fn(T) -> T,
    zero: T,
)
    requires
        paired(gradient, beta, positive, negative, r),
        paired(gradient, beta, negative, positive, swapped),
        paired(gradient, beta, positive, positive, equal),
        forall|a: T, b: T, x: T, y: T|
            #![trigger call_ensures(gradient, (beta, a, b), x), call_ensures(gradient, (beta, b, a), y)]
            call_ensures(gradient, (beta, a, b), x) && call_ensures(gradient, (beta, b, a), y) ==> y
                == negate(x),
        forall|a: T, x: T| #[trigger] call_ensures(gradient, (beta, a, a), x) ==> x == zero,
    ensures
        swapped == Seq::new(r.len(), |i: int| negate(r[i])),
        equal == Seq::new(positive.len(), |i: int| zero),
{
    assert(swapped =~= Seq::new(r.len(), |i: int| negate(r[i])));
    assert(equal =~= Seq::new(positive.len(), |i: int| zero));
}

/// A model cannot be compiled with a partition that leaves out one of its
/// nodes: the error names a node that is left out.
pub proof fn left_out_nodes_are_reported<W>(
    kinds: Seq<NodeKind>,
    model: &IsingModel<W>,
    factors: Seq<DiscreteFactor<W>>,
    free: Seq<Seq<Node>>,
    clamped: Seq<Seq<Node>>,
    node: Node,
)
    requires
        model.shaped(factors),
        partition_error(kinds, free, clamped) is None,
        model.nodes@.contains(node),
        !covered(free, clamped, node),
    ensures
        match model_error(kinds, free, clamped, factors) {
            Some(Error::UncoveredNode(other)) => model.nodes@.contains(other) && !covered(
                free,
                clamped,
                other,
            ),
            _ => false,
        },
{
    let nodes = model.nodes@;
    let i = choose|i: int| 0 <= i < nodes.len() && nodes[i] == node;
    assert(nodes[i] == node);
    let shape = factors[0].shape();
    assert(shape == model.shapes()[0]);
    let groups = shape.spins + shape.cats;
    assert(groups[0] == nodes);
    let cover = cover_check(free, clamped, nodes);
    let j = lemma_first_error_found(cover, nodes.len() as int, i);
    let group = group_check(free, clamped, groups, shape.batch());
    assert(group(0) == cover(j));
    lemma_first_error_found(group, groups.len() as int, 0);
    let factor = factor_check(kinds, free, clamped, factors);
    assert(factor(0) == cover(j));
    lemma_first_error_found(factor, factors.len() as int, 0);
    assert(nodes.contains(nodes[j]));
}

/// An Ising model compiles with the blocks that its nodes are colored into,
/// to a program with these blocks over all nodes of the graph.
pub proof fn colored_ising_models_compile<W>(
    kinds: Seq<NodeKind>,
    model: &IsingModel<W>,
    factors: Seq<DiscreteFactor<W>>,
)
    requires
        model.wf(),
        model.shaped(factors),
        colorable(kinds, model.nodes@, model.edges@),
        model.nodes@.no_duplicates(),
        kinds[model.nodes@[0].0 as int] == NodeKind::Spin,
        forall|e: int|
            #![trigger model.edges@[e]]
            0 <= e < model.edges@.len() ==> model.edges@[e].0 != model.edges@[e].1,
    ensures
        model_error(
            kinds,
            color_classes(model.nodes@, model.edges@),
            Seq::empty(),
            factors,
        ) is None,
        forall|program: Program<W>| #[trigger]
            program.compiled_from(kinds, color_classes(model.nodes@, model.edges@), factors) ==> {
                &&& program.blocks@.len() == color_classes(model.nodes@, model.edges@).len()
                &&& program.node_kinds@.len() == kinds.len()
            },
{
    let nodes = model.nodes@;
    let edges = model.edges@;
    let free = color_classes(nodes, edges);
    let none = Seq::<Seq<Node>>::empty();
    assert forall|k: int, i: int, t: int, s: int|
        #![trigger head_node(factors[k].shape(), i, t), head_node(factors[k].shape(), i, s)]
        0 <= k < factors.len() && 0 <= i < factors[k].shape().batch() && 0 <= t < head_count(
            factors[k].shape(),
        ) && 0 <= s < head_count(factors[k].shape()) && t != s implies linked(
        edges,
        head_node(factors[k].shape(), i, t),
        head_node(factors[k].shape(), i, s),
    ) by {
        assert(factors[k].shape() == model.shapes()[k]);
        assert(edges[i].0 != edges[i].1);
    }
    color_blocks_are_a_valid_partition(kinds, nodes, edges, factors);
    color_blocks_partition_the_nodes(nodes, edges);
    assert forall|node: Node| nodes.contains(node) implies {
        &&& #[trigger] covered(free, none, node)
        &&& kinds[node.0 as int] == NodeKind::Spin
    } by {
        let i = choose|i: int| 0 <= i < nodes.len() && nodes[i] == node;
        let color = crate::coloring::block_colors(nodes, edges)[i] as int;
        assert(nodes[i] == node);
        assert(free[color].contains(node));
    }
    assert forall|k: int| 0 <= k < factors.len() implies (#[trigger] factor_check(
        kinds,
        free,
        none,
        factors,
    )(k)) is None by {
        let shape = factors[k].shape();
        assert(shape == model.shapes()[k]);
        let groups = shape.spins + shape.cats;
        assert forall|g: int, j: int|
            #![trigger groups[g][j]]
            0 <= g < groups.len() && 0 <= j < groups[g].len() implies nodes.contains(
            groups[g][j],
        ) by {
            if shape.spins.len() == 2 {
                assert(nodes.contains(edges[j].0) && nodes.contains(edges[j].1));
            } else {
                assert(nodes[j] == groups[g][j]);
            }
        }
        assert forall|g: int| 0 <= g < groups.len() implies (#[trigger] group_check(
            free,
            none,
            groups,
            shape.batch(),
        )(g)) is None by {
            let check = cover_check(free, none, groups[g]);
            assert forall|j: int| 0 <= j < groups[g].len() implies (#[trigger] check(
                j,
            )) is None by {
                assert(nodes.contains(groups[g][j]));
                assert(covered(free, none, groups[g][j]));
            }
            lemma_no_error(check, groups[g].len() as int);
        }
        lemma_no_error(group_check(free, none, groups, shape.batch()), groups.len() as int);
        assert forall|g: int| 0 <= g < shape.spins.len() implies (#[trigger] spin_group_check(
            kinds,
            shape.spins,
        )(g)) is None by {
            let check = spin_node_check(kinds, shape.spins[g]);
            assert forall|j: int| 0 <= j < shape.spins[g].len() implies (#[trigger] check(
                j,
            )) is None by {
                assert(groups[g] == shape.spins[g]);
                assert(nodes.contains(groups[g][j]));
                assert(covered(free, none, groups[g][j]));
            }
            lemma_no_error(check, shape.spins[g].len() as int);
        }
        lemma_no_error(spin_group_check(kinds, shape.spins), shape.spins.len() as int);
        lemma_no_axes(kinds, shape.batch());
    }
    lemma_no_error(factor_check(kinds, free, none, factors), factors.len() as int);
}

/// Without categorical nodes there is one weight per instance.
proof fn lemma_no_axes(kinds: Seq<NodeKind>, n: nat)
    ensures
        axis_product(kinds, Seq::empty(), 0) == 1,
        n * axis_product(kinds, Seq::empty(), 0) == n,
{
    assert(axis_product(kinds, Seq::empty(), 0) == 1);
    assert(n * 1 == n) by (nonlinear_arith);
}

/// The biases of the first `count` nodes times their spins, added up.
pub open spec fn bias_sum<W>(
    nodes: Seq<Node>,
    biases: Seq<W>,
    values: Seq<u32>,
    w: spec_fn(W) -> int,
    count: nat,
) -> int
    decreases count,
{
    if count == 0 {
        0
    } else {
        bias_sum(nodes, biases, values, w, (count - 1) as nat) + w(biases[count - 1]) * sign_of(
            values[nodes[count - 1].0 as int],
        )
    }
}

/// The couplings of the first `count` edges times the spins of their ends, added up.
pub open spec fn coupling_sum<W>(
    edges: Seq<(Node, Node)>,
    weights: Seq<W>,
    values: Seq<u32>,
    w: spec_fn(W) -> int,
    count: nat,
) -> int
    decreases count,
{
    if count == 0 {
        0
    } else {
        coupling_sum(edges, weights, values, w, (count - 1) as nat) + w(weights[count - 1])
            * sign_of(values[edges[count - 1].0.0 as int]) * sign_of(
            values[edges[count - 1].1.0 as int],
        )
    }
}

proof fn lemma_bias_energy<W>(
    kinds: Seq<NodeKind>,
    nodes: Seq<Node>,
    biases: Seq<W>,
    scaled: Seq<W>,
    beta: int,
    values: Seq<u32>,
    w: spec_fn(W) -> int,
    count: nat,
)
    requires
        count <= nodes.len(),
        forall|i: int| 0 <= i < count ==> w(#[trigger] scaled[i]) == beta * w(biases[i]),
    ensures
        factor_energy(
            kinds,
            (Shape { spins: seq![nodes], cats: Seq::empty() }),
            scaled,
            values,
            w,
            count,
        ) == -beta * bias_sum(nodes, biases, values, w, count),
    decreases count,
{
    let shape = Shape { spins: seq![nodes], cats: Seq::<Seq<Node>>::empty() };
    if count == 0 {
        assert(-beta * 0 == 0) by (nonlinear_arith);
    } else {
        let i = count - 1;
        lemma_bias_energy(kinds, nodes, biases, scaled, beta, values, w, i as nat);
        reveal_with_fuel(crate::factor::instance_sign, 2);
        lemma_no_axes(kinds, i as nat);
        assert(instance_index(kinds, shape, i, values) == i);
        let sign = sign_of(values[nodes[i].0 as int]);
        let before = bias_sum(nodes, biases, values, w, i as nat);
        let bias = w(biases[i]);
        assert(instance_value(kinds, shape, scaled, values, w, i) == sign * w(scaled[i]));
        assert(-beta * before - sign * (beta * bias) == -beta * (before + bias * sign))
            by (nonlinear_arith);
    }
}

proof fn lemma_coupling_energy<W>(
    kinds: Seq<NodeKind>,
    edges: Seq<(Node, Node)>,
    weights: Seq<W>,
    scaled: Seq<W>,
    beta: int,
    values: Seq<u32>,
    w: spec_fn(W) -> int,
    count: nat,
)
    requires
        count <= edges.len(),
        forall|i: int| 0 <= i < count ==> w(#[trigger] scaled[i]) == beta * w(weights[i]),
    ensures
        factor_energy(
            kinds,
            (Shape { spins: seq![edge_starts(edges), edge_ends(edges)], cats: Seq::empty() }),
            scaled,
            values,
            w,
            count,
        ) == -beta * coupling_sum(edges, weights, values, w, count),
    decreases count,
{
    let shape = Shape {
        spins: seq![edge_starts(edges), edge_ends(edges)],
        cats: Seq::<Seq<Node>>::empty(),
    };
    if count == 0 {
        assert(-beta * 0 == 0) by (nonlinear_arith);
    } else {
        let i = count - 1;
        lemma_coupling_energy(kinds, edges, weights, scaled, beta, values, w, i as nat);
        reveal_with_fuel(crate::factor::instance_sign, 3);
        lemma_no_axes(kinds, i as nat);
        assert(instance_index(kinds, shape, i, values) == i);
        let a = sign_of(values[edges[i].0.0 as int]);
        let b = sign_of(values[edges[i].1.0 as int]);
        let before = coupling_sum(edges, weights, values, w, i as nat);
        let weight = w(weights[i]);
        assert(instance_value(kinds, shape, scaled, values, w, i) == (a * b) * w(scaled[i]));
        assert(-beta * before - (a * b) * (beta * weight) == -beta * (before + weight * a * b))
            by (nonlinear_arith);
    }
}

/// The energy of the compiled model is that of the Ising model,
/// `-beta * (sum_i b_i s_i + sum_(i,j) J_ij s_i s_j)`, for every
/// interpretation of the weights under which scaling multiplies.
pub proof fn ising_energy_formula<W>(
    kinds: Seq<NodeKind>,
    model: &IsingModel<W>,
    factors: Seq<DiscreteFactor<W>>,
    values: Seq<u32>,
    w: spec_fn(W) -> int,
)
    requires
        model.wf(),
        model.shaped(factors),
        forall|k: int, i: int|
            #![trigger factors[k].weights@[i]]
            0 <= k < factors.len() && 0 <= i < factors[k].weights@.len() ==> w(
                factors[k].weights@[i],
            ) == w(model.beta) * w(model.sources()[k][i]),
    ensures
        model_energy(kinds, factors, values, w, factors.len()) == -w(model.beta) * (bias_sum(
            model.nodes@,
            model.biases@,
            values,
            w,
            model.nodes@.len(),
        ) + coupling_sum(model.edges@, model.weights@, values, w, model.edges@.len())),
{
    reveal_with_fuel(model_energy, 3);
    let beta = w(model.beta);
    let biases = bias_sum(model.nodes@, model.biases@, values, w, model.nodes@.len());
    let couplings = coupling_sum(model.edges@, model.weights@, values, w, model.edges@.len());
    let has_biases = model.nodes@.len() > 0;
    if has_biases {
        assert(factors[0].shape() == model.shapes()[0]);
        lemma_bias_energy(
            kinds,
            model.nodes@,
            model.biases@,
            factors[0].weights@,
            beta,
            values,
            w,
            model.nodes@.len(),
        );
    }
    if model.edges@.len() > 0 {
        let k = if has_biases {
            1int
        } else {
            0int
        };
        assert(factors[k].shape() == model.shapes()[k]);
        lemma_coupling_energy(
            kinds,
            model.edges@,
            model.weights@,
            factors[k].weights@,
            beta,
            values,
            w,
            model.edges@.len(),
        );
    }
    assert(-beta * biases + -beta * couplings == -beta * (biases + couplings)) by (nonlinear_arith);
    assert(-beta * 0 == 0) by (nonlinear_arith);
}


} // verus!
