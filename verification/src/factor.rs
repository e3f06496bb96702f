//! Energy terms of a model.

use vstd::prelude::*;

use crate::graph::{copy_of, Block, Graph, Node, NodeKind};

verus! {

/// A batch of energy terms coupling spin and categorical variables.
///
/// Instance `i` of the batch contributes the energy
///
/// ```text
/// E_i(state) = -W_i[c_1, ..., c_N] * s_1 * ... * s_M
/// ```
///
/// where `s_m` is the value (interpreted as -1 or +1) of node
/// `spin_groups[m][i]`, and `c_n` is the value of node `cat_groups[n][i]`,
/// used to index into the weight tensor `W_i = weights[i, ...]`.
///
/// Biases (M=1, N=0), pairwise couplings (M=2, N=0), higher-order spin
/// products, categorical tables and mixed spin/categorical terms are all
/// special cases.
///
/// No node should appear twice within one instance of the factor,
/// otherwise Gibbs sampling does not target the Boltzmann distribution
/// of the resulting energy.
///
/// The weights are only ever copied, so any copyable number type does.
#[derive(Debug)]
pub struct DiscreteFactor<W> {
    /// Groups of spin nodes, each of the batch length.
    pub spin_groups: Vec<Block>,
    /// Groups of categorical nodes, each of the batch length.
    pub cat_groups: Vec<Block>,
    /// Weight tensor of shape `[batch, states(cat_1), ..., states(cat_N)]`,
    /// flattened in row-major order.
    pub weights: Vec<W>,
}

/// The node lists of a list of blocks.
pub open spec fn node_lists(blocks: Seq<Block>) -> Seq<Seq<Node>> {
    Seq::new(blocks.len(), |i: int| blocks[i]@)
}

/// The node structure of a factor.
#[verifier::ext_equal]
pub struct Shape {
    pub spins: Seq<Seq<Node>>,
    pub cats: Seq<Seq<Node>>,
}

impl Shape {
    /// Number of instances in the batch.
    pub open spec fn batch(self) -> nat {
        if self.spins.len() > 0 {
            self.spins[0].len()
        } else if self.cats.len() > 0 {
            self.cats[0].len()
        } else {
            0
        }
    }
}

/// Number of weights that the categorical axes from `from` on span.
pub open spec fn axis_product(kinds: Seq<NodeKind>, cats: Seq<Seq<Node>>, from: int) -> nat
    decreases cats.len() - from,
{
    if from < 0 || from >= cats.len() {
        1
    } else {
        kinds[cats[from][0].0 as int].count() as nat * axis_product(kinds, cats, from + 1)
    }
}

/// Offset into the weight tensor of instance `i` that the values of its first
/// `count` categorical nodes select, in row-major order.
pub open spec fn cat_offset(
    kinds: Seq<NodeKind>,
    cats: Seq<Seq<Node>>,
    i: int,
    values: Seq<u32>,
    count: nat,
) -> nat
    decreases count,
{
    if count == 0 {
        0
    } else {
        cat_offset(kinds, cats, i, values, (count - 1) as nat) + values[cats[count - 1][i].0 as int]
            as nat * axis_product(kinds, cats, count as int)
    }
}

/// Index of the weight of instance `i` that the values select.
pub open spec fn instance_index(
    kinds: Seq<NodeKind>,
    shape: Shape,
    i: int,
    values: Seq<u32>,
) -> nat {
    i as nat * axis_product(kinds, shape.cats, 0) + cat_offset(
        kinds,
        shape.cats,
        i,
        values,
        shape.cats.len(),
    )
}

/// The sign that a spin value contributes.
pub open spec fn sign_of(value: u32) -> int {
    if value != 0 {
        1
    } else {
        -1
    }
}

/// The product of the signs of the first `count` spin nodes of instance `i`.
pub open spec fn instance_sign(spins: Seq<Seq<Node>>, i: int, values: Seq<u32>, count: nat) -> int
    decreases count,
{
    if count == 0 {
        1
    } else {
        instance_sign(spins, i, values, (count - 1) as nat) * sign_of(
            values[spins[count - 1][i].0 as int],
        )
    }
}

/// A weight and the sign with which it counts.
#[derive(Debug)]
pub struct Term<W> {
    /// -1 or +1.
    pub sign: i32,
    pub weight: W,
}

impl<W: Copy> Clone for Term<W> {
    fn clone(&self) -> (r: Self)
        ensures
            r == *self,
    {
        Term { sign: self.sign, weight: self.weight }
    }
}

impl<W: Copy> Copy for Term<W> {

}

/// The term of instance `i`: the energy is minus the signed weight.
pub open spec fn instance_term<W>(
    kinds: Seq<NodeKind>,
    shape: Shape,
    weights: Seq<W>,
    values: Seq<u32>,
    i: int,
) -> Term<W> {
    Term {
        sign: instance_sign(shape.spins, i, values, shape.spins.len()) as i32,
        weight: weights[instance_index(kinds, shape, i, values) as int],
    }
}

/// The terms of all instances of a factor.
pub open spec fn energy_terms<W>(
    kinds: Seq<NodeKind>,
    shape: Shape,
    weights: Seq<W>,
    values: Seq<u32>,
) -> Seq<Term<W>> {
    Seq::new(shape.batch(), |i: int| instance_term(kinds, shape, weights, values, i))
}

/// Whether an axis of a weight tensor has a number of states, and it can be
/// indexed from there on.
pub open spec fn axis_defined(kinds: Seq<NodeKind>, cats: Seq<Seq<Node>>, c: int) -> bool {
    &&& cats[c].len() > 0
    &&& (cats[c][0].0 as int) < kinds.len()
    &&& kinds[cats[c][0].0 as int] is Categorical
    &&& axis_product(kinds, cats, c) <= usize::MAX
}

/// Whether all axes of a weight tensor are defined.
pub open spec fn axes_defined(kinds: Seq<NodeKind>, cats: Seq<Seq<Node>>) -> bool {
    forall|c: int| 0 <= c < cats.len() ==> #[trigger] axis_defined(kinds, cats, c)
}

/// Whether a group has a node for instance `i`, and the node a value.
pub open spec fn has_value(nodes: Seq<Node>, i: int, n_values: int) -> bool {
    i < nodes.len() && (nodes[i].0 as int) < n_values
}

/// Whether the energy of the factor is defined for the given values.
pub open spec fn energy_defined<W>(
    kinds: Seq<NodeKind>,
    shape: Shape,
    weights: Seq<W>,
    values: Seq<u32>,
) -> bool {
    &&& axes_defined(kinds, shape.cats)
    &&& forall|g: int, i: int|
        0 <= g < shape.spins.len() && 0 <= i < shape.batch() ==> #[trigger] has_value(
            shape.spins[g],
            i,
            values.len() as int,
        )
    &&& forall|g: int, i: int|
        0 <= g < shape.cats.len() && 0 <= i < shape.batch() ==> #[trigger] has_value(
            shape.cats[g],
            i,
            values.len() as int,
        )
    &&& forall|i: int|
        0 <= i < shape.batch() ==> #[trigger] instance_index(kinds, shape, i, values)
            < weights.len()
}

pub proof fn lemma_sign(spins: Seq<Seq<Node>>, i: int, values: Seq<u32>, count: nat)
    ensures
        instance_sign(spins, i, values, count) == 1 || instance_sign(spins, i, values, count) == -1,
    decreases count,
{
    if count > 0 {
        lemma_sign(spins, i, values, (count - 1) as nat);
        let s = instance_sign(spins, i, values, (count - 1) as nat);
        assert(s * 1 == s && s * -1 == -s);
    }
}

pub proof fn lemma_cat_offset_monotone(
    kinds: Seq<NodeKind>,
    cats: Seq<Seq<Node>>,
    i: int,
    values: Seq<u32>,
    a: nat,
    b: nat,
)
    requires
        a <= b,
    ensures
        cat_offset(kinds, cats, i, values, a) <= cat_offset(kinds, cats, i, values, b),
    decreases b,
{
    if a < b {
        lemma_cat_offset_monotone(kinds, cats, i, values, a, (b - 1) as nat);
    }
}

impl<W: Copy> Clone for DiscreteFactor<W> {
    fn clone(&self) -> (r: Self)
        ensures
            r.shape() == self.shape(),
            r.weights@ == self.weights@,
    {
        let r = DiscreteFactor {
            spin_groups: clone_blocks(&self.spin_groups),
            cat_groups: clone_blocks(&self.cat_groups),
            weights: copy_of(&self.weights),
        };
        assert(r.shape() =~= self.shape());
        r
    }
}

/// Clones of the blocks, in order.
pub(crate) fn clone_blocks(blocks: &[Block]) -> (r: Vec<Block>)
    ensures
        node_lists(r@) == node_lists(blocks@),
{
    let mut result: Vec<Block> = Vec::new();
    for i in 0..blocks.len()
        invariant
            result@.len() == i,
            forall|j: int| 0 <= j < i ==> (#[trigger] result@[j])@ == blocks@[j]@,
    {
        result.push(blocks[i].clone());
    }
    assert(node_lists(result@) =~= node_lists(blocks@));
    result
}

impl<W> DiscreteFactor<W> {
    /// The node structure of the factor.
    pub open spec fn shape(&self) -> Shape {
        Shape { spins: node_lists(self.spin_groups@), cats: node_lists(self.cat_groups@) }
    }

    /// A batch of bias terms: `E_i = -biases[i] * s_i`.
    pub fn bias<B: Into<Block>>(nodes: B, biases: Vec<W>) -> (r: Self)
        ensures
            r.spin_groups@.len() == 1,
            call_ensures(B::into, (nodes,), r.spin_groups@[0]),
            r.cat_groups@.len() == 0,
            r.weights == biases,
    {
        let block: Block = nodes.into();
        let mut spin_groups: Vec<Block> = Vec::new();
        spin_groups.push(block);
        DiscreteFactor { spin_groups, cat_groups: Vec::new(), weights: biases }
    }

    /// A batch of pairwise couplings: `E_i = -weights[i] * s_ai * s_bi`.
    pub fn coupling<A: Into<Block>, B: Into<Block>>(a: A, b: B, weights: Vec<W>) -> (r: Self)
        ensures
            r.spin_groups@.len() == 2,
            call_ensures(A::into, (a,), r.spin_groups@[0]),
            call_ensures(B::into, (b,), r.spin_groups@[1]),
            r.cat_groups@.len() == 0,
            r.weights == weights,
    {
        let mut spin_groups: Vec<Block> = Vec::new();
        spin_groups.push(a.into());
        spin_groups.push(b.into());
        DiscreteFactor { spin_groups, cat_groups: Vec::new(), weights }
    }

    /// A batch of categorical bias terms: `E_i = -weights[i, c_i]`.
    pub fn cat_bias<B: Into<Block>>(nodes: B, weights: Vec<W>) -> (r: Self)
        ensures
            r.spin_groups@.len() == 0,
            r.cat_groups@.len() == 1,
            call_ensures(B::into, (nodes,), r.cat_groups@[0]),
            r.weights == weights,
    {
        let mut cat_groups: Vec<Block> = Vec::new();
        cat_groups.push(nodes.into());
        DiscreteFactor { spin_groups: Vec::new(), cat_groups, weights }
    }

    /// A batch of pairwise categorical couplings: `E_i = -weights[i, c_ai, c_bi]`.
    pub fn cat_coupling<A: Into<Block>, B: Into<Block>>(a: A, b: B, weights: Vec<W>) -> (r: Self)
        ensures
            r.spin_groups@.len() == 0,
            r.cat_groups@.len() == 2,
            call_ensures(A::into, (a,), r.cat_groups@[0]),
            call_ensures(B::into, (b,), r.cat_groups@[1]),
            r.weights == weights,
    {
        let mut cat_groups: Vec<Block> = Vec::new();
        cat_groups.push(a.into());
        cat_groups.push(b.into());
        DiscreteFactor { spin_groups: Vec::new(), cat_groups, weights }
    }

    /// Number of instances in the batch.
    pub fn batch_len(&self) -> (r: usize)
        ensures
            r == self.shape().batch(),
    {
        if self.spin_groups.len() > 0 {
            assert(self.shape().spins[0] == self.spin_groups@[0]@);
            self.spin_groups[0].len()
        } else if self.cat_groups.len() > 0 {
            assert(self.shape().cats[0] == self.cat_groups@[0]@);
            self.cat_groups[0].len()
        } else {
            0
        }
    }
}

impl<W: Copy> DiscreteFactor<W> {
    /// The energy of this factor batch for the given dense per-node state,
    /// as one term per instance: the energy is minus the sum of the signed
    /// weights.
    ///
    /// `values` holds one value per graph node: 0/1 for spins,
    /// the category index for categorical nodes.
    pub fn energy(&self, graph: &Graph, values: &[u32]) -> (r: Vec<Term<W>>)
        requires
            energy_defined(graph@, self.shape(), self.weights@, values@),
        ensures
            r@ == energy_terms(graph@, self.shape(), self.weights@, values@),
    {
        let ghost shape = self.shape();
        let ghost cats = shape.cats;
        let n_cats: usize = self.cat_groups.len();
        // Row-major strides, innermost axis first.
        let mut reversed: Vec<usize> = Vec::new();
        let mut instance_stride: usize = 1;
        let mut done: usize = 0;
        while done < n_cats
            invariant
                energy_defined(graph@, shape, self.weights@, values@),
                shape == self.shape(),
                cats == shape.cats,
                n_cats == cats.len(),
                n_cats == self.cat_groups@.len(),
                done <= n_cats,
                reversed@.len() == done,
                instance_stride == axis_product(graph@, cats, n_cats - done),
                forall|j: int|
                    0 <= j < done ==> #[trigger] reversed@[j] == axis_product(
                        graph@,
                        cats,
                        n_cats - j,
                    ),
            decreases n_cats - done,
        {
            let c: usize = n_cats - 1 - done;
            assert(cats[c as int] == self.cat_groups@[c as int]@);
            assert(axis_defined(graph@, cats, c as int));
            reversed.push(instance_stride);
            let states: u32 = graph.node_kind(self.cat_groups[c].nodes[0]).state_count();
            assert(axis_product(graph@, cats, c as int) <= usize::MAX);
            assert(states as nat * instance_stride as nat == axis_product(graph@, cats, c as int));
            instance_stride = states as usize * instance_stride;
            done = done + 1;
        }
        let mut terms: Vec<Term<W>> = Vec::new();
        let batch: usize = self.batch_len();
        for i in 0..batch
            invariant
                energy_defined(graph@, shape, self.weights@, values@),
                shape == self.shape(),
                cats == shape.cats,
                n_cats == cats.len(),
                n_cats == self.cat_groups@.len(),
                batch == shape.batch(),
                reversed@.len() == n_cats,
                instance_stride == axis_product(graph@, cats, 0),
                forall|j: int|
                    0 <= j < n_cats ==> #[trigger] reversed@[j] == axis_product(
                        graph@,
                        cats,
                        n_cats - j,
                    ),
                terms@ =~= energy_terms(graph@, shape, self.weights@, values@).take(i as int),
        {
            let mut sign: i32 = 1;
            for g in 0..self.spin_groups.len()
                invariant
                    energy_defined(graph@, shape, self.weights@, values@),
                    shape == self.shape(),
                    0 <= i < shape.batch(),
                    sign == 1 || sign == -1,
                    sign == instance_sign(shape.spins, i as int, values@, g as nat),
            {
                let block = &self.spin_groups[g];
                assert(shape.spins[g as int] == block@);
                assert(has_value(shape.spins[g as int], i as int, values@.len() as int));
                let value: u32 = values[block.nodes[i].index()];
                assert(sign * 1 == sign && sign * -1 == -sign);
                if value == 0 {
                    sign = -sign;
                }
            }
            assert(instance_index(graph@, shape, i as int, values@) < self.weights.len());
            assert(i * instance_stride >= 0) by (nonlinear_arith)
                requires
                    i >= 0,
                    instance_stride >= 0,
            ;
            let mut index: usize = i * instance_stride;
            for c in 0..n_cats
                invariant
                    energy_defined(graph@, shape, self.weights@, values@),
                    shape == self.shape(),
                    cats == shape.cats,
                    n_cats == cats.len(),
                    n_cats == self.cat_groups@.len(),
                    0 <= i < shape.batch(),
                    reversed@.len() == n_cats,
                    instance_stride == axis_product(graph@, cats, 0),
                    instance_index(graph@, shape, i as int, values@) < self.weights.len(),
                    forall|j: int|
                        0 <= j < n_cats ==> #[trigger] reversed@[j] == axis_product(
                            graph@,
                            cats,
                            n_cats - j,
                        ),
                    index == i * instance_stride + cat_offset(
                        graph@,
                        cats,
                        i as int,
                        values@,
                        c as nat,
                    ),
            {
                let block = &self.cat_groups[c];
                assert(cats[c as int] == block@);
                assert(has_value(cats[c as int], i as int, values@.len() as int));
                let value: u32 = values[block.nodes[i].index()];
                let stride: usize = reversed[n_cats - 1 - c];
                assert(stride == axis_product(graph@, cats, c + 1));
                proof {
                    lemma_cat_offset_monotone(
                        graph@,
                        cats,
                        i as int,
                        values@,
                        (c + 1) as nat,
                        cats.len(),
                    );
                }
                assert(value as nat * stride as nat >= 0) by (nonlinear_arith);
                assert(i as nat * instance_stride as nat >= 0) by (nonlinear_arith);
                index = index + value as usize * stride;
            }
            terms.push(Term { sign, weight: self.weights[index] });
        }
        terms
    }
}

impl<W> DiscreteFactor<W> {
    /// The strides of the categorical axes, and of one instance, if every
    /// axis has a number of states and they fit.
    fn strides(&self, graph: &Graph) -> (r: Option<(Vec<usize>, usize)>)
        ensures
            ({
                let cats = self.shape().cats;
                match r {
                    Some((strides, instance)) => {
                        &&& axes_defined(graph@, cats)
                        &&& strides@.len() == cats.len()
                        &&& forall|c: int|
                            0 <= c < cats.len() ==> #[trigger] strides@[cats.len() - 1 - c]
                                == axis_product(graph@, cats, c + 1)
                        &&& instance == axis_product(graph@, cats, 0)
                    },
                    None => !axes_defined(graph@, cats),
                }
            }),
    {
        let ghost cats = self.shape().cats;
        let n_cats: usize = self.cat_groups.len();
        let mut reversed: Vec<usize> = Vec::new();
        let mut stride: usize = 1;
        let mut done: usize = 0;
        while done < n_cats
            invariant
                cats == self.shape().cats,
                n_cats == cats.len(),
                n_cats == self.cat_groups@.len(),
                done <= n_cats,
                reversed@.len() == done,
                stride == axis_product(graph@, cats, n_cats - done),
                forall|j: int|
                    0 <= j < done ==> #[trigger] reversed@[j] == axis_product(
                        graph@,
                        cats,
                        n_cats - j,
                    ),
                forall|c: int|
                    n_cats - done <= c < n_cats ==> #[trigger] axis_defined(graph@, cats, c),
            decreases n_cats - done,
        {
            let c: usize = n_cats - 1 - done;
            let block = &self.cat_groups[c];
            assert(cats[c as int] == block@);
            if block.is_empty() || block.nodes[0].index() >= graph.node_count() {
                assert(!axis_defined(graph@, cats, c as int));
                return None;
            }
            let states: u32 = match graph.node_kind(block.nodes[0]) {
                NodeKind::Spin => {
                    assert(!axis_defined(graph@, cats, c as int));
                    return None;
                },
                NodeKind::Categorical { states } => states,
            };
            reversed.push(stride);
            assert(states as nat * stride as nat == axis_product(graph@, cats, c as int));
            match (states as usize).checked_mul(stride) {
                Some(product) => {
                    stride = product;
                },
                None => {
                    assert(!axis_defined(graph@, cats, c as int));
                    return None;
                },
            }
            assert(axis_defined(graph@, cats, c as int));
            done = done + 1;
        }
        assert forall|c: int| 0 <= c < cats.len() implies #[trigger] reversed@[cats.len() - 1 - c]
            == axis_product(graph@, cats, c + 1) by {
            let j = cats.len() - 1 - c;
            assert(reversed@[j] == axis_product(graph@, cats, n_cats - j));
        }
        Some((reversed, stride))
    }

    /// Whether the energy of the factor is defined for the given values.
    pub fn has_energy(&self, graph: &Graph, values: &[u32]) -> (r: bool)
        ensures
            r == energy_defined(graph@, self.shape(), self.weights@, values@),
    {
        let ghost shape = self.shape();
        let (strides, instance) = match self.strides(graph) {
            Some(strides) => strides,
            None => {
                return false;
            },
        };
        let batch: usize = self.batch_len();
        for i in 0..batch
            invariant
                shape == self.shape(),
                batch == shape.batch(),
                axes_defined(graph@, shape.cats),
                strides@.len() == shape.cats.len(),
                forall|c: int|
                    0 <= c < shape.cats.len() ==> #[trigger] strides@[shape.cats.len() - 1 - c]
                        == axis_product(graph@, shape.cats, c + 1),
                instance == axis_product(graph@, shape.cats, 0),
                forall|g: int, j: int|
                    0 <= g < shape.spins.len() && 0 <= j < i ==> #[trigger] has_value(
                        shape.spins[g],
                        j,
                        values@.len() as int,
                    ),
                forall|g: int, j: int|
                    0 <= g < shape.cats.len() && 0 <= j < i ==> #[trigger] has_value(
                        shape.cats[g],
                        j,
                        values@.len() as int,
                    ),
                forall|j: int|
                    0 <= j < i ==> #[trigger] instance_index(graph@, shape, j, values@)
                        < self.weights@.len(),
        {
            if !reaches(self.spin_groups.as_slice(), i, values.len()) {
                proof {
                    let g = choose|g: int|
                        0 <= g < shape.spins.len() && !has_value(
                            #[trigger] shape.spins[g],
                            i as int,
                            values@.len() as int,
                        );
                    assert(!has_value(shape.spins[g], i as int, values@.len() as int));
                }
                return false;
            }
            if !reaches(self.cat_groups.as_slice(), i, values.len()) {
                proof {
                    let g = choose|g: int|
                        0 <= g < shape.cats.len() && !has_value(
                            #[trigger] shape.cats[g],
                            i as int,
                            values@.len() as int,
                        );
                    assert(!has_value(shape.cats[g], i as int, values@.len() as int));
                }
                return false;
            }
            assert(forall|g: int|
                0 <= g < shape.spins.len() ==> has_value(
                    #[trigger] shape.spins[g],
                    i as int,
                    values@.len() as int,
                ));
            assert(forall|g: int|
                0 <= g < shape.cats.len() ==> has_value(
                    #[trigger] shape.cats[g],
                    i as int,
                    values@.len() as int,
                ));
            match self.index_of(&strides, instance, i, values, Ghost(graph@)) {
                Some(index) => {
                    if index >= self.weights.len() {
                        assert(instance_index(graph@, shape, i as int, values@)
                            >= self.weights@.len());
                        return false;
                    }
                },
                None => {
                    assert(instance_index(graph@, shape, i as int, values@)
                        >= self.weights.len());
                    return false;
                },
            }
        }
        true
    }

    /// The index of the weight that the values select for an instance, if it fits.
    fn index_of(
        &self,
        strides: &Vec<usize>,
        instance: usize,
        i: usize,
        values: &[u32],
        Ghost(kinds): Ghost<Seq<NodeKind>>,
    ) -> (r: Option<usize>)
        requires
            strides@.len() == self.shape().cats.len(),
            forall|c: int|
                0 <= c < strides@.len() ==> #[trigger] strides@[strides@.len() - 1 - c]
                    == axis_product(kinds, self.shape().cats, c + 1),
            instance == axis_product(kinds, self.shape().cats, 0),
            forall|g: int|
                0 <= g < self.shape().cats.len() ==> i < (#[trigger] self.shape().cats[g]).len() && (
                self.shape().cats[g][i as int].0 as int) < values@.len(),
        ensures
            match r {
                Some(index) => index == instance_index(kinds, self.shape(), i as int, values@),
                None => instance_index(kinds, self.shape(), i as int, values@) > usize::MAX,
            },
    {
        let ghost cats = self.shape().cats;
        let n_cats: usize = self.cat_groups.len();
        let mut index: usize = match i.checked_mul(instance) {
            Some(index) => index,
            None => {
                assert(cat_offset(kinds, cats, i as int, values@, cats.len()) >= 0);
                return None;
            },
        };
        assert(index == i as nat * instance as nat);
        for c in 0..n_cats
            invariant
                cats == self.shape().cats,
                n_cats == cats.len(),
                n_cats == self.cat_groups@.len(),
                strides@.len() == n_cats,
                forall|d: int|
                    0 <= d < strides@.len() ==> #[trigger] strides@[strides@.len() - 1 - d]
                        == axis_product(kinds, cats, d + 1),
                instance == axis_product(kinds, cats, 0),
                forall|g: int|
                    0 <= g < cats.len() ==> i < (#[trigger] cats[g]).len() && (
                    cats[g][i as int].0 as int) < values@.len(),
                index == i as nat * instance as nat + cat_offset(
                    kinds,
                    cats,
                    i as int,
                    values@,
                    c as nat,
                ),
        {
            let block = &self.cat_groups[c];
            assert(cats[c as int] == block@);
            let value: u32 = values[block.nodes[i].index()];
            let stride: usize = strides[n_cats - 1 - c];
            assert(strides@[strides@.len() - 1 - c] == axis_product(kinds, cats, c + 1));
            proof {
                lemma_cat_offset_monotone(
                    kinds,
                    cats,
                    i as int,
                    values@,
                    (c + 1) as nat,
                    cats.len(),
                );
            }
            let ghost step = value as nat * stride as nat;
            assert(cat_offset(kinds, cats, i as int, values@, (c + 1) as nat) == cat_offset(
                kinds,
                cats,
                i as int,
                values@,
                c as nat,
            ) + step);
            match (value as usize).checked_mul(stride) {
                Some(offset) => match index.checked_add(offset) {
                    Some(sum) => {
                        index = sum;
                    },
                    None => {
                        return None;
                    },
                },
                None => {
                    return None;
                },
            }
        }
        Some(index)
    }
}

/// Whether every group has a node for instance `i`, and the node a value.
fn reaches(groups: &[Block], i: usize, n_values: usize) -> (r: bool)
    ensures
        r == forall|g: int|
            0 <= g < groups@.len() ==> has_value(
                #[trigger] node_lists(groups@)[g],
                i as int,
                n_values as int,
            ),
{
    let ghost lists = node_lists(groups@);
    for g in 0..groups.len()
        invariant
            lists == node_lists(groups@),
            forall|h: int|
                0 <= h < g ==> has_value(#[trigger] lists[h], i as int, n_values as int),
    {
        let block = &groups[g];
        assert(lists[g as int] == block@);
        if i >= block.len() || block.nodes[i].index() >= n_values {
            assert(!has_value(lists[g as int], i as int, n_values as int));
            return false;
        }
    }
    true
}

/// The energy of a model given by a list of factors, as the terms of each factor.
pub fn total_energy<W: Copy>(
    factors: &[DiscreteFactor<W>],
    graph: &Graph,
    values: &[u32],
) -> (r: Vec<Vec<Term<W>>>)
    requires
        forall|k: int|
            0 <= k < factors@.len() ==> energy_defined(
                graph@,
                (#[trigger] factors@[k]).shape(),
                factors@[k].weights@,
                values@,
            ),
    ensures
        r@.len() == factors@.len(),
        forall|k: int|
            0 <= k < factors@.len() ==> (#[trigger] r@[k])@ == energy_terms(
                graph@,
                factors@[k].shape(),
                factors@[k].weights@,
                values@,
            ),
{
    let mut terms: Vec<Vec<Term<W>>> = Vec::new();
    for k in 0..factors.len()
        invariant
            forall|j: int|
                0 <= j < factors@.len() ==> energy_defined(
                    graph@,
                    (#[trigger] factors@[j]).shape(),
                    factors@[j].weights@,
                    values@,
                ),
            terms@.len() == k,
            forall|j: int|
                0 <= j < k ==> (#[trigger] terms@[j])@ == energy_terms(
                    graph@,
                    factors@[j].shape(),
                    factors@[j].weights@,
                    values@,
                ),
    {
        terms.push(factors[k].energy(graph, values));
    }
    terms
}

/// The groups of a factor are its blocks, in order, and what the number of
/// instances goes by is the first of them.
pub proof fn shapes_list_the_groups<W>(factor: &DiscreteFactor<W>)
    ensures
        factor.shape().spins.len() == factor.spin_groups@.len(),
        factor.shape().cats.len() == factor.cat_groups@.len(),
        forall|g: int|
            #![trigger factor.spin_groups@[g]]
            0 <= g < factor.spin_groups@.len() ==> factor.shape().spins[g]
                == factor.spin_groups@[g].nodes@,
        forall|g: int|
            #![trigger factor.cat_groups@[g]]
            0 <= g < factor.cat_groups@.len() ==> factor.shape().cats[g]
                == factor.cat_groups@[g].nodes@,
        factor.spin_groups@.len() > 0 ==> factor.shape().batch()
            == factor.spin_groups@[0].nodes@.len(),
        factor.spin_groups@.len() == 0 && factor.cat_groups@.len() > 0 ==> factor.shape().batch()
            == factor.cat_groups@[0].nodes@.len(),
{
}

} // verus!
