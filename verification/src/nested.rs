//! States and samples as nested lists, one entry per block.

use std::collections::HashMap;

use vstd::prelude::*;

use crate::bindings::{
    id_index, lists_view, lookup_lists, map_has_lists, map_lists, variable_lists, BindingError,
    IsingEBM, IsingSamplingProgram, Variable,
};
use crate::graph::Node;
use crate::models::{shorter, zero_chain};
use crate::rng::{below, pcg4d_hash, spin_from_draw, uniform, uniform_draw, STEP_HINTON_INIT};
use crate::samples::Samples;
use crate::state::{assigned, lemma_slot, the_last_value_written_stays, State};

verus! {

/// Per-block state values: either one value per node, or a batch
/// of per-node values (one row per chain).
#[derive(Debug)]
pub enum BlockValues {
    Flat(Vec<u32>),
    Batched(Vec<Vec<u32>>),
}

impl BlockValues {
    /// Number of rows of a batch; `None` means unbatched.
    pub open spec fn batch(&self) -> Option<nat> {
        match self {
            BlockValues::Flat(_) => None,
            BlockValues::Batched(rows) => Some(rows@.len()),
        }
    }

    /// The values of a chain: unbatched values are those of every chain.
    pub open spec fn row(&self, chain: int) -> Seq<u32> {
        match self {
            BlockValues::Flat(row) => row@,
            BlockValues::Batched(rows) => rows@[chain]@,
        }
    }
}

/// Whether all batches among the values have this many rows.
pub open spec fn agree(values: Seq<BlockValues>, count: nat) -> bool {
    forall|b: int|
        0 <= b < values.len() && (#[trigger] values[b]).batch() is Some ==> values[b].batch()
            == Some(count)
}

/// Whether there is a batch among the values.
pub open spec fn any_batch(values: Seq<BlockValues>) -> bool {
    exists|b: int| 0 <= b < values.len() && (#[trigger] values[b]).batch() is Some
}

/// Whether the rows of every batch can be counted in one word.
pub open spec fn countable_rows(values: Seq<BlockValues>) -> bool {
    forall|b: int|
        0 <= b < values.len() && (#[trigger] values[b]).batch() is Some
            ==> values[b].batch().unwrap() <= u32::MAX
}

/// Infer the chain count from state values; `None` means unbatched.
pub fn infer_chains(state: &[BlockValues]) -> (r: Result<Option<u32>, BindingError>)
    requires
        countable_rows(state@),
    ensures
        match r {
            Ok(None) => !any_batch(state@),
            Ok(Some(count)) => any_batch(state@) && agree(state@, count as nat),
            Err(error) => error == BindingError::BatchSizes && forall|count: nat|
                !#[trigger] agree(state@, count),
        },
{
    let mut n_chains: Option<u32> = None;
    for b in 0..state.len()
        invariant
            countable_rows(state@),
            match n_chains {
                None => forall|c: int| 0 <= c < b ==> (#[trigger] state@[c]).batch() is None,
                Some(count) => {
                    &&& exists|c: int| 0 <= c < b && (#[trigger] state@[c]).batch() == Some(count as nat)
                    &&& forall|c: int|
                        0 <= c < b && (#[trigger] state@[c]).batch() is Some ==> state@[c].batch()
                            == Some(count as nat)
                },
            },
    {
        match &state[b] {
            BlockValues::Flat(_) => {},
            BlockValues::Batched(rows) => {
                assert(state@[b as int].batch() == Some(rows@.len()));
                let count: u32 = rows.len() as u32;
                match n_chains {
                    Some(previous) => {
                        if previous != count {
                            proof {
                                let c = choose|c: int|
                                    0 <= c < b && (#[trigger] state@[c]).batch() == Some(
                                        previous as nat,
                                    );
                                assert forall|n: nat| !#[trigger] agree(state@, n) by {
                                    if agree(state@, n) {
                                        assert(state@[c].batch() == Some(n));
                                        assert(state@[b as int].batch() == Some(n));
                                    }
                                }
                            }
                            return Err(BindingError::BatchSizes);
                        }
                    },
                    None => {},
                }
                n_chains = Some(count);
            },
        }
    }
    Ok(n_chains)
}

/// Whether there is a row of the right length for every chain.
pub open spec fn fills(values: &BlockValues, len: nat, n_chains: nat) -> bool {
    &&& values.batch() is Some ==> values.batch() == Some(n_chains)
    &&& forall|c: int| 0 <= c < n_chains ==> (#[trigger] values.row(c)).len() == len
}

/// Whether the values of a block were assigned up to the first chain whose row
/// is not of the right length, and the chains from there on are unchanged.
pub open spec fn stopped_at_short_row(
    before: State,
    after: State,
    nodes: Seq<Node>,
    values: &BlockValues,
) -> bool {
    exists|k: int|
        {
            &&& 0 <= k < before.n_chains
            &&& (#[trigger] values.row(k)).len() != nodes.len()
            &&& forall|c: int| 0 <= c < k ==> (#[trigger] values.row(c)).len() == nodes.len()
            &&& forall|c: int|
                0 <= c < before.n_chains ==> #[trigger] after.chain(c) == if c < k {
                    assigned(before.chain(c), nodes, values.row(c), nodes.len())
                } else {
                    before.chain(c)
                }
        }
}

/// Assign the values of a block, chain by chain.
pub fn write_values(
    state: &mut State,
    nodes: &[Node],
    values: &BlockValues,
    n_chains: u32,
) -> (r: Result<(), BindingError>)
    requires
        old(state).wf(),
        old(state).n_chains == n_chains,
        n_chains > 0 ==> forall|p: int|
            0 <= p < nodes@.len() ==> (#[trigger] nodes@[p]).0 < old(state).n_nodes,
    ensures
        final(state).wf(),
        final(state).n_chains == old(state).n_chains,
        final(state).n_nodes == old(state).n_nodes,
        match r {
            Ok(()) => {
                &&& fills(values, nodes@.len(), n_chains as nat)
                &&& forall|c: int|
                    0 <= c < n_chains ==> #[trigger] final(state).chain(c) == assigned(
                        old(state).chain(c),
                        nodes@,
                        values.row(c),
                        nodes@.len(),
                    )
            },
            Err(error) => {
                &&& !fills(values, nodes@.len(), n_chains as nat)
                &&& error == if values.batch() is Some && values.batch() != Some(n_chains as nat) {
                    BindingError::BatchSizes
                } else {
                    BindingError::StateLength
                }
                &&& if error == BindingError::BatchSizes {
                    forall|c: int|
                        0 <= c < n_chains ==> #[trigger] final(state).chain(c) == old(state).chain(c)
                } else {
                    stopped_at_short_row(*old(state), *final(state), nodes@, values)
                }
            },
        },
{
    match values {
        BlockValues::Flat(_) => {},
        BlockValues::Batched(rows) => {
            if rows.len() != n_chains as usize {
                return Err(BindingError::BatchSizes);
            }
        },
    }
    for chain in 0..n_chains
        invariant
            state.wf(),
            state.n_chains == n_chains,
            n_chains == old(state).n_chains,
            state.n_nodes == old(state).n_nodes,
            values.batch() is Some ==> values.batch() == Some(n_chains as nat),
            n_chains > 0 ==> forall|p: int|
                0 <= p < nodes@.len() ==> (#[trigger] nodes@[p]).0 < old(state).n_nodes,
            forall|c: int| 0 <= c < chain ==> (#[trigger] values.row(c)).len() == nodes@.len(),
            forall|c: int|
                0 <= c < n_chains ==> #[trigger] state.chain(c) == if c < chain {
                    assigned(old(state).chain(c), nodes@, values.row(c), nodes@.len())
                } else {
                    old(state).chain(c)
                },
    {
        let row: &Vec<u32> = match values {
            BlockValues::Flat(row) => row,
            BlockValues::Batched(rows) => &rows[chain as usize],
        };
        assert(row@ == values.row(chain as int));
        if row.len() != nodes.len() {
            return Err(BindingError::StateLength);
        }
        for p in 0..nodes.len()
            invariant
                state.wf(),
                state.n_chains == n_chains,
                chain < n_chains,
                n_chains == old(state).n_chains,
                state.n_nodes == old(state).n_nodes,
                row@ == values.row(chain as int),
                row@.len() == nodes@.len(),
                forall|q: int|
                    0 <= q < nodes@.len() ==> (#[trigger] nodes@[q]).0 < old(state).n_nodes,
                forall|c: int|
                    0 <= c < n_chains ==> #[trigger] state.chain(c) == if c < chain {
                        assigned(old(state).chain(c), nodes@, values.row(c), nodes@.len())
                    } else if c == chain {
                        assigned(old(state).chain(c), nodes@, row@, p as nat)
                    } else {
                        old(state).chain(c)
                    },
        {
            let node: Node = nodes[p];
            assert(nodes@[p as int].0 < state.n_nodes);
            proof {
                lemma_slot(state.n_nodes as int, n_chains as int, chain as int, node.0 as int);
            }
            state.set(chain, node, row[p]);
        }
    }
    Ok(())
}

/// A chain after assigning the values of the first `n` blocks to their nodes, in order.
pub open spec fn filled(
    chain: Seq<u32>,
    lists: Seq<Seq<Node>>,
    values: Seq<BlockValues>,
    c: int,
    n: nat,
) -> Seq<u32>
    decreases n,
{
    if n == 0 {
        chain
    } else {
        assigned(
            filled(chain, lists, values, c, (n - 1) as nat),
            lists[n - 1],
            values[n - 1].row(c),
            lists[n - 1].len(),
        )
    }
}

/// Whether there is a row of the right length for every block and chain.
pub open spec fn fills_all(
    lists: Seq<Seq<Node>>,
    values: Seq<BlockValues>,
    n_chains: nat,
) -> bool {
    forall|b: int|
        0 <= b < lists.len() ==> fills(#[trigger] &values[b], lists[b].len(), n_chains)
}

/// Assign the values of all blocks.
fn write_blocks(
    state: &mut State,
    lists: &[Vec<Node>],
    values: &[BlockValues],
    n_chains: u32,
) -> (r: Result<(), BindingError>)
    requires
        old(state).wf(),
        old(state).n_chains == n_chains,
        lists@.len() == values@.len(),
        agree(values@, n_chains as nat),
        forall|b: int, p: int|
            #![trigger lists_view(lists@)[b][p]]
            0 <= b < lists@.len() && 0 <= p < lists_view(lists@)[b].len() ==> lists_view(
                lists@,
            )[b][p].0 < old(state).n_nodes,
    ensures
        final(state).wf(),
        final(state).n_chains == old(state).n_chains,
        final(state).n_nodes == old(state).n_nodes,
        match r {
            Ok(()) => {
                &&& fills_all(lists_view(lists@), values@, n_chains as nat)
                &&& forall|c: int|
                    0 <= c < n_chains ==> #[trigger] final(state).chain(c) == filled(
                        old(state).chain(c),
                        lists_view(lists@),
                        values@,
                        c,
                        lists@.len(),
                    )
            },
            Err(error) => {
                &&& !fills_all(lists_view(lists@), values@, n_chains as nat)
                &&& error == BindingError::StateLength
            },
        },
{
    let ghost views = lists_view(lists@);
    for b in 0..lists.len()
        invariant
            views == lists_view(lists@),
            lists@.len() == values@.len(),
            agree(values@, n_chains as nat),
            state.wf(),
            state.n_chains == n_chains,
            n_chains == old(state).n_chains,
            state.n_nodes == old(state).n_nodes,
            forall|c: int, p: int|
                #![trigger views[c][p]]
                0 <= c < views.len() && 0 <= p < views[c].len() ==> views[c][p].0
                    < old(state).n_nodes,
            forall|c: int|
                0 <= c < b ==> fills(#[trigger] &values@[c], views[c].len(), n_chains as nat),
            forall|c: int|
                0 <= c < n_chains ==> #[trigger] state.chain(c) == filled(
                    old(state).chain(c),
                    views,
                    values@,
                    c,
                    b as nat,
                ),
    {
        assert(views[b as int] == lists@[b as int]@);
        assert(values@[b as int].batch() is Some ==> values@[b as int].batch() == Some(
            n_chains as nat,
        ));
        assert forall|p: int| 0 <= p < lists@[b as int]@.len() implies (
        #[trigger] lists@[b as int]@[p]).0 < state.n_nodes by {
            assert(views[b as int][p] == lists@[b as int]@[p]);
        }
        match write_values(state, lists[b].as_slice(), &values[b], n_chains) {
            Ok(()) => {},
            Err(error) => {
                return Err(error);
            },
        }
    }
    Ok(())
}

/// The number of chains of a run, from the values of its blocks.
pub open spec fn run_chains(batched: Option<u32>) -> u32 {
    match batched {
        Some(count) => count,
        None => 1,
    }
}

/// The initial state of a run, and its number of chains where values are batched.
pub fn initial_state<W: Copy>(
    program: &IsingSamplingProgram<W>,
    init_state: &[BlockValues],
    clamped_data: &[BlockValues],
) -> (r: Result<(State, Option<u32>), BindingError>)
    requires
        program.wf(),
        countable_rows(init_state@),
        countable_rows(clamped_data@),
        forall|b: int|
            0 <= b < init_state@.len() && (#[trigger] init_state@[b]).batch() is Some
                ==> program.program.node_kinds@.len() * init_state@[b].batch().unwrap()
                <= usize::MAX,
        forall|b: int|
            0 <= b < clamped_data@.len() && (#[trigger] clamped_data@[b]).batch() is Some
                ==> program.program.node_kinds@.len() * clamped_data@[b].batch().unwrap()
                <= usize::MAX,
    ensures
        ({
            let free = lists_view(program.free_blocks@);
            let clamped = lists_view(program.clamped_blocks@);
            let all = init_state@ + clamped_data@;
            match r {
                Ok((state, batched)) => {
                    &&& init_state@.len() == free.len()
                    &&& clamped_data@.len() == clamped.len()
                    &&& agree(all, run_chains(batched) as nat)
                    &&& batched is Some <==> any_batch(all)
                    &&& fills_all(free, init_state@, run_chains(batched) as nat)
                    &&& fills_all(clamped, clamped_data@, run_chains(batched) as nat)
                    &&& state.wf()
                    &&& state.n_chains == run_chains(batched)
                    &&& state.n_nodes == program.program.node_kinds@.len()
                    &&& forall|c: int|
                        0 <= c < state.n_chains ==> #[trigger] state.chain(c) == filled(
                            filled(
                                zero_chain(program.program.node_kinds@.len()),
                                free,
                                init_state@,
                                c,
                                free.len(),
                            ),
                            clamped,
                            clamped_data@,
                            c,
                            clamped.len(),
                        )
                },
                Err(BindingError::InitStates) => init_state@.len() != free.len(),
                Err(BindingError::ClampedData) => init_state@.len() == free.len()
                    && clamped_data@.len() != clamped.len(),
                Err(BindingError::BatchSizes) => {
                    &&& init_state@.len() == free.len()
                    &&& clamped_data@.len() == clamped.len()
                    &&& forall|count: nat| !#[trigger] agree(all, count)
                },
                Err(BindingError::StateLength) => {
                    &&& init_state@.len() == free.len()
                    &&& clamped_data@.len() == clamped.len()
                    &&& exists|count: u32|
                        #![trigger agree(all, count as nat)]
                        {
                            &&& agree(all, count as nat)
                            &&& any_batch(all) || count == 1
                            &&& !(fills_all(free, init_state@, count as nat) && fills_all(
                                clamped,
                                clamped_data@,
                                count as nat,
                            ))
                        }
                },
                Err(_) => false,
            }
        }),
{
    let ghost free = lists_view(program.free_blocks@);
    let ghost clamped = lists_view(program.clamped_blocks@);
    let ghost all = init_state@ + clamped_data@;
    if init_state.len() != program.free_blocks.len() {
        return Err(BindingError::InitStates);
    }
    if clamped_data.len() != program.clamped_blocks.len() {
        return Err(BindingError::ClampedData);
    }
    proof {
        lemma_agree_parts(init_state@, clamped_data@);
    }
    let a = match infer_chains(init_state) {
        Ok(count) => count,
        Err(error) => {
            return Err(error);
        },
    };
    let b = match infer_chains(clamped_data) {
        Ok(count) => count,
        Err(error) => {
            return Err(error);
        },
    };
    let batched: Option<u32> = match (a, b) {
        (Some(x), Some(y)) => {
            if x != y {
                proof {
                    lemma_disagree(init_state@, clamped_data@, x as nat, y as nat);
                }
                return Err(BindingError::BatchSizes);
            }
            Some(x)
        },
        (Some(x), None) => Some(x),
        (None, Some(y)) => Some(y),
        (None, None) => None,
    };
    let n_chains: u32 = match batched {
        Some(count) => count,
        None => 1,
    };
    assert(agree(init_state@, n_chains as nat));
    assert(agree(clamped_data@, n_chains as nat));
    assert(agree(all, n_chains as nat));
    assert(program.program.node_kinds@.len() * n_chains <= usize::MAX) by {
        if any_batch(init_state@) {
            let c = choose|c: int|
                0 <= c < init_state@.len() && (#[trigger] init_state@[c]).batch() is Some;
            assert(init_state@[c].batch() == Some(n_chains as nat));
        } else if any_batch(clamped_data@) {
            let c = choose|c: int|
                0 <= c < clamped_data@.len() && (#[trigger] clamped_data@[c]).batch() is Some;
            assert(clamped_data@[c].batch() == Some(n_chains as nat));
        } else {
            assert(program.program.node_kinds.len() <= usize::MAX);
        }
    }
    let mut state = State::zeros(&program.program, n_chains);
    let ghost zero = zero_chain(program.program.node_kinds@.len());
    assert forall|c: int| 0 <= c < n_chains implies #[trigger] state.chain(c) == zero by {
        assert(state.chain(c) =~= zero);
    }
    match write_blocks(&mut state, program.free_blocks.as_slice(), init_state, n_chains) {
        Ok(()) => {},
        Err(error) => {
            return Err(error);
        },
    }
    match write_blocks(&mut state, program.clamped_blocks.as_slice(), clamped_data, n_chains) {
        Ok(()) => {},
        Err(error) => {
            return Err(error);
        },
    }
    Ok((state, batched))
}

/// All values agree on a number of rows when both parts do.
proof fn lemma_agree_parts(a: Seq<BlockValues>, b: Seq<BlockValues>)
    ensures
        forall|n: nat| #[trigger] agree(a + b, n) <==> agree(a, n) && agree(b, n),
        any_batch(a + b) <==> any_batch(a) || any_batch(b),
{
    let all = a + b;
    assert forall|n: nat| #[trigger] agree(all, n) <==> agree(a, n) && agree(b, n) by {
        if agree(all, n) {
            assert forall|i: int|
                0 <= i < a.len() && (#[trigger] a[i]).batch() is Some implies a[i].batch() == Some(
                n,
            ) by {
                assert(all[i] == a[i]);
            }
            assert forall|i: int|
                0 <= i < b.len() && (#[trigger] b[i]).batch() is Some implies b[i].batch() == Some(
                n,
            ) by {
                assert(all[a.len() + i] == b[i]);
            }
        }
        if agree(a, n) && agree(b, n) {
            assert forall|i: int|
                0 <= i < all.len() && (#[trigger] all[i]).batch() is Some implies all[i].batch()
                == Some(n) by {
                if i < a.len() {
                    assert(all[i] == a[i]);
                } else {
                    assert(all[i] == b[i - a.len()]);
                }
            }
        }
    }
    if any_batch(a) {
        let i = choose|i: int| 0 <= i < a.len() && (#[trigger] a[i]).batch() is Some;
        assert(all[i] == a[i]);
    }
    if any_batch(b) {
        let i = choose|i: int| 0 <= i < b.len() && (#[trigger] b[i]).batch() is Some;
        assert(all[a.len() + i] == b[i]);
    }
    if any_batch(all) {
        let i = choose|i: int| 0 <= i < all.len() && (#[trigger] all[i]).batch() is Some;
        if i < a.len() {
            assert(a[i].batch() is Some);
        } else {
            assert(b[i - a.len()].batch() is Some);
        }
    }
}

proof fn lemma_disagree(a: Seq<BlockValues>, b: Seq<BlockValues>, x: nat, y: nat)
    requires
        any_batch(a),
        agree(a, x),
        any_batch(b),
        agree(b, y),
        x != y,
    ensures
        forall|n: nat| !#[trigger] agree(a + b, n),
{
    lemma_agree_parts(a, b);
    let i = choose|i: int| 0 <= i < a.len() && (#[trigger] a[i]).batch() is Some;
    let j = choose|j: int| 0 <= j < b.len() && (#[trigger] b[j]).batch() is Some;
    assert forall|n: nat| !#[trigger] agree(a + b, n) by {
        if agree(a + b, n) {
            assert(a[i].batch() == Some(n) && a[i].batch() == Some(x));
            assert(b[j].batch() == Some(n) && b[j].batch() == Some(y));
        }
    }
}

/// The bias of the last node of the model with an id, if there is one.
pub open spec fn bias_of<W>(ebm: IsingEBM<W>, id: u32) -> Option<W> {
    let i = id_index(ebm.nodes@, id, shorter(ebm.nodes@.len(), ebm.biases@.len()));
    if i >= 0 {
        Some(ebm.biases@[i])
    } else {
        None
    }
}

/// Whether a value is drawn for the variable in a chain: up when the draw is
/// below the threshold of its bias.
pub open spec fn drawn<W, P: Fn(W, Option<W>) -> u32>(
    p_up: P,
    ebm: IsingEBM<W>,
    seed: u32,
    chain: u32,
    id: u32,
    value: u32,
) -> bool {
    exists|threshold: u32| #[trigger]
        call_ensures(p_up, (ebm.beta, bias_of(ebm, id)), threshold) && value == spin_from_draw(
            uniform_draw(seed, STEP_HINTON_INIT, chain, id),
            threshold,
        )
}

/// Whether a row holds the draws of the variables in a chain.
pub open spec fn drawn_row<W, P: Fn(W, Option<W>) -> u32>(
    p_up: P,
    ebm: IsingEBM<W>,
    seed: u32,
    chain: u32,
    variables: Seq<Variable>,
    row: Seq<u32>,
) -> bool {
    &&& row.len() == variables.len()
    &&& forall|i: int|
        #![trigger row[i]]
        0 <= i < row.len() ==> drawn(p_up, ebm, seed, chain, variables[i].id, row[i])
}

/// Whether the values of a block are draws of its variables: of one chain, or
/// of a batch of chains.
pub open spec fn drawn_values<W, P: Fn(W, Option<W>) -> u32>(
    p_up: P,
    ebm: IsingEBM<W>,
    seed: u32,
    n_chains: Option<u32>,
    variables: Seq<Variable>,
    values: BlockValues,
) -> bool {
    match values {
        BlockValues::Flat(row) => n_chains is None && drawn_row(
            p_up,
            ebm,
            seed,
            0,
            variables,
            row@,
        ),
        BlockValues::Batched(rows) => {
            &&& n_chains == Some(rows@.len() as u32)
            &&& rows@.len() <= u32::MAX
            &&& forall|c: int|
                0 <= c < rows@.len() ==> drawn_row(
                    p_up,
                    ebm,
                    seed,
                    c as u32,
                    variables,
                    (#[trigger] rows@[c])@,
                )
        },
    }
}

/// The position of the last node of the model with each id.
fn bias_positions<W>(ebm: &IsingEBM<W>) -> (r: HashMap<u32, usize>)
    ensures
        forall|id: u32|
            #![trigger r@.contains_key(id)]
            #![trigger r@[id]]
            {
                let i = id_index(ebm.nodes@, id, shorter(ebm.nodes@.len(), ebm.biases@.len()));
                (r@.contains_key(id) <==> i >= 0) && (i >= 0 ==> r@[id] == i)
            },
{
    broadcast use vstd::std_specs::hash::group_hash_axioms;

    let mut positions: HashMap<u32, usize> = HashMap::new();
    let mut i: usize = 0;
    while i < ebm.nodes.len() && i < ebm.biases.len()
        invariant
            i <= shorter(ebm.nodes@.len(), ebm.biases@.len()),
            forall|id: u32|
                #![trigger positions@.contains_key(id)]
                #![trigger positions@[id]]
                {
                    let j = id_index(ebm.nodes@, id, i as nat);
                    (positions@.contains_key(id) <==> j >= 0) && (j >= 0 ==> positions@[id] == j)
                },
        decreases ebm.nodes@.len() - i,
    {
        positions.insert(ebm.nodes[i].id, i);
        i = i + 1;
    }
    positions
}

/// The draws of the variables of a block in one chain.
fn draw_row<W: Copy, P: Fn(W, Option<W>) -> u32>(
    seed: u32,
    chain: u32,
    ebm: &IsingEBM<W>,
    positions: &HashMap<u32, usize>,
    variables: &[Variable],
    p_up: &P,
) -> (r: Vec<u32>)
    requires
        forall|a: W, b: Option<W>| call_requires(p_up, (a, b)),
        forall|id: u32|
            #![trigger positions@.contains_key(id)]
            #![trigger positions@[id]]
            {
                let i = id_index(ebm.nodes@, id, shorter(ebm.nodes@.len(), ebm.biases@.len()));
                (positions@.contains_key(id) <==> i >= 0) && (i >= 0 ==> positions@[id] == i)
            },
    ensures
        drawn_row(*p_up, *ebm, seed, chain, variables@, r@),
{
    broadcast use vstd::std_specs::hash::group_hash_axioms;

    let mut row: Vec<u32> = Vec::new();
    for i in 0..variables.len()
        invariant
            forall|a: W, b: Option<W>| call_requires(p_up, (a, b)),
            forall|id: u32|
                #![trigger positions@.contains_key(id)]
                #![trigger positions@[id]]
                {
                    let j = id_index(
                        ebm.nodes@,
                        id,
                        shorter(ebm.nodes@.len(), ebm.biases@.len()),
                    );
                    (positions@.contains_key(id) <==> j >= 0) && (j >= 0 ==> positions@[id] == j)
                },
            row@.len() == i,
            forall|j: int|
                #![trigger row@[j]]
                0 <= j < i ==> drawn(*p_up, *ebm, seed, chain, variables@[j].id, row@[j]),
    {
        let id: u32 = variables[i].id;
        proof {
            crate::bindings::lemma_id_index(
                ebm.nodes@,
                id,
                shorter(ebm.nodes@.len(), ebm.biases@.len()),
            );
        }
        let bias: Option<W> = match positions.get(&id) {
            Some(position) => Some(ebm.biases[*position]),
            None => None,
        };
        assert(bias == bias_of(*ebm, id));
        let threshold: u32 = p_up(ebm.beta, bias);
        let value: u32 = below(uniform(seed, STEP_HINTON_INIT, chain, id), threshold);
        assert(drawn(*p_up, *ebm, seed, chain, id, value));
        row.push(value);
    }
    row
}

/// Initialize block states from the marginal biases of the model: every spin
/// is up with probability `sigmoid(2 * beta * b_i)`.
///
/// `p_up` gives the threshold of that probability for a `beta` and the bias
/// of a variable; variables outside the model have none. Draws are keyed by
/// the creation order of the variables, so a program that creates them
/// deterministically gets reproducible states.
///
/// Returns one entry per block: a list of 0/1 values, or a batch of
/// `n_chains` such lists when `n_chains` is given.
pub fn hinton_init<W: Copy, P: Fn(W, Option<W>) -> u32>(
    seed: u32,
    ebm: &IsingEBM<W>,
    blocks: &[Vec<Variable>],
    n_chains: Option<u32>,
    p_up: &P,
) -> (r: Vec<BlockValues>)
    requires
        forall|a: W, b: Option<W>| call_requires(p_up, (a, b)),
    ensures
        r@.len() == blocks@.len(),
        forall|b: int|
            0 <= b < blocks@.len() ==> drawn_values(
                *p_up,
                *ebm,
                seed,
                n_chains,
                blocks@[b]@,
                #[trigger] r@[b],
            ),
{
    let positions = bias_positions(ebm);
    let mut result: Vec<BlockValues> = Vec::new();
    for b in 0..blocks.len()
        invariant
            forall|x: W, y: Option<W>| call_requires(p_up, (x, y)),
            forall|id: u32|
                #![trigger positions@.contains_key(id)]
                #![trigger positions@[id]]
                {
                    let i = id_index(
                        ebm.nodes@,
                        id,
                        shorter(ebm.nodes@.len(), ebm.biases@.len()),
                    );
                    (positions@.contains_key(id) <==> i >= 0) && (i >= 0 ==> positions@[id] == i)
                },
            result@.len() == b,
            forall|c: int|
                0 <= c < b ==> drawn_values(
                    *p_up,
                    *ebm,
                    seed,
                    n_chains,
                    blocks@[c]@,
                    #[trigger] result@[c],
                ),
    {
        let variables = blocks[b].as_slice();
        let values = match n_chains {
            None => BlockValues::Flat(draw_row(seed, 0, ebm, &positions, variables, p_up)),
            Some(count) => {
                let mut rows: Vec<Vec<u32>> = Vec::new();
                for chain in 0..count
                    invariant
                        forall|x: W, y: Option<W>| call_requires(p_up, (x, y)),
                        forall|id: u32|
                            #![trigger positions@.contains_key(id)]
                            #![trigger positions@[id]]
                            {
                                let i = id_index(
                                    ebm.nodes@,
                                    id,
                                    shorter(ebm.nodes@.len(), ebm.biases@.len()),
                                );
                                (positions@.contains_key(id) <==> i >= 0) && (i >= 0
                                    ==> positions@[id] == i)
                            },
                        rows@.len() == chain,
                        forall|c: int|
                            0 <= c < chain ==> drawn_row(
                                *p_up,
                                *ebm,
                                seed,
                                c as u32,
                                variables@,
                                (#[trigger] rows@[c])@,
                            ),
                {
                    rows.push(draw_row(seed, chain, ebm, &positions, variables, p_up));
                }
                BlockValues::Batched(rows)
            },
        };
        result.push(values);
    }
    result
}

/// Drawn block states can start a run: they have a row of the right length
/// for every chain, and as many chains as were asked for.
pub proof fn drawn_states_fit_their_blocks<W, P: Fn(W, Option<W>) -> u32>(
    p_up: P,
    ebm: IsingEBM<W>,
    seed: u32,
    n_chains: Option<u32>,
    blocks: Seq<Seq<Variable>>,
    values: Seq<BlockValues>,
)
    requires
        values.len() == blocks.len(),
        forall|b: int|
            0 <= b < blocks.len() ==> drawn_values(
                p_up,
                ebm,
                seed,
                n_chains,
                blocks[b],
                #[trigger] values[b],
            ),
    ensures
        agree(values, run_chains(n_chains) as nat),
        any_batch(values) ==> n_chains is Some,
        forall|b: int|
            0 <= b < blocks.len() ==> fills(
                #[trigger] &values[b],
                blocks[b].len(),
                run_chains(n_chains) as nat,
            ),
{
    assert forall|b: int| 0 <= b < values.len() && (#[trigger] values[b]).batch() is Some implies {
        &&& values[b].batch() == Some(run_chains(n_chains) as nat)
        &&& n_chains is Some
    } by {
        assert(drawn_values(p_up, ebm, seed, n_chains, blocks[b], values[b]));
    }
    assert forall|b: int| 0 <= b < blocks.len() implies fills(
        #[trigger] &values[b],
        blocks[b].len(),
        run_chains(n_chains) as nat,
    ) by {
        assert(drawn_values(p_up, ebm, seed, n_chains, blocks[b], values[b]));
        assert forall|c: int| 0 <= c < run_chains(n_chains) implies (#[trigger] values[b].row(
            c,
        )).len() == blocks[b].len() by {
            match values[b] {
                BlockValues::Flat(row) => {},
                BlockValues::Batched(rows) => {
                    assert(drawn_row(p_up, ebm, seed, c as u32, blocks[b], rows@[c]@));
                },
            }
        }
    }
}

/// The recorded values of a block: by sample, or by sample and chain.
#[derive(Debug)]
pub enum NestedSamples {
    Flat(Vec<Vec<u32>>),
    Batched(Vec<Vec<Vec<u32>>>),
}

/// Whether a row holds what was recorded of a block at a sample of a chain.
pub open spec fn recorded_row(
    samples: &Samples,
    block: int,
    sample: u32,
    chain: u32,
    len: nat,
    row: Seq<u32>,
) -> bool {
    &&& row.len() == len
    &&& forall|p: int|
        0 <= p < len ==> #[trigger] row[p] == samples.at(block, sample, chain, p as u32)
}

/// Whether nested lists hold all that was recorded of a block. Only batched
/// runs have a list per chain.
pub open spec fn recorded_lists(
    samples: &Samples,
    block: int,
    batched: Option<u32>,
    len: nat,
    lists: NestedSamples,
) -> bool {
    match lists {
        NestedSamples::Flat(rows) => {
            &&& batched is None
            &&& rows@.len() == samples.n_samples
            &&& forall|s: int|
                0 <= s < rows@.len() ==> recorded_row(
                    samples,
                    block,
                    s as u32,
                    0,
                    len,
                    (#[trigger] rows@[s])@,
                )
        },
        NestedSamples::Batched(batches) => {
            &&& batched is Some
            &&& batches@.len() == samples.n_samples
            &&& forall|s: int|
                0 <= s < batches@.len() ==> (#[trigger] batches@[s])@.len() == batched.unwrap()
            &&& forall|s: int, c: int|
                #![trigger batches@[s]@[c]]
                0 <= s < batches@.len() && 0 <= c < batches@[s]@.len() ==> recorded_row(
                    samples,
                    block,
                    s as u32,
                    c as u32,
                    len,
                    batches@[s]@[c]@,
                )
        },
    }
}

/// What was recorded of a block at one sample of one chain.
fn recorded_values(
    samples: &Samples,
    block: usize,
    sample: u32,
    chain: u32,
    len: u32,
) -> (r: Vec<u32>)
    requires
        forall|p: u32| p < len ==> #[trigger] samples.holds(block as int, sample, chain, p),
    ensures
        recorded_row(samples, block as int, sample, chain, len as nat, r@),
{
    let mut row: Vec<u32> = Vec::new();
    for position in 0..len
        invariant
            forall|p: u32| p < len ==> #[trigger] samples.holds(block as int, sample, chain, p),
            row@.len() == position,
            forall|p: int|
                0 <= p < position ==> #[trigger] row@[p] == samples.at(
                    block as int,
                    sample,
                    chain,
                    p as u32,
                ),
    {
        row.push(samples.value(block, sample, chain, position));
    }
    row
}

/// Convert recorded samples to nested lists, dropping the chain axis for
/// unbatched runs. Each observed block is given by its length.
pub fn nested_samples(samples: &Samples, lens: &[u32], batched: Option<u32>) -> (r: Vec<
    NestedSamples,
>)
    requires
        forall|b: int, s: u32, c: u32, p: u32|
            0 <= b < lens@.len() && s < samples.n_samples && c < run_chains(batched) && p < lens@[b]
                ==> #[trigger] samples.holds(b, s, c, p),
    ensures
        r@.len() == lens@.len(),
        forall|b: int|
            0 <= b < lens@.len() ==> recorded_lists(
                samples,
                b,
                batched,
                lens@[b] as nat,
                #[trigger] r@[b],
            ),
{
    let mut result: Vec<NestedSamples> = Vec::new();
    for b in 0..lens.len()
        invariant
            forall|c: int, s: u32, d: u32, p: u32|
                0 <= c < lens@.len() && s < samples.n_samples && d < run_chains(batched) && p
                    < lens@[c] ==> #[trigger] samples.holds(c, s, d, p),
            result@.len() == b,
            forall|c: int|
                0 <= c < b ==> recorded_lists(
                    samples,
                    c,
                    batched,
                    lens@[c] as nat,
                    #[trigger] result@[c],
                ),
    {
        let len: u32 = lens[b];
        let n_samples: u32 = samples.n_samples;
        let lists = match batched {
            None => {
                let mut rows: Vec<Vec<u32>> = Vec::new();
                for sample in 0..n_samples
                    invariant
                        n_samples == samples.n_samples,
                        forall|s: u32, p: u32|
                            s < n_samples && p < len ==> #[trigger] samples.holds(
                                b as int,
                                s,
                                0,
                                p,
                            ),
                        rows@.len() == sample,
                        forall|s: int|
                            0 <= s < sample ==> recorded_row(
                                samples,
                                b as int,
                                s as u32,
                                0,
                                len as nat,
                                (#[trigger] rows@[s])@,
                            ),
                {
                    rows.push(recorded_values(samples, b, sample, 0, len));
                }
                NestedSamples::Flat(rows)
            },
            Some(count) => {
                let mut batches: Vec<Vec<Vec<u32>>> = Vec::new();
                for sample in 0..n_samples
                    invariant
                        n_samples == samples.n_samples,
                        forall|s: u32, d: u32, p: u32|
                            s < n_samples && d < count && p < len ==> #[trigger] samples.holds(
                                b as int,
                                s,
                                d,
                                p,
                            ),
                        batches@.len() == sample,
                        forall|s: int| 0 <= s < sample ==> (#[trigger] batches@[s])@.len() == count,
                        forall|s: int, c: int|
                            #![trigger batches@[s]@[c]]
                            0 <= s < sample && 0 <= c < count ==> recorded_row(
                                samples,
                                b as int,
                                s as u32,
                                c as u32,
                                len as nat,
                                batches@[s]@[c]@,
                            ),
                {
                    let mut rows: Vec<Vec<u32>> = Vec::new();
                    for chain in 0..count
                        invariant
                            sample < n_samples,
                            forall|s: u32, d: u32, p: u32|
                                s < n_samples && d < count && p < len ==> #[trigger] samples.holds(
                                    b as int,
                                    s,
                                    d,
                                    p,
                                ),
                            rows@.len() == chain,
                            forall|c: int|
                                0 <= c < chain ==> recorded_row(
                                    samples,
                                    b as int,
                                    sample,
                                    c as u32,
                                    len as nat,
                                    (#[trigger] rows@[c])@,
                                ),
                    {
                        rows.push(recorded_values(samples, b, sample, chain, len));
                    }
                    batches.push(rows);
                }
                NestedSamples::Batched(batches)
            },
        };
        result.push(lists);
    }
    result
}

/// The nodes of the variables to observe, by block.
pub fn observed_nodes<W>(
    program: &IsingSamplingProgram<W>,
    blocks: &[Vec<Variable>],
) -> (r: Result<Vec<Vec<Node>>, BindingError>)
    ensures
        match r {
            Ok(lists) => map_has_lists(program.node_map@, variable_lists(blocks@)) && lists_view(
                lists@,
            ) == map_lists(program.node_map@, variable_lists(blocks@)),
            Err(error) => !map_has_lists(program.node_map@, variable_lists(blocks@)) && error
                == BindingError::ObservedNode,
        },
{
    match lookup_lists(&program.node_map, blocks) {
        Some(lists) => Ok(lists),
        None => Err(BindingError::ObservedNode),
    }
}

/// The nodes of the variables whose moments are asked for, by tuple.
pub fn moment_nodes<W>(
    program: &IsingSamplingProgram<W>,
    tuples: &[Vec<Variable>],
) -> (r: Result<Vec<Vec<Node>>, BindingError>)
    ensures
        match r {
            Ok(lists) => map_has_lists(program.node_map@, variable_lists(tuples@)) && lists_view(
                lists@,
            ) == map_lists(program.node_map@, variable_lists(tuples@)),
            Err(error) => !map_has_lists(program.node_map@, variable_lists(tuples@)) && error
                == BindingError::MomentNode,
        },
{
    match lookup_lists(&program.node_map, tuples) {
        Some(lists) => Ok(lists),
        None => Err(BindingError::MomentNode),
    }
}

/// Where to run.
#[derive(Clone, Copy, Debug, PartialEq, Eq, Structural)]
pub enum Device {
    Cpu,
    /// The GPU, and nothing else.
    Gpu,
    /// The GPU if there is one.
    Auto,
}

/// The device with a name.
pub fn parse_device(name: &str) -> (r: Result<Device, BindingError>)
    ensures
        r == if name@ == "cpu"@ {
            Ok::<Device, BindingError>(Device::Cpu)
        } else if name@ == "gpu"@ {
            Ok(Device::Gpu)
        } else if name@ == "auto"@ {
            Ok(Device::Auto)
        } else {
            Err(BindingError::Device)
        },
{
    let name = name.to_owned();
    if name == "cpu".to_owned() {
        Ok(Device::Cpu)
    } else if name == "gpu".to_owned() {
        Ok(Device::Gpu)
    } else if name == "auto".to_owned() {
        Ok(Device::Auto)
    } else {
        Err(BindingError::Device)
    }
}

/// Where a run takes place.
#[derive(Clone, Copy, Debug, PartialEq, Eq, Structural)]
pub enum Backend {
    Cpu,
    Gpu,
}

/// Where to run on a device, given whether the GPU could be initialized; `None`
/// where that is an error.
pub fn choose_backend(device: Device, gpu_ready: bool) -> (r: Option<Backend>)
    ensures
        r == match device {
            Device::Cpu => Some(Backend::Cpu),
            Device::Gpu => if gpu_ready {
                Some(Backend::Gpu)
            } else {
                None
            },
            Device::Auto => if gpu_ready {
                Some(Backend::Gpu)
            } else {
                Some(Backend::Cpu)
            },
        },
{
    match device {
        Device::Cpu => Some(Backend::Cpu),
        Device::Gpu => {
            if gpu_ready {
                Some(Backend::Gpu)
            } else {
                None
            }
        },
        Device::Auto => {
            if gpu_ready {
                Some(Backend::Gpu)
            } else {
                Some(Backend::Cpu)
            }
        },
    }
}

/// Blocks without a common node hold what was handed in for them: in chain
/// `c`, position `p` of block `b` has value `p` of the list, or of row `c` of
/// the batch, for that block. A node of no block keeps its value.
pub proof fn filled_values_read_back(
    chain: Seq<u32>,
    lists: Seq<Seq<Node>>,
    values: Seq<BlockValues>,
    c: int,
    n: nat,
)
    requires
        n <= lists.len(),
        n <= values.len(),
        forall|b: int, p: int|
            #![trigger lists[b][p]]
            0 <= b < n && 0 <= p < lists[b].len() ==> (lists[b][p].0 as int) < chain.len(),
        forall|a: int, p: int, b: int, q: int|
            #![trigger lists[a][p], lists[b][q]]
            0 <= a < n && 0 <= p < lists[a].len() && 0 <= b < n && 0 <= q < lists[b].len()
                && lists[a][p] == lists[b][q] ==> a == b && p == q,
    ensures
        filled(chain, lists, values, c, n).len() == chain.len(),
        forall|b: int, p: int|
            #![trigger lists[b][p]]
            0 <= b < n && 0 <= p < lists[b].len() ==> filled(
                chain,
                lists,
                values,
                c,
                n,
            )[lists[b][p].0 as int] == match values[b] {
                BlockValues::Flat(row) => row@[p],
                BlockValues::Batched(rows) => rows@[c]@[p],
            },
        forall|v: int|
            #![trigger filled(chain, lists, values, c, n)[v]]
            0 <= v < chain.len() && (forall|b: int, p: int|
                #![trigger lists[b][p]]
                0 <= b < n && 0 <= p < lists[b].len() ==> lists[b][p].0 != v) ==> filled(
                chain,
                lists,
                values,
                c,
                n,
            )[v] == chain[v],
    decreases n,
{
    if n > 0 {
        let m = (n - 1) as nat;
        filled_values_read_back(chain, lists, values, c, m);
        let before = filled(chain, lists, values, c, m);
        let after = filled(chain, lists, values, c, n);
        let nodes = lists[m as int];
        let row = values[m as int].row(c);
        assert forall|p: int| 0 <= p < nodes.len() implies ((#[trigger] nodes[p]).0 as int)
            < before.len() by {
            assert(lists[m as int][p] == nodes[p]);
        }
        if before.len() > 0 {
            the_last_value_written_stays(before, nodes, row, nodes.len(), 0);
        } else if nodes.len() > 0 {
            assert((nodes[0].0 as int) < before.len());
        }
        assert(after.len() == chain.len());
        assert forall|b: int, p: int|
            #![trigger lists[b][p]]
            0 <= b < n && 0 <= p < lists[b].len() implies after[lists[b][p].0 as int]
            == match values[b] {
            BlockValues::Flat(row) => row@[p],
            BlockValues::Batched(rows) => rows@[c]@[p],
        } by {
            let v = lists[b][p].0 as int;
            the_last_value_written_stays(before, nodes, row, nodes.len(), v);
            if b == m {
                assert forall|q: int| p < q < nodes.len() implies (#[trigger] nodes[q]).0 != v by {
                    assert(lists[m as int][q] != lists[b][p]);
                }
                assert(nodes[p].0 == v);
                assert(after[v] == row[p]);
            } else {
                assert forall|q: int| 0 <= q < nodes.len() implies (#[trigger] nodes[q]).0 != v by {
                    assert(lists[m as int][q] != lists[b][p]);
                }
                assert(after[v] == before[v]);
            }
        }
        assert forall|v: int|
            #![trigger after[v]]
            0 <= v < chain.len() && (forall|b: int, p: int|
                #![trigger lists[b][p]]
                0 <= b < n && 0 <= p < lists[b].len() ==> lists[b][p].0 != v) implies after[v]
            == chain[v] by {
            the_last_value_written_stays(before, nodes, row, nodes.len(), v);
            assert forall|q: int| 0 <= q < nodes.len() implies (#[trigger] nodes[q]).0 != v by {
                assert(lists[m as int][q].0 != v);
            }
            assert(before[v] == chain[v]);
        }
    }
}

/// The chains of a run start with what was handed in: the free blocks with
/// their initial states, the clamped ones with their data.
pub proof fn runs_start_from_what_was_given(
    n_nodes: nat,
    free: Seq<Seq<Node>>,
    init_state: Seq<BlockValues>,
    clamped: Seq<Seq<Node>>,
    clamped_data: Seq<BlockValues>,
    c: int,
)
    requires
        init_state.len() == free.len(),
        clamped_data.len() == clamped.len(),
        forall|b: int, p: int|
            #![trigger (free + clamped)[b][p]]
            0 <= b < free.len() + clamped.len() && 0 <= p < (free + clamped)[b].len() ==> ((free
                + clamped)[b][p].0 as int) < n_nodes,
        forall|a: int, p: int, b: int, q: int|
            #![trigger (free + clamped)[a][p], (free + clamped)[b][q]]
            0 <= a < free.len() + clamped.len() && 0 <= p < (free + clamped)[a].len() && 0 <= b
                < free.len() + clamped.len() && 0 <= q < (free + clamped)[b].len() && (free
                + clamped)[a][p] == (free + clamped)[b][q] ==> a == b && p == q,
    ensures
        ({
            let start = filled(
                filled(zero_chain(n_nodes), free, init_state, c, free.len()),
                clamped,
                clamped_data,
                c,
                clamped.len(),
            );
            forall|b: int, p: int|
                #![trigger (free + clamped)[b][p]]
                0 <= b < free.len() + clamped.len() && 0 <= p < (free + clamped)[b].len()
                    ==> start[(free + clamped)[b][p].0 as int] == match (init_state
                    + clamped_data)[b] {
                    BlockValues::Flat(row) => row@[p],
                    BlockValues::Batched(rows) => rows@[c]@[p],
                }
        }),
{
    let lists = free + clamped;
    let values = init_state + clamped_data;
    lemma_filled_joined(
        zero_chain(n_nodes),
        free,
        init_state,
        clamped,
        clamped_data,
        c,
        clamped.len(),
    );
    filled_values_read_back(zero_chain(n_nodes), lists, values, c, lists.len());
}

proof fn lemma_filled_joined(
    chain: Seq<u32>,
    free: Seq<Seq<Node>>,
    init_state: Seq<BlockValues>,
    clamped: Seq<Seq<Node>>,
    clamped_data: Seq<BlockValues>,
    c: int,
    n: nat,
)
    requires
        init_state.len() == free.len(),
        clamped_data.len() == clamped.len(),
        n <= clamped.len(),
    ensures
        filled(chain, free + clamped, init_state + clamped_data, c, free.len() + n) == filled(
            filled(chain, free, init_state, c, free.len()),
            clamped,
            clamped_data,
            c,
            n,
        ),
    decreases n,
{
    if n > 0 {
        lemma_filled_joined(
            chain,
            free,
            init_state,
            clamped,
            clamped_data,
            c,
            (n - 1) as nat,
        );
    } else {
        lemma_filled_first(chain, free, init_state, clamped, clamped_data, c, free.len());
    }
}

proof fn lemma_filled_first(
    chain: Seq<u32>,
    free: Seq<Seq<Node>>,
    init_state: Seq<BlockValues>,
    clamped: Seq<Seq<Node>>,
    clamped_data: Seq<BlockValues>,
    c: int,
    n: nat,
)
    requires
        init_state.len() == free.len(),
        n <= free.len(),
    ensures
        filled(chain, free + clamped, init_state + clamped_data, c, n) == filled(
            chain,
            free,
            init_state,
            c,
            n,
        ),
    decreases n,
{
    if n > 0 {
        lemma_filled_first(chain, free, init_state, clamped, clamped_data, c, (n - 1) as nat);
    }
}

/// A variable starts up exactly where the draw of its own id is below the
/// threshold of its own bias, in each of the chains: the bias that was given
/// last for its id, or none where the model has none for it.
pub proof fn variables_start_by_their_own_bias<W, P: Fn(W, Option<W>) -> u32>(
    p_up: P,
    threshold: spec_fn(W, Option<W>) -> u32,
    ebm: IsingEBM<W>,
    seed: u32,
    n_chains: Option<u32>,
    variables: Seq<Variable>,
    values: BlockValues,
    chain: u32,
    j: int,
    bias: Option<int>,
)
    requires
        drawn_values(p_up, ebm, seed, n_chains, variables, values),
        forall|beta: W, b: Option<W>, x: u32| #[trigger]
            call_ensures(p_up, (beta, b), x) ==> x == threshold(beta, b),
        0 <= j < variables.len(),
        match n_chains {
            Some(count) => chain < count,
            None => chain == 0,
        },
        ebm.nodes@.len() == ebm.biases@.len(),
        match bias {
            Some(i) => {
                &&& 0 <= i < ebm.nodes@.len()
                &&& ebm.nodes@[i].id == variables[j].id
                &&& forall|k: int|
                    i < k < ebm.nodes@.len() ==> (#[trigger] ebm.nodes@[k]).id != variables[j].id
            },
            None => forall|k: int|
                0 <= k < ebm.nodes@.len() ==> (#[trigger] ebm.nodes@[k]).id != variables[j].id,
        },
    ensures
        ({
            let value = match values {
                BlockValues::Flat(row) => row@[j],
                BlockValues::Batched(rows) => rows@[chain as int]@[j],
            };
            let draw = pcg4d_hash((seed, 0xFFFF_FFFE, chain, variables[j].id)).0 as int / 256;
            let limit = match bias {
                Some(i) => threshold(ebm.beta, Some(ebm.biases@[i])),
                None => threshold(ebm.beta, None),
            };
            &&& values is Flat <==> n_chains is None
            &&& draw < limit ==> value == 1
            &&& draw >= limit ==> value == 0
        }),
{
    let id = variables[j].id;
    lemma_last_with_id(ebm.nodes@, id, ebm.nodes@.len(), bias);
    let hash = pcg4d_hash((seed, 0xFFFF_FFFE, chain, id)).0;
    assert(hash >> 8 == hash / 256) by (bit_vector);
    let value = match values {
        BlockValues::Flat(row) => {
            assert(drawn_row(p_up, ebm, seed, 0, variables, row@));
            row@[j]
        },
        BlockValues::Batched(rows) => {
            assert(drawn_row(p_up, ebm, seed, chain, variables, rows@[chain as int]@));
            rows@[chain as int]@[j]
        },
    };
    assert(drawn(p_up, ebm, seed, chain, id, value));
}

proof fn lemma_last_with_id(table: Seq<Variable>, id: u32, n: nat, place: Option<int>)
    requires
        n <= table.len(),
        match place {
            Some(i) => {
                &&& 0 <= i < n
                &&& table[i].id == id
                &&& forall|k: int| i < k < n ==> (#[trigger] table[k]).id != id
            },
            None => forall|k: int| 0 <= k < n ==> (#[trigger] table[k]).id != id,
        },
    ensures
        id_index(table, id, n) == match place {
            Some(i) => i,
            None => -1,
        },
    decreases n,
{
    if n > 0 && place != Some(n - 1) {
        assert(table[n - 1].id != id);
        lemma_last_with_id(table, id, (n - 1) as nat, place);
    }
}

/// The nested samples hold the recorded values, by sample, then by chain
/// where there is a batch of them, then by position.
pub proof fn nested_samples_read_back(
    samples: &Samples,
    block: int,
    batched: Option<u32>,
    len: nat,
    lists: NestedSamples,
    sample: u32,
    chain: u32,
    position: u32,
)
    requires
        recorded_lists(samples, block, batched, len, lists),
        sample < samples.n_samples,
        position < len,
        match batched {
            Some(count) => chain < count,
            None => chain == 0,
        },
    ensures
        samples.at(block, sample, chain, position) == match lists {
            NestedSamples::Flat(rows) => rows@[sample as int]@[position as int],
            NestedSamples::Batched(batches) => batches@[sample as int]@[chain as int]@[position
                as int],
        },
{
    match lists {
        NestedSamples::Flat(rows) => {
            assert(recorded_row(samples, block, sample, 0, len, rows@[sample as int]@));
            assert(rows@[sample as int]@[position as int] == samples.at(
                block,
                sample,
                0,
                position,
            ));
        },
        NestedSamples::Batched(batches) => {
            assert(batches@[sample as int]@.len() == batched.unwrap());
            let row = batches@[sample as int]@[chain as int]@;
            assert(recorded_row(samples, block, sample, chain, len, row));
            assert(row[position as int] == samples.at(block, sample, chain, position));
        },
    }
}

/// Blocks agree on a number of chains exactly if every batch has so many
/// rows; single lists agree with any number.
pub proof fn batches_agree_by_their_rows(values: Seq<BlockValues>, count: nat)
    ensures
        agree(values, count) <==> forall|b: int|
            #![trigger values[b]]
            0 <= b < values.len() ==> match values[b] {
                BlockValues::Flat(_) => true,
                BlockValues::Batched(rows) => rows@.len() == count,
            },
        any_batch(values) <==> exists|b: int|
            0 <= b < values.len() && (#[trigger] values[b]) is Batched,
{
    if agree(values, count) {
        assert forall|b: int| #![trigger values[b]] 0 <= b < values.len() implies match values[b] {
            BlockValues::Flat(_) => true,
            BlockValues::Batched(rows) => rows@.len() == count,
        } by {
            assert(values[b] is Batched ==> values[b].batch() == Some(count));
        }
    }
    if exists|b: int| 0 <= b < values.len() && (#[trigger] values[b]) is Batched {
        let b = choose|b: int| 0 <= b < values.len() && (#[trigger] values[b]) is Batched;
        assert(values[b].batch() is Some);
    }
}

/// Values fill a block exactly if every chain has as many as the block has
/// nodes: all chains the same list, or each its own row of a batch.
pub proof fn blocks_are_filled_by_their_rows(values: &BlockValues, len: nat, n_chains: nat)
    ensures
        fills(values, len, n_chains) <==> match values {
            BlockValues::Flat(row) => n_chains > 0 ==> row@.len() == len,
            BlockValues::Batched(rows) => rows@.len() == n_chains && forall|c: int|
                0 <= c < n_chains ==> (#[trigger] rows@[c])@.len() == len,
        },
{
    match values {
        BlockValues::Flat(row) => {
            if fills(values, len, n_chains) && n_chains > 0 {
                assert(values.row(0).len() == len);
            }
        },
        BlockValues::Batched(rows) => {
            if fills(values, len, n_chains) {
                assert forall|c: int| 0 <= c < n_chains implies (#[trigger] rows@[c])@.len()
                    == len by {
                    assert(values.row(c).len() == len);
                }
            }
        },
    }
}

} // verus!
