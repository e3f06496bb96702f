//! What a GPU has to be handed to run a program: buffer contents, the order
//! of the compute dispatches, and their parameters.
//!
//! A run on the GPU makes the same block updates as one on the CPU, with the
//! same counters. All chains advance in parallel, and each block update is
//! one dispatch.

use vstd::prelude::*;

use crate::cpu::all_spins;
use crate::factor::node_lists;
use crate::graph::{append, Block, Node, NodeKind};
use crate::models::tuple_lists;
use crate::program::{ids_of, BlockProgram, Program};
use crate::samples::ObservedLayout;
use crate::schedule::Schedule;

verus! {

/// Number of compute dispatches encoded per command buffer submission.
pub const OPS_PER_SUBMIT: usize = 512;

/// Workgroup size of all kernels.
pub const WORKGROUP_SIZE: u32 = 64;

/// Guaranteed number of workgroups per dimension.
pub const MAX_GROUPS: u32 = 0xFFFF;

/// The quotient, rounded up.
pub open spec fn ceil_div(a: int, b: int) -> int {
    (a + b - 1) / b
}

/// The dispatch grid for a number of threads.
pub open spec fn grid_of(threads: int) -> (int, int, int) {
    let groups = ceil_div(threads, WORKGROUP_SIZE as int);
    if groups <= MAX_GROUPS {
        (groups, 1, 1)
    } else {
        (MAX_GROUPS as int, ceil_div(groups, MAX_GROUPS as int), 1)
    }
}

/// Split a thread count into a dispatch grid that stays within the
/// guaranteed per-dimension workgroup limit.
pub fn dispatch_grid(threads: u32) -> (r: [u32; 3])
    ensures
        (r@[0] as int, r@[1] as int, r@[2] as int) == grid_of(threads as int),
{
    let groups: u32 = threads / WORKGROUP_SIZE + (if threads % WORKGROUP_SIZE == 0 {
        0u32
    } else {
        1u32
    });
    assert(groups == ceil_div(threads as int, WORKGROUP_SIZE as int));
    if groups <= MAX_GROUPS {
        [groups, 1, 1]
    } else {
        let rows: u32 = groups / MAX_GROUPS + (if groups % MAX_GROUPS == 0 {
            0u32
        } else {
            1u32
        });
        assert(rows == ceil_div(groups as int, MAX_GROUPS as int));
        [MAX_GROUPS, rows, 1]
    }
}

/// Every grid has a thread for each of those asked for, and stays within the
/// limit of every dimension.
pub proof fn grids_cover_their_threads(threads: u32)
    ensures
        ({
            let grid = grid_of(threads as int);
            &&& threads <= WORKGROUP_SIZE * (grid.0 * grid.1 * grid.2)
            &&& 0 <= grid.0 <= MAX_GROUPS
            &&& 0 <= grid.1 <= MAX_GROUPS
            &&& 0 <= grid.2 <= MAX_GROUPS
        }),
{
    let groups = ceil_div(threads as int, WORKGROUP_SIZE as int);
    if groups > MAX_GROUPS {
        let rows = ceil_div(groups, MAX_GROUPS as int);
        assert(MAX_GROUPS * rows * 1 == 0xFFFF * rows);
    } else {
        assert(groups * 1 * 1 == groups);
    }
}

/// Per-block base indices into the concatenated program buffers.
#[derive(Clone, Copy, Debug)]
pub struct BlockBases {
    pub offsets: u32,
    pub records: u32,
    pub node_ids: u32,
}

/// The offsets of the first `n` blocks, one block after the other.
pub open spec fn all_offsets(blocks: Seq<BlockProgram>, n: nat) -> Seq<u32>
    decreases n,
{
    if n == 0 {
        Seq::empty()
    } else {
        all_offsets(blocks, (n - 1) as nat) + blocks[n - 1].offsets@
    }
}

/// The records of the first `n` blocks, one block after the other.
pub open spec fn all_records(blocks: Seq<BlockProgram>, n: nat) -> Seq<u32>
    decreases n,
{
    if n == 0 {
        Seq::empty()
    } else {
        all_records(blocks, (n - 1) as nat) + blocks[n - 1].records@
    }
}

/// The node ids of the first `n` blocks, one block after the other.
pub open spec fn all_node_ids(blocks: Seq<BlockProgram>, n: nat) -> Seq<u32>
    decreases n,
{
    if n == 0 {
        Seq::empty()
    } else {
        all_node_ids(blocks, (n - 1) as nat) + blocks[n - 1].node_ids@
    }
}

/// Whether the concatenated program data is indexed by single words.
pub open spec fn uploadable(blocks: Seq<BlockProgram>) -> bool {
    &&& all_offsets(blocks, blocks.len()).len() <= u32::MAX
    &&& all_records(blocks, blocks.len()).len() <= u32::MAX
    &&& all_node_ids(blocks, blocks.len()).len() <= u32::MAX
}

/// Where the data of block `b` starts.
pub open spec fn bases_of(blocks: Seq<BlockProgram>, b: int) -> BlockBases {
    BlockBases {
        offsets: all_offsets(blocks, b as nat).len() as u32,
        records: all_records(blocks, b as nat).len() as u32,
        node_ids: all_node_ids(blocks, b as nat).len() as u32,
    }
}

/// The program data of all blocks.
pub struct ProgramData {
    pub offsets: Vec<u32>,
    pub records: Vec<u32>,
    pub node_ids: Vec<u32>,
    pub bases: Vec<BlockBases>,
}

proof fn lemma_concat_monotone(blocks: Seq<BlockProgram>, a: nat, b: nat)
    requires
        a <= b,
    ensures
        all_offsets(blocks, a).len() <= all_offsets(blocks, b).len(),
        all_records(blocks, a).len() <= all_records(blocks, b).len(),
        all_node_ids(blocks, a).len() <= all_node_ids(blocks, b).len(),
        all_offsets(blocks, b).take(all_offsets(blocks, a).len() as int) == all_offsets(blocks, a),
        all_records(blocks, b).take(all_records(blocks, a).len() as int) == all_records(blocks, a),
        all_node_ids(blocks, b).take(all_node_ids(blocks, a).len() as int) == all_node_ids(
            blocks,
            a,
        ),
    decreases b,
{
    if a < b {
        lemma_concat_monotone(blocks, a, (b - 1) as nat);
        let m = (b - 1) as nat;
        let i = all_offsets(blocks, a).len() as int;
        let j = all_records(blocks, a).len() as int;
        let k = all_node_ids(blocks, a).len() as int;
        assert(all_offsets(blocks, b).take(i) =~= all_offsets(blocks, m).take(i));
        assert(all_records(blocks, b).take(j) =~= all_records(blocks, m).take(j));
        assert(all_node_ids(blocks, b).take(k) =~= all_node_ids(blocks, m).take(k));
    } else {
        assert(all_offsets(blocks, b).take(all_offsets(blocks, b).len() as int) =~= all_offsets(
            blocks,
            b,
        ));
        assert(all_records(blocks, b).take(all_records(blocks, b).len() as int) =~= all_records(
            blocks,
            b,
        ));
        assert(all_node_ids(blocks, b).take(all_node_ids(blocks, b).len() as int) =~= all_node_ids(
            blocks,
            b,
        ));
    }
}

/// Concatenate the per-block program data.
pub fn concatenate<W>(program: &Program<W>) -> (r: ProgramData)
    requires
        uploadable(program.blocks@),
    ensures
        r.offsets@ == all_offsets(program.blocks@, program.blocks@.len()),
        r.records@ == all_records(program.blocks@, program.blocks@.len()),
        r.node_ids@ == all_node_ids(program.blocks@, program.blocks@.len()),
        r.bases@.len() == program.blocks@.len(),
        forall|b: int|
            0 <= b < program.blocks@.len() ==> #[trigger] r.bases@[b] == bases_of(
                program.blocks@,
                b,
            ),
{
    let ghost blocks = program.blocks@;
    let mut offsets: Vec<u32> = Vec::new();
    let mut records: Vec<u32> = Vec::new();
    let mut node_ids: Vec<u32> = Vec::new();
    let mut bases: Vec<BlockBases> = Vec::new();
    for b in 0..program.blocks.len()
        invariant
            blocks == program.blocks@,
            uploadable(blocks),
            offsets@ == all_offsets(blocks, b as nat),
            records@ == all_records(blocks, b as nat),
            node_ids@ == all_node_ids(blocks, b as nat),
            bases@.len() == b,
            forall|c: int| 0 <= c < b ==> #[trigger] bases@[c] == bases_of(blocks, c),
    {
        let block = &program.blocks[b];
        proof {
            lemma_concat_monotone(blocks, b as nat, blocks.len());
        }
        bases.push(
            BlockBases {
                offsets: offsets.len() as u32,
                records: records.len() as u32,
                node_ids: node_ids.len() as u32,
            },
        );
        append(&mut offsets, block.offsets.as_slice());
        append(&mut records, block.records.as_slice());
        append(&mut node_ids, block.node_ids.as_slice());
    }
    ProgramData { offsets, records, node_ids, bases }
}

/// Whether the concatenated program data is indexed by single words.
pub fn can_upload<W>(program: &Program<W>) -> (r: bool)
    ensures
        r == uploadable(program.blocks@),
{
    let ghost blocks = program.blocks@;
    let mut offsets: u64 = 0;
    let mut records: u64 = 0;
    let mut node_ids: u64 = 0;
    for b in 0..program.blocks.len()
        invariant
            blocks == program.blocks@,
            offsets == all_offsets(blocks, b as nat).len(),
            records == all_records(blocks, b as nat).len(),
            node_ids == all_node_ids(blocks, b as nat).len(),
            offsets <= u32::MAX,
            records <= u32::MAX,
            node_ids <= u32::MAX,
    {
        let block = &program.blocks[b];
        proof {
            lemma_concat_monotone(blocks, (b + 1) as nat, blocks.len());
        }
        let more_offsets: u64 = block.offsets.len() as u64;
        let more_records: u64 = block.records.len() as u64;
        let more_ids: u64 = block.node_ids.len() as u64;
        if more_offsets > 0xFFFF_FFFF - offsets || more_records > 0xFFFF_FFFF - records || more_ids
            > 0xFFFF_FFFF - node_ids {
            return false;
        }
        offsets = offsets + more_offsets;
        records = records + more_records;
        node_ids = node_ids + more_ids;
    }
    true
}

/// A kernel that starts from the bases of a block finds its data: the node at
/// every position, and its update stream.
pub proof fn bases_lead_to_the_block(blocks: Seq<BlockProgram>, b: int, p: int)
    requires
        uploadable(blocks),
        0 <= b < blocks.len(),
        0 <= p < blocks[b].node_ids@.len(),
        blocks[b].offsets@.len() == blocks[b].node_ids@.len() + 1,
        blocks[b].offsets@[p] <= blocks[b].offsets@[p + 1] <= blocks[b].records@.len(),
    ensures
        ({
            let bases = bases_of(blocks, b);
            let offsets = all_offsets(blocks, blocks.len());
            let records = all_records(blocks, blocks.len());
            let node_ids = all_node_ids(blocks, blocks.len());
            &&& node_ids[bases.node_ids + p] == blocks[b].node_ids@[p]
            &&& records.subrange(
                bases.records + offsets[bases.offsets + p],
                bases.records + offsets[bases.offsets + p + 1],
            ) == blocks[b].stream(p)
        }),
{
    let n = blocks.len();
    let next = (b + 1) as nat;
    lemma_concat_monotone(blocks, b as nat, n);
    lemma_concat_monotone(blocks, b as nat, next);
    lemma_concat_monotone(blocks, next, n);
    let bases = bases_of(blocks, b);
    let offsets = all_offsets(blocks, n);
    let records = all_records(blocks, n);
    let node_ids = all_node_ids(blocks, n);
    assert(node_ids.take(all_node_ids(blocks, next).len() as int)[bases.node_ids + p]
        == blocks[b].node_ids@[p]);
    assert(offsets.take(all_offsets(blocks, next).len() as int)[bases.offsets + p]
        == blocks[b].offsets@[p]);
    assert(offsets.take(all_offsets(blocks, next).len() as int)[bases.offsets + p + 1]
        == blocks[b].offsets@[p + 1]);
    let here = all_records(blocks, next);
    let start = bases.records + blocks[b].offsets@[p];
    let end = bases.records + blocks[b].offsets@[p + 1];
    assert(records.take(here.len() as int).subrange(start, end) =~= records.subrange(start, end));
    assert(here.subrange(start, end) =~= blocks[b].stream(p));
}

/// The node ids of a block follow each other from its base.
pub proof fn lemma_block_ids(blocks: Seq<BlockProgram>, b: int)
    requires
        uploadable(blocks),
        0 <= b < blocks.len(),
    ensures
        all_node_ids(blocks, blocks.len()).subrange(
            bases_of(blocks, b).node_ids as int,
            bases_of(blocks, b).node_ids + blocks[b].node_ids@.len(),
        ) == blocks[b].node_ids@,
{
    let next = (b + 1) as nat;
    let here = all_node_ids(blocks, next);
    let all = all_node_ids(blocks, blocks.len());
    let start = all_node_ids(blocks, b as nat).len() as int;
    lemma_concat_monotone(blocks, b as nat, blocks.len());
    lemma_concat_monotone(blocks, next, blocks.len());
    assert(here =~= all.take(here.len() as int));
    assert forall|p: int| 0 <= p < blocks[b].node_ids@.len() implies all[start + p]
        == #[trigger] blocks[b].node_ids@[p] by {
        assert(all.take(here.len() as int)[start + p] == here[start + p]);
    }
    assert(all.subrange(start, start + blocks[b].node_ids@.len()) =~= blocks[b].node_ids@);
}

/// What of a program has to be uploaded.
#[derive(Clone, Copy, Debug, PartialEq, Eq, Structural)]
pub enum Upload {
    /// The copy of the previous run can be used as it is.
    Nothing,
    /// Only the weights have changed.
    Weights,
    /// The copy is of another program, or there is none.
    Everything,
}

/// What has to be uploaded, given the id and the weights generation of the
/// program whose copy is there. Programs without an id are never taken for one another.
pub fn plan_upload<W>(cached: Option<(u64, u64)>, program: &Program<W>) -> (r: Upload)
    ensures
        r == match cached {
            Some((id, generation)) => if id != program.id || id == 0 {
                Upload::Everything
            } else if generation != program.weights_generation {
                Upload::Weights
            } else {
                Upload::Nothing
            },
            None => Upload::Everything,
        },
{
    match cached {
        Some((id, generation)) => {
            if id != program.id || id == 0 {
                Upload::Everything
            } else if generation != program.weights_generation {
                Upload::Weights
            } else {
                Upload::Nothing
            }
        },
        None => Upload::Everything,
    }
}

/// The number of states to build the kernels for, unless those of the
/// previous run are for the same number.
pub fn plan_pipelines<W>(cached: Option<u32>, program: &Program<W>) -> (r: Option<u32>)
    ensures
        ({
            let states = if program.max_states < 2 {
                2
            } else {
                program.max_states
            };
            r == if cached == Some(states) {
                None
            } else {
                Some(states)
            }
        }),
{
    let states: u32 = if program.max_states < 2 {
        2
    } else {
        program.max_states
    };
    match cached {
        Some(built) => {
            if built == states {
                None
            } else {
                Some(states)
            }
        },
        None => Some(states),
    }
}

/// Byte `j` of a word, counted from the lowest.
pub open spec fn byte_of(word: u32, j: int) -> u8 {
    (word >> ((8 * j) as u32)) as u8
}

/// Whether the bytes are those of the words, in one byte order throughout.
pub open spec fn bytes_of(words: Seq<u32>, bytes: Seq<u8>, little: bool) -> bool {
    &&& bytes.len() == 4 * words.len()
    &&& forall|i: int, j: int|
        #![trigger bytes[4 * i + j]]
        0 <= i < words.len() && 0 <= j < 4 ==> bytes[4 * i + j] == byte_of(
            words[i],
            if little {
                j
            } else {
                3 - j
            },
        )
}

/// The memory of the words, by `bytemuck::cast_slice`: four bytes for each
/// word, in the byte order of the machine. Which of the two orders that is
/// differs between machines and is left open.
#[verifier::external_body]
fn word_bytes(words: &[u32]) -> (r: &[u8])
    ensures
        bytes_of(words@, r@, true) || bytes_of(words@, r@, false),
{
    bytemuck::cast_slice(words)
}

/// No two lists of words have the same bytes.
pub proof fn bytes_determine_the_words(
    a: Seq<u32>,
    b: Seq<u32>,
    bytes: Seq<u8>,
    little: bool,
)
    requires
        bytes_of(a, bytes, little),
        bytes_of(b, bytes, little),
    ensures
        a == b,
{
    assert forall|i: int| 0 <= i < a.len() implies a[i] == b[i] by {
        let x = a[i];
        let y = b[i];
        let at = |j: int| bytes[4 * i + j];
        assert(at(0) == bytes[4 * i + 0] && at(1) == bytes[4 * i + 1] && at(2) == bytes[4 * i + 2]
            && at(3) == bytes[4 * i + 3]);
        assert(byte_of(x, 0) == byte_of(y, 0));
        assert(byte_of(x, 1) == byte_of(y, 1));
        assert(byte_of(x, 2) == byte_of(y, 2));
        assert(byte_of(x, 3) == byte_of(y, 3));
        assert(x == y) by (bit_vector)
            requires
                (x >> 0u32) as u8 == (y >> 0u32) as u8,
                (x >> 8u32) as u8 == (y >> 8u32) as u8,
                (x >> 16u32) as u8 == (y >> 16u32) as u8,
                (x >> 24u32) as u8 == (y >> 24u32) as u8,
        ;
    }
    assert(a =~= b);
}

/// The initial contents of a buffer, and the size to create it with.
pub struct UploadBuffer<'a> {
    /// In bytes; buffers are never empty.
    pub size: u64,
    pub contents: &'a [u8],
}

/// The size of a buffer for a number of bytes.
pub open spec fn buffer_size(len: nat) -> nat {
    if len < 4 {
        4
    } else {
        len
    }
}

/// The size of a buffer for a number of bytes.
pub fn upload_size(len: usize) -> (r: u64)
    ensures
        r == buffer_size(len as nat),
{
    if len < 4 {
        4
    } else {
        len as u64
    }
}

/// What to create a buffer of words with.
pub fn upload_words<'a>(words: &'a [u32]) -> (r: UploadBuffer<'a>)
    ensures
        bytes_of(words@, r.contents@, true) || bytes_of(words@, r.contents@, false),
        r.size == buffer_size(4 * words@.len()),
{
    let contents = word_bytes(words);
    UploadBuffer { size: upload_size(contents.len()), contents }
}

/// The initial contents of the moment accumulators, one word each.
pub fn zero_accumulators(count: usize) -> (r: Vec<u8>)
    requires
        4 * count <= usize::MAX,
    ensures
        r@.len() == buffer_size((4 * count) as nat),
        forall|i: int| 0 <= i < r@.len() ==> r@[i] == 0,
{
    vec![0u8; if count < 1 { 4usize } else { count * 4 }]
}

/// The size of the buffer that samples are recorded to.
pub fn sample_buffer_size(layout: &ObservedLayout) -> (r: u64)
    ensures
        r == buffer_size((4 * layout.total_words) as nat),
{
    let words: u32 = if layout.total_words < 1 {
        1
    } else {
        layout.total_words
    };
    words as u64 * 4
}

/// The ids of the first `n` lists of nodes, one list after the other.
pub open spec fn all_ids(lists: Seq<Seq<Node>>, n: nat) -> Seq<u32>
    decreases n,
{
    if n == 0 {
        Seq::empty()
    } else {
        all_ids(lists, (n - 1) as nat) + ids_of(lists[n - 1])
    }
}

/// The node ids of the observed blocks, one block after the other.
pub fn observed_ids(observed: &[Block]) -> (r: Vec<u32>)
    ensures
        r@ == all_ids(node_lists(observed@), observed@.len()),
{
    let ghost lists = node_lists(observed@);
    let mut ids: Vec<u32> = Vec::new();
    for b in 0..observed.len()
        invariant
            lists == node_lists(observed@),
            ids@ == all_ids(lists, b as nat),
    {
        let block = &observed[b];
        assert(lists[b as int] == block@);
        append_ids(&mut ids, block.nodes.as_slice());
    }
    ids
}

fn append_ids(ids: &mut Vec<u32>, nodes: &[Node])
    ensures
        final(ids)@ == old(ids)@ + ids_of(nodes@),
{
    for i in 0..nodes.len()
        invariant
            ids@ =~= old(ids)@ + ids_of(nodes@.take(i as int)),
    {
        ids.push(nodes[i].0);
    }
    assert(nodes@.take(nodes@.len() as int) =~= nodes@);
}

/// The tuples of a moment accumulation: where the nodes of each tuple end.
pub struct MomentData {
    pub offsets: Vec<u32>,
    pub nodes: Vec<u32>,
}

/// Lay out the tuples of a moment accumulation one after the other.
pub fn moment_data(moments: &[Vec<Node>]) -> (r: MomentData)
    requires
        all_ids(tuple_lists(moments@), moments@.len()).len() <= u32::MAX,
    ensures
        r.nodes@ == all_ids(tuple_lists(moments@), moments@.len()),
        r.offsets@.len() == moments@.len() + 1,
        forall|m: int|
            0 <= m <= moments@.len() ==> #[trigger] r.offsets@[m] == all_ids(
                tuple_lists(moments@),
                m as nat,
            ).len(),
{
    let ghost lists = tuple_lists(moments@);
    let mut offsets: Vec<u32> = Vec::new();
    let mut nodes: Vec<u32> = Vec::new();
    offsets.push(0);
    for m in 0..moments.len()
        invariant
            lists == tuple_lists(moments@),
            all_ids(lists, moments@.len()).len() <= u32::MAX,
            nodes@ == all_ids(lists, m as nat),
            offsets@.len() == m + 1,
            forall|k: int|
                0 <= k <= m ==> #[trigger] offsets@[k] == all_ids(lists, k as nat).len(),
    {
        let tuple = &moments[m];
        assert(lists[m as int] == tuple@);
        append_ids(&mut nodes, tuple.as_slice());
        proof {
            lemma_ids_monotone(lists, (m + 1) as nat, lists.len());
        }
        offsets.push(nodes.len() as u32);
    }
    MomentData { offsets, nodes }
}

proof fn lemma_ids_monotone(lists: Seq<Seq<Node>>, a: nat, b: nat)
    requires
        a <= b,
    ensures
        all_ids(lists, a).len() <= all_ids(lists, b).len(),
    decreases b,
{
    if a < b {
        lemma_ids_monotone(lists, a, (b - 1) as nat);
    }
}

/// Whether all products of a run can be added up in 32-bit accumulators.
pub fn fits_accumulators(schedule: &Schedule, n_chains: u32) -> (r: bool)
    ensures
        r == (schedule.n_samples * n_chains <= i32::MAX),
{
    assert(schedule.n_samples * n_chains <= 0xFFFF_FFFF * 0xFFFF_FFFF) by (nonlinear_arith)
        requires
            schedule.n_samples <= 0xFFFF_FFFF,
            n_chains <= 0xFFFF_FFFF,
    ;
    schedule.n_samples as u64 * n_chains as u64 <= 0x7FFF_FFFF
}

/// Whether moments are defined for all the tuples: they are of spin nodes.
pub fn moments_defined<W>(program: &Program<W>, moments: &[Vec<Node>]) -> (r: bool)
    ensures
        r == forall|m: int|
            0 <= m < moments@.len() ==> all_spins(
                program.node_kinds@,
                (#[trigger] moments@[m])@,
            ),
{
    let ghost kinds = program.node_kinds@;
    for m in 0..moments.len()
        invariant
            kinds == program.node_kinds@,
            forall|k: int| 0 <= k < m ==> all_spins(kinds, (#[trigger] moments@[k])@),
    {
        let tuple = &moments[m];
        for i in 0..tuple.len()
            invariant
                kinds == program.node_kinds@,
                m < moments@.len(),
                *tuple == moments@[m as int],
                forall|j: int|
                    #![trigger tuple@[j]]
                    0 <= j < i ==> (tuple@[j].0 as int) < kinds.len() && kinds[tuple@[j].0 as int]
                        == NodeKind::Spin,
        {
            let node: Node = tuple[i];
            if node.index() >= program.node_kinds.len() || program.node_kinds[node.index()]
                != NodeKind::Spin {
                assert(!all_spins(kinds, moments@[m as int]@)) by {
                    assert(tuple@[i as int] == node);
                }
                return false;
            }
        }
    }
    true
}

/// The nodes of list `m` are found between its offset and the next one.
pub proof fn offsets_lead_to_the_nodes(lists: Seq<Seq<Node>>, m: int)
    requires
        0 <= m < lists.len(),
    ensures
        all_ids(lists, 0).len() == 0,
        all_ids(lists, (m + 1) as nat).len() == all_ids(lists, m as nat).len() + lists[m].len(),
        all_ids(lists, (m + 1) as nat).len() <= all_ids(lists, lists.len()).len(),
        forall|i: int|
            #![trigger lists[m][i]]
            0 <= i < lists[m].len() ==> all_ids(lists, lists.len())[all_ids(
                lists,
                m as nat,
            ).len() + i] == lists[m][i].0,
{
    lemma_ids_monotone(lists, (m + 1) as nat, lists.len());
    lemma_ids_prefix(lists, (m + 1) as nat, lists.len());
    let here = all_ids(lists, (m + 1) as nat);
    let all = all_ids(lists, lists.len());
    assert forall|i: int| #![trigger lists[m][i]] 0 <= i < lists[m].len() implies all[all_ids(
        lists,
        m as nat,
    ).len() + i] == lists[m][i].0 by {
        assert(all.take(here.len() as int)[all_ids(lists, m as nat).len() + i] == here[all_ids(
            lists,
            m as nat,
        ).len() + i]);
    }
}

proof fn lemma_ids_prefix(lists: Seq<Seq<Node>>, a: nat, b: nat)
    requires
        a <= b,
    ensures
        all_ids(lists, b).take(all_ids(lists, a).len() as int) == all_ids(lists, a),
    decreases b,
{
    lemma_ids_monotone(lists, a, b);
    if a < b {
        lemma_ids_monotone(lists, a, (b - 1) as nat);
        lemma_ids_prefix(lists, a, (b - 1) as nat);
        let before = all_ids(lists, (b - 1) as nat);
        assert(all_ids(lists, b).take(all_ids(lists, a).len() as int) =~= before.take(
            all_ids(lists, a).len() as int,
        ));
    } else {
        assert(all_ids(lists, b).take(all_ids(lists, a).len() as int) =~= all_ids(lists, a));
    }
}

/// No smaller grid would do: with a row less, or a group less where there is
/// one row only, the threads of 64 a group would not be enough.
pub proof fn grids_are_no_larger_than_needed(threads: u32)
    requires
        threads > 0,
    ensures
        ({
            let grid = grid_of(threads as int);
            &&& grid.1 == 1 ==> 64 * (grid.0 - 1) < threads
            &&& grid.1 != 1 ==> grid.0 == 65535 && 64 * (65535 * (grid.1 - 1)) < threads
            &&& grid.1 >= 1
            &&& grid.2 == 1
        }),
{
}

/// A buffer holds everything that is written to it, and is never empty.
pub proof fn buffers_hold_their_contents(len: nat)
    ensures
        buffer_size(len) >= len,
        buffer_size(len) >= 4,
        buffer_size(len) == len || buffer_size(len) == 4,
{
}

} // verus!
