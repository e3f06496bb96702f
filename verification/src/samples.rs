//! Packed storage of recorded samples.

use vstd::prelude::*;

use crate::factor::node_lists;
use crate::graph::{Block, Node, NodeKind};
use crate::program::Program;
use crate::record::spin_of;

verus! {

/// How the values of one observed block are packed in sample storage.
#[derive(Clone, Copy, Debug)]
pub struct ObservedBlockLayout {
    /// Offset of the block region in the storage, in words.
    pub base: u32,
    /// Words per (sample, chain) frame: `ceil(len / 32)` for spin
    /// blocks (one bit per node), `len` for categorical blocks.
    pub words_per_frame: u32,
    pub is_spin: bool,
    pub node_count: u32,
}

/// Packed storage layout for a set of observed blocks.
#[derive(Debug)]
pub struct ObservedLayout {
    pub blocks: Vec<ObservedBlockLayout>,
    pub total_words: u32,
}

/// Whether the values of an observed block are packed one bit per node:
/// that is up to its first node.
pub open spec fn packs_bits(kinds: Seq<NodeKind>, nodes: Seq<Node>) -> bool {
    kinds[nodes[0].0 as int] == NodeKind::Spin
}

/// Words that one frame of an observed block takes.
pub open spec fn frame_words(kinds: Seq<NodeKind>, nodes: Seq<Node>) -> nat {
    if packs_bits(kinds, nodes) {
        ((nodes.len() + 31) / 32) as nat
    } else {
        nodes.len()
    }
}

/// Words that the first `count` observed blocks take.
pub open spec fn region_start(
    kinds: Seq<NodeKind>,
    observed: Seq<Seq<Node>>,
    n_frames: nat,
    count: nat,
) -> nat
    decreases count,
{
    if count == 0 {
        0
    } else {
        region_start(kinds, observed, n_frames, (count - 1) as nat) + frame_words(
            kinds,
            observed[count - 1],
        ) * n_frames
    }
}

pub proof fn lemma_region_start(
    kinds: Seq<NodeKind>,
    observed: Seq<Seq<Node>>,
    n_frames: nat,
    a: nat,
    b: nat,
)
    requires
        a < b,
    ensures
        region_start(kinds, observed, n_frames, a) + frame_words(kinds, observed[a as int])
            * n_frames <= region_start(kinds, observed, n_frames, b),
    decreases b,
{
    if a < b - 1 {
        lemma_region_start(kinds, observed, n_frames, a, (b - 1) as nat);
        let words = frame_words(kinds, observed[b - 1]);
        assert(words * n_frames >= 0) by (nonlinear_arith)
            requires
                words >= 0,
                n_frames >= 0,
        ;
    }
}

/// Whether the observed blocks can be laid out: each has a node, and the
/// whole storage is indexed by single words.
pub open spec fn observable(
    kinds: Seq<NodeKind>,
    observed: Seq<Seq<Node>>,
    n_samples: u32,
    n_chains: u32,
) -> bool {
    &&& n_samples * n_chains <= u32::MAX
    &&& forall|b: int|
        #![trigger observed[b]]
        0 <= b < observed.len() ==> {
            &&& 0 < observed[b].len() <= u32::MAX
            &&& (observed[b][0].0 as int) < kinds.len()
        }
    &&& region_start(kinds, observed, (n_samples * n_chains) as nat, observed.len()) <= u32::MAX
}

impl ObservedLayout {
    /// Whether this is the layout of the observed blocks for a number of frames.
    pub open spec fn lays_out(
        &self,
        kinds: Seq<NodeKind>,
        observed: Seq<Seq<Node>>,
        n_frames: nat,
    ) -> bool {
        &&& self.blocks@.len() == observed.len()
        &&& self.total_words == region_start(kinds, observed, n_frames, observed.len())
        &&& forall|b: int|
            #![trigger self.blocks@[b]]
            0 <= b < observed.len() ==> {
                &&& self.blocks@[b].base == region_start(kinds, observed, n_frames, b as nat)
                &&& self.blocks@[b].words_per_frame == frame_words(kinds, observed[b])
                &&& self.blocks@[b].is_spin == packs_bits(kinds, observed[b])
                &&& self.blocks@[b].node_count == observed[b].len()
            }
    }

    /// Lay out the frames of the observed blocks one block after the other.
    pub fn new<W>(
        program: &Program<W>,
        observed: &[Block],
        n_samples: u32,
        n_chains: u32,
    ) -> (r: Self)
        requires
            observable(program.node_kinds@, node_lists(observed@), n_samples, n_chains),
        ensures
            r.lays_out(
                program.node_kinds@,
                node_lists(observed@),
                (n_samples * n_chains) as nat,
            ),
    {
        let ghost kinds = program.node_kinds@;
        let ghost lists = node_lists(observed@);
        let n_frames: u32 = n_samples * n_chains;
        let mut base: u32 = 0;
        let mut blocks: Vec<ObservedBlockLayout> = Vec::new();
        for b in 0..observed.len()
            invariant
                kinds == program.node_kinds@,
                lists == node_lists(observed@),
                observable(kinds, lists, n_samples, n_chains),
                n_frames == n_samples * n_chains,
                base == region_start(kinds, lists, n_frames as nat, b as nat),
                blocks@.len() == b,
                forall|c: int|
                    #![trigger blocks@[c]]
                    0 <= c < b ==> {
                        &&& blocks@[c].base == region_start(
                            kinds,
                            lists,
                            n_frames as nat,
                            c as nat,
                        )
                        &&& blocks@[c].words_per_frame == frame_words(kinds, lists[c])
                        &&& blocks@[c].is_spin == packs_bits(kinds, lists[c])
                        &&& blocks@[c].node_count == lists[c].len()
                    },
        {
            let block = &observed[b];
            assert(lists[b as int] == block@);
            let is_spin: bool = program.node_kinds[block.nodes[0].index()] == NodeKind::Spin;
            let node_count: u32 = block.len() as u32;
            let words_per_frame: u32 = if is_spin {
                node_count / 32 + (if node_count % 32 == 0 {
                    0u32
                } else {
                    1u32
                })
            } else {
                node_count
            };
            assert(words_per_frame == frame_words(kinds, block@));
            blocks.push(ObservedBlockLayout { base, words_per_frame, is_spin, node_count });
            proof {
                lemma_region_start(kinds, lists, n_frames as nat, b as nat, (b + 1) as nat);
                if b + 1 < lists.len() {
                    lemma_region_start(
                        kinds,
                        lists,
                        n_frames as nat,
                        (b + 1) as nat,
                        lists.len(),
                    );
                    let words = frame_words(kinds, lists[b + 1]);
                    assert(words * n_frames as nat >= 0) by (nonlinear_arith)
                        requires
                            words >= 0,
                    ;
                }
                assert(words_per_frame * n_frames >= 0) by (nonlinear_arith)
                    requires
                        words_per_frame >= 0,
                        n_frames >= 0,
                ;
            }
            base = base + words_per_frame * n_frames;
        }
        ObservedLayout { blocks, total_words: base }
    }
}

impl ObservedBlockLayout {
    /// Number of positions that one frame has room for.
    pub open spec fn capacity(self) -> int {
        if self.is_spin {
            32 * self.words_per_frame
        } else {
            self.words_per_frame as int
        }
    }

    /// The word that holds a position of a frame.
    pub open spec fn word(self, frame: int, position: int) -> int {
        self.base + frame * self.words_per_frame + if self.is_spin {
            position / 32
        } else {
            position
        }
    }

    /// The value stored at a position of a frame.
    pub open spec fn stored(self, data: Seq<u32>, frame: int, position: int) -> u32 {
        if self.is_spin {
            (data[self.word(frame, position)] >> ((position % 32) as u32)) & 1
        } else {
            data[self.word(frame, position)]
        }
    }
}

/// A word read as a two's complement number.
pub open spec fn as_signed(value: u32) -> int {
    if value < 0x8000_0000 {
        value as int
    } else {
        value - 0x1_0000_0000
    }
}

proof fn lemma_as_signed(value: u32)
    ensures
        value as i32 == as_signed(value),
{
    if value < 0x8000_0000 {
        assert(value as i32 == value) by (bit_vector)
            requires
                value < 0x8000_0000,
        ;
    } else {
        assert(value as i32 == value - 0x1_0000_0000) by (bit_vector)
            requires
                value >= 0x8000_0000,
        ;
    }
}

/// Samples recorded from a run, for a list of observed blocks.
///
/// Spin values are packed one bit per node, categorical values take
/// a full word each.
pub struct Samples {
    pub layout: ObservedLayout,
    pub n_samples: u32,
    pub n_chains: u32,
    pub data: Vec<u32>,
}

/// The frame of a sample of a chain: the chains of a sample follow each other.
pub open spec fn frame_of(n_chains: int, sample: int, chain: int) -> int {
    sample * n_chains + chain
}

impl Samples {
    /// The frame of a sample of a chain.
    pub open spec fn frame(&self, sample: u32, chain: u32) -> int {
        frame_of(self.n_chains as int, sample as int, chain as int)
    }

    /// The value at a position of an observed block.
    pub open spec fn at(&self, block: int, sample: u32, chain: u32, position: u32) -> u32 {
        self.layout.blocks@[block].stored(self.data@, self.frame(sample, chain), position as int)
    }

    /// Whether the position is within the storage.
    pub open spec fn holds(
        &self,
        block: int,
        sample: u32,
        chain: u32,
        position: u32,
    ) -> bool {
        &&& 0 <= block < self.layout.blocks@.len()
        &&& self.layout.blocks@[block].word(self.frame(sample, chain), position as int)
            < self.data@.len()
    }

    /// Number of recorded samples.
    pub fn sample_count(&self) -> (r: u32)
        ensures
            r == self.n_samples,
    {
        self.n_samples
    }

    /// Number of chains.
    pub fn chain_count(&self) -> (r: u32)
        ensures
            r == self.n_chains,
    {
        self.n_chains
    }

    /// Value of node `position` of observed block `block_index`,
    /// in the given sample and chain: 0/1 for spins, the category
    /// index for categorical nodes.
    pub fn value(&self, block_index: usize, sample: u32, chain: u32, position: u32) -> (r: u32)
        requires
            self.holds(block_index as int, sample, chain, position),
        ensures
            r == self.at(block_index as int, sample, chain, position),
            self.layout.blocks@[block_index as int].is_spin ==> r <= 1,
    {
        let block = self.layout.blocks[block_index];
        assert(sample * self.n_chains <= 0xFFFF_FFFF * 0xFFFF_FFFF) by (nonlinear_arith)
            requires
                sample <= 0xFFFF_FFFF,
                self.n_chains <= 0xFFFF_FFFF,
        ;
        assert(self.data@.len() == self.data.len());
        let frame: u64 = sample as u64 * self.n_chains as u64 + chain as u64;
        assert(0 <= frame * block.words_per_frame) by (nonlinear_arith)
            requires
                frame >= 0,
                block.words_per_frame >= 0,
        ;
        let frame_base: u64 = block.base as u64 + frame * block.words_per_frame as u64;
        if block.is_spin {
            let word: u32 = self.data[(frame_base + (position / 32) as u64) as usize];
            let shift: u32 = position % 32;
            assert((word >> shift) & 1 <= 1) by (bit_vector);
            (word >> shift) & 1
        } else {
            self.data[(frame_base + position as u64) as usize]
        }
    }

    /// Whether the value at a position can be read as a spin.
    pub open spec fn holds_spin(
        &self,
        block: int,
        sample: u32,
        chain: u32,
        position: u32,
    ) -> bool {
        &&& self.holds(block, sample, chain, position)
        &&& i32::MIN < 2 * as_signed(self.at(block, sample, chain, position)) <= i32::MAX
    }

    /// Value of node `position` as a spin in {-1, +1}.
    pub fn spin(&self, block_index: usize, sample: u32, chain: u32, position: u32) -> (r: i32)
        requires
            self.holds_spin(block_index as int, sample, chain, position),
        ensures
            r == 2 * as_signed(self.at(block_index as int, sample, chain, position)) - 1,
            self.layout.blocks@[block_index as int].is_spin ==> r == spin_of(
                self.at(block_index as int, sample, chain, position),
            ) && (r == 1 || r == -1),
            self.at(block_index as int, sample, chain, position) == 0 ==> r == -1,
            self.at(block_index as int, sample, chain, position) == 1 ==> r == 1,
    {
        let value: u32 = self.value(block_index, sample, chain, position);
        proof {
            lemma_as_signed(value);
        }
        let signed: i32 = value as i32;
        signed * 2 - 1
    }

    /// Whether the position is within the storage.
    pub fn has_value(&self, block_index: usize, sample: u32, chain: u32, position: u32) -> (r: bool)
        ensures
            r == self.holds(block_index as int, sample, chain, position),
    {
        if block_index >= self.layout.blocks.len() {
            return false;
        }
        let block = self.layout.blocks[block_index];
        assert(0 <= sample * self.n_chains <= 0xFFFF_FFFF * 0xFFFF_FFFF) by (nonlinear_arith)
            requires
                0 <= sample <= 0xFFFF_FFFF,
                0 <= self.n_chains <= 0xFFFF_FFFF,
        ;
        let frame: u128 = sample as u128 * self.n_chains as u128 + chain as u128;
        assert(0 <= frame * block.words_per_frame <= 0xFFFF_FFFF_FFFF_FFFF * 0xFFFF_FFFF)
            by (nonlinear_arith)
            requires
                0 <= frame <= 0xFFFF_FFFF_FFFF_FFFF,
                0 <= block.words_per_frame <= 0xFFFF_FFFF,
        ;
        let place: u32 = if block.is_spin {
            position / 32
        } else {
            position
        };
        block.base as u128 + frame * block.words_per_frame as u128 + (place as u128)
            < self.data.len() as u128
    }

    /// Whether the value at a position can be read as a spin.
    pub fn has_spin(&self, block_index: usize, sample: u32, chain: u32, position: u32) -> (r: bool)
        ensures
            r == self.holds_spin(block_index as int, sample, chain, position),
    {
        if !self.has_value(block_index, sample, chain, position) {
            return false;
        }
        let value: u32 = self.value(block_index, sample, chain, position);
        value < 0x4000_0000 || value > 0xC000_0000
    }

    /// Whether a node has a mean spin: there is a spin in every sample and
    /// chain, and they can be counted.
    pub fn has_mean_spin(&self, block_index: usize, position: u32) -> (r: bool)
        ensures
            r == (self.n_samples * self.n_chains <= u32::MAX && forall|sample: u32, chain: u32|
                sample < self.n_samples && chain < self.n_chains ==> #[trigger] self.holds_spin(
                    block_index as int,
                    sample,
                    chain,
                    position,
                )),
    {
        assert(0 <= self.n_samples * self.n_chains <= 0xFFFF_FFFF * 0xFFFF_FFFF)
            by (nonlinear_arith)
            requires
                0 <= self.n_samples <= 0xFFFF_FFFF,
                0 <= self.n_chains <= 0xFFFF_FFFF,
        ;
        if self.n_samples as u64 * self.n_chains as u64 > 0xFFFF_FFFF {
            return false;
        }
        for sample in 0..self.n_samples
            invariant
                forall|s: u32, c: u32|
                    s < sample && c < self.n_chains ==> #[trigger] self.holds_spin(
                        block_index as int,
                        s,
                        c,
                        position,
                    ),
        {
            for chain in 0..self.n_chains
                invariant
                    sample < self.n_samples,
                    forall|s: u32, c: u32|
                        (s < sample && c < self.n_chains) || (s == sample && c < chain)
                            ==> #[trigger] self.holds_spin(block_index as int, s, c, position),
            {
                if !self.has_spin(block_index, sample, chain, position) {
                    return false;
                }
            }
        }
        true
    }

    /// The sum of the spins of a node over the first `count` frames.
    pub open spec fn spin_sum(&self, block: int, position: u32, count: int) -> int
        decreases count,
    {
        if count <= 0 {
            0
        } else {
            self.spin_sum(block, position, count - 1) + (2 * as_signed(
                self.layout.blocks@[block].stored(self.data@, count - 1, position as int),
            ) - 1)
        }
    }

    /// The spins of a node added up over all samples and chains, and how many
    /// there are: the mean spin is their quotient.
    pub fn mean_spin(&self, block_index: usize, position: u32) -> (r: (i64, u64))
        requires
            self.n_samples * self.n_chains <= u32::MAX,
            forall|sample: u32, chain: u32|
                sample < self.n_samples && chain < self.n_chains ==> #[trigger] self.holds_spin(
                    block_index as int,
                    sample,
                    chain,
                    position,
                ),
        ensures
            r.0 == self.spin_sum(
                block_index as int,
                position,
                self.n_samples * self.n_chains,
            ),
            r.1 == self.n_samples * self.n_chains,
    {
        let mut total: i64 = 0;
        let ghost mut done: int = 0;
        for sample in 0..self.n_samples
            invariant
                self.n_samples * self.n_chains <= u32::MAX,
                forall|s: u32, c: u32|
                    s < self.n_samples && c < self.n_chains ==> #[trigger] self.holds_spin(
                        block_index as int,
                        s,
                        c,
                        position,
                    ),
                done == sample * self.n_chains,
                0 <= done <= u32::MAX,
                total == self.spin_sum(block_index as int, position, done),
                -0x8000_0000 * done <= total <= 0x8000_0000 * done,
        {
            assert(sample * self.n_chains + self.n_chains <= self.n_samples * self.n_chains)
                by (nonlinear_arith)
                requires
                    sample < self.n_samples,
                    self.n_chains >= 0,
            ;
            for chain in 0..self.n_chains
                invariant
                    self.n_samples * self.n_chains <= u32::MAX,
                    sample < self.n_samples,
                    sample * self.n_chains + self.n_chains <= self.n_samples * self.n_chains,
                    forall|s: u32, c: u32|
                        s < self.n_samples && c < self.n_chains ==> #[trigger] self.holds_spin(
                            block_index as int,
                            s,
                            c,
                            position,
                        ),
                    done == sample * self.n_chains + chain,
                    0 <= done <= u32::MAX,
                    total == self.spin_sum(block_index as int, position, done),
                    -0x8000_0000 * done <= total <= 0x8000_0000 * done,
            {
                let ghost here = self.at(block_index as int, sample, chain, position);
                let spin: i32 = self.spin(block_index, sample, chain, position);
                proof {
                    assert(here == self.layout.blocks@[block_index as int].stored(
                        self.data@,
                        done,
                        position as int,
                    ));
                    done = done + 1;
                }
                total = total + spin as i64;
            }
            assert((sample + 1) * self.n_chains == sample * self.n_chains + self.n_chains)
                by (nonlinear_arith);
        }
        (total, self.n_samples as u64 * self.n_chains as u64)
    }
}

/// Whether a position belongs to the storage of a layout.
pub open spec fn in_storage(layout: &ObservedLayout, n_frames: int, b: int, f: int, position: int)
    -> bool {
    &&& 0 <= b < layout.blocks@.len()
    &&& 0 <= f < n_frames
    &&& 0 <= position < layout.blocks@[b].capacity()
}

/// A position of the storage lies within its frame, and that within the region of its block.
pub proof fn lemma_word_bounds(
    layout: &ObservedLayout,
    kinds: Seq<NodeKind>,
    observed: Seq<Seq<Node>>,
    n_frames: nat,
    b: int,
    f: int,
    position: int,
)
    requires
        layout.lays_out(kinds, observed, n_frames),
        in_storage(layout, n_frames as int, b, f, position),
    ensures
        ({
            let block = layout.blocks@[b];
            let start = block.base + f * block.words_per_frame;
            &&& 0 <= block.base <= start
            &&& start <= block.word(f, position) < start + block.words_per_frame
            &&& start + block.words_per_frame <= block.base + block.words_per_frame * n_frames
            &&& block.base + block.words_per_frame * n_frames <= layout.total_words
        }),
{
    let block = layout.blocks@[b];
    let words = block.words_per_frame as int;
    assert(0 <= f * words && f * words + words <= words * n_frames) by (nonlinear_arith)
        requires
            0 <= f < n_frames,
            0 <= words,
    ;
    lemma_region_start(kinds, observed, n_frames, b as nat, observed.len());
}

/// Different frames do not share words.
proof fn lemma_words_apart(
    layout: &ObservedLayout,
    kinds: Seq<NodeKind>,
    observed: Seq<Seq<Node>>,
    n_frames: nat,
    b: int,
    f: int,
    position: int,
    b2: int,
    f2: int,
    position2: int,
)
    requires
        layout.lays_out(kinds, observed, n_frames),
        in_storage(layout, n_frames as int, b, f, position),
        in_storage(layout, n_frames as int, b2, f2, position2),
        layout.blocks@[b].word(f, position) == layout.blocks@[b2].word(f2, position2),
    ensures
        b == b2,
        f == f2,
{
    lemma_word_bounds(layout, kinds, observed, n_frames, b, f, position);
    lemma_word_bounds(layout, kinds, observed, n_frames, b2, f2, position2);
    if b < b2 {
        lemma_region_start(kinds, observed, n_frames, b as nat, b2 as nat);
    } else if b2 < b {
        lemma_region_start(kinds, observed, n_frames, b2 as nat, b as nat);
    } else {
        let words = layout.blocks@[b].words_per_frame as int;
        if f < f2 {
            assert(f * words + words <= f2 * words) by (nonlinear_arith)
                requires
                    f < f2,
                    words >= 0,
            ;
        } else if f2 < f {
            assert(f2 * words + words <= f * words) by (nonlinear_arith)
                requires
                    f2 < f,
                    words >= 0,
            ;
        }
    }
}

proof fn lemma_or_bit(word: u32, bit: u32, i: u32, j: u32)
    by (bit_vector)
    requires
        i < 32,
        j < 32,
    ensures
        i == j ==> ((word | ((bit & 1) << i)) >> j) & 1 == ((word >> j) & 1) | (bit & 1),
        i != j ==> ((word | ((bit & 1) << i)) >> j) & 1 == (word >> j) & 1,
{
}

/// The value that a position holds after a value was recorded there.
pub open spec fn recorded(block: ObservedBlockLayout, before: u32, value: u32) -> u32 {
    if block.is_spin {
        before | (value & 1)
    } else {
        value
    }
}

/// Record one value.
fn store(
    layout: &ObservedLayout,
    data: &mut Vec<u32>,
    b: usize,
    frame: u32,
    position: u32,
    value: u32,
    Ghost(kinds): Ghost<Seq<NodeKind>>,
    Ghost(observed): Ghost<Seq<Seq<Node>>>,
    Ghost(n_frames): Ghost<nat>,
)
    requires
        layout.lays_out(kinds, observed, n_frames),
        in_storage(layout, n_frames as int, b as int, frame as int, position as int),
        old(data)@.len() == layout.total_words,
    ensures
        final(data)@.len() == old(data)@.len(),
        forall|c: int, f: int, p: int|
            in_storage(layout, n_frames as int, c, f, p)
                ==> #[trigger] layout.blocks@[c].stored(final(data)@, f, p) == if c == b && f
                == frame && p == position {
                recorded(
                    layout.blocks@[c],
                    layout.blocks@[c].stored(old(data)@, f, p),
                    value,
                )
            } else {
                layout.blocks@[c].stored(old(data)@, f, p)
            },
{
    let block = layout.blocks[b];
    proof {
        lemma_word_bounds(
            layout,
            kinds,
            observed,
            n_frames,
            b as int,
            frame as int,
            position as int,
        );
    }
    let ghost word = block.word(frame as int, position as int);
    let base: usize = block.base as usize + frame as usize * block.words_per_frame as usize;
    if block.is_spin {
        let slot: usize = base + (position / 32) as usize;
        let bit: u32 = (value & 1) << (position % 32);
        data[slot] = data[slot] | bit;
    } else {
        data[base + position as usize] = value;
    }
    proof {
        assert forall|c: int, f: int, p: int|
            in_storage(layout, n_frames as int, c, f, p) implies #[trigger] layout.blocks@[c].stored(
            data@,
            f,
            p,
        ) == if c == b && f == frame && p == position {
            recorded(layout.blocks@[c], layout.blocks@[c].stored(old(data)@, f, p), value)
        } else {
            layout.blocks@[c].stored(old(data)@, f, p)
        } by {
            let other = layout.blocks@[c].word(f, p);
            lemma_word_bounds(layout, kinds, observed, n_frames, c, f, p);
            if other == word {
                lemma_words_apart(
                    layout,
                    kinds,
                    observed,
                    n_frames,
                    b as int,
                    frame as int,
                    position as int,
                    c,
                    f,
                    p,
                );
                if block.is_spin {
                    lemma_or_bit(
                        old(data)@[word],
                        value,
                        (position % 32) as u32,
                        (p % 32) as u32,
                    );
                }
            }
        }
    }
}

/// Whether the values of a chain were recorded in a frame, and nothing else
/// has changed in the storage.
pub open spec fn frame_written(
    layout: &ObservedLayout,
    observed: Seq<Seq<Node>>,
    n_frames: int,
    frame: int,
    values: Seq<u32>,
    before: Seq<u32>,
    after: Seq<u32>,
) -> bool {
    &&& after.len() == before.len()
    &&& forall|b: int, f: int, p: int|
        in_storage(layout, n_frames, b, f, p) ==> #[trigger] layout.blocks@[b].stored(after, f, p)
            == if f == frame && p < observed[b].len() {
            recorded(
                layout.blocks@[b],
                layout.blocks@[b].stored(before, f, p),
                values[observed[b][p].0 as int],
            )
        } else {
            layout.blocks@[b].stored(before, f, p)
        }
}

/// Record the values of all observed blocks in one chain.
pub(crate) fn write_sample_frame(
    layout: &ObservedLayout,
    observed: &[Block],
    data: &mut Vec<u32>,
    chain_values: &[u32],
    sample: u32,
    n_chains: u32,
    chain: u32,
    Ghost(kinds): Ghost<Seq<NodeKind>>,
    Ghost(n_frames): Ghost<nat>,
)
    requires
        layout.lays_out(kinds, node_lists(observed@), n_frames),
        sample * n_chains + chain < n_frames,
        n_frames <= u32::MAX,
        old(data)@.len() == layout.total_words,
        forall|b: int, p: int|
            #![trigger node_lists(observed@)[b][p]]
            0 <= b < observed@.len() && 0 <= p < node_lists(observed@)[b].len() ==> (node_lists(
                observed@,
            )[b][p].0 as int) < chain_values@.len(),
        forall|b: int|
            0 <= b < observed@.len() ==> node_lists(observed@)[b].len() <= #[trigger] layout.blocks@[b].capacity(),
    ensures
        frame_written(
            layout,
            node_lists(observed@),
            n_frames as int,
            frame_of(n_chains as int, sample as int, chain as int),
            chain_values@,
            old(data)@,
            final(data)@,
        ),
{
    let ghost lists = node_lists(observed@);
    assert(0 <= sample * n_chains) by (nonlinear_arith)
        requires
            sample >= 0,
            n_chains >= 0,
    ;
    let frame: u32 = sample * n_chains + chain;
    for b in 0..observed.len()
        invariant
            lists == node_lists(observed@),
            layout.lays_out(kinds, lists, n_frames),
            frame < n_frames,
            n_frames <= u32::MAX,
            data@.len() == layout.total_words,
            forall|c: int, p: int|
                #![trigger lists[c][p]]
                0 <= c < lists.len() && 0 <= p < lists[c].len() ==> (lists[c][p].0 as int)
                    < chain_values@.len(),
            forall|c: int|
                0 <= c < lists.len() ==> lists[c].len() <= #[trigger] layout.blocks@[c].capacity(),
            forall|c: int, f: int, p: int|
                in_storage(layout, n_frames as int, c, f, p)
                    ==> #[trigger] layout.blocks@[c].stored(data@, f, p) == if c < b && f == frame
                    && p < lists[c].len() {
                    recorded(
                        layout.blocks@[c],
                        layout.blocks@[c].stored(old(data)@, f, p),
                        chain_values@[lists[c][p].0 as int],
                    )
                } else {
                    layout.blocks@[c].stored(old(data)@, f, p)
                },
    {
        let block = &observed[b];
        assert(lists[b as int] == block@);
        let count: usize = block.len();
        assert(count == layout.blocks@[b as int].node_count);
        for position in 0..count
            invariant
                lists == node_lists(observed@),
                0 <= b < observed@.len(),
                block == observed@[b as int],
                lists[b as int] == block@,
                count == block@.len(),
                count <= u32::MAX,
                layout.lays_out(kinds, lists, n_frames),
                frame < n_frames,
                n_frames <= u32::MAX,
                data@.len() == layout.total_words,
                forall|c: int, p: int|
                    #![trigger lists[c][p]]
                    0 <= c < lists.len() && 0 <= p < lists[c].len() ==> (lists[c][p].0 as int)
                        < chain_values@.len(),
                forall|c: int|
                    0 <= c < lists.len() ==> lists[c].len()
                        <= #[trigger] layout.blocks@[c].capacity(),
                forall|c: int, f: int, p: int|
                    in_storage(layout, n_frames as int, c, f, p)
                        ==> #[trigger] layout.blocks@[c].stored(data@, f, p) == if (c < b || (c == b
                        && p < position)) && f == frame && p < lists[c].len() {
                        recorded(
                            layout.blocks@[c],
                            layout.blocks@[c].stored(old(data)@, f, p),
                            chain_values@[lists[c][p].0 as int],
                        )
                    } else {
                        layout.blocks@[c].stored(old(data)@, f, p)
                    },
        {
            let node: Node = block.nodes[position];
            assert(lists[b as int][position as int] == node);
            assert(lists[b as int].len() <= layout.blocks@[b as int].capacity());
            store(
                layout,
                data,
                b,
                frame,
                position as u32,
                chain_values[node.index()],
                Ghost(kinds),
                Ghost(lists),
                Ghost(n_frames),
            );
        }
    }
}

} // verus!
