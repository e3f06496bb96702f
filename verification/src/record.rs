//! The update stream: how the contributions of factor instances to one node
//! are laid out in memory.
//!
//! Each record is laid out as:
//!
//! ```text
//! [0]              weight base index
//! [1]              head stride (categorical head only, 0 for spins)
//! [2]              spin tail count | categorical tail count << 16
//! [3 ..]           spin tail node ids
//! [3 + n_spin ..]  (categorical tail node id, stride) pairs
//! ```
//!
//! A spin head accumulates `gamma += prod(spin tails) * weights[base + dot(cat tails, strides)]`
//! and samples `P(up) = sigmoid(2 * gamma)`. A categorical head accumulates
//! `theta[k] += prod(spin tails) * weights[base + k * head_stride + dot(cat tails, strides)]`
//! and samples the softmax of `theta`.

use vstd::prelude::*;

verus! {

/// Fixed header size of one record in the update stream, in words.
pub const RECORD_HEADER_WORDS: usize = 3;

/// Largest number of tails of one kind that a record can hold.
pub const MAX_TAILS: usize = 0xFFFF;

/// What one record of the update stream says.
#[verifier::ext_equal]
pub struct RecordView {
    pub weight_base: u32,
    pub head_stride: u32,
    pub spin_tails: Seq<u32>,
    /// Pairs of (node id, weight stride).
    pub cat_tails: Seq<(u32, u32)>,
}

/// The words of a list of pairs.
pub open spec fn pair_words(pairs: Seq<(u32, u32)>) -> Seq<u32> {
    Seq::new(2 * pairs.len(), |i: int| if i % 2 == 0 { pairs[i / 2].0 } else { pairs[i / 2].1 })
}

/// The pairs that a list of words holds.
pub open spec fn word_pairs(words: Seq<u32>) -> Seq<(u32, u32)> {
    Seq::new(words.len() / 2, |i: int| (words[2 * i], words[2 * i + 1]))
}

/// The header word that holds both tail counts.
pub open spec fn count_word(spin_count: u32, cat_count: u32) -> u32 {
    spin_count | (cat_count << 16)
}

impl RecordView {
    /// Whether the tail counts fit in the header.
    pub open spec fn fits(self) -> bool {
        self.spin_tails.len() <= MAX_TAILS && self.cat_tails.len() <= MAX_TAILS
    }

    /// The words of the record.
    pub open spec fn encode(self) -> Seq<u32> {
        seq![
            self.weight_base,
            self.head_stride,
            count_word(self.spin_tails.len() as u32, self.cat_tails.len() as u32),
        ] + self.spin_tails + pair_words(self.cat_tails)
    }

    /// The node ids that the record reads, in order.
    pub open spec fn tail_ids(self) -> Seq<u32> {
        self.spin_tails + Seq::new(self.cat_tails.len(), |i: int| self.cat_tails[i].0)
    }

    /// The product of the tail spins, each -1 or +1.
    pub open spec fn product(self, values: Seq<u32>) -> int {
        spin_product(self.spin_tails, values)
    }

    /// The weight index that the categorical tails select.
    pub open spec fn index(self, values: Seq<u32>) -> int {
        self.weight_base + tail_offset(self.cat_tails, values)
    }
}

/// The spin that a stored value stands for: -1 for 0, +1 for 1.
pub open spec fn spin_of(value: u32) -> int {
    2 * value - 1
}

/// The product of the spins of the listed nodes.
pub open spec fn spin_product(ids: Seq<u32>, values: Seq<u32>) -> int
    decreases ids.len(),
{
    if ids.len() == 0 {
        1
    } else {
        spin_product(ids.drop_last(), values) * spin_of(values[ids.last() as int])
    }
}

/// The weight offset that the values of categorical tails add up to.
pub open spec fn tail_offset(tails: Seq<(u32, u32)>, values: Seq<u32>) -> int
    decreases tails.len(),
{
    if tails.len() == 0 {
        0
    } else {
        tail_offset(tails.drop_last(), values) + values[tails.last().0 as int] * tails.last().1
    }
}

/// The update stream of a list of records.
pub open spec fn encode_all(records: Seq<RecordView>) -> Seq<u32>
    decreases records.len(),
{
    if records.len() == 0 {
        Seq::empty()
    } else {
        encode_all(records.drop_last()) + records.last().encode()
    }
}

/// The node ids that a list of records reads, in order.
pub open spec fn all_tail_ids(records: Seq<RecordView>) -> Seq<u32>
    decreases records.len(),
{
    if records.len() == 0 {
        Seq::empty()
    } else {
        all_tail_ids(records.drop_last()) + records.last().tail_ids()
    }
}

/// Number of words of the record at the start of the stream.
pub open spec fn head_len(words: Seq<u32>) -> int {
    RECORD_HEADER_WORDS + (words[2] & 0xFFFF) + 2 * (words[2] >> 16)
}

/// Whether the stream is a whole number of records.
pub open spec fn framed(words: Seq<u32>) -> bool
    decreases words.len(),
{
    words.len() == 0 || (RECORD_HEADER_WORDS <= words.len() && head_len(words) <= words.len()
        && framed(words.skip(head_len(words))))
}

/// The record at the start of the stream.
pub open spec fn head_record(words: Seq<u32>) -> RecordView {
    let spin_count = (words[2] & 0xFFFF) as int;
    RecordView {
        weight_base: words[0],
        head_stride: words[1],
        spin_tails: words.subrange(
            RECORD_HEADER_WORDS as int,
            RECORD_HEADER_WORDS + spin_count,
        ),
        cat_tails: word_pairs(words.subrange(RECORD_HEADER_WORDS + spin_count, head_len(words))),
    }
}

/// The records of a stream.
pub open spec fn decode(words: Seq<u32>) -> Seq<RecordView>
    decreases words.len(),
{
    if words.len() < RECORD_HEADER_WORDS || head_len(words) > words.len() {
        Seq::empty()
    } else {
        seq![head_record(words)] + decode(words.skip(head_len(words)))
    }
}

proof fn lemma_counts(spin_count: u32, cat_count: u32)
    by (bit_vector)
    requires
        spin_count <= 0xFFFF,
        cat_count <= 0xFFFF,
    ensures
        (spin_count | (cat_count << 16)) & 0xFFFF == spin_count,
        (spin_count | (cat_count << 16)) >> 16 == cat_count,
{
}

pub proof fn lemma_encode_concat(a: Seq<RecordView>, b: Seq<RecordView>)
    ensures
        encode_all(a + b) == encode_all(a) + encode_all(b),
    decreases b.len(),
{
    if b.len() == 0 {
        assert(a + b =~= a);
    } else {
        lemma_encode_concat(a, b.drop_last());
        assert((a + b).drop_last() =~= a + b.drop_last());
        assert((a + b).last() == b.last());
    }
}

proof fn lemma_encode_one(record: RecordView)
    ensures
        encode_all(seq![record]) == record.encode(),
{
    reveal_with_fuel(encode_all, 2);
    assert(seq![record].drop_last() =~= Seq::empty());
    assert(encode_all(seq![record]) =~= record.encode());
}

/// A stream decodes to the records that it was encoded from.
pub proof fn decode_undoes_encode(records: Seq<RecordView>)
    requires
        forall|i: int| 0 <= i < records.len() ==> (#[trigger] records[i]).fits(),
    ensures
        framed(encode_all(records)),
        decode(encode_all(records)) == records,
    decreases records.len(),
{
    if records.len() > 0 {
        let first = records[0];
        let rest = records.skip(1);
        assert(records =~= seq![first] + rest);
        lemma_encode_concat(seq![first], rest);
        lemma_encode_one(first);
        decode_undoes_encode(rest);
        let words = encode_all(records);
        let tail = encode_all(rest);
        assert(words == first.encode() + tail);
        assert(first.fits());
        lemma_counts(first.spin_tails.len() as u32, first.cat_tails.len() as u32);
        assert(words[2] == count_word(
            first.spin_tails.len() as u32,
            first.cat_tails.len() as u32,
        ));
        assert(head_len(words) == first.encode().len());
        assert(words.skip(head_len(words)) =~= tail);
        assert(head_record(words).spin_tails =~= first.spin_tails);
        let flat = words.subrange(3int + first.spin_tails.len(), head_len(words));
        assert(flat =~= pair_words(first.cat_tails));
        assert(word_pairs(flat) =~= first.cat_tails);
        assert(head_record(words) =~= first);
        assert(decode(words) =~= records);
    }
}

proof fn lemma_head_record(words: Seq<u32>)
    requires
        RECORD_HEADER_WORDS <= words.len(),
        head_len(words) <= words.len(),
    ensures
        head_record(words).fits(),
        head_record(words).encode() == words.take(head_len(words)),
{
    let first = head_record(words);
    let w = words[2];
    let spin_count = w & 0xFFFF;
    let cat_count = w >> 16;
    assert(w & 0xFFFF <= 0xFFFF && w >> 16 <= 0xFFFF && (w & 0xFFFF) | ((w >> 16) << 16) == w)
        by (bit_vector);
    let end = head_len(words);
    assert(end == 3 + spin_count + 2 * cat_count);
    let flat = words.subrange(3int + spin_count, end);
    lemma_pair_words(flat);
    lemma_three_parts(words, 3int + spin_count, end);
    assert(first.spin_tails.len() == spin_count);
    assert(first.cat_tails.len() == cat_count);
    assert(first.spin_tails.len() as u32 == spin_count);
    assert(first.cat_tails.len() as u32 == cat_count);
    assert(count_word(spin_count, cat_count) == w);
}

/// The words of a record: its header, its spin tails and its categorical tails.
proof fn lemma_three_parts(words: Seq<u32>, middle: int, end: int)
    requires
        3 <= middle <= end <= words.len(),
    ensures
        words.take(end) == seq![words[0], words[1], words[2]] + words.subrange(3, middle)
            + words.subrange(middle, end),
{
    assert(words.take(end) =~= seq![words[0], words[1], words[2]] + words.subrange(3, middle)
        + words.subrange(middle, end));
}

/// Words of an even number are those of their pairs.
proof fn lemma_pair_words(words: Seq<u32>)
    requires
        words.len() % 2 == 0,
    ensures
        pair_words(word_pairs(words)) == words,
{
    let pairs = word_pairs(words);
    assert forall|i: int| 0 <= i < words.len() implies pair_words(pairs)[i] == words[i] by {
        assert(pairs[i / 2] == (words[2 * (i / 2)], words[2 * (i / 2) + 1]));
    }
    assert(pair_words(pairs) =~= words);
}

/// Encoding the records of a well-framed stream gives the stream back.
pub proof fn encode_undoes_decode(words: Seq<u32>)
    requires
        framed(words),
    ensures
        encode_all(decode(words)) == words,
        forall|i: int| 0 <= i < decode(words).len() ==> (#[trigger] decode(words)[i]).fits(),
    decreases words.len(),
{
    if words.len() > 0 {
        let rest = words.skip(head_len(words));
        encode_undoes_decode(rest);
        lemma_head_record(words);
        let first = head_record(words);
        lemma_encode_concat(seq![first], decode(rest));
        lemma_encode_one(first);
        assert(words =~= words.take(head_len(words)) + rest);
    }
}

/// A single decoded record of the update stream.
pub struct Record<'a> {
    pub weight_base: u32,
    pub head_stride: u32,
    pub spin_tails: &'a [u32],
    /// Pairs of (node id, weight stride).
    pub cat_tails: &'a [u32],
}

impl<'a> View for Record<'a> {
    type V = RecordView;

    open spec fn view(&self) -> RecordView {
        RecordView {
            weight_base: self.weight_base,
            head_stride: self.head_stride,
            spin_tails: self.spin_tails@,
            cat_tails: word_pairs(self.cat_tails@),
        }
    }
}

/// What a list of decoded records says.
pub open spec fn record_views(records: Seq<Record<'_>>) -> Seq<RecordView> {
    Seq::new(records.len(), |i: int| records[i]@)
}

/// Whether the record reads only the given values, spins as 0 or 1.
pub open spec fn readable(record: RecordView, values: Seq<u32>) -> bool {
    &&& forall|i: int|
        0 <= i < record.spin_tails.len() ==> (#[trigger] record.spin_tails[i] as int)
            < values.len() && values[record.spin_tails[i] as int] <= 1
    &&& forall|i: int|
        0 <= i < record.cat_tails.len() ==> ((#[trigger] record.cat_tails[i]).0 as int)
            < values.len()
}

proof fn lemma_offset_monotone(tails: Seq<(u32, u32)>, values: Seq<u32>, n: int)
    requires
        0 <= n <= tails.len(),
    ensures
        0 <= tail_offset(tails.take(n), values) <= tail_offset(tails, values),
    decreases tails.len(),
{
    lemma_offset_nonnegative(tails.take(n), values);
    if n == tails.len() {
        assert(tails.take(n) =~= tails);
    } else {
        lemma_offset_monotone(tails.drop_last(), values, n);
        assert(tails.drop_last().take(n) =~= tails.take(n));
        assert(values[tails.last().0 as int] * tails.last().1 >= 0) by (nonlinear_arith)
            requires
                values[tails.last().0 as int] >= 0,
                tails.last().1 >= 0,
        ;
    }
}

pub proof fn lemma_offset_nonnegative(tails: Seq<(u32, u32)>, values: Seq<u32>)
    ensures
        tail_offset(tails, values) >= 0,
    decreases tails.len(),
{
    if tails.len() > 0 {
        lemma_offset_nonnegative(tails.drop_last(), values);
        assert(values[tails.last().0 as int] * tails.last().1 >= 0) by (nonlinear_arith)
            requires
                values[tails.last().0 as int] >= 0,
                tails.last().1 >= 0,
        ;
    }
}

impl<'a> Record<'a> {
    /// The spin product of the tails and the resolved weight index,
    /// given the dense per-node state of one chain.
    pub fn evaluate(&self, values: &[u32]) -> (r: (i32, u32))
        requires
            self.cat_tails@.len() % 2 == 0,
            readable(self@, values@),
            self@.index(values@) <= u32::MAX,
        ensures
            r.0 == self@.product(values@),
            r.0 == 1 || r.0 == -1,
            r.1 == self@.index(values@),
    {
        let mut product: i32 = 1;
        let ghost spin_tails = self.spin_tails@;
        for i in 0..self.spin_tails.len()
            invariant
                readable(self@, values@),
                spin_tails == self.spin_tails@,
                product == 1 || product == -1,
                product == spin_product(spin_tails.take(i as int), values@),
        {
            assert(spin_tails.take(i + 1).drop_last() =~= spin_tails.take(i as int));
            assert(self@.spin_tails[i as int] == spin_tails[i as int]);
            let value: u32 = values[self.spin_tails[i] as usize];
            assert(spin_product(spin_tails.take(i + 1), values@) == if value == 0 {
                -product
            } else {
                product as int
            }) by (nonlinear_arith)
                requires
                    value <= 1,
                    spin_product(spin_tails.take(i + 1), values@) == product * (2 * value - 1),
            ;
            if value == 0 {
                product = -product;
            }
        }
        assert(spin_tails.take(spin_tails.len() as int) =~= spin_tails);

        let ghost tails = self@.cat_tails;
        let mut index: u32 = self.weight_base;
        let count: usize = self.cat_tails.len() / 2;
        for i in 0..count
            invariant
                readable(self@, values@),
                self.cat_tails.len() == 2 * count,
                tails == self@.cat_tails,
                tails == word_pairs(self.cat_tails@),
                self@.index(values@) <= u32::MAX,
                index == self.weight_base + tail_offset(tails.take(i as int), values@),
        {
            assert(tails.take(i + 1).drop_last() =~= tails.take(i as int));
            assert(self@.cat_tails[i as int] == tails[i as int]);
            proof {
                lemma_offset_monotone(tails, values@, i + 1);
                lemma_offset_nonnegative(tails.take(i as int), values@);
            }
            let value: u32 = values[self.cat_tails[2 * i] as usize];
            let stride: u32 = self.cat_tails[2 * i + 1];
            assert(value * stride >= 0) by (nonlinear_arith)
                requires
                    value >= 0,
                    stride >= 0,
            ;
            index = index + value * stride;
        }
        assert(tails.take(tails.len() as int) =~= tails);
        (product, index)
    }
}

/// Decode a record stream.
///
/// The canonical parser of the format documented on this module.
pub fn parse_records<'a>(words: &'a [u32]) -> (r: Vec<Record<'a>>)
    requires
        framed(words@),
    ensures
        record_views(r@) == decode(words@),
        forall|i: int| 0 <= i < r@.len() ==> (#[trigger] r@[i]).cat_tails@.len() % 2 == 0,
{
    let mut cursor: usize = 0;
    let mut records: Vec<Record<'a>> = Vec::new();
    assert(words@.skip(0) =~= words@);
    while cursor < words.len()
        invariant
            cursor <= words@.len(),
            framed(words@.skip(cursor as int)),
            record_views(records@) + decode(words@.skip(cursor as int)) == decode(words@),
            forall|i: int|
                0 <= i < records@.len() ==> (#[trigger] records@[i]).cat_tails@.len() % 2 == 0,
        decreases words@.len() - cursor,
    {
        let ghost rest = words@.skip(cursor as int);
        let counts: u32 = words[cursor + 2];
        assert(counts == rest[2]);
        let spin_count: usize = (counts & 0xFFFF) as usize;
        let cat_count: usize = (counts >> 16) as usize;
        let spin_base: usize = cursor + RECORD_HEADER_WORDS;
        let cat_base: usize = spin_base + spin_count;
        let end: usize = cat_base + 2 * cat_count;
        let record = Record {
            weight_base: words[cursor],
            head_stride: words[cursor + 1],
            spin_tails: vstd::slice::slice_subrange(words, spin_base, cat_base),
            cat_tails: vstd::slice::slice_subrange(words, cat_base, end),
        };
        proof {
            assert(record.spin_tails@ =~= rest.subrange(3, 3 + spin_count));
            assert(record.cat_tails@ =~= rest.subrange(3 + spin_count, head_len(rest)));
            assert(record@ =~= head_record(rest));
            assert(rest.skip(head_len(rest)) =~= words@.skip(end as int));
            assert(record_views(records@.push(record)) =~= record_views(records@).push(record@));
        }
        records.push(record);
        cursor = end;
    }
    assert(decode(words@.skip(cursor as int)) =~= Seq::empty());
    records
}

/// The tail node ids of a record stream, in order.
pub fn record_tail_ids(words: &[u32]) -> (r: Vec<u32>)
    requires
        framed(words@),
    ensures
        r@ == all_tail_ids(decode(words@)),
{
    let records = parse_records(words);
    let mut ids: Vec<u32> = Vec::new();
    let ghost views = decode(words@);
    for i in 0..records.len()
        invariant
            views == record_views(records@),
            ids@ == all_tail_ids(views.take(i as int)),
            forall|j: int|
                0 <= j < records@.len() ==> (#[trigger] records@[j]).cat_tails@.len() % 2 == 0,
    {
        let record = &records[i];
        assert(views.take(i + 1).drop_last() =~= views.take(i as int));
        assert(views.take(i + 1).last() == record@);
        crate::graph::append(&mut ids, record.spin_tails);
        let ghost before = ids@;
        let count: usize = record.cat_tails.len() / 2;
        for j in 0..count
            invariant
                record.cat_tails.len() == 2 * count,
                ids@ =~= before + Seq::new(j as nat, |k: int| record@.cat_tails[k].0),
        {
            ids.push(record.cat_tails[2 * j]);
        }
        assert(ids@ =~= all_tail_ids(views.take(i as int)) + record@.tail_ids());
    }
    assert(views.take(views.len() as int) =~= views);
    ids
}

} // verus!
