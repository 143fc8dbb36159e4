//! Zigzag codes of column values, and the words that start a column.

use vstd::prelude::*;
use crate::delta_zigzag::{zigzag, zigzag64};
use crate::v2::halfvec::{HalfVec, HalfWord};
use crate::v2::queue::CompressionQueue;
use crate::v2::consts::headers;
use crate::v2::roundtrip::lemma_bit_len_bound;

verus! {

/// Number of significant bits of `z`: 64 minus its leading zeros.
pub open spec fn bit_len(z: u64) -> int {
    64 - vstd::std_specs::bits::u64_leading_zeros(z)
}

/// Signed integers whose zigzag codes are queued for compression.
pub trait Bits: Sized {
    /// The width of the type in bits.
    const BITS: usize;

    /// The value as a mathematical integer.
    spec fn int_value(self) -> int;

    /// The zigzag code of the value.
    fn zigzag(self) -> (r: u64)
        ensures
            r as int == zigzag(self.int_value()),
    ;

    /// The zigzag code and the number of bits needed to hold it.
    fn zigzag_bits(self) -> (r: (u64, usize))
        ensures
            r.0 as int == zigzag(self.int_value()),
            r.1 as int == bit_len(r.0),
    {
        let zbits = self.zigzag();
        let lz = zbits.leading_zeros();
        proof {
            vstd::std_specs::bits::axiom_u64_leading_zeros(zbits);
        }
        (zbits, (64 - lz) as usize)
    }
}

impl Bits for i8 {
    const BITS: usize = 8;

    open spec fn int_value(self) -> int {
        self as int
    }

    fn zigzag(self) -> (r: u64) {
        zigzag64(self as i64)
    }
}

impl Bits for i16 {
    const BITS: usize = 16;

    open spec fn int_value(self) -> int {
        self as int
    }

    fn zigzag(self) -> (r: u64) {
        zigzag64(self as i64)
    }
}

impl Bits for i32 {
    const BITS: usize = 32;

    open spec fn int_value(self) -> int {
        self as int
    }

    fn zigzag(self) -> (r: u64) {
        zigzag64(self as i64)
    }
}

impl Bits for i64 {
    const BITS: usize = 64;

    open spec fn int_value(self) -> int {
        self as int
    }

    fn zigzag(self) -> (r: u64) {
        zigzag64(self)
    }
}

/// Writes a full 128-bit value as four 32-bit words, most significant first.
pub fn write_i128_bits(buf: &mut HalfVec, i: i128)
    requires
        old(buf).nibbles().len() + 32 <= usize::MAX,
    ensures
        final(buf)@ == old(buf)@ + seq![
            HalfWord::Full(((i as u128) >> 96u128) as u32),
            HalfWord::Full(((i as u128) >> 64u128) as u32),
            HalfWord::Full(((i as u128) >> 32u128) as u32),
            HalfWord::Full((i as u128) as u32),
        ],
{
    let i = i as u128;
    buf.push(HalfWord::Full((i >> 96) as u32));
    buf.push(HalfWord::Full((i >> 64) as u32));
    buf.push(HalfWord::Full((i >> 32) as u32));
    buf.push(HalfWord::Full(i as u32));
    assert(buf@ =~= old(buf)@ + seq![
        HalfWord::Full((i >> 96u128) as u32),
        HalfWord::Full((i >> 64u128) as u32),
        HalfWord::Full((i >> 32u128) as u32),
        HalfWord::Full(i as u32),
    ]);
}

/// Writes a full 64-bit value as two 32-bit words, most significant first.
pub fn write_i64_bits(buf: &mut HalfVec, i: i64)
    requires
        old(buf).nibbles().len() + 16 <= usize::MAX,
    ensures
        final(buf)@ == old(buf)@ + seq![
            HalfWord::Full(((i as u64) >> 32u64) as u32),
            HalfWord::Full((i as u64) as u32),
        ],
{
    let i = i as u64;
    buf.push(HalfWord::Full((i >> 32) as u32));
    buf.push(HalfWord::Full(i as u32));
    assert(buf@ =~= old(buf)@ + seq![
        HalfWord::Full((i >> 32u64) as u32),
        HalfWord::Full(i as u32),
    ]);
}

/// Writes a full 32-bit value as one word.
pub fn write_i32_bits(buf: &mut HalfVec, i: i32)
    requires
        old(buf).nibbles().len() + 8 <= usize::MAX,
    ensures
        final(buf)@ == old(buf)@.push(HalfWord::Full(i as u32)),
{
    buf.push(HalfWord::Full(i as u32));
}

/// Writes a full 16-bit value as two bytes, most significant first.
pub fn write_i16_bits(buf: &mut HalfVec, i: i16)
    requires
        old(buf).nibbles().len() + 16 <= usize::MAX,
    ensures
        final(buf)@ == old(buf)@ + seq![
            HalfWord::Byte(((i as u16) >> 8u16) as u8),
            HalfWord::Byte((i as u16) as u8),
        ],
{
    let i = i as u16;
    buf.push(HalfWord::Byte((i >> 8) as u8));
    buf.push(HalfWord::Byte(i as u8));
    assert(buf@ =~= old(buf)@ + seq![HalfWord::Byte((i >> 8u16) as u8), HalfWord::Byte(i as u8)]);
}

/// Writes a full 8-bit value as one byte.
pub fn write_i8_bits(buf: &mut HalfVec, i: i8)
    requires
        old(buf).nibbles().len() + 8 <= usize::MAX,
    ensures
        final(buf)@ == old(buf)@.push(HalfWord::Byte(i as u8)),
{
    buf.push(HalfWord::Byte(i as u8));
}

/// Bits per code in a block of `count` codes.
pub open spec fn block_bits(count: nat) -> nat {
    if count == 10 {
        3
    } else if count == 5 {
        6
    } else if count == 4 {
        8
    } else if count == 3 {
        10
    } else {
        16
    }
}

/// Tag of a block of `count` codes.
pub open spec fn block_tag(count: nat) -> u8 {
    if count == 10 {
        headers::THREE_BITS_TEN_SAMPLES
    } else if count == 5 {
        headers::SIX_BITS_FIVE_SAMPLES
    } else if count == 4 {
        headers::EIGHT_BITS_FOUR_SAMPLES
    } else if count == 3 {
        headers::TEN_BITS_THREE_SAMPLES
    } else {
        headers::SIXTEEN_BITS_TWO_SAMPLES
    }
}

/// Codes packed into one word, `width` bits each, the first code highest.
pub open spec fn pack_word(vs: Seq<u64>, width: nat) -> u64
    decreases vs.len(),
{
    if vs.len() == 0 {
        0
    } else {
        (pack_word(vs.drop_last(), width) << (width as u64)) | vs.last()
    }
}

/// The words emitted for the oldest `count` of the codes `vs`: a tagged packed
/// word for 2 to 10 codes; for one code, a 32-bit or a 64-bit sample.
pub open spec fn block_words(count: nat, vs: Seq<u64>) -> Seq<HalfWord> {
    if count >= 2 {
        seq![
            HalfWord::Half(block_tag(count)),
            HalfWord::Full(pack_word(vs.take(count as int), block_bits(count)) as u32),
        ]
    } else if vs[0] <= u32::MAX {
        seq![HalfWord::Half(headers::THIRTY_TWO_BITS_ONE_SAMPLE), HalfWord::Full(vs[0] as u32)]
    } else {
        seq![
            HalfWord::Half(headers::SIXTY_FOUR_BITS_ONE_SAMPLE),
            HalfWord::Full((vs[0] >> 32u64) as u32),
            HalfWord::Full(vs[0] as u32),
        ]
    }
}

/// Each of the first `count` codes holds at most the block's bits (for a
/// block of 2 to 10 codes; a single code has no limit).
pub open spec fn codes_fit(count: nat, vs: Seq<u64>) -> bool {
    count >= 2 ==> forall|i: int| 0 <= i < count ==> #[trigger] bit_len(vs[i]) <= block_bits(count)
}

/// The first `count` bit counts are within the block's width.
pub open spec fn fits_block(counts: Seq<usize>, count: nat) -> bool {
    forall|i: int| 0 <= i < count ==> #[trigger] counts[i] <= block_bits(count)
}

/// The block size that `emit_delta_bits` picks from the ten counts at the front.
pub open spec fn delta_choice(counts: Seq<usize>) -> nat {
    if fits_block(counts, 10) {
        10
    } else if fits_block(counts, 5) {
        5
    } else if fits_block(counts, 4) {
        4
    } else if fits_block(counts, 3) {
        3
    } else if fits_block(counts, 2) {
        2
    } else {
        1
    }
}

/// The block size that `flush_delta_bits` picks: as `delta_choice`, among the
/// blocks that the `len` live codes can fill; 0 when nothing is live.
pub open spec fn flush_choice(counts: Seq<usize>, len: nat) -> nat {
    if len == 0 {
        0
    } else if len >= 10 && fits_block(counts, 10) {
        10
    } else if len >= 5 && fits_block(counts, 5) {
        5
    } else if len >= 4 && fits_block(counts, 4) {
        4
    } else if len >= 3 && fits_block(counts, 3) {
        3
    } else if len >= 2 && fits_block(counts, 2) {
        2
    } else {
        1
    }
}

/// Pops `count` codes and emits them as one tagged, packed word.
fn push_packed(q: &mut CompressionQueue<10>, buf: &mut HalfVec, count: usize, width: u64, tag: u8)
    requires
        old(q).wf(),
        2 <= count <= 10,
        count <= old(q).size(),
        width == block_bits(count as nat),
        tag == block_tag(count as nat),
        old(buf).nibbles().len() + 32 <= usize::MAX,
    ensures
        final(q).wf(),
        final(q).live() == old(q).live().skip(count as int),
        final(q).slots() == old(q).slots(),
        final(q).counts() == old(q).counts(),
        final(buf)@ == old(buf)@ + block_words(count as nat, old(q).live()),
        final(buf).nibbles().len() <= old(buf).nibbles().len() + 9,
{
    buf.push(HalfWord::Half(tag));
    let values = q.pop_n(count);
    let mut word: u64 = 0;
    let mut i: usize = 0;
    while i < count
        invariant
            i <= count,
            values@.len() == count,
            width <= 16,
            word == pack_word(values@.take(i as int), width as nat),
        decreases count - i,
    {
        proof {
            assert(values@.take(i + 1).drop_last() =~= values@.take(i as int));
        }
        word = (word << width) | values[i];
        i += 1;
    }
    proof {
        assert(values@.take(count as int) =~= values@);
    }
    buf.push(HalfWord::Full(word as u32));
    proof {
        assert(buf@ =~= old(buf)@ + block_words(count as nat, old(q).live()));
    }
}

/// Ten codes of three bits.
fn push_three_bits(q: &mut CompressionQueue<10>, buf: &mut HalfVec)
    requires
        old(q).wf(),
        10 <= old(q).size(),
        old(buf).nibbles().len() + 32 <= usize::MAX,
    ensures
        final(q).wf(),
        final(q).live() == old(q).live().skip(10),
        final(q).slots() == old(q).slots(),
        final(q).counts() == old(q).counts(),
        final(buf)@ == old(buf)@ + block_words(10, old(q).live()),
        final(buf).nibbles().len() <= old(buf).nibbles().len() + 9,
{
    push_packed(q, buf, 10, 3, headers::THREE_BITS_TEN_SAMPLES);
}

/// Five codes of six bits.
fn push_six_bits(q: &mut CompressionQueue<10>, buf: &mut HalfVec)
    requires
        old(q).wf(),
        5 <= old(q).size(),
        old(buf).nibbles().len() + 32 <= usize::MAX,
    ensures
        final(q).wf(),
        final(q).live() == old(q).live().skip(5),
        final(q).slots() == old(q).slots(),
        final(q).counts() == old(q).counts(),
        final(buf)@ == old(buf)@ + block_words(5, old(q).live()),
        final(buf).nibbles().len() <= old(buf).nibbles().len() + 9,
{
    push_packed(q, buf, 5, 6, headers::SIX_BITS_FIVE_SAMPLES);
}

/// Four codes of eight bits.
fn push_eight_bits(q: &mut CompressionQueue<10>, buf: &mut HalfVec)
    requires
        old(q).wf(),
        4 <= old(q).size(),
        old(buf).nibbles().len() + 32 <= usize::MAX,
    ensures
        final(q).wf(),
        final(q).live() == old(q).live().skip(4),
        final(q).slots() == old(q).slots(),
        final(q).counts() == old(q).counts(),
        final(buf)@ == old(buf)@ + block_words(4, old(q).live()),
        final(buf).nibbles().len() <= old(buf).nibbles().len() + 9,
{
    push_packed(q, buf, 4, 8, headers::EIGHT_BITS_FOUR_SAMPLES);
}

/// Three codes of ten bits.
fn push_ten_bits(q: &mut CompressionQueue<10>, buf: &mut HalfVec)
    requires
        old(q).wf(),
        3 <= old(q).size(),
        old(buf).nibbles().len() + 32 <= usize::MAX,
    ensures
        final(q).wf(),
        final(q).live() == old(q).live().skip(3),
        final(q).slots() == old(q).slots(),
        final(q).counts() == old(q).counts(),
        final(buf)@ == old(buf)@ + block_words(3, old(q).live()),
        final(buf).nibbles().len() <= old(buf).nibbles().len() + 9,
{
    push_packed(q, buf, 3, 10, headers::TEN_BITS_THREE_SAMPLES);
}

/// Two codes of sixteen bits.
fn push_sixteen_bits(q: &mut CompressionQueue<10>, buf: &mut HalfVec)
    requires
        old(q).wf(),
        2 <= old(q).size(),
        old(buf).nibbles().len() + 32 <= usize::MAX,
    ensures
        final(q).wf(),
        final(q).live() == old(q).live().skip(2),
        final(q).slots() == old(q).slots(),
        final(q).counts() == old(q).counts(),
        final(buf)@ == old(buf)@ + block_words(2, old(q).live()),
        final(buf).nibbles().len() <= old(buf).nibbles().len() + 9,
{
    push_packed(q, buf, 2, 16, headers::SIXTEEN_BITS_TWO_SAMPLES);
}

/// One code, as a 32-bit sample when it fits, else as a 64-bit sample.
fn push_32_or_64_bits(q: &mut CompressionQueue<10>, buf: &mut HalfVec)
    requires
        old(q).wf(),
        1 <= old(q).size(),
        old(buf).nibbles().len() + 32 <= usize::MAX,
    ensures
        final(q).wf(),
        final(q).live() == old(q).live().skip(1),
        final(q).slots() == old(q).slots(),
        final(q).counts() == old(q).counts(),
        final(buf)@ == old(buf)@ + block_words(1, old(q).live()),
{
    let value = match q.pop() {
        Some(v) => v,
        None => 0,
    };
    if value <= u32::MAX as u64 {
        buf.push(HalfWord::Half(headers::THIRTY_TWO_BITS_ONE_SAMPLE));
    } else {
        buf.push(HalfWord::Half(headers::SIXTY_FOUR_BITS_ONE_SAMPLE));
        buf.push(HalfWord::Full((value >> 32) as u32));
    }
    buf.push(HalfWord::Full(value as u32));
    proof {
        assert(old(q).live().drop_first() =~= old(q).live().skip(1));
        assert(buf@ =~= old(buf)@ + block_words(1, old(q).live()));
    }
}

/// Checks which blocks the ten counts at the front of the queue fit.
fn block_fits(counts: &Vec<usize>) -> (r: [bool; 5])
    requires
        counts@.len() == 10,
    ensures
        r[0] == fits_block(counts@, 10),
        r[1] == fits_block(counts@, 5),
        r[2] == fits_block(counts@, 4),
        r[3] == fits_block(counts@, 3),
        r[4] == fits_block(counts@, 2),
{
    let mut fits = [true;5];
    proof {
        vstd::array::axiom_spec_array_fill_for_copy_type::<bool, 5>(true);
    }
    let mut index: usize = 0;
    while index < 10
        invariant
            index <= 10,
            counts@.len() == 10,
            fits[0] == forall|i: int| 0 <= i < index && i < 10 ==> #[trigger] counts@[i] <= 3,
            fits[1] == forall|i: int| 0 <= i < index && i < 5 ==> #[trigger] counts@[i] <= 6,
            fits[2] == forall|i: int| 0 <= i < index && i < 4 ==> #[trigger] counts@[i] <= 8,
            fits[3] == forall|i: int| 0 <= i < index && i < 3 ==> #[trigger] counts@[i] <= 10,
            fits[4] == forall|i: int| 0 <= i < index && i < 2 ==> #[trigger] counts@[i] <= 16,
        decreases 10 - index,
    {
        let bits_required = counts[index];
        if index < 2 && bits_required > 16 {
            fits[4] = false;
        }
        if index < 3 && bits_required > 10 {
            fits[3] = false;
        }
        if index < 4 && bits_required > 8 {
            fits[2] = false;
        }
        if index < 5 && bits_required > 6 {
            fits[1] = false;
        }
        if bits_required > 3 {
            fits[0] = false;
        }
        index += 1;
    }
    fits
}

/// Emitting delta blocks from a column queue.
pub trait EmitDeltaBits: Sized {
    /// The queue is well formed and holds the codes that the chosen block pops.
    spec fn can_emit(&self) -> bool;

    /// The queue is well formed.
    spec fn can_flush(&self) -> bool;

    /// Emits the most compact block that the ten codes at the front fit;
    /// returns the number of codes popped.
    fn emit_delta_bits(&mut self, out: &mut HalfVec) -> usize
        requires
            old(self).can_emit(),
            old(out).nibbles().len() + 32 <= usize::MAX,
    ;

    /// As `emit_delta_bits`, but only among the blocks that the live codes can
    /// fill; returns 0 on an empty queue.
    fn flush_delta_bits(&mut self, out: &mut HalfVec) -> usize
        requires
            old(self).can_flush(),
            old(out).nibbles().len() + 32 <= usize::MAX,
    ;
}

impl EmitDeltaBits for CompressionQueue<10> {
    open spec fn can_emit(&self) -> bool {
        self.wf() && delta_choice(self.peek_counts(10)) <= self.size()
    }

    open spec fn can_flush(&self) -> bool {
        self.wf()
    }

    fn emit_delta_bits(&mut self, out: &mut HalfVec) -> (r: usize)
        ensures
            r == delta_choice(old(self).peek_counts(10)),
            codes_fit(r as nat, old(self).live()),
            final(self).wf(),
            final(self).live() == old(self).live().skip(r as int),
            final(out)@ == old(out)@ + block_words(r as nat, old(self).live()),
    {
        let values = self.peak_bitcounts(10);
        let fits = block_fits(&values);
        proof {
            let c = delta_choice(old(self).peek_counts(10));
            assert forall|i: int| c >= 2 && 0 <= i < c implies #[trigger] bit_len(
                old(self).live()[i],
            ) <= block_bits(c) by {
                old(self).lemma_live_count(10, i);
            }
        }
        if fits[0] {
            push_three_bits(self, out);
            return 10;
        } else if fits[1] {
            push_six_bits(self, out);
            return 5;
        } else if fits[2] {
            push_eight_bits(self, out);
            return 4;
        } else if fits[3] {
            push_ten_bits(self, out);
            return 3;
        } else if fits[4] {
            push_sixteen_bits(self, out);
            return 2;
        } else {
            push_32_or_64_bits(self, out);
            return 1;
        }
    }

    fn flush_delta_bits(&mut self, out: &mut HalfVec) -> (r: usize)
        ensures
            r == flush_choice(old(self).peek_counts(10), old(self).size()),
            r <= old(self).size(),
            codes_fit(r as nat, old(self).live()),
            final(self).wf(),
            final(self).live() == old(self).live().skip(r as int),
            final(out)@ == old(out)@ + (if r == 0 {
                Seq::empty()
            } else {
                block_words(r as nat, old(self).live())
            }),
    {
        if self.is_empty() {
            assert(out@ =~= old(out)@ + Seq::empty());
            assert(self.live() =~= old(self).live().skip(0));
            return 0;
        }
        let values = self.peak_bitcounts(10);
        let fits = block_fits(&values);
        let len = self.len();
        proof {
            let c = flush_choice(old(self).peek_counts(10), old(self).size());
            assert forall|i: int| c >= 2 && 0 <= i < c implies #[trigger] bit_len(
                old(self).live()[i],
            ) <= block_bits(c) by {
                old(self).lemma_live_count(10, i);
            }
        }
        if len >= 10 && fits[0] {
            push_three_bits(self, out);
            return 10;
        } else if len >= 5 && fits[1] {
            push_six_bits(self, out);
            return 5;
        } else if len >= 4 && fits[2] {
            push_eight_bits(self, out);
            return 4;
        } else if len >= 3 && fits[3] {
            push_ten_bits(self, out);
            return 3;
        } else if len >= 2 && fits[4] {
            push_sixteen_bits(self, out);
            return 2;
        } else {
            push_32_or_64_bits(self, out);
            return 1;
        }
    }
}

/// The words emitted for one delta-delta code `v` of `bits` significant bits.
pub open spec fn popped_words(bits: usize, v: u64) -> Seq<HalfWord> {
    if bits == 0 {
        seq![HalfWord::Half(0b0000)]
    } else if bits <= 5 {
        seq![HalfWord::Byte(0b0010_0000u8 | ((v & 0b1_1111) as u8))]
    } else if bits <= 9 {
        let z = (v & 0b1_1111_1111) as u16;
        seq![HalfWord::Half(0b0100u8 | ((z >> 8u16) as u8)), HalfWord::Byte(z as u8)]
    } else if bits <= 16 {
        let z = (v & 0xffff) as u16;
        seq![
            HalfWord::Half(0b0110),
            HalfWord::Byte((z >> 8u16) as u8),
            HalfWord::Byte(z as u8),
        ]
    } else {
        seq![HalfWord::Half(0b0111), HalfWord::Full(v as u32)]
    }
}

/// The words emitted for the codes `vs` with bit counts `bits`, in order.
pub open spec fn popped_all(bits: Seq<usize>, vs: Seq<u64>) -> Seq<HalfWord>
    decreases vs.len(),
{
    if vs.len() == 0 {
        Seq::empty()
    } else {
        popped_all(bits.drop_last(), vs.drop_last()) + popped_words(bits.last(), vs.last())
    }
}

/// Emits each delta-delta code with a tag sized to its bit count.
fn emit_popped_values(bitcounts: &[usize], values: &[u64], out: &mut HalfVec)
    requires
        bitcounts@.len() == values@.len(),
        values@.len() <= 2,
        old(out).nibbles().len() + 32 <= usize::MAX,
    ensures
        final(out)@ == old(out)@ + popped_all(bitcounts@, values@),
        final(out).nibbles().len() <= old(out).nibbles().len() + 9 * values@.len(),
{
    let mut i: usize = 0;
    while i < values.len()
        invariant
            i <= values@.len(),
            bitcounts@.len() == values@.len(),
            values@.len() <= 2,
            out@ == old(out)@ + popped_all(bitcounts@.take(i as int), values@.take(i as int)),
            out.nibbles().len() <= old(out).nibbles().len() + 9 * i,
            old(out).nibbles().len() + 32 <= usize::MAX,
        decreases values.len() - i,
    {
        let bits = bitcounts[i];
        let value = values[i];
        let ghost before = out@;
        if bits == 0 {
            out.push(HalfWord::Half(0b0000));
        } else if bits <= 5 {
            let zigzag = (value & 0b1_1111) as u8;
            out.push(HalfWord::Byte(0b0010_0000 | zigzag));
        } else if bits <= 9 {
            let zigzag = (value & 0b1_1111_1111) as u16;
            out.push(HalfWord::Half(0b0100 | (zigzag >> 8) as u8));
            out.push(HalfWord::Byte(zigzag as u8));
        } else if bits <= 16 {
            let zigzag = (value & 0b1111_1111_1111_1111) as u16;
            out.push(HalfWord::Half(0b0110));
            out.push(HalfWord::Byte((zigzag >> 8) as u8));
            out.push(HalfWord::Byte(zigzag as u8));
        } else {
            out.push(HalfWord::Half(0b0111));
            out.push(HalfWord::Full(value as u32));
        }
        proof {
            assert(bitcounts@.take(i + 1).drop_last() =~= bitcounts@.take(i as int));
            assert(values@.take(i + 1).drop_last() =~= values@.take(i as int));
            assert(out@ =~= before + popped_words(bits, value));
        }
        i += 1;
    }
    proof {
        assert(bitcounts@.take(i as int) =~= bitcounts@);
        assert(values@.take(i as int) =~= values@);
    }
}

/// Emitting delta-delta codes from a column queue.
pub trait EmitDeltaDeltaBits: Sized {
    /// The queue is well formed.
    spec fn can_emit_delta_delta(&self) -> bool;

    /// Emits the live codes, one or two; returns the number popped.
    fn emit_delta_delta_bits(&mut self, out: &mut HalfVec) -> usize
        requires
            old(self).can_emit_delta_delta(),
            old(out).nibbles().len() + 32 <= usize::MAX,
    ;
}

impl EmitDeltaDeltaBits for CompressionQueue<2> {
    open spec fn can_emit_delta_delta(&self) -> bool {
        self.wf()
    }

    fn emit_delta_delta_bits(&mut self, out: &mut HalfVec) -> (r: usize)
        ensures
            r == (if old(self).size() == 1 || old(self).size() == 2 {
                old(self).size()
            } else {
                0
            }),
            final(self).wf(),
            final(self).live() == old(self).live().skip(r as int),
            final(out)@ == old(out)@ + popped_all(
                old(self).peek_counts(r as nat),
                old(self).live().take(r as int),
            ),
    {
        let n = self.len();
        if n == 2 || n == 1 {
            let bitcounts = self.peak_bitcounts(n);
            let values = self.pop_n(n);
            emit_popped_values(bitcounts.as_slice(), values.as_slice(), out);
            n
        } else {
            assert(out@ =~= old(out)@ + popped_all(Seq::empty(), Seq::empty()));
            assert(self.live() =~= old(self).live().skip(0));
            0
        }
    }
}

/// The most bits that each code in a block of `count` codes may hold: ten
/// codes of 3 bits, five of 6, four of 8, three of 10, two of 16.
pub open spec fn sample_width(count: nat) -> nat {
    if count == 10 {
        3
    } else if count == 5 {
        6
    } else if count == 4 {
        8
    } else if count == 3 {
        10
    } else {
        16
    }
}

/// The block sizes a writer may emit for several codes.
pub open spec fn multi_block_size(count: nat) -> bool {
    count == 10 || count == 5 || count == 4 || count == 3 || count == 2
}

/// Emitting takes the largest block of ten, five, four, three or two codes
/// whose samples all fit its width, and only such a block (else one code).
pub proof fn lemma_delta_choice_largest(counts: Seq<usize>, count: nat)
    requires
        multi_block_size(count),
        forall|i: int| 0 <= i < count ==> #[trigger] counts[i] <= sample_width(count),
    ensures
        count <= delta_choice(counts),
        delta_choice(counts) >= 2 ==> forall|i: int|
            0 <= i < delta_choice(counts) ==> #[trigger] counts[i] <= sample_width(
                delta_choice(counts),
            ),
{
    assert(fits_block(counts, count));
}

/// Flushing `len` waiting codes takes the largest block of ten, five, four,
/// three or two codes that the waiting codes can fill and whose samples all
/// fit its width; it never takes more codes than wait, and takes at least one.
pub proof fn lemma_flush_choice_largest(counts: Seq<usize>, len: nat, count: nat)
    requires
        multi_block_size(count),
        count <= len,
        forall|i: int| 0 <= i < count ==> #[trigger] counts[i] <= sample_width(count),
    ensures
        count <= flush_choice(counts, len),
        1 <= flush_choice(counts, len) <= len,
        flush_choice(counts, len) >= 2 ==> forall|i: int|
            0 <= i < flush_choice(counts, len) ==> #[trigger] counts[i] <= sample_width(
                flush_choice(counts, len),
            ),
{
    assert(fits_block(counts, count));
}

/// Each delta-delta code is emitted whole, as a function of the code alone:
/// a code of no bits as the tag 0b0000; of one to five bits as one byte,
/// 32 plus the code; of six to nine bits as the tag 4 plus the code's ninth
/// bit, then its low byte; of ten to sixteen bits as the tag 0b0110 then the
/// code's high and low bytes; of up to 32 bits as the tag 0b0111 and the code.
pub proof fn lemma_popped_words_hold_code(bits: usize, v: u64)
    requires
        bits as int == bit_len(v),
    ensures
        bits == 0 ==> v == 0 && popped_words(bits, v) == seq![HalfWord::Half(0)],
        1 <= bits <= 5 ==> popped_words(bits, v) == seq![HalfWord::Byte((32 + v) as u8)],
        6 <= bits <= 9 ==> popped_words(bits, v) == seq![
            HalfWord::Half((4 + v / 256) as u8),
            HalfWord::Byte((v % 256) as u8),
        ],
        10 <= bits <= 16 ==> popped_words(bits, v) == seq![
            HalfWord::Half(6),
            HalfWord::Byte((v / 256) as u8),
            HalfWord::Byte((v % 256) as u8),
        ],
        17 <= bits <= 32 ==> popped_words(bits, v) == seq![
            HalfWord::Half(7),
            HalfWord::Full(v as u32),
        ],
        bits <= 9 ==> v < 512,
        bits <= 16 ==> v < 65536,
{
    vstd::std_specs::bits::axiom_u64_leading_zeros(v);
    if bits <= 5 {
        lemma_bit_len_bound(v, 5);
    }
    if bits <= 9 {
        lemma_bit_len_bound(v, 9);
    }
    if bits <= 16 {
        lemma_bit_len_bound(v, 16);
    }
    if bits <= 32 {
        lemma_bit_len_bound(v, 32);
    }
    assert((v >> 5u64 == 0 ==> (0b0010_0000u8 | ((v & 0b1_1111) as u8)) == (32 + v) as u8) && (
    v >> 9u64 == 0 ==> (0b0100u8 | ((((v & 0b1_1111_1111) as u16) >> 8u16) as u8)) == (4 + v
        / 256) as u8 && (((v & 0b1_1111_1111) as u16) as u8) == (v % 256) as u8 && v < 512) && (
    v >> 16u64 == 0 ==> (((v & 0xffff) as u16 >> 8u16) as u8) == (v / 256) as u8 && (((v
        & 0xffff) as u16) as u8) == (v % 256) as u8 && v < 65536)) by (bit_vector);
}

} // verus!
