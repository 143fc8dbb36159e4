//! The writer of one column: the first value in full, the second as a full
//! delta of twice the width, then the zigzag codes of the other deltas in
//! tagged blocks, packed into bytes after the column's tag.

use vstd::prelude::*;
use crate::delta_zigzag::{lemma_unzigzag_zigzag, zigzag};
use crate::v2::consts::headers::START_OF_COLUMN;
use crate::v2::decode::{byte_nibbles, column_decodable, column_values};
use crate::v2::encode::{
    bit_len, block_bits, block_words, codes_fit, delta_choice, fits_block, flush_choice, write_i128_bits, write_i16_bits,
    write_i32_bits, write_i64_bits, write_i8_bits, EmitDeltaBits,
};
use crate::v2::halfvec::{HalfVec, HalfWord, lists_nibbles, pack_nibbles, word_nibbles, words_nibbles};
use crate::v2::queue::CompressionQueue;
use crate::v2::roundtrip::{
    blocks_valid, blocks_words, column_words, delta_codes, full_words, in_width,
    lemma_column_roundtrip, lemma_finish_read, lemma_full_words_read, lemma_words_nibbles_add,
    lemma_words_nibbles_one,
};

verus! {

/// The first words of a column: its first value, and its second as a delta.
pub open spec fn head_words(xs: Seq<int>, k: nat) -> Seq<HalfWord> {
    if xs.len() == 0 {
        Seq::empty()
    } else if xs.len() == 1 {
        full_words(xs[0], k)
    } else {
        full_words(xs[0], k) + full_words(xs[1] - xs[0], 2 * k)
    }
}

/// The reader takes the column's first value for a value, not for the next
/// column's tag: the first nibble of its full word is not `START_OF_COLUMN`.
pub open spec fn column_head_ok(xs: Seq<int>, k: nat) -> bool {
    xs.len() == 0 || words_nibbles(full_words(xs[0], k))[0] != START_OF_COLUMN
}

/// A block size that the writer emits, for codes whose first `r` fit it.
pub open spec fn block_ok(r: nat, vs: Seq<u64>, k: nat) -> bool {
    &&& (r == 1 || r == 2 || r == 3 || r == 4 || r == 5 || r == 10)
    &&& r <= vs.len()
    &&& codes_fit(r, vs)
    &&& (r == 1 && vs[0] > u32::MAX ==> k >= 32)
}

/// A block emitted after valid blocks extends them.
pub proof fn lemma_blocks_append(c: Seq<nat>, a: Seq<u64>, r: nat, b: Seq<u64>, k: nat)
    requires
        blocks_valid(c, a, k),
        block_ok(r, b, k),
    ensures
        blocks_valid(c.push(r), a + b.take(r as int), k),
        blocks_words(c.push(r), a + b.take(r as int)) == blocks_words(c, a) + block_words(r, b),
    decreases c.len(),
{
    let bt = b.take(r as int);
    let aa = a + bt;
    if c.len() == 0 {
        assert(aa =~= bt);
        assert(c.push(r) =~= seq![r]);
        assert(seq![r].drop_first() =~= Seq::<nat>::empty());
        assert(bt.skip(r as int) =~= Seq::<u64>::empty());
        assert forall|i: int| 0 <= i < r implies #[trigger] bt[i] == b[i] by {}
        assert(bt.take(r as int) =~= b.take(r as int));
        assert(block_words(r, bt) == block_words(r, b));
        assert(codes_fit(r, bt));
        assert(blocks_valid(seq![r].drop_first(), bt.skip(r as int), k));
        assert(blocks_valid(seq![r], bt, k));
        assert(blocks_words(Seq::<nat>::empty(), Seq::<u64>::empty()) == Seq::<HalfWord>::empty());
        assert(blocks_words(seq![r], bt) =~= block_words(r, bt));
        assert(blocks_words(c, a) =~= Seq::<HalfWord>::empty());
        assert(Seq::<HalfWord>::empty() + block_words(r, b) =~= block_words(r, b));
    } else {
        let c0 = c[0];
        let ct = c.drop_first();
        lemma_blocks_append(ct, a.skip(c0 as int), r, b, k);
        assert(c.push(r)[0] == c0);
        assert(c.push(r).drop_first() =~= ct.push(r));
        assert(aa.skip(c0 as int) =~= a.skip(c0 as int) + bt);
        assert forall|i: int| 0 <= i < c0 implies #[trigger] aa[i] == a[i] by {}
        assert(aa.take(c0 as int) =~= a.take(c0 as int));
        assert(aa[0] == a[0]);
        assert(codes_fit(c0, aa) == codes_fit(c0, a));
        assert(block_words(c0, aa) == block_words(c0, a));
        assert(blocks_words(c.push(r), aa) =~= block_words(c0, a) + (blocks_words(
            ct,
            a.skip(c0 as int),
        ) + block_words(r, b)));
    }
}

/// The codes of the deltas of one more value.
proof fn lemma_delta_codes_push(xs: Seq<int>, v: int)
    ensures
        xs.len() < 2 ==> delta_codes(xs.push(v)) == Seq::<u64>::empty(),
        xs.len() >= 2 ==> delta_codes(xs.push(v)) == delta_codes(xs).push(
            zigzag(v - xs.last()) as u64,
        ),
{
    let ys = xs.push(v);
    if xs.len() < 2 {
        assert(delta_codes(ys) =~= Seq::<u64>::empty());
    } else {
        assert(delta_codes(ys) =~= delta_codes(xs).push(zigzag(v - xs.last()) as u64));
    }
}

/// The deltas of values of at most 16 bits have codes of at most 32 bits.
proof fn lemma_narrow_codes(xs: Seq<int>, k: nat, i: int)
    requires
        k == 8 || k == 16,
        forall|j: int| 0 <= j < xs.len() ==> in_width(#[trigger] xs[j], k),
        0 <= i < delta_codes(xs).len(),
    ensures
        delta_codes(xs)[i] <= u32::MAX,
{
    let d = xs[i + 2] - xs[i + 1];
    assert(in_width(xs[i + 2], k) && in_width(xs[i + 1], k));
    lemma_unzigzag_zigzag(d);
}

/// The words of a block take at most 17 nibbles.
proof fn lemma_block_words_len(r: nat, vs: Seq<u64>)
    ensures
        words_nibbles(block_words(r, vs)).len() <= 17,
{
    let ws = block_words(r, vs);
    if ws.len() == 2 {
        assert(ws =~= seq![ws[0]] + seq![ws[1]]);
        lemma_words_nibbles_add(seq![ws[0]], seq![ws[1]]);
        lemma_words_nibbles_one(ws[0]);
        lemma_words_nibbles_one(ws[1]);
    } else {
        assert(ws =~= seq![ws[0]] + seq![ws[1]] + seq![ws[2]]);
        lemma_words_nibbles_add(seq![ws[0]] + seq![ws[1]], seq![ws[2]]);
        lemma_words_nibbles_add(seq![ws[0]], seq![ws[1]]);
        lemma_words_nibbles_one(ws[0]);
        lemma_words_nibbles_one(ws[1]);
        lemma_words_nibbles_one(ws[2]);
    }
}

/// The bit lengths of the codes `vs`, as the queue counts them.
pub open spec fn code_counts(vs: Seq<u64>) -> Seq<usize> {
    Seq::new(vs.len(), |i: int| bit_len(vs[i]) as usize)
}

/// The blocks that pushing the codes `cs` emits: whenever ten codes wait,
/// the most compact block that the first of them fit.
#[verifier::opaque]
pub open spec fn push_blocks(cs: Seq<u64>) -> Seq<nat>
    decreases cs.len(),
{
    if cs.len() < 10 {
        Seq::empty()
    } else {
        let r = delta_choice(code_counts(cs.take(10)));
        if r >= 1 {
            seq![r] + push_blocks(cs.skip(r as int))
        } else {
            Seq::empty()
        }
    }
}

/// The number of codes in the blocks of `push_blocks(cs)`.
#[verifier::opaque]
pub open spec fn push_total(cs: Seq<u64>) -> nat
    decreases cs.len(),
{
    if cs.len() < 10 {
        0
    } else {
        let r = delta_choice(code_counts(cs.take(10)));
        if r >= 1 {
            r + push_total(cs.skip(r as int))
        } else {
            0
        }
    }
}

/// The blocks that flushing the waiting codes `vs` emits: each time the most
/// compact block that the codes left can fill.
#[verifier::opaque]
pub open spec fn flush_blocks(vs: Seq<u64>) -> Seq<nat>
    decreases vs.len(),
{
    if vs.len() == 0 {
        Seq::empty()
    } else {
        let r = flush_choice(code_counts(vs), vs.len());
        if 1 <= r <= vs.len() {
            seq![r] + flush_blocks(vs.skip(r as int))
        } else {
            Seq::empty()
        }
    }
}

/// The blocks of a whole column with delta codes `cs`: the greedy blocks
/// of ten while ten codes wait, then the flush of the rest.
pub open spec fn greedy_blocks(cs: Seq<u64>) -> Seq<nat> {
    push_blocks(cs) + flush_blocks(cs.skip(push_total(cs) as int))
}

/// The choices never emit nothing, nor more codes than there are.
proof fn lemma_choices_in_range(cs: Seq<u64>)
    ensures
        1 <= delta_choice(code_counts(cs.take(10))) <= 10,
        cs.len() > 0 ==> 1 <= flush_choice(code_counts(cs), cs.len()) <= cs.len(),
{
}

/// The waiting codes are fewer than ten.
proof fn lemma_push_total(cs: Seq<u64>)
    ensures
        push_total(cs) <= cs.len(),
        cs.len() - push_total(cs) < 10,
    decreases cs.len(),
{
    reveal(push_total);
    lemma_choices_in_range(cs);
    if cs.len() >= 10 {
        let r = delta_choice(code_counts(cs.take(10)));
        lemma_push_total(cs.skip(r as int));
    }
}

/// Pushing one more code: once ten codes wait, one more block is emitted.
proof fn lemma_push_blocks_push(cs: Seq<u64>, c: u64)
    ensures
        ({
            let t = push_total(cs);
            let p = cs.push(c).skip(t as int);
            if p.len() < 10 {
                push_blocks(cs.push(c)) == push_blocks(cs) && push_total(cs.push(c)) == t
            } else {
                let r = delta_choice(code_counts(p));
                &&& push_blocks(cs.push(c)) == push_blocks(cs).push(r)
                &&& push_total(cs.push(c)) == t + r
            }
        }),
    decreases cs.len(),
{
    reveal(push_blocks); reveal(push_total);
    let ds = cs.push(c);
    lemma_push_total(cs);
    lemma_choices_in_range(cs);
    lemma_choices_in_range(ds);
    if cs.len() < 10 {
        assert(push_total(cs) == 0);
        assert(push_blocks(cs) == Seq::<nat>::empty());
        assert(ds.skip(0) =~= ds);
        if ds.len() == 10 {
            let r = delta_choice(code_counts(ds.take(10)));
            assert(ds.take(10) =~= ds);
            assert(code_counts(ds.take(10)) == code_counts(ds));
            let rest = ds.skip(r as int);
            assert(rest.len() < 10);
            assert(push_blocks(rest) == Seq::<nat>::empty());
            assert(push_total(rest) == 0);
            assert(push_blocks(ds) =~= seq![r]);
            assert(push_total(ds) == r);
            assert(push_blocks(cs).push(r) =~= seq![r]);
        } else {
            assert(push_blocks(ds) == Seq::<nat>::empty());
            assert(push_total(ds) == 0);
        }
    } else {
        let r = delta_choice(code_counts(cs.take(10)));
        assert(ds.take(10) =~= cs.take(10));
        let rest = cs.skip(r as int);
        assert(ds.skip(r as int) =~= rest.push(c));
        lemma_push_blocks_push(rest, c);
        let t1 = push_total(rest);
        assert(push_total(cs) == r + t1);
        assert(push_blocks(cs) == seq![r] + push_blocks(rest));
        assert(ds.skip(push_total(cs) as int) =~= rest.push(c).skip(t1 as int));
        assert(push_blocks(ds) == seq![r] + push_blocks(rest.push(c)));
        assert(push_total(ds) == r + push_total(rest.push(c)));
        if rest.push(c).skip(t1 as int).len() >= 10 {
            let r2 = delta_choice(code_counts(rest.push(c).skip(t1 as int)));
            assert(seq![r] + push_blocks(rest).push(r2) =~= (seq![r] + push_blocks(rest)).push(r2));
        }
    }
}

/// Flushing takes one block, then flushes the codes after it.
proof fn lemma_flush_blocks_step(vs: Seq<u64>)
    requires
        vs.len() > 0,
    ensures
        ({
            let r = flush_choice(code_counts(vs), vs.len());
            &&& 1 <= r <= vs.len()
            &&& flush_blocks(vs) == seq![r] + flush_blocks(vs.skip(r as int))
        }),
{
    reveal(flush_blocks);
    lemma_choices_in_range(vs);
}

/// A block is emitted only once ten codes wait: while every code holds at
/// most three bits, pushing the codes emits only blocks of ten, one for each
/// ten codes, and leaves the rest waiting.
pub proof fn lemma_small_codes_ten_blocks(cs: Seq<u64>)
    requires
        forall|i: int| 0 <= i < cs.len() ==> #[trigger] bit_len(cs[i]) <= 3,
    ensures
        push_blocks(cs) == Seq::new(cs.len() / 10, |i: int| 10nat),
        push_total(cs) == 10 * (cs.len() / 10),
    decreases cs.len(),
{
    reveal(push_blocks);
    reveal(push_total);
    if cs.len() < 10 {
        assert(push_blocks(cs) =~= Seq::new(cs.len() / 10, |i: int| 10nat));
    } else {
        let counts = code_counts(cs.take(10));
        assert forall|i: int| 0 <= i < 10 implies #[trigger] counts[i] <= block_bits(10) by {
            assert(cs.take(10)[i] == cs[i]);
        }
        assert(fits_block(counts, 10));
        assert(delta_choice(counts) == 10);
        let rest = cs.skip(10);
        assert forall|i: int| 0 <= i < rest.len() implies #[trigger] bit_len(rest[i]) <= 3 by {
            assert(rest[i] == cs[i + 10]);
        }
        lemma_small_codes_ten_blocks(rest);
        assert(rest.len() / 10 + 1 == cs.len() / 10);
        assert(push_blocks(cs) =~= Seq::new(cs.len() / 10, |i: int| 10nat));
    }
}

/// Counts that agree on their first `n` entries agree on whether a block
/// of `c <= n` codes fits.
proof fn lemma_fits_same(a: Seq<usize>, b: Seq<usize>, c: nat, n: nat)
    requires
        c <= n <= a.len(),
        n <= b.len(),
        forall|i: int| 0 <= i < n ==> a[i] == b[i],
    ensures
        fits_block(a, c) == fits_block(b, c),
{
    if fits_block(a, c) {
        assert forall|i: int| 0 <= i < c implies #[trigger] b[i] <= block_bits(c) by {
            assert(a[i] <= block_bits(c));
        }
    }
    if fits_block(b, c) {
        assert forall|i: int| 0 <= i < c implies #[trigger] a[i] <= block_bits(c) by {
            assert(b[i] <= block_bits(c));
        }
    }
}

/// The queue's choices, made from its counts, are the choices made from the
/// bit lengths of its live codes.
proof fn lemma_queue_choices(q: CompressionQueue<10>)
    requires
        q.wf(),
        q.size() <= 10,
    ensures
        q.size() == 10 ==> delta_choice(q.peek_counts(10)) == delta_choice(
            code_counts(q.live()),
        ),
        flush_choice(q.peek_counts(10), q.size()) == flush_choice(
            code_counts(q.live()),
            q.live().len(),
        ),
{
    let a = q.peek_counts(10);
    let b = code_counts(q.live());
    let n = q.size();
    assert forall|i: int| 0 <= i < n implies a[i] == b[i] by {
        q.lemma_live_count(10, i);
    }
    if 10 <= n {
        lemma_fits_same(a, b, 10, n);
    }
    if 5 <= n {
        lemma_fits_same(a, b, 5, n);
    }
    if 4 <= n {
        lemma_fits_same(a, b, 4, n);
    }
    if 3 <= n {
        lemma_fits_same(a, b, 3, n);
    }
    if 2 <= n {
        lemma_fits_same(a, b, 2, n);
    }
}

/// The column tag is one nibble, itself.
pub proof fn lemma_tag_nibbles()
    ensures
        words_nibbles(seq![HalfWord::Half(START_OF_COLUMN)]) == seq![START_OF_COLUMN],
{
    lemma_words_nibbles_one(HalfWord::Half(START_OF_COLUMN));
    assert(9u8 & 0x0f == 9u8) by (bit_vector);
    assert(word_nibbles(HalfWord::Half(START_OF_COLUMN)) =~= seq![START_OF_COLUMN]);
}

/// The nibbles of a whole column of `k`-bit values `xs`, as its writer
/// writes them.
pub open spec fn column_nibbles(xs: Seq<int>, k: nat) -> Seq<u8> {
    words_nibbles(column_words(xs, greedy_blocks(delta_codes(xs)), k))
}

/// The writer of one column of `k`-bit values.
pub struct ColumnWriter {
    k: u32,
    out: HalfVec,
    queue: CompressionQueue<10>,
    count: u8,
    first: i64,
    last: i64,
    vals: Ghost<Seq<int>>,
    blocks: Ghost<Seq<nat>>,
    emitted: Ghost<nat>,
}

impl ColumnWriter {
    #[verifier::type_invariant]
    spec fn holds_column(self) -> bool {
        let xs = self.vals@;
        let k = self.k as nat;
        let cs = delta_codes(xs);
        &&& k == 8 || k == 16 || k == 32 || k == 64
        &&& self.count == (if xs.len() < 2 {
            xs.len()
        } else {
            2
        })
        &&& forall|i: int| 0 <= i < xs.len() ==> in_width(#[trigger] xs[i], k)
        &&& k == 64 ==> forall|i: int| #![trigger xs[i]] 2 <= i < xs.len() ==> in_width(
            xs[i] - xs[i - 1],
            64,
        )
        &&& xs.len() >= 1 ==> self.first == xs[0] && self.last == xs.last()
        &&& self.queue.wf()
        &&& self.queue.size() < 10
        &&& self.emitted@ <= cs.len()
        &&& self.blocks@ == push_blocks(cs)
        &&& self.emitted@ == push_total(cs)
        &&& self.queue.live() == cs.skip(self.emitted@ as int)
        &&& blocks_valid(self.blocks@, cs.take(self.emitted@ as int), k)
        &&& self.out@ == head_words(xs, k) + blocks_words(
            self.blocks@,
            cs.take(self.emitted@ as int),
        )
    }

    /// The values written so far.
    pub closed spec fn values(&self) -> Seq<int> {
        self.vals@
    }

    /// The width of the column's values, in bits.
    pub closed spec fn width(&self) -> nat {
        self.k as nat
    }

    /// The sizes of the blocks emitted so far, in order.
    pub closed spec fn blocks(&self) -> Seq<nat> {
        self.blocks@
    }

    /// The number of nibbles held so far.
    pub closed spec fn written(&self) -> nat {
        self.out.nibbles().len()
    }

    /// The number of delta codes waiting for a block.
    pub closed spec fn queued(&self) -> nat {
        self.queue.size()
    }

    /// The number of delta codes waiting for a block; fewer than ten.
    pub fn queued_len(&self) -> (r: usize)
        ensures
            r == self.queued(),
            r < 10,
            r <= self.values().len(),
    {
        proof {
            use_type_invariant(self);
            let cs = delta_codes(self.vals@);
            assert(self.queue.live().len() == self.queue.size());
            assert(cs.skip(self.emitted@ as int).len() <= cs.len());
            assert(cs.len() <= self.vals@.len());
        }
        self.queue.len()
    }

    /// A writer of an empty column of `k`-bit values.
    pub fn new(k: u32) -> (r: Self)
        requires
            k == 8 || k == 16 || k == 32 || k == 64,
        ensures
            r.values() == Seq::<int>::empty(),
            r.width() == k,
            r.blocks() == Seq::<nat>::empty(),
            r.written() == 0,
            r.queued() == 0,
    {
        let queue = CompressionQueue::<10>::new();
        proof {
            reveal(push_blocks);
            reveal(push_total);
            assert(queue.live() =~= Seq::<u64>::empty());
            assert(delta_codes(Seq::<int>::empty()) =~= Seq::<u64>::empty());
            assert(blocks_words(Seq::<nat>::empty(), Seq::<u64>::empty()) == Seq::<HalfWord>::empty());
        }
        let out = HalfVec::new(8);
        let ghost cs = delta_codes(Seq::<int>::empty());
        proof {
            assert(cs.take(0) =~= Seq::<u64>::empty());
            assert(cs.skip(0) =~= Seq::<u64>::empty());
            assert(blocks_valid(Seq::<nat>::empty(), cs.take(0), k as nat));
            assert(out@ =~= head_words(Seq::<int>::empty(), k as nat) + blocks_words(
                Seq::<nat>::empty(),
                cs.take(0),
            ));
        }
        ColumnWriter {
            k,
            out,
            queue,
            count: 0,
            first: 0,
            last: 0,
            vals: Ghost(Seq::empty()),
            blocks: Ghost(Seq::empty()),
            emitted: Ghost(0),
        }
    }

    /// The number of nibbles held so far.
    pub fn nibble_len(&self) -> (r: usize)
        ensures
            r == self.written(),
    {
        self.out.len()
    }

    /// Appends a value: the first is written in full, the second as a full
    /// delta of twice the width; later deltas are queued as zigzag codes,
    /// and ten queued codes are emitted as the most compact block they fit.
    #[verifier::rlimit(100)]
    #[verifier::spinoff_prover]
    pub fn push(&mut self, v: i64)
        requires
            in_width(v as int, old(self).width()),
            old(self).width() == 64 && old(self).values().len() >= 2 ==> in_width(
                v - old(self).values().last(),
                64,
            ),
            old(self).written() + 64 <= usize::MAX,
        ensures
            final(self).values() == old(self).values().push(v as int),
            final(self).width() == old(self).width(),
            final(self).written() <= old(self).written() + 32,
            final(self).blocks() == push_blocks(delta_codes(final(self).values())),
    {
        proof {
            use_type_invariant(&*self);
        }
        let mut w = ColumnWriter::new(self.k);
        std::mem::swap(self, &mut w);
        proof {
            use_type_invariant(&w);
        }
        let ColumnWriter { k, mut out, mut queue, count, first, last, vals, blocks, emitted } = w;
        let ghost xs = vals@;
        let ghost ys = xs.push(v as int);
        let ghost kk = k as nat;
        let ghost cs = delta_codes(xs);
        let ghost e = emitted@;
        let ghost out0 = out@;
        proof {
            lemma_delta_codes_push(xs, v as int);
            assert forall|i: int| 0 <= i < ys.len() implies in_width(#[trigger] ys[i], kk) by {
                if i < xs.len() {
                    assert(ys[i] == xs[i]);
                }
            }
            if kk == 64 {
                assert forall|i: int| #![trigger ys[i]] 2 <= i < ys.len() implies in_width(
                    ys[i] - ys[i - 1],
                    64,
                ) by {
                    if i < xs.len() {
                        assert(ys[i] == xs[i] && ys[i - 1] == xs[i - 1]);
                        assert(in_width(xs[i] - xs[i - 1], 64));
                    } else {
                        assert(ys[i - 1] == xs.last());
                    }
                }
            }
            lemma_words_nibbles_add(out0, full_words(v as int, kk));
        }
        let mut new_blocks = blocks;
        let mut new_emitted = emitted;
        let new_first: i64;
        if count == 0 {
            proof {
                lemma_full_words_read(v as int, kk);
            }
            if k == 8 {
                write_i8_bits(&mut out, v as i8);
            } else if k == 16 {
                write_i16_bits(&mut out, v as i16);
            } else if k == 32 {
                write_i32_bits(&mut out, v as i32);
            } else {
                write_i64_bits(&mut out, v);
            }
            new_first = v;
            proof {
                assert(cs.take(e as int) =~= Seq::<u64>::empty());
                assert(delta_codes(ys).take(e as int) =~= Seq::<u64>::empty());
                assert(delta_codes(ys).skip(e as int) =~= Seq::<u64>::empty());
                assert(blocks_valid(blocks@, Seq::<u64>::empty(), kk));
                assert(blocks@.len() == 0);
                assert(blocks_words(blocks@, Seq::<u64>::empty()) == Seq::<HalfWord>::empty());
                assert(out@ =~= head_words(ys, kk) + blocks_words(
                    blocks@,
                    delta_codes(ys).take(e as int),
                ));
            }
        } else if count == 1 {
            let d: i128 = v as i128 - first as i128;
            proof {
                lemma_full_words_read(d as int, 2 * kk);
                lemma_words_nibbles_add(out0, full_words(d as int, 2 * kk));
            }
            if k == 8 {
                write_i16_bits(&mut out, d as i16);
            } else if k == 16 {
                write_i32_bits(&mut out, d as i32);
            } else if k == 32 {
                write_i64_bits(&mut out, d as i64);
            } else {
                write_i128_bits(&mut out, d);
            }
            new_first = first;
            proof {
                assert(cs.take(e as int) =~= Seq::<u64>::empty());
                assert(delta_codes(ys).take(e as int) =~= Seq::<u64>::empty());
                assert(delta_codes(ys).skip(e as int) =~= Seq::<u64>::empty());
                assert(blocks_valid(blocks@, Seq::<u64>::empty(), kk));
                assert(blocks@.len() == 0);
                assert(blocks_words(blocks@, Seq::<u64>::empty()) == Seq::<HalfWord>::empty());
                assert(head_words(ys, kk) == head_words(xs, kk) + full_words(d as int, 2 * kk));
                assert(out@ =~= head_words(ys, kk) + blocks_words(
                    blocks@,
                    delta_codes(ys).take(e as int),
                ));
            }
        } else {
            let d: i64 = v - last;
            proof {
                assert(head_words(ys, kk) == head_words(xs, kk));
                assert(d as int == v - xs.last());
                assert(delta_codes(ys).take(e as int) =~= cs.take(e as int));
                assert(delta_codes(ys).skip(e as int) =~= cs.skip(e as int).push(
                    zigzag(d as int) as u64,
                ));
            }
            queue.push(d);
            proof {
                lemma_push_blocks_push(cs, zigzag(d as int) as u64);
                assert(delta_codes(ys) == cs.push(zigzag(d as int) as u64));
                lemma_queue_choices(queue);
            }
            new_first = first;
            if queue.is_full() {
                let ghost live = queue.live();
                let ghost out1 = out@;
                let r = queue.emit_delta_bits(&mut out);
                new_blocks = Ghost(blocks@.push(r as nat));
                new_emitted = Ghost(e + r as nat);
                proof {
                    let ds = delta_codes(ys);
                    assert(live =~= ds.skip(e as int));
                    if kk <= 16 && r == 1 {
                        lemma_narrow_codes(ys, kk, e as int);
                    }
                    assert(block_ok(r as nat, live, kk));
                    lemma_blocks_append(blocks@, ds.take(e as int), r as nat, live, kk);
                    assert(ds.take(e as int) + live.take(r as int) =~= ds.take(e + r));
                    assert(live.skip(r as int) =~= ds.skip(e + r));
                    lemma_block_words_len(r as nat, live);
                    lemma_words_nibbles_add(out1, block_words(r as nat, live));
                    assert(out@ =~= head_words(ys, kk) + blocks_words(
                        new_blocks@,
                        ds.take(new_emitted@ as int),
                    ));
                }
            }
        }
        *self = ColumnWriter {
            k,
            out,
            queue,
            count: if count < 2 {
                count + 1
            } else {
                2
            },
            first: new_first,
            last: v,
            vals: Ghost(ys),
            blocks: new_blocks,
            emitted: new_emitted,
        };
    }

    /// Emits the queued codes as blocks and hands back all of the column's
    /// words: the head, then the blocks, in the greedy choice of sizes.
    #[verifier::rlimit(80)]
    #[verifier::spinoff_prover]
    pub fn into_words(self) -> (r: HalfVec)
        requires
            self.written() + 256 <= usize::MAX,
        ensures
            r@ == column_words(self.values(), greedy_blocks(delta_codes(self.values())), self.width()),
            self.values().len() >= 2 ==> blocks_valid(
                greedy_blocks(delta_codes(self.values())),
                delta_codes(self.values()),
                self.width(),
            ),
            r.nibbles().len() <= self.written() + 170,
    {
        proof {
            use_type_invariant(&self);
        }
        let ColumnWriter { k, out: mut col, mut queue, count, first, last, vals, blocks, emitted } =
            self;
        let ghost xs = vals@;
        let ghost kk = k as nat;
        let ghost cs = delta_codes(xs);
        let ghost w0 = col.nibbles().len();
        let mut bl = blocks;
        let mut em = emitted;
        while !queue.is_empty()
            invariant
                kk == k,
                kk == 8 || kk == 16 || kk == 32 || kk == 64,
                cs == delta_codes(xs),
                forall|i: int| 0 <= i < xs.len() ==> in_width(#[trigger] xs[i], kk),
                queue.wf(),
                queue.size() < 10,
                em@ <= cs.len(),
                queue.live() == cs.skip(em@ as int),
                blocks_valid(bl@, cs.take(em@ as int), kk),
                col@ == head_words(xs, kk) + blocks_words(bl@, cs.take(em@ as int)),
                col.nibbles().len() + 17 * queue.size() <= w0 + 170,
                w0 + 256 <= usize::MAX,
                bl@ + flush_blocks(queue.live()) == greedy_blocks(cs),
            decreases queue.size(),
        {
            let ghost live = queue.live();
            let ghost c1 = col@;
            let ghost e = em@;
            let ghost b0 = bl@;
            proof {
                lemma_queue_choices(queue);
                lemma_flush_blocks_step(live);
            }
            let r = queue.flush_delta_bits(&mut col);
            bl = Ghost(bl@.push(r as nat));
            em = Ghost(e + r as nat);
            proof {
                if kk <= 16 && r == 1 {
                    lemma_narrow_codes(xs, kk, e as int);
                }
                assert(block_ok(r as nat, live, kk));
                lemma_blocks_append(b0, cs.take(e as int), r as nat, live, kk);
                assert(cs.take(e as int) + live.take(r as int) =~= cs.take(e + r));
                assert(live.skip(r as int) =~= cs.skip(e + r));
                lemma_block_words_len(r as nat, live);
                lemma_words_nibbles_add(c1, block_words(r as nat, live));
                assert(col@ =~= head_words(xs, kk) + blocks_words(bl@, cs.take(em@ as int)));
                assert(b0 + (seq![r as nat] + flush_blocks(queue.live())) =~= bl@ + flush_blocks(
                    queue.live(),
                ));
            }
        }
        proof {
            assert(cs.skip(em@ as int).len() == 0);
            reveal(flush_blocks);
            assert(flush_blocks(queue.live()) == Seq::<nat>::empty());
            assert(bl@ + Seq::<nat>::empty() =~= bl@);
            assert(cs.take(em@ as int) =~= cs);
            if xs.len() < 2 {
                assert(cs =~= Seq::<u64>::empty());
                assert(bl@.len() == 0);
                assert(blocks_words(bl@, cs) == Seq::<HalfWord>::empty());
                assert(column_words(xs, bl@, kk) =~= head_words(xs, kk) + blocks_words(bl@, cs));
            }
            assert(col@ == column_words(xs, bl@, kk));
        }
        col
    }

    /// Emits the queued codes as blocks, then appends the column's tag and
    /// all of the column's nibbles to `out`, two to a byte, an odd count
    /// padded with `START_OF_COLUMN`. Read back after the tag, the bytes give
    /// the column's values, unless the first value's top nibble is the tag.
    #[verifier::rlimit(80)]
    #[verifier::spinoff_prover]
    pub fn finish(self, out: &mut Vec<u8>)
        requires
            self.written() + 256 <= usize::MAX,
        ensures
            self.values().len() >= 2 ==> blocks_valid(
                greedy_blocks(delta_codes(self.values())),
                delta_codes(self.values()),
                self.width(),
            ),
            final(out)@ == old(out)@ + pack_nibbles(
                seq![START_OF_COLUMN] + words_nibbles(
                    column_words(
                        self.values(),
                        greedy_blocks(delta_codes(self.values())),
                        self.width(),
                    ),
                ),
            ),
            column_head_ok(self.values(), self.width()) ==> ({
                let s = byte_nibbles(final(out)@.skip(old(out)@.len() as int));
                &&& s.len() > 0
                &&& s[0] == START_OF_COLUMN
                &&& column_decodable(s.skip(1), self.width())
                &&& column_values(s.skip(1), self.width()) == self.values()
            }),
    {
        proof {
            use_type_invariant(&self);
        }
        let ghost xs = self.values();
        let ghost kk = self.width();
        let ghost bl = greedy_blocks(delta_codes(xs));
        let col = self.into_words();
        let mut tag = HalfVec::new(1);
        tag.push(HalfWord::Half(START_OF_COLUMN));
        let lists: [&HalfVec; 2] = [&tag, &col];
        let ghost old_out = out@;
        HalfVec::finish(out, lists.as_slice());
        proof {
            let ls = lists@;
            assert(ls.drop_last() =~= seq![&tag]);
            assert(seq![&tag].drop_last() =~= Seq::<&HalfVec>::empty());
            assert(lists_nibbles(Seq::<&HalfVec>::empty()) == Seq::<u8>::empty());
            lemma_tag_nibbles();
            assert(tag.nibbles() =~= seq![START_OF_COLUMN]);
            let n = col.nibbles();
            assert(ls.len() == 2 && ls[0] == &tag && ls[1] == &col);
            assert(ls.last() == &col);
            assert(seq![&tag].last() == &tag);
            assert(lists_nibbles(seq![&tag]) == lists_nibbles(Seq::<&HalfVec>::empty())
                + tag.nibbles());
            assert(lists_nibbles(seq![&tag]) =~= seq![START_OF_COLUMN]);
            assert(lists_nibbles(ls) == lists_nibbles(seq![&tag]) + n);
            assert(lists_nibbles(ls) =~= seq![START_OF_COLUMN] + n);
            lemma_finish_read(ls);
            let bytes = out@.skip(old_out.len() as int);
            assert(bytes =~= pack_nibbles(lists_nibbles(ls)));
            if column_head_ok(xs, kk) {
                let s = byte_nibbles(bytes);
                let tail = if lists_nibbles(ls).len() % 2 == 0 {
                    Seq::<u8>::empty()
                } else {
                    seq![START_OF_COLUMN]
                };
                assert(s =~= seq![START_OF_COLUMN] + (n + tail));
                assert(s.skip(1) =~= n + tail);
                lemma_column_roundtrip(xs, bl, kk, tail);
            }
        }
    }
}

} // verus!
