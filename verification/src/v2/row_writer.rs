//! The column compressor of the example row `TestRow`: one column writer
//! per field, the columns tagged and packed together into bytes.

use vstd::prelude::*;
use crate::rows::TestRow;
use crate::v2::column::{column_head_ok, lemma_tag_nibbles, column_nibbles, greedy_blocks, ColumnWriter};
use crate::v2::decode::{byte_nibbles, column_decodable, column_end, column_values, ColumnEnd};
use crate::v2::consts::headers::START_OF_COLUMN;
use crate::v2::halfvec::{HalfVec, HalfWord, lists_nibbles, pack_nibbles};
use crate::v2::roundtrip::{
    blocks_valid, column_words, delta_codes, in_width, lemma_column_roundtrip, lemma_pack_read,
    lemma_words_nibbles_small,
};
use crate::v2::halfvec::all_nibbles;

verus! {

/// The timestamps of `rows`.
pub open spec fn col_t(rows: Seq<TestRow>) -> Seq<int> {
    rows.map_values(|r: TestRow| r.t as int)
}

/// The `a` values of `rows`.
pub open spec fn col_a(rows: Seq<TestRow>) -> Seq<int> {
    rows.map_values(|r: TestRow| r.a as int)
}

/// The `b` values of `rows`.
pub open spec fn col_b(rows: Seq<TestRow>) -> Seq<int> {
    rows.map_values(|r: TestRow| r.b as int)
}

/// The `c` values of `rows`.
pub open spec fn col_c(rows: Seq<TestRow>) -> Seq<int> {
    rows.map_values(|r: TestRow| r.c as int)
}

/// The nibbles of compressed `rows`: each column behind its tag, in the
/// order of the fields.
pub open spec fn test_row_nibbles(rows: Seq<TestRow>) -> Seq<u8> {
    seq![START_OF_COLUMN] + column_nibbles(col_t(rows), 64) + seq![START_OF_COLUMN]
        + column_nibbles(col_a(rows), 8) + seq![START_OF_COLUMN] + column_nibbles(col_b(rows), 16)
        + seq![START_OF_COLUMN] + column_nibbles(col_c(rows), 32)
}

/// No column's first value starts with the column tag's nibble.
pub open spec fn test_row_heads_ok(rows: Seq<TestRow>) -> bool {
    &&& column_head_ok(col_t(rows), 64)
    &&& column_head_ok(col_a(rows), 8)
    &&& column_head_ok(col_b(rows), 16)
    &&& column_head_ok(col_c(rows), 32)
}

/// Consecutive timestamps of `rows`, after the first two, differ by a 64-bit value.
pub open spec fn steps_fit(rows: Seq<TestRow>) -> bool {
    forall|i: int| 2 <= i < rows.len() ==> in_width(#[trigger] rows[i].t - rows[i - 1].t, 64)
}

/// The nibbles `n`, read after the first tag, give back each column of
/// `rows` in turn, each ending at the next column's tag.
pub open spec fn columns_read_back(n: Seq<u8>, rows: Seq<TestRow>) -> bool {
    let lt = column_nibbles(col_t(rows), 64).len() + 1;
    let la = column_nibbles(col_a(rows), 8).len() + 1;
    let lb = column_nibbles(col_b(rows), 16).len() + 1;
    let s1 = n.skip(1);
    let s2 = s1.skip(lt as int);
    let s3 = s2.skip(la as int);
    let s4 = s3.skip(lb as int);
    &&& n.len() > 0
    &&& n[0] == START_OF_COLUMN
    &&& column_decodable(s1, 64) && column_values(s1, 64) == col_t(rows)
    &&& column_end(s1, 64) == ColumnEnd::Done(lt)
    &&& column_decodable(s2, 8) && column_values(s2, 8) == col_a(rows)
    &&& column_end(s2, 8) == ColumnEnd::Done(la)
    &&& column_decodable(s3, 16) && column_values(s3, 16) == col_b(rows)
    &&& column_end(s3, 16) == ColumnEnd::Done(lb)
    &&& column_decodable(s4, 32) && column_values(s4, 32) == col_c(rows)
}

/// One column, followed by what comes after it, reads back.
proof fn lemma_one_column(xs: Seq<int>, k: nat, tail: Seq<u8>)
    requires
        k == 8 || k == 16 || k == 32 || k == 64,
        forall|i: int| 0 <= i < xs.len() ==> in_width(#[trigger] xs[i], k),
        forall|i: int| #![trigger xs[i]] 2 <= i < xs.len() ==> in_width(xs[i] - xs[i - 1], 64),
        xs.len() >= 2 ==> blocks_valid(greedy_blocks(delta_codes(xs)), delta_codes(xs), k),
        column_head_ok(xs, k),
        tail.len() == 0 || tail[0] == START_OF_COLUMN,
    ensures
        column_decodable(column_nibbles(xs, k) + tail, k),
        column_values(column_nibbles(xs, k) + tail, k) == xs,
        column_end(column_nibbles(xs, k) + tail, k) == ColumnEnd::Done(
            column_nibbles(xs, k).len() + if tail.len() == 0 {
                0nat
            } else {
                1nat
            },
        ),
{
    lemma_column_roundtrip(xs, greedy_blocks(delta_codes(xs)), k, tail);
}

/// Compressed rows read back: the bytes of the columns of `rows`, as the
/// writers lay them out, give back every column, provided no column's
/// first value starts with the tag's nibble.
#[verifier::rlimit(100)]
#[verifier::spinoff_prover]
pub proof fn lemma_test_rows_read_back(rows: Seq<TestRow>)
    requires
        steps_fit(rows),
        test_row_heads_ok(rows),
        rows.len() >= 2 ==> blocks_valid(
            greedy_blocks(delta_codes(col_t(rows))),
            delta_codes(col_t(rows)),
            64,
        ),
        rows.len() >= 2 ==> blocks_valid(
            greedy_blocks(delta_codes(col_a(rows))),
            delta_codes(col_a(rows)),
            8,
        ),
        rows.len() >= 2 ==> blocks_valid(
            greedy_blocks(delta_codes(col_b(rows))),
            delta_codes(col_b(rows)),
            16,
        ),
        rows.len() >= 2 ==> blocks_valid(
            greedy_blocks(delta_codes(col_c(rows))),
            delta_codes(col_c(rows)),
            32,
        ),
    ensures
        columns_read_back(byte_nibbles(pack_nibbles(test_row_nibbles(rows))), rows),
{
    let tag = seq![START_OF_COLUMN];
    let (xt, xa, xb, xc) = (col_t(rows), col_a(rows), col_b(rows), col_c(rows));
    let (nt, na, nb, nc) = (
        column_nibbles(xt, 64),
        column_nibbles(xa, 8),
        column_nibbles(xb, 16),
        column_nibbles(xc, 32),
    );
    let n = test_row_nibbles(rows);
    let pad = if n.len() % 2 == 0 {
        Seq::<u8>::empty()
    } else {
        tag
    };
    let s = byte_nibbles(pack_nibbles(n));
    lemma_test_row_nibbles_small(rows);
    lemma_layout_of(nt, na, nb, nc);
    let s1 = s.skip(1);
    let s2 = s1.skip((nt.len() + 1) as int);
    let s3 = s2.skip((na.len() + 1) as int);
    let s4 = s3.skip((nb.len() + 1) as int);
    lemma_columns_fit(rows);
    assert(column_decodable(s1, 64) && column_values(s1, 64) == xt && column_end(s1, 64)
        == ColumnEnd::Done(nt.len() + 1)) by {
        lemma_one_column(xt, 64, tag + (na + (tag + (nb + (tag + (nc + pad))))));
    }
    assert(column_decodable(s2, 8) && column_values(s2, 8) == xa && column_end(s2, 8)
        == ColumnEnd::Done(na.len() + 1)) by {
        lemma_one_column(xa, 8, tag + (nb + (tag + (nc + pad))));
    }
    assert(column_decodable(s3, 16) && column_values(s3, 16) == xb && column_end(s3, 16)
        == ColumnEnd::Done(nb.len() + 1)) by {
        lemma_one_column(xb, 16, tag + (nc + pad));
    }
    assert(column_decodable(s4, 32) && column_values(s4, 32) == xc) by {
        lemma_one_column(xc, 32, pad);
    }
}

/// Where each of four tagged columns lies in the nibbles of their bytes.
#[verifier::rlimit(100)]
#[verifier::spinoff_prover]
proof fn lemma_layout_of(nt: Seq<u8>, na: Seq<u8>, nb: Seq<u8>, nc: Seq<u8>)
    requires
        all_nibbles(
            seq![START_OF_COLUMN] + nt + seq![START_OF_COLUMN] + na + seq![START_OF_COLUMN] + nb
                + seq![START_OF_COLUMN] + nc,
        ),
    ensures
        ({
            let tag = seq![START_OF_COLUMN];
            let n = tag + nt + tag + na + tag + nb + tag + nc;
            let pad = if n.len() % 2 == 0 {
                Seq::<u8>::empty()
            } else {
                tag
            };
            let r4 = nc + pad;
            let r3 = nb + (tag + r4);
            let r2 = na + (tag + r3);
            let r1 = nt + (tag + r2);
            let s = byte_nibbles(pack_nibbles(n));
            let s1 = s.skip(1);
            let s2 = s1.skip((nt.len() + 1) as int);
            let s3 = s2.skip((na.len() + 1) as int);
            let s4 = s3.skip((nb.len() + 1) as int);
            &&& s.len() > 0 && s[0] == START_OF_COLUMN
            &&& s1 == r1
            &&& s2 == r2
            &&& s3 == r3
            &&& s4 == r4
        }),
{
    let tag = seq![START_OF_COLUMN];
    let n = tag + nt + tag + na + tag + nb + tag + nc;
    lemma_pack_read(n);
    let pad = if n.len() % 2 == 0 {
        Seq::<u8>::empty()
    } else {
        tag
    };
    let r4 = nc + pad;
    let r3 = nb + (tag + r4);
    let r2 = na + (tag + r3);
    let r1 = nt + (tag + r2);
    let s = byte_nibbles(pack_nibbles(n));
    assert(s =~= tag + r1);
    let s1 = s.skip(1);
    assert(s1 =~= r1);
    let s2 = s1.skip((nt.len() + 1) as int);
    assert(s2 =~= r2);
    let s3 = s2.skip((na.len() + 1) as int);
    assert(s3 =~= r3);
    let s4 = s3.skip((nb.len() + 1) as int);
    assert(s4 =~= r4);
}

/// The nibbles of compressed rows are all below 16.
proof fn lemma_test_row_nibbles_small(rows: Seq<TestRow>)
    ensures
        all_nibbles(test_row_nibbles(rows)),
{
    let (xt, xa, xb, xc) = (col_t(rows), col_a(rows), col_b(rows), col_c(rows));
    let (nt, na, nb, nc) = (
        column_nibbles(xt, 64),
        column_nibbles(xa, 8),
        column_nibbles(xb, 16),
        column_nibbles(xc, 32),
    );
    let n = test_row_nibbles(rows);
    lemma_words_nibbles_small(column_words(xt, greedy_blocks(delta_codes(xt)), 64));
    lemma_words_nibbles_small(column_words(xa, greedy_blocks(delta_codes(xa)), 8));
    lemma_words_nibbles_small(column_words(xb, greedy_blocks(delta_codes(xb)), 16));
    lemma_words_nibbles_small(column_words(xc, greedy_blocks(delta_codes(xc)), 32));
    assert forall|i: int| 0 <= i < n.len() implies #[trigger] n[i] < 16 by {
        if i == 0 {
        } else if i < 1 + nt.len() {
            assert(n[i] == nt[i - 1]);
        } else if i == 1 + nt.len() {
        } else if i < 2 + nt.len() + na.len() {
            assert(n[i] == na[i - 2 - nt.len()]);
        } else if i == 2 + nt.len() + na.len() {
        } else if i < 3 + nt.len() + na.len() + nb.len() {
            assert(n[i] == nb[i - 3 - nt.len() - na.len()]);
        } else if i == 3 + nt.len() + na.len() + nb.len() {
        } else {
            assert(n[i] == nc[i - 4 - nt.len() - na.len() - nb.len()]);
        }
    }
}

/// The columns of rows hold values of their widths, and the timestamps'
/// steps fit 64 bits.
proof fn lemma_columns_fit(rows: Seq<TestRow>)
    requires
        steps_fit(rows),
    ensures
        forall|i: int| 0 <= i < col_t(rows).len() ==> in_width(#[trigger] col_t(rows)[i], 64),
        forall|i: int| 0 <= i < col_a(rows).len() ==> in_width(#[trigger] col_a(rows)[i], 8),
        forall|i: int| 0 <= i < col_b(rows).len() ==> in_width(#[trigger] col_b(rows)[i], 16),
        forall|i: int| 0 <= i < col_c(rows).len() ==> in_width(#[trigger] col_c(rows)[i], 32),
        forall|i: int| #![trigger col_t(rows)[i]] 2 <= i < col_t(rows).len() ==> in_width(
            col_t(rows)[i] - col_t(rows)[i - 1],
            64,
        ),
        forall|i: int| #![trigger col_a(rows)[i]] 2 <= i < col_a(rows).len() ==> in_width(
            col_a(rows)[i] - col_a(rows)[i - 1],
            64,
        ),
        forall|i: int| #![trigger col_b(rows)[i]] 2 <= i < col_b(rows).len() ==> in_width(
            col_b(rows)[i] - col_b(rows)[i - 1],
            64,
        ),
        forall|i: int| #![trigger col_c(rows)[i]] 2 <= i < col_c(rows).len() ==> in_width(
            col_c(rows)[i] - col_c(rows)[i - 1],
            64,
        ),
{
    assert forall|i: int| #![trigger col_t(rows)[i]] 2 <= i < col_t(rows).len() implies in_width(
        col_t(rows)[i] - col_t(rows)[i - 1],
        64,
    ) by {
        assert(in_width(rows[i].t - rows[i - 1].t, 64));
    }
}

/// The largest number of nibbles the four columns hold together.
pub open spec fn nibble_cap() -> nat {
    (usize::MAX / 1024) as nat
}

/// The compressor of `TestRow`s.
pub struct TestRowCompressorImpl {
    t: ColumnWriter,
    a: ColumnWriter,
    b: ColumnWriter,
    c: ColumnWriter,
    rows: usize,
    seen: Ghost<Seq<TestRow>>,
}

impl TestRowCompressorImpl {
    #[verifier::type_invariant]
    spec fn holds_rows(self) -> bool {
        let rs = self.seen@;
        &&& self.t.width() == 64
        &&& self.a.width() == 8
        &&& self.b.width() == 16
        &&& self.c.width() == 32
        &&& self.t.values() == col_t(rs)
        &&& self.a.values() == col_a(rs)
        &&& self.b.values() == col_b(rs)
        &&& self.c.values() == col_c(rs)
        &&& self.rows == rs.len()
        &&& self.rows <= nibble_cap()
        &&& steps_fit(rs)
        &&& self.t.written() + self.a.written() + self.b.written() + self.c.written() <= nibble_cap()
    }

    /// The rows compressed so far.
    pub closed spec fn rows_seen(&self) -> Seq<TestRow> {
        self.seen@
    }

    /// The nibbles held by the four columns.
    pub closed spec fn finished_nibbles(&self) -> nat {
        self.t.written() + self.a.written() + self.b.written() + self.c.written()
    }

    /// The delta codes waiting in the four columns.
    pub closed spec fn queued_codes(&self) -> nat {
        self.t.queued() + self.a.queued() + self.b.queued() + self.c.queued()
    }

    /// The values written out of the four columns, so far.
    pub closed spec fn emitted_values(&self) -> nat {
        (4 * self.rows - self.queued_codes()) as nat
    }

    /// An estimate of the bits per column value: the nibbles held, in bits,
    /// over the values written out, over the columns.
    pub closed spec fn rate(&self) -> nat {
        if self.emitted_values() == 0 {
            0
        } else {
            4 * self.finished_nibbles() / self.emitted_values() / 4
        }
    }

    fn finished_len(&self) -> (r: usize)
        ensures
            r == self.finished_nibbles(),
            r <= nibble_cap(),
    {
        proof {
            use_type_invariant(self);
        }
        self.t.nibble_len() + self.a.nibble_len() + self.b.nibble_len() + self.c.nibble_len()
    }

    fn queued_len(&self) -> (r: usize)
        ensures
            r == self.queued_codes(),
            r < 40,
            r <= 4 * self.rows,
    {
        proof {
            use_type_invariant(self);
        }
        self.t.queued_len() + self.a.queued_len() + self.b.queued_len() + self.c.queued_len()
    }
}

impl TestRowCompressorImpl {
    /// A compressor that has seen no row.
    fn empty() -> (r: Self)
        ensures
            r.rows_seen() == Seq::<TestRow>::empty(),
    {
        proof {
            assert(col_t(Seq::<TestRow>::empty()) =~= Seq::<int>::empty());
            assert(col_a(Seq::<TestRow>::empty()) =~= Seq::<int>::empty());
            assert(col_b(Seq::<TestRow>::empty()) =~= Seq::<int>::empty());
            assert(col_c(Seq::<TestRow>::empty()) =~= Seq::<int>::empty());
        }
        TestRowCompressorImpl {
            t: ColumnWriter::new(64),
            a: ColumnWriter::new(8),
            b: ColumnWriter::new(16),
            c: ColumnWriter::new(32),
            rows: 0,
            seen: Ghost(Seq::empty()),
        }
    }
}

impl TestRowCompressorImpl {
    /// Appends the tagged columns, packed into bytes, and starts over.
    fn finish_columns(&mut self, output_bytes: &mut Vec<u8>)
        ensures
            final(output_bytes)@ == old(output_bytes)@ + pack_nibbles(test_row_nibbles(old(self).rows_seen())),
            final(self).rows_seen() == Seq::<TestRow>::empty(),
            test_row_heads_ok(old(self).rows_seen()) ==> columns_read_back(
                byte_nibbles(final(output_bytes)@.skip(old(output_bytes)@.len() as int)),
                old(self).rows_seen(),
            ),
    {
        proof {
            use_type_invariant(&*self);
        }
        let ghost rs = self.seen@;
        let mut w = TestRowCompressorImpl::empty();
        std::mem::swap(self, &mut w);
        proof {
            use_type_invariant(&w);
        }
        let TestRowCompressorImpl { t, a, b, c, rows, seen } = w;
        let tw = t.into_words();
        let aw = a.into_words();
        let bw = b.into_words();
        let cw = c.into_words();
        let mut tag = HalfVec::new(1);
        tag.push(HalfWord::Half(START_OF_COLUMN));
        let mut lists: Vec<&HalfVec> = Vec::new();
        lists.push(&tag);
        lists.push(&tw);
        lists.push(&tag);
        lists.push(&aw);
        lists.push(&tag);
        lists.push(&bw);
        lists.push(&tag);
        lists.push(&cw);
        HalfVec::finish(output_bytes, lists.as_slice());
        proof {
            let ls = lists@;
            lemma_tag_nibbles();
            assert(tag.nibbles() =~= seq![START_OF_COLUMN]);
            lemma_eight_lists(ls);
            assert(lists_nibbles(ls) =~= test_row_nibbles(rs));
            assert(output_bytes@.skip(old(output_bytes)@.len() as int) =~= pack_nibbles(
                test_row_nibbles(rs),
            ));
            if test_row_heads_ok(rs) {
                lemma_test_rows_read_back(rs);
            }
        }
    }
}

impl TestRowCompressorImpl {

    /// The estimate: the nibbles held, in bits, and the waiting codes at
    /// the current rate for all the columns.
    pub open spec fn estimated_bits(&self) -> nat {
        4 * self.finished_nibbles() + self.queued_codes() * (4 * self.rate())
    }

    /// The compressed rows: each column behind its tag, padded to a byte.
    pub open spec fn pending_bytes(&self) -> Seq<u8> {
        pack_nibbles(test_row_nibbles(self.rows_seen()))
    }

    /// The timestamp's difference from the last one fits 64 bits, and the
    /// columns stay within their cap.
    pub open spec fn accepts(&self, row: TestRow) -> bool {
        &&& self.rows_seen().len() >= 2 ==> in_width(row.t - self.rows_seen().last().t, 64)
        &&& self.finished_nibbles() + 128 <= nibble_cap()
        &&& self.rows_seen().len() < nibble_cap()
    }

    pub fn new(prealloc_rows: usize) -> (r: Self)
        ensures
            r.rows_seen() == Seq::<TestRow>::empty(),
    {
        TestRowCompressorImpl::empty()
    }

    pub fn compress(&mut self, row: TestRow)
        requires
            old(self).accepts(row),
        ensures
            final(self).rows_seen() == old(self).rows_seen().push(row),
    {
        proof {
            use_type_invariant(&*self);
        }
        let ghost rs = self.seen@;
        let ghost ys = rs.push(row);
        proof {
            assert(col_t(ys) =~= col_t(rs).push(row.t as int));
            assert(col_a(ys) =~= col_a(rs).push(row.a as int));
            assert(col_b(ys) =~= col_b(rs).push(row.b as int));
            assert(col_c(ys) =~= col_c(rs).push(row.c as int));
            if rs.len() >= 2 {
                assert(col_t(rs).last() == rs.last().t);
            }
            assert forall|i: int| 2 <= i < ys.len() implies in_width(
                #[trigger] ys[i].t - ys[i - 1].t,
                64,
            ) by {
                if i < rs.len() {
                    assert(ys[i] == rs[i] && ys[i - 1] == rs[i - 1]);
                } else {
                    assert(ys[i - 1] == rs.last());
                }
            }
        }
        let mut w = TestRowCompressorImpl::empty();
        std::mem::swap(self, &mut w);
        proof {
            use_type_invariant(&w);
        }
        let TestRowCompressorImpl { mut t, mut a, mut b, mut c, rows, seen } = w;
        t.push(row.t);
        a.push(row.a as i64);
        b.push(row.b as i64);
        c.push(row.c as i64);
        *self = TestRowCompressorImpl { t, a, b, c, rows: rows + 1, seen: Ghost(ys) };
    }

    pub fn len(&self) -> (r: usize)
        ensures
            r == self.estimated_bits(),
    {
        proof {
            use_type_invariant(self);
        }
        let finished = self.finished_len();
        let queued = self.queued_len();
        let rate = self.bit_rate();
        proof {
            let cap = nibble_cap();
            assert(cap <= usize::MAX / 1024);
            assert(queued * (4 * rate) <= 160 * cap) by (nonlinear_arith)
                requires
                    queued < 40,
                    rate <= cap,
            ;
        }
        4 * finished + queued * (4 * rate)
    }

    pub fn bit_rate(&self) -> (r: usize)
        ensures
            r == self.rate(),
            r <= nibble_cap(),
    {
        proof {
            use_type_invariant(self);
        }
        let finished = self.finished_len();
        let queued = self.queued_len();
        let emitted: usize = 4 * self.rows - queued;
        if emitted == 0 {
            return 0;
        }
        4 * finished / emitted / 4
    }

    pub fn row_count(&self) -> (r: usize)
        ensures
            r == self.rows_seen().len(),
    {
        proof {
            use_type_invariant(self);
        }
        self.rows
    }

    pub fn finish_into(&mut self, output_bytes: &mut Vec<u8>)
        ensures
            final(output_bytes)@ == old(output_bytes)@ + old(self).pending_bytes(),
            final(self).rows_seen() == Seq::<TestRow>::empty(),
            test_row_heads_ok(old(self).rows_seen()) ==> columns_read_back(
                byte_nibbles(final(output_bytes)@.skip(old(output_bytes)@.len() as int)),
                old(self).rows_seen(),
            ),
    {
        self.finish_columns(output_bytes);
    }

    /// True when no bits have been compressed.
    pub fn is_empty(&self) -> (r: bool)
        ensures
            r == (self.estimated_bits() == 0),
    {
        self.len() == 0
    }

    /// Finishes into a new vector of bytes: the bytes that `finish_into` appends.
    pub fn finish(&mut self) -> (r: Vec<u8>)
        ensures
            r@ == old(self).pending_bytes(),
            final(self).rows_seen() == Seq::<TestRow>::empty(),
    {
        let mut bytes: Vec<u8> = Vec::new();
        self.finish_into(&mut bytes);
        assert(bytes@ =~= old(self).pending_bytes());
        bytes
    }
}

/// The nibbles of eight word lists, in order.
proof fn lemma_eight_lists(ls: Seq<&HalfVec>)
    requires
        ls.len() == 8,
    ensures
        lists_nibbles(ls) == ls[0].nibbles() + ls[1].nibbles() + ls[2].nibbles() + ls[3].nibbles()
            + ls[4].nibbles() + ls[5].nibbles() + ls[6].nibbles() + ls[7].nibbles(),
{
    assert(ls.take(0) =~= Seq::<&HalfVec>::empty());
    assert(lists_nibbles(Seq::<&HalfVec>::empty()) == Seq::<u8>::empty());
    assert(ls.take(1).drop_last() =~= ls.take(0));
    assert(lists_nibbles(ls.take(1)) == lists_nibbles(ls.take(0)) + ls[0].nibbles());
    assert(ls.take(2).drop_last() =~= ls.take(1));
    assert(lists_nibbles(ls.take(2)) == lists_nibbles(ls.take(1)) + ls[1].nibbles());
    assert(ls.take(3).drop_last() =~= ls.take(2));
    assert(lists_nibbles(ls.take(3)) == lists_nibbles(ls.take(2)) + ls[2].nibbles());
    assert(ls.take(4).drop_last() =~= ls.take(3));
    assert(lists_nibbles(ls.take(4)) == lists_nibbles(ls.take(3)) + ls[3].nibbles());
    assert(ls.take(5).drop_last() =~= ls.take(4));
    assert(lists_nibbles(ls.take(5)) == lists_nibbles(ls.take(4)) + ls[4].nibbles());
    assert(ls.take(6).drop_last() =~= ls.take(5));
    assert(lists_nibbles(ls.take(6)) == lists_nibbles(ls.take(5)) + ls[5].nibbles());
    assert(ls.take(7).drop_last() =~= ls.take(6));
    assert(lists_nibbles(ls.take(7)) == lists_nibbles(ls.take(6)) + ls[6].nibbles());
    assert(ls.take(8).drop_last() =~= ls.take(7));
    assert(lists_nibbles(ls.take(8)) == lists_nibbles(ls.take(7)) + ls[7].nibbles());
    assert(ls.take(8) =~= ls);
    assert(lists_nibbles(ls.take(1)) =~= ls[0].nibbles());
}

} // verus!
