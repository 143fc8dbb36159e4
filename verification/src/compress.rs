//! Row-at-a-time compression into one bit stream: the first row in full, the
//! second as the difference from the first, and every later row as the
//! difference of differences of the two rows before it. The row types say,
//! through the traits below, what each representation is and how it is written.

use vstd::prelude::*;
use crate::bits::{max_bits, BitBuffer, BitBufferSlice};

verus! {

/// A representation that writes itself as bits.
pub trait IntoCompressBits: Sized {
    /// The bits that `into_bits` appends for this value.
    spec fn compress_bits(&self) -> Seq<bool>;

    /// The free space, in bits, that `into_bits` asks of the buffer.
    spec fn bits_room() -> nat;

    /// Appends the bits of this value to `out`.
    fn into_bits(self, out: &mut BitBuffer)
        requires
            old(out)@.len() + Self::bits_room() <= max_bits(),
        ensures
            final(out)@ == old(out)@ + self.compress_bits(),
    ;
}

/// A representation that reads itself from the front of a bit stream.
pub trait FromCompressBits: Sized {
    /// Reads a value, handing back the bits after it.
    fn from_bits<'a>(input: BitBufferSlice<'a>) -> Result<(Self, BitBufferSlice<'a>), &'static str>;
}

/// A row type and its representations: in full, as a delta from the previous
/// row, and as a delta-delta from the two previous rows.
pub trait Compress: Copy + Sized {
    /// The representation of a row as a whole.
    type Full: IntoCompressBits;
    /// The representation of a difference between rows or between differences.
    type Delta: IntoCompressBits;

    /// The full representation of `self`.
    spec fn full_of(self) -> Self::Full;

    /// The representation of `self` minus `prev_row`.
    spec fn delta_of(self, prev_row: Self) -> Self::Delta;

    /// The representation of `(self - prev_row) - (prev_row - prev_prev_row)`.
    spec fn deltadelta_of(self, prev_prev_row: Self, prev_row: Self) -> Self::Delta;

    fn into_full(self) -> (r: Self::Full)
        ensures
            r == self.full_of(),
    ;

    fn into_delta(self, prev_row: &Self) -> (r: Self::Delta)
        ensures
            r == self.delta_of(*prev_row),
    ;

    fn into_deltadelta(self, prev_prev_row: &Self, prev_row: &Self) -> (r: Self::Delta)
        ensures
            r == self.deltadelta_of(*prev_prev_row, *prev_row),
    ;
}

/// A row type that reads its rows back from their representations.
pub trait Decompress: Copy + Sized {
    /// The representation of a row as a whole.
    type Full: FromCompressBits;
    /// The representation of a difference between rows or between differences.
    type Delta: FromCompressBits;

    /// What `from_full` reads from the front of `bits`: the row and the
    /// number of bits it takes, or `None` where it reports an error.
    spec fn full_read(bits: Seq<bool>) -> Option<(Self, nat)>;

    /// What `from_delta` reads after `prev_row`.
    spec fn delta_read(bits: Seq<bool>, prev_row: Self) -> Option<(Self, nat)>;

    /// What `from_deltadelta` reads after `prev_prev_row` and `prev_row`.
    spec fn deltadelta_read(bits: Seq<bool>, prev_row: Self, prev_prev_row: Self) -> Option<
        (Self, nat),
    >;

    /// Reads the first row, handing back the bits after it.
    fn from_full<'a>(bits: BitBufferSlice<'a>) -> (r: Result<(Self, BitBufferSlice<'a>), &'static str>)
        ensures
            match Self::full_read(bits@) {
                Some((row, n)) => (r matches Ok((x, rest)) && x == row && n <= bits@.len()
                    && rest@ == bits@.skip(n as int)),
                None => r is Err,
            },
    ;

    /// Reads the second row from its delta to `prev_row`.
    fn from_delta<'a>(bits: BitBufferSlice<'a>, prev_row: &Self) -> (r: Result<
        (Self, BitBufferSlice<'a>),
        &'static str,
    >)
        ensures
            match Self::delta_read(bits@, *prev_row) {
                Some((row, n)) => (r matches Ok((x, rest)) && x == row && n <= bits@.len()
                    && rest@ == bits@.skip(n as int)),
                None => r is Err,
            },
    ;

    /// Reads a later row from its delta-delta; a row that is read takes at
    /// least one bit.
    fn from_deltadelta<'a>(bits: BitBufferSlice<'a>, prev_row: &Self, prev_prev_row: &Self) -> (r:
        Result<(Self, BitBufferSlice<'a>), &'static str>)
        ensures
            match Self::deltadelta_read(bits@, *prev_row, *prev_prev_row) {
                Some((row, n)) => (r matches Ok((x, rest)) && x == row && 1 <= n <= bits@.len()
                    && rest@ == bits@.skip(n as int)),
                None => r is Err,
            },
    ;
}

/// The rows read from `bits` after `prev_prev_row` and `prev_row`, each from
/// its delta-delta, appended to `read`, until no bit is left; `None` where a
/// read fails.
pub open spec fn read_tail<T: Decompress>(bits: Seq<bool>, prev_row: T, prev_prev_row: T, read: Seq<T>) -> Option<
    Seq<T>,
>
    decreases bits.len(),
{
    if bits.len() == 0 {
        Some(read)
    } else {
        match T::deltadelta_read(bits, prev_row, prev_prev_row) {
            Some((row, n)) => if 1 <= n <= bits.len() {
                read_tail(bits.skip(n as int), row, prev_row, read.push(row))
            } else {
                None
            },
            None => None,
        }
    }
}

/// The rows of a stream: the first in full, then, if any bit is left, the
/// second from its delta, and the others from their delta-deltas until no
/// bit is left; `None` where a read fails.
pub open spec fn read_stream<T: Decompress>(bits: Seq<bool>) -> Option<Seq<T>> {
    match T::full_read(bits) {
        Some((first, n0)) => {
            let b1 = bits.skip(n0 as int);
            if b1.len() == 0 {
                Some(seq![first])
            } else {
                match T::delta_read(b1, first) {
                    Some((second, n1)) => read_tail(
                        b1.skip(n1 as int),
                        second,
                        first,
                        seq![first, second],
                    ),
                    None => None,
                }
            }
        },
        None => None,
    }
}

/// The bits of row `i` of `rows` in the stream: the first row in full, the
/// second as a delta, every later one as a delta-delta of the two before it.
pub open spec fn row_bits<T: Compress>(rows: Seq<T>, i: int) -> Seq<bool> {
    if i == 0 {
        rows[0].full_of().compress_bits()
    } else if i == 1 {
        rows[1].delta_of(rows[0]).compress_bits()
    } else {
        rows[i].deltadelta_of(rows[i - 2], rows[i - 1]).compress_bits()
    }
}

/// The stream of bits of `rows`, compressed in order.
pub open spec fn stream_bits<T: Compress>(rows: Seq<T>) -> Seq<bool>
    decreases rows.len(),
{
    if rows.len() == 0 {
        Seq::empty()
    } else {
        stream_bits(rows.drop_last()) + row_bits(rows, rows.len() - 1)
    }
}

/// The bits of rows `k`, `k + 1`, ... of `rows` in the stream.
pub open spec fn suffix_bits<T: Compress>(rows: Seq<T>, k: int) -> Seq<bool>
    decreases rows.len() - k,
{
    if k < 0 || k >= rows.len() {
        Seq::empty()
    } else {
        row_bits(rows, k) + suffix_bits(rows, k + 1)
    }
}

/// The stream of `rows` is the stream of its first `k` rows followed by the
/// bits of the others.
pub proof fn lemma_stream_split<T: Compress>(rows: Seq<T>, k: int)
    requires
        0 <= k <= rows.len(),
    ensures
        stream_bits(rows) == stream_bits(rows.take(k)) + suffix_bits(rows, k),
    decreases rows.len() - k,
{
    if k == rows.len() {
        assert(rows.take(k) =~= rows);
        assert(stream_bits(rows) + Seq::<bool>::empty() =~= stream_bits(rows));
    } else {
        lemma_stream_split(rows, k + 1);
        let t = rows.take(k + 1);
        assert(t.drop_last() =~= rows.take(k));
        assert(row_bits(t, k) == row_bits(rows, k));
        assert(stream_bits(t) == stream_bits(rows.take(k)) + row_bits(rows, k));
        assert(stream_bits(rows.take(k)) + suffix_bits(rows, k) =~= stream_bits(rows.take(k))
            + row_bits(rows, k) + suffix_bits(rows, k + 1));
    }
}

/// The state of compressing a series of rows.
pub struct Compressor<T: Compress> {
    pub output: BitBuffer,
    pub row_n: Option<T>,
    pub row_n1: Option<T>,
}

/// `c` has compressed exactly `rows`: its output is their stream, and it
/// remembers the last two of them (one, while only one was seen).
pub open spec fn has_compressed<T: Compress>(c: Compressor<T>, rows: Seq<T>) -> bool {
    &&& c.output@ == stream_bits(rows)
    &&& c.row_n == if rows.len() == 0 {
        None
    } else if rows.len() == 1 {
        Some(rows[0])
    } else {
        Some(rows[rows.len() - 2])
    }
    &&& c.row_n1 == if rows.len() < 2 {
        None
    } else {
        Some(rows.last())
    }
}

impl<T: Compress> Compressor<T> {
    /// The bits that compressing `row` appends next: in full after no row, as
    /// a delta after one, and as a delta-delta after two.
    pub open spec fn next_bits(&self, row: T) -> Seq<bool> {
        match self.row_n {
            None => row.full_of().compress_bits(),
            Some(n) => match self.row_n1 {
                None => row.delta_of(n).compress_bits(),
                Some(n1) => row.deltadelta_of(n, n1).compress_bits(),
            },
        }
    }

    /// The free space that compressing the next row asks of the output.
    pub open spec fn next_room(&self) -> nat {
        match self.row_n {
            None => <T::Full as IntoCompressBits>::bits_room(),
            Some(_) => <T::Delta as IntoCompressBits>::bits_room(),
        }
    }

    /// `after` is this compressor once `row` is compressed: the bits of `row`
    /// are appended and the remembered rows move along.
    pub open spec fn steps_to(&self, row: T, after: Self) -> bool {
        &&& after.output@ == self.output@ + self.next_bits(row)
        &&& match self.row_n {
            None => after.row_n == Some(row) && after.row_n1 == self.row_n1,
            Some(n) => match self.row_n1 {
                None => after.row_n == Some(n) && after.row_n1 == Some(row),
                Some(n1) => after.row_n == Some(n1) && after.row_n1 == Some(row),
            },
        }
    }

    /// A compressor that has seen no row.
    pub fn new() -> (r: Self)
        ensures
            has_compressed(r, Seq::<T>::empty()),
    {
        Compressor { output: BitBuffer::new(), row_n: None, row_n1: None }
    }

    /// Compresses one row onto the output.
    pub fn compress(&mut self, row: T)
        requires
            old(self).output@.len() + old(self).next_room() <= max_bits(),
        ensures
            old(self).steps_to(row, *final(self)),
    {
        match self.row_n {
            None => {
                self.row_n = Some(row);
                let representation = row.into_full();
                representation.into_bits(&mut self.output);
            },
            Some(row_n) => match self.row_n1 {
                None => {
                    self.row_n1 = Some(row);
                    let representation = row.into_delta(&row_n);
                    representation.into_bits(&mut self.output);
                },
                Some(row_n1) => {
                    let representation = row.into_deltadelta(&row_n, &row_n1);
                    representation.into_bits(&mut self.output);
                    self.row_n = Some(row_n1);
                    self.row_n1 = Some(row);
                },
            },
        }
    }

    /// The compressed bits.
    pub fn finish(self) -> (r: BitBuffer)
        ensures
            r@ == self.output@,
    {
        self.output
    }
}

/// Compressing one more row extends the stream of the rows compressed so far
/// by that row's bits: a compressor that has compressed `rows` and then
/// compresses `row` has compressed `rows` followed by `row`.
pub proof fn lemma_compress_extends<T: Compress>(
    before: Compressor<T>,
    rows: Seq<T>,
    row: T,
    after: Compressor<T>,
)
    requires
        has_compressed(before, rows),
        before.steps_to(row, after),
    ensures
        has_compressed(after, rows.push(row)),
{
    let all = rows.push(row);
    assert(all.drop_last() =~= rows);
    assert(all[all.len() - 1] == row);
    if rows.len() >= 1 {
        assert(all[0] == rows[0]);
    }
    if rows.len() >= 2 {
        assert(all[all.len() - 2] == rows.last());
        assert(all[all.len() - 3] == rows[rows.len() - 2]);
    }
    assert(stream_bits(all) == stream_bits(rows) + row_bits(all, all.len() - 1));
}

/// The row type reads back what it writes: the bits of each representation,
/// whatever follows them, read back as the row they stand for and take all
/// of those bits, at least one for a difference.
pub open spec fn reads_back<T: Compress + Decompress>() -> bool {
    &&& forall|t: T, rest: Seq<bool>|
        #![trigger T::full_read(t.full_of().compress_bits() + rest)]
        T::full_read(t.full_of().compress_bits() + rest) == Some(
            (t, t.full_of().compress_bits().len()),
        )
    &&& forall|t: T, p: T, rest: Seq<bool>|
        #![trigger T::delta_read(t.delta_of(p).compress_bits() + rest, p)]
        T::delta_read(t.delta_of(p).compress_bits() + rest, p) == Some(
            (t, t.delta_of(p).compress_bits().len()),
        ) && t.delta_of(p).compress_bits().len() >= 1
    &&& forall|t: T, p: T, pp: T, rest: Seq<bool>|
        #![trigger T::deltadelta_read(t.deltadelta_of(pp, p).compress_bits() + rest, p, pp)]
        T::deltadelta_read(t.deltadelta_of(pp, p).compress_bits() + rest, p, pp) == Some(
            (t, t.deltadelta_of(pp, p).compress_bits().len()),
        ) && t.deltadelta_of(pp, p).compress_bits().len() >= 1
}

/// Reading the delta-deltas of rows `k`, `k + 1`, ... after the first `k`
/// rows gives back the rest of the rows.
proof fn lemma_read_tail_rows<T: Compress + Decompress>(rows: Seq<T>, k: int)
    requires
        reads_back::<T>(),
        2 <= k <= rows.len(),
    ensures
        read_tail(suffix_bits(rows, k), rows[k - 1], rows[k - 2], rows.take(k)) == Some(rows),
    decreases rows.len() - k,
{
    if k == rows.len() {
        assert(rows.take(k) =~= rows);
    } else {
        let code = rows[k].deltadelta_of(rows[k - 2], rows[k - 1]).compress_bits();
        let rest = suffix_bits(rows, k + 1);
        assert(row_bits(rows, k) == code);
        assert(suffix_bits(rows, k) == code + rest);
        assert(T::deltadelta_read(code + rest, rows[k - 1], rows[k - 2]) == Some(
            (rows[k], code.len()),
        ));
        assert((code + rest).skip(code.len() as int) =~= rest);
        assert(rows.take(k).push(rows[k]) =~= rows.take(k + 1));
        lemma_read_tail_rows(rows, k + 1);
    }
}

/// Lossless compression: for a row type that reads back what it writes, the
/// stream of one or more rows reads back as exactly those rows.
pub proof fn lemma_stream_roundtrip<T: Compress + Decompress>(rows: Seq<T>)
    requires
        reads_back::<T>(),
        rows.len() >= 1,
    ensures
        read_stream::<T>(stream_bits(rows)) == Some(rows),
{
    let c0 = rows[0].full_of().compress_bits();
    let s = stream_bits(rows);
    lemma_stream_split(rows, 0);
    assert(rows.take(0) =~= Seq::<T>::empty());
    assert(row_bits(rows, 0) == c0);
    assert(suffix_bits(rows, 0) == c0 + suffix_bits(rows, 1));
    assert(s =~= c0 + suffix_bits(rows, 1));
    assert(T::full_read(c0 + suffix_bits(rows, 1)) == Some((rows[0], c0.len())));
    let b1 = s.skip(c0.len() as int);
    assert(b1 =~= suffix_bits(rows, 1));
    if rows.len() == 1 {
        assert(suffix_bits(rows, 1) == Seq::<bool>::empty());
        assert(seq![rows[0]] =~= rows);
    } else {
        let c1 = rows[1].delta_of(rows[0]).compress_bits();
        let rest = suffix_bits(rows, 2);
        assert(row_bits(rows, 1) == c1);
        assert(suffix_bits(rows, 1) == c1 + rest);
        assert(T::delta_read(c1 + rest, rows[0]) == Some((rows[1], c1.len())));
        assert(b1.len() > 0);
        assert(b1.skip(c1.len() as int) =~= rest);
        lemma_read_tail_rows(rows, 2);
        assert(rows.take(2) =~= seq![rows[0], rows[1]]);
    }
}

/// What a compressor of one or more rows has written reads back as those
/// rows, for a row type that reads back what it writes.
pub proof fn lemma_compressor_lossless<T: Compress + Decompress>(c: Compressor<T>, rows: Seq<T>)
    requires
        reads_back::<T>(),
        has_compressed(c, rows),
        rows.len() >= 1,
    ensures
        read_stream::<T>(c.output@) == Some(rows),
{
    lemma_stream_roundtrip(rows);
}

/// The state of reading rows back from a bit stream.
pub struct Decompressor<'de> {
    pub input: BitBufferSlice<'de>,
}

impl<'de> Decompressor<'de> {
    /// A reader of the rows in `input`.
    pub fn new(input: BitBufferSlice<'de>) -> (r: Self)
        ensures
            r.input@ == input@,
    {
        Decompressor { input }
    }

    /// Reads every row: the first in full, then, while bits are left, the
    /// second from its delta and the others from their delta-deltas. The
    /// first error that a row type reports is handed back.
    pub fn decompress<T: Decompress>(&mut self) -> (r: Result<Vec<T>, &'static str>)
        ensures
            match read_stream::<T>(old(self).input@) {
                Some(rows) => (r matches Ok(v) && v@ == rows) && final(self).input@.len() == 0,
                None => r is Err,
            },
    {
        let ghost all = self.input@;
        let (first_row, trailing) = match T::from_full(self.input) {
            Ok(read) => read,
            Err(e) => return Err(e),
        };
        self.input = trailing;
        if self.input.is_empty() {
            let mut rows: Vec<T> = Vec::new();
            rows.push(first_row);
            assert(rows@ =~= seq![first_row]);
            return Ok(rows);
        }
        let (second_row, trailing) = match T::from_delta(self.input, &first_row) {
            Ok(read) => read,
            Err(e) => return Err(e),
        };
        self.input = trailing;
        let mut rows: Vec<T> = Vec::new();
        rows.push(first_row);
        rows.push(second_row);
        let mut t_prev_prev = first_row;
        let mut t_prev = second_row;
        assert(rows@ =~= seq![first_row, second_row]);
        while !self.input.is_empty()
            invariant
                all == old(self).input@,
                read_stream::<T>(all) == read_tail(self.input@, t_prev, t_prev_prev, rows@),
            decreases self.input@.len(),
        {
            let ghost here = self.input@;
            let (row, trailing) = match T::from_deltadelta(self.input, &t_prev, &t_prev_prev) {
                Ok(read) => read,
                Err(e) => {
                    assert(read_tail(here, t_prev, t_prev_prev, rows@) is None);
                    return Err(e);
                },
            };
            self.input = trailing;
            rows.push(row);
            t_prev_prev = t_prev;
            t_prev = row;
        }
        Ok(rows)
    }
}

} // verus!
