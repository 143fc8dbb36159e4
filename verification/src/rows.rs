//! The row types of the example programs: a timestamp with one value, and a
//! timestamp with three values of different widths. `Row` is compressed row
//! by row, each field written with the delta code, and is read back whole.

use vstd::prelude::*;
use vstd::arithmetic::power2::{lemma2_to64, lemma_pow2_adds};
use crate::bits::{BitBuffer, BitBufferSlice};
use crate::svlq::{
    is_svlq_short, lemma_svlq_len, lemma_svlq_roundtrip, svlq_code, svlq_read, svlq_short, Svlq,
    SvlqRead, SvlqRef,
};
use crate::uvlq::lemma_stop_chunks_after;
use crate::compress::{
    reads_back, Compress, Decompress, FromCompressBits, IntoCompressBits,
};
use crate::delta::{
    class_width, decode_delta_i64, delta_code, delta_decode, delta_readable, encode_delta_i64, header_class, is_delta_readable, lemma_delta_code_len,
    lemma_delta_roundtrip, lemma_first_zero_in_range, read_width, DeltaRead,
};

verus! {

/// A row of a timestamp and one 32-bit value.
#[derive(Debug, Clone, Copy)]
pub struct Row {
    pub ts: i64,
    pub val: i32,
}

/// A row of a timestamp and three values of 8, 16 and 32 bits.
#[derive(Debug, Clone, Copy)]
pub struct TestRow {
    pub t: i64,
    pub a: i8,
    pub b: i16,
    pub c: i32,
}

/// The difference between two `Row`s, or between two such differences, in
/// 64 bits; the timestamp's difference wraps around.
#[derive(Debug, Clone, Copy)]
pub struct RowDelta {
    pub ts: i64,
    pub val: i64,
}

impl IntoCompressBits for Row {
    /// The signed quantities of the timestamp and of the value, in that order.
    open spec fn compress_bits(&self) -> Seq<bool> {
        svlq_code(self.ts as int) + svlq_code(self.val as int)
    }

    open spec fn bits_room() -> nat {
        176
    }

    fn into_bits(self, out: &mut BitBuffer) {
        proof {
            lemma2_to64();
            lemma_pow2_adds(32, 31);
            lemma_svlq_len(self.ts as int);
            lemma_svlq_len(self.val as int);
        }
        let ts = Svlq::from_i64(self.ts);
        out.extend_from(&ts.bits);
        let val = Svlq::from_i32(self.val);
        out.extend_from(&val.bits);
    }
}

impl IntoCompressBits for RowDelta {
    /// The delta codes of both fields, in order.
    open spec fn compress_bits(&self) -> Seq<bool> {
        delta_code(self.ts as int, 8) + delta_code(self.val as int, 8)
    }

    open spec fn bits_room() -> nat {
        144
    }

    fn into_bits(self, out: &mut BitBuffer) {
        proof {
            lemma_delta_code_len(self.ts as int, 8);
        }
        encode_delta_i64(self.ts, out);
        encode_delta_i64(self.val, out);
    }
}

/// The value and length of the delta code at the front of `bits`, where the
/// decoders can read one.
#[verifier::opaque]
pub open spec fn code_read(bits: Seq<bool>, last: nat, tbits: nat) -> Option<(int, nat)> {
    if delta_readable(bits, last, tbits) {
        match delta_decode(bits, last, tbits) {
            DeltaRead::Value(v, n) => Some((v, n)),
            _ => None,
        }
    } else {
        None
    }
}

/// A full row read from the front of `bits`, and the bits it takes.
pub open spec fn row_read(bits: Seq<bool>) -> Option<(Row, nat)> {
    match svlq_field(bits, 63) {
        Some((ts, n)) => match svlq_field(bits.skip(n as int), 31) {
            Some((val, m)) => Some((Row { ts: ts as i64, val: val as i32 }, n + m)),
            None => None,
        },
        None => None,
    }
}

/// A row difference read from the front of `bits`, and the bits it takes.
pub open spec fn row_delta_read(bits: Seq<bool>) -> Option<(RowDelta, nat)> {
    match code_read(bits, 8, 64) {
        Some((ts, n)) => match code_read(bits.skip(n as int), 8, 64) {
            Some((val, m)) => Some((RowDelta { ts: ts as i64, val: val as i64 }, n + m)),
            None => None,
        },
        None => None,
    }
}

/// Reads the delta code of an `i64` and hands back the bits after it, an
/// empty view when none follow.
fn read_i64<'a>(bits: BitBufferSlice<'a>) -> (r: Result<(i64, BitBufferSlice<'a>), &'static str>)
    ensures
        match code_read(bits@, 8, 64) {
            Some((v, n)) => (r matches Ok((x, rest)) && x == v && 1 <= n <= bits@.len()
                && rest@ == bits@.skip(n as int)),
            None => r is Err,
        },
{
    proof {
        reveal(code_read);
    }
    if !is_delta_readable(&bits, 8, 64) {
        return Err("Not enough bits to decode");
    }
    proof {
        if let DeltaRead::Value(v, n) = delta_decode(bits@, 8, 64) {
            if bits@[0] {
                let c = header_class(bits@, 8)->Some_0;
                assert(read_width(c, 8, 64) == class_width(c));
            }
        }
    }
    match decode_delta_i64(bits) {
        Ok((v, Some(rest))) => Ok((v, rest)),
        Ok((v, None)) => Ok((v, bits.skip(bits.len()))),
        Err(e) => Err(e),
    }
}

/// The value and length of the signed quantity at the front of `bits`,
/// for a type with `w` bits of magnitude, where the reader takes one.
pub open spec fn svlq_field(bits: Seq<bool>, w: nat) -> Option<(int, nat)> {
    if svlq_short(bits) {
        match svlq_read(bits, w, true) {
            SvlqRead::Value(v, n) => Some((v, n)),
            _ => None,
        }
    } else {
        None
    }
}

/// Reads a signed quantity of an `i64` or an `i32` (`w` of 63 or 31) and
/// hands back the bits after it.
fn read_svlq_field<'a>(bits: BitBufferSlice<'a>, w: u32) -> (r: Result<(i64, BitBufferSlice<'a>), &'static str>)
    requires
        w == 63 || w == 31,
    ensures
        match svlq_field(bits@, w as nat) {
            Some((v, n)) => (r matches Ok((x, rest)) && x == v && n <= bits@.len()
                && rest@ == bits@.skip(n as int)),
            None => r is Err,
        },
{
    if !is_svlq_short(&bits) {
        return Err("Signed VLQ bit overflow");
    }
    proof {
        let t = bits@.skip(8);
        if bits@.len() >= 8 && t.len() / 8 > 0 {
            lemma_stop_chunks_after(t, 0);
        }
    }
    let q = SvlqRef(bits);
    let read = if w == 63 {
        q.try_read_i64()
    } else {
        match q.try_read_i32() {
            Ok((v, n)) => Ok((v as i64, n)),
            Err(e) => Err(e),
        }
    };
    match read {
        Ok((v, n)) => Ok((v, bits.skip(n))),
        Err(e) => Err(e),
    }
}

impl FromCompressBits for Row {
    fn from_bits<'a>(input: BitBufferSlice<'a>) -> (r: Result<(Self, BitBufferSlice<'a>), &'static str>)
        ensures
            match row_read(input@) {
                Some((row, n)) => (r matches Ok((x, rest)) && x == row && n <= input@.len()
                    && rest@ == input@.skip(n as int)),
                None => r is Err,
            },
    {
        let (ts, rest) = match read_svlq_field(input, 63) {
            Ok(read) => read,
            Err(e) => return Err(e),
        };
        let (val, rest) = match read_svlq_field(rest, 31) {
            Ok(read) => read,
            Err(e) => return Err(e),
        };
        proof {
            lemma2_to64();
        }
        Ok((Row { ts, val: val as i32 }, rest))
    }
}

impl FromCompressBits for RowDelta {
    fn from_bits<'a>(input: BitBufferSlice<'a>) -> (r: Result<(Self, BitBufferSlice<'a>), &'static str>)
        ensures
            match row_delta_read(input@) {
                Some((d, n)) => (r matches Ok((x, rest)) && x == d && 1 <= n <= input@.len()
                    && rest@ == input@.skip(n as int)),
                None => r is Err,
            },
    {
        let (ts, rest) = match read_i64(input) {
            Ok(read) => read,
            Err(e) => return Err(e),
        };
        let (val, rest) = match read_i64(rest) {
            Ok(read) => read,
            Err(e) => return Err(e),
        };
        Ok((RowDelta { ts, val }, rest))
    }
}

/// The difference `a - b`; the timestamp's wraps around.
pub open spec fn row_sub(a: Row, b: Row) -> RowDelta {
    RowDelta { ts: a.ts.wrapping_sub(b.ts), val: (a.val - b.val) as i64 }
}

/// The difference of differences `d - e`, wrapping around.
pub open spec fn delta_sub(d: RowDelta, e: RowDelta) -> RowDelta {
    RowDelta { ts: d.ts.wrapping_sub(e.ts), val: d.val.wrapping_sub(e.val) }
}

/// `a + d`: the timestamp wraps around, the value is cut to 32 bits.
pub open spec fn row_add(a: Row, d: RowDelta) -> Row {
    Row { ts: a.ts.wrapping_add(d.ts), val: ((a.val as i64).wrapping_add(d.val)) as i32 }
}

fn sub_rows(a: &Row, b: &Row) -> (r: RowDelta)
    ensures
        r == row_sub(*a, *b),
{
    RowDelta { ts: a.ts.wrapping_sub(b.ts), val: a.val as i64 - b.val as i64 }
}

fn sub_deltas(d: &RowDelta, e: &RowDelta) -> (r: RowDelta)
    ensures
        r == delta_sub(*d, *e),
{
    RowDelta { ts: d.ts.wrapping_sub(e.ts), val: d.val.wrapping_sub(e.val) }
}

fn add_delta(a: &Row, d: &RowDelta) -> (r: Row)
    ensures
        r == row_add(*a, *d),
{
    Row { ts: a.ts.wrapping_add(d.ts), val: ((a.val as i64).wrapping_add(d.val)) as i32 }
}

/// The sum of differences `d + e`, wrapping around.
pub open spec fn delta_add(d: RowDelta, e: RowDelta) -> RowDelta {
    RowDelta { ts: d.ts.wrapping_add(e.ts), val: d.val.wrapping_add(e.val) }
}

fn add_deltas(d: &RowDelta, e: &RowDelta) -> (r: RowDelta)
    ensures
        r == delta_add(*d, *e),
{
    RowDelta { ts: d.ts.wrapping_add(e.ts), val: d.val.wrapping_add(e.val) }
}

impl Compress for Row {
    type Full = Row;
    type Delta = RowDelta;

    open spec fn full_of(self) -> Row {
        self
    }

    open spec fn delta_of(self, prev_row: Row) -> RowDelta {
        row_sub(self, prev_row)
    }

    open spec fn deltadelta_of(self, prev_prev_row: Row, prev_row: Row) -> RowDelta {
        delta_sub(row_sub(self, prev_row), row_sub(prev_row, prev_prev_row))
    }

    fn into_full(self) -> (r: Row) {
        self
    }

    fn into_delta(self, prev_row: &Row) -> (r: RowDelta) {
        sub_rows(&self, prev_row)
    }

    fn into_deltadelta(self, prev_prev_row: &Row, prev_row: &Row) -> (r: RowDelta) {
        sub_deltas(&sub_rows(&self, prev_row), &sub_rows(prev_row, prev_prev_row))
    }
}

impl Decompress for Row {
    type Full = Row;
    type Delta = RowDelta;

    open spec fn full_read(bits: Seq<bool>) -> Option<(Row, nat)> {
        row_read(bits)
    }

    open spec fn delta_read(bits: Seq<bool>, prev_row: Row) -> Option<(Row, nat)> {
        match row_delta_read(bits) {
            Some((delta, n)) => Some((row_add(prev_row, delta), n)),
            None => None,
        }
    }

    open spec fn deltadelta_read(bits: Seq<bool>, prev_row: Row, prev_prev_row: Row) -> Option<
        (Row, nat),
    > {
        match row_delta_read(bits) {
            Some((dd, n)) => Some(
                (row_add(prev_row, delta_add(row_sub(prev_row, prev_prev_row), dd)), n),
            ),
            None => None,
        }
    }

    fn from_full<'a>(bits: BitBufferSlice<'a>) -> Result<(Row, BitBufferSlice<'a>), &'static str> {
        match Row::from_bits(bits) {
            Ok(read) => Ok(read),
            Err(_) => Err("failed to unmarshal full row"),
        }
    }

    fn from_delta<'a>(bits: BitBufferSlice<'a>, prev_row: &Row) -> Result<
        (Row, BitBufferSlice<'a>),
        &'static str,
    > {
        match RowDelta::from_bits(bits) {
            Ok((delta, rest)) => Ok((add_delta(prev_row, &delta), rest)),
            Err(_) => Err("failed to unmarshal delta row"),
        }
    }

    fn from_deltadelta<'a>(bits: BitBufferSlice<'a>, prev_row: &Row, prev_prev_row: &Row) -> (r:
        Result<(Row, BitBufferSlice<'a>), &'static str>) {
        match RowDelta::from_bits(bits) {
            Ok((deltadelta, rest)) => {
                let delta = add_deltas(&sub_rows(prev_row, prev_prev_row), &deltadelta);
                Ok((add_delta(prev_row, &delta), rest))
            },
            Err(_) => Err("failed to unmarshal deltadelta row"),
        }
    }
}

/// Adding back a difference gives the row: `b + (a - b) == a`.
pub proof fn lemma_row_add_sub(a: Row, b: Row)
    ensures
        row_add(b, row_sub(a, b)) == a,
{
}

/// For differences, `e + (d - e) == d`, wrapping around.
pub proof fn lemma_delta_add_sub(d: RowDelta, e: RowDelta)
    ensures
        delta_add(e, delta_sub(d, e)) == d,
{
}

/// The bits of a row read back as that row, whatever follows them.
proof fn lemma_row_read(row: Row, rest: Seq<bool>)
    ensures
        row_read(row.compress_bits() + rest) == Some((row, row.compress_bits().len())),
{
    let c1 = svlq_code(row.ts as int);
    let c2 = svlq_code(row.val as int);
    let s = c1 + c2 + rest;
    lemma2_to64();
    lemma_pow2_adds(32, 31);
    assert(s =~= c1 + (c2 + rest));
    lemma_svlq_roundtrip(row.ts as int, 63, c2 + rest);
    assert(s.skip(c1.len() as int) =~= c2 + rest);
    lemma_svlq_roundtrip(row.val as int, 31, rest);
}

/// The bits of a row difference read back as that difference, whatever follows them.
proof fn lemma_row_delta_read(d: RowDelta, rest: Seq<bool>)
    ensures
        row_delta_read(d.compress_bits() + rest) == Some((d, d.compress_bits().len())),
        d.compress_bits().len() >= 1,
{
    reveal(code_read);
    let c1 = delta_code(d.ts as int, 8);
    let c2 = delta_code(d.val as int, 8);
    let s = c1 + c2 + rest;
    assert(s =~= c1 + (c2 + rest));
    lemma_delta_roundtrip(d.ts as int, 8, 64, c2 + rest);
    assert(s.skip(c1.len() as int) =~= c2 + rest);
    lemma_delta_roundtrip(d.val as int, 8, 64, rest);
    lemma_delta_code_len(d.ts as int, 8);
}

/// `Row` reads back what it writes: its full bits, its delta bits and its
/// delta-delta bits, whatever follows them, read back as the row.
pub proof fn lemma_row_reads_back()
    ensures
        reads_back::<Row>(),
{
    assert forall|t: Row, rest: Seq<bool>|
        #![trigger <Row as Decompress>::full_read(t.full_of().compress_bits() + rest)]
        <Row as Decompress>::full_read(t.full_of().compress_bits() + rest) == Some(
            (t, t.full_of().compress_bits().len()),
        ) by {
        lemma_row_read(t, rest);
    }
    assert forall|t: Row, p: Row, rest: Seq<bool>|
        #![trigger <Row as Decompress>::delta_read(t.delta_of(p).compress_bits() + rest, p)]
        <Row as Decompress>::delta_read(t.delta_of(p).compress_bits() + rest, p) == Some(
            (t, t.delta_of(p).compress_bits().len()),
        ) && t.delta_of(p).compress_bits().len() >= 1 by {
        lemma_row_delta_read(row_sub(t, p), rest);
        lemma_row_add_sub(t, p);
    }
    assert forall|t: Row, p: Row, pp: Row, rest: Seq<bool>|
        #![trigger <Row as Decompress>::deltadelta_read(
            t.deltadelta_of(pp, p).compress_bits() + rest,
            p,
            pp,
        )]
        <Row as Decompress>::deltadelta_read(t.deltadelta_of(pp, p).compress_bits() + rest, p, pp)
            == Some((t, t.deltadelta_of(pp, p).compress_bits().len()))
            && t.deltadelta_of(pp, p).compress_bits().len() >= 1 by {
        let d1 = row_sub(t, p);
        let d0 = row_sub(p, pp);
        lemma_row_delta_read(delta_sub(d1, d0), rest);
        lemma_delta_add_sub(d1, d0);
        lemma_row_add_sub(t, p);
    }
}

} // verus!
