//! Blocks of zigzag-coded deltas: a short header naming how many samples the
//! block holds, then each sample's zigzag code in a fixed number of bits,
//! least significant bit first.

use vstd::prelude::*;
use crate::bits::{
    BitBuffer, BitBufferSlice, bits_value, low_bits, low_mask, max_bits, push_low_bits,
    read_low_bits, remainder, remainder_is, lemma_bits_value_take_low_bits, lemma_bits_value_fits,
    lemma_field_within_mask, lemma_shift_literals, bit_of, lemma_bits_value_low_bits,
};

verus! {

/// The zigzag code of `v`: 0, -1, 1, -2, 2, ... map to 0, 1, 2, 3, 4, ...
pub open spec fn zigzag(v: int) -> int {
    if v >= 0 {
        2 * v
    } else {
        -2 * v - 1
    }
}

/// The value whose zigzag code is `z` (for `z >= 0`).
pub open spec fn unzigzag(z: int) -> int {
    if z % 2 == 0 {
        z / 2
    } else {
        -(z / 2) - 1
    }
}

/// Zigzag code of a 64-bit value.
pub fn zigzag64(v: i64) -> (r: u64)
    ensures
        r as int == zigzag(v as int),
{
    if v >= 0 {
        (v as u64) * 2
    } else {
        ((-(v + 1)) as u64) * 2 + 1
    }
}

/// The value of a zigzag code.
pub fn unzigzag64(z: u64) -> (r: i64)
    ensures
        r as int == unzigzag(z as int),
{
    let h = (z / 2) as i64;
    if z % 2 == 0 {
        h
    } else {
        -h - 1
    }
}

/// Header of a block of `count` samples.
pub open spec fn block_header(count: nat) -> Seq<bool> {
    if count == 2 {
        seq![true, false, false, false]
    } else if count == 3 {
        seq![true, false, true, false, false, false]
    } else if count == 4 {
        seq![true, true, false, false]
    } else if count == 8 {
        seq![true, true, true, false]
    } else {
        seq![true, true, true, true, false, false]
    }
}

/// Bits per sample in a block of `count` samples.
pub open spec fn block_width(count: nat) -> nat {
    if count == 2 {
        16
    } else if count == 3 {
        10
    } else if count == 4 {
        8
    } else if count == 8 {
        4
    } else {
        3
    }
}

/// The `width` low bits of each code, in order.
pub open spec fn packed(zs: Seq<u64>, width: nat) -> Seq<bool>
    decreases zs.len(),
{
    if zs.len() == 0 {
        Seq::empty()
    } else {
        packed(zs.drop_last(), width) + low_bits(zs.last(), width)
    }
}

/// A block of `count` samples whose codes are `zs`.
pub open spec fn block_code(count: nat, zs: Seq<u64>) -> Seq<bool> {
    block_header(count) + packed(zs, block_width(count))
}

/// Sample counts that an `i8` block may hold.
pub open spec fn narrow_count(n: nat) -> bool {
    n == 4 || n == 8 || n == 10
}

/// Sample counts that a block of a wider type may hold.
pub open spec fn wide_count(n: nat) -> bool {
    n == 2 || n == 3 || n == 4 || n == 8 || n == 10
}

/// Zigzag codes of the samples, as 64-bit words.
pub open spec fn zigzag_codes<T>(vals: Seq<T>, f: spec_fn(T) -> int) -> Seq<u64> {
    vals.map_values(|v: T| zigzag(f(v)) as u64)
}

/// The block that the `i8` encoder writes for `vals` (nothing for other lengths).
pub open spec fn block_code_i8(vals: Seq<i8>) -> Seq<bool> {
    if narrow_count(vals.len()) {
        block_code(vals.len(), zigzag_codes(vals, |v: i8| v as int))
    } else {
        Seq::empty()
    }
}

/// The code that the `i16` encoder gives a sample in a block of `count`: the
/// 4- and 8-sample blocks xor the doubled value with its arithmetic shift by 7,
/// and the 10-sample block codes the value truncated to `i8`.
pub open spec fn code_i16(v: i16, count: nat) -> u64 {
    if count == 4 || count == 8 {
        (((v as u16) << 1u16) ^ ((v >> 7i16) as u16)) as u64
    } else if count == 10 {
        zigzag((v as i8) as int) as u64
    } else {
        zigzag(v as int) as u64
    }
}

/// The block that the `i16` encoder writes for `vals` (nothing for other lengths).
pub open spec fn block_code_i16(vals: Seq<i16>) -> Seq<bool> {
    if wide_count(vals.len()) {
        block_code(vals.len(), vals.map_values(|v: i16| code_i16(v, vals.len())))
    } else {
        Seq::empty()
    }
}

/// The block that the `i32` encoder writes for `vals` (nothing for other lengths).
pub open spec fn block_code_i32(vals: Seq<i32>) -> Seq<bool> {
    if wide_count(vals.len()) {
        block_code(vals.len(), zigzag_codes(vals, |v: i32| v as int))
    } else {
        Seq::empty()
    }
}

/// The block that the `i64` encoder writes for `vals` (nothing for other lengths).
pub open spec fn block_code_i64(vals: Seq<i64>) -> Seq<bool> {
    if wide_count(vals.len()) {
        block_code(vals.len(), zigzag_codes(vals, |v: i64| v as int))
    } else {
        Seq::empty()
    }
}

/// Appends a block of `codes.len()` samples.
fn push_block(out: &mut BitBuffer, codes: &Vec<u64>)
    requires
        wide_count(codes@.len() as nat),
        old(out)@.len() + 36 <= max_bits(),
    ensures
        final(out)@ == old(out)@ + block_code(codes@.len() as nat, codes@),
{
    let count = codes.len();
    let ghost hdr = block_header(count as nat);
    let header: Vec<bool> = if count == 2 {
        vec![true, false, false, false]
    } else if count == 3 {
        vec![true, false, true, false, false, false]
    } else if count == 4 {
        vec![true, true, false, false]
    } else if count == 8 {
        vec![true, true, true, false]
    } else {
        vec![true, true, true, true, false, false]
    };
    assert(header@ =~= hdr);
    let mut i: usize = 0;
    while i < header.len()
        invariant
            i <= header@.len(),
            header@ == hdr,
            hdr.len() <= 6,
            out@ == old(out)@ + hdr.take(i as int),
            old(out)@.len() + 36 <= max_bits(),
        decreases header.len() - i,
    {
        out.push(header[i]);
        proof {
            assert(hdr.take(i + 1) =~= hdr.take(i as int).push(header@[i as int]));
        }
        i += 1;
    }
    assert(hdr.take(i as int) =~= hdr);
    let width: u64 = if count == 2 {
        16
    } else if count == 3 {
        10
    } else if count == 4 {
        8
    } else if count == 8 {
        4
    } else {
        3
    };
    let mut k: usize = 0;
    while k < count
        invariant
            k <= count,
            count == codes@.len(),
            wide_count(count as nat),
            width == block_width(count as nat),
            out@ == old(out)@ + hdr + packed(codes@.take(k as int), width as nat),
            out@.len() == old(out)@.len() + hdr.len() + k * width,
            hdr.len() + count * width <= 36,
            old(out)@.len() + 36 <= max_bits(),
        decreases count - k,
    {
        let ghost before = out@;
        proof {
            assert(k * width + width == (k + 1) * width) by (nonlinear_arith);
            assert((k + 1) * width <= count * width) by (nonlinear_arith)
                requires
                    k + 1 <= count,
            ;
        }
        push_low_bits(out, codes[k], width);
        proof {
            assert(codes@.take(k + 1).drop_last() =~= codes@.take(k as int));
            assert(out@ =~= old(out)@ + hdr + packed(codes@.take(k + 1), width as nat));
        }
        k += 1;
    }
    assert(codes@.take(count as int) =~= codes@);
}


/// Zigzag codes of all of `values`.
fn codes_of(values: &[i64]) -> (r: Vec<u64>)
    ensures
        r@ == zigzag_codes(values@, |v: i64| v as int),
{
    let mut r: Vec<u64> = Vec::new();
    let mut i: usize = 0;
    while i < values.len()
        invariant
            i <= values@.len(),
            r@ == zigzag_codes(values@.take(i as int), |v: i64| v as int),
        decreases values.len() - i,
    {
        r.push(zigzag64(values[i]));
        proof {
            assert(values@.take(i + 1) =~= values@.take(i as int).push(values@[i as int]));
            assert(zigzag_codes(values@.take(i + 1), |v: i64| v as int) =~= zigzag_codes(
                values@.take(i as int),
                |v: i64| v as int,
            ).push(zigzag(values@[i as int] as int) as u64));
        }
        i += 1;
    }
    assert(values@.take(i as int) =~= values@);
    r
}

/// Appends a block holding all of `values`, when there are 4, 8 or 10 of them;
/// otherwise appends nothing.
pub fn encode_delta_i8(values: &mut [i8], out: &mut BitBuffer)
    requires
        narrow_count(old(values)@.len()) ==> old(out)@.len() + 36 <= max_bits(),
    ensures
        final(values)@ == old(values)@,
        final(out)@ == old(out)@ + block_code_i8(old(values)@),
{
    let n = values.len();
    if n == 4 || n == 8 || n == 10 {
        let mut codes: Vec<u64> = Vec::new();
        let mut i: usize = 0;
        while i < n
            invariant
                i <= n,
                n == values@.len(),
                codes@ == zigzag_codes(values@.take(i as int), |v: i8| v as int),
            decreases n - i,
        {
            codes.push(zigzag64(values[i] as i64));
            proof {
                assert(values@.take(i + 1) =~= values@.take(i as int).push(values@[i as int]));
                assert(zigzag_codes(values@.take(i + 1), |v: i8| v as int) =~= zigzag_codes(
                    values@.take(i as int),
                    |v: i8| v as int,
                ).push(zigzag(values@[i as int] as int) as u64));
            }
            i += 1;
        }
        assert(values@.take(n as int) =~= values@);
        push_block(out, &codes);
    }
}

/// The code that the `i16` encoder gives a sample in a block of `count`.
fn zigzag_i16(v: i16, count: usize) -> (r: u64)
    ensures
        r == code_i16(v, count as nat),
{
    if count == 4 || count == 8 {
        (((v as u16) << 1u16) ^ ((v >> 7i16) as u16)) as u64
    } else if count == 10 {
        zigzag64((v as i8) as i64)
    } else {
        zigzag64(v as i64)
    }
}

/// Appends a block holding all of `values`, when there are 2, 3, 4, 8 or 10
/// of them; otherwise appends nothing.
pub fn encode_delta_i16(values: &mut [i16], out: &mut BitBuffer)
    requires
        wide_count(old(values)@.len()) ==> old(out)@.len() + 36 <= max_bits(),
    ensures
        final(values)@ == old(values)@,
        final(out)@ == old(out)@ + block_code_i16(old(values)@),
{
    let n = values.len();
    if n == 2 || n == 3 || n == 4 || n == 8 || n == 10 {
        let ghost f = |v: i16| code_i16(v, n as nat);
        let mut codes: Vec<u64> = Vec::new();
        let mut i: usize = 0;
        while i < n
            invariant
                i <= n,
                n == values@.len(),
                codes@ == values@.take(i as int).map_values(f),
                f == (|v: i16| code_i16(v, n as nat)),
            decreases n - i,
        {
            codes.push(zigzag_i16(values[i], n));
            proof {
                assert(values@.take(i + 1) =~= values@.take(i as int).push(values@[i as int]));
                assert(values@.take(i + 1).map_values(f) =~= values@.take(i as int).map_values(
                    f,
                ).push(f(values@[i as int])));
            }
            i += 1;
        }
        assert(values@.take(n as int) =~= values@);
        push_block(out, &codes);
    }
}

/// Appends a block holding all of `values`, when there are 2, 3, 4, 8 or 10
/// of them; otherwise appends nothing.
pub fn encode_delta_i32(values: &mut [i32], out: &mut BitBuffer)
    requires
        wide_count(old(values)@.len()) ==> old(out)@.len() + 36 <= max_bits(),
    ensures
        final(values)@ == old(values)@,
        final(out)@ == old(out)@ + block_code_i32(old(values)@),
{
    let n = values.len();
    if n == 2 || n == 3 || n == 4 || n == 8 || n == 10 {
        let mut codes: Vec<u64> = Vec::new();
        let mut i: usize = 0;
        while i < n
            invariant
                i <= n,
                n == values@.len(),
                codes@ == zigzag_codes(values@.take(i as int), |v: i32| v as int),
            decreases n - i,
        {
            codes.push(zigzag64(values[i] as i64));
            proof {
                assert(values@.take(i + 1) =~= values@.take(i as int).push(values@[i as int]));
                assert(zigzag_codes(values@.take(i + 1), |v: i32| v as int) =~= zigzag_codes(
                    values@.take(i as int),
                    |v: i32| v as int,
                ).push(zigzag(values@[i as int] as int) as u64));
            }
            i += 1;
        }
        assert(values@.take(n as int) =~= values@);
        push_block(out, &codes);
    }
}

/// Appends a block holding all of `values`, when there are 2, 3, 4, 8 or 10
/// of them; otherwise appends nothing.
pub fn encode_delta_i64(values: &mut [i64], out: &mut BitBuffer)
    requires
        wide_count(old(values)@.len()) ==> old(out)@.len() + 36 <= max_bits(),
    ensures
        final(values)@ == old(values)@,
        final(out)@ == old(out)@ + block_code_i64(old(values)@),
{
    let n = values.len();
    if n == 2 || n == 3 || n == 4 || n == 8 || n == 10 {
        let codes = codes_of(values);
        push_block(out, &codes);
    }
}

/// The number of samples named by the header of `s` (whose first bit is one),
/// or `None` for an `i8` block whose second bit is zero.
pub open spec fn header_count(s: Seq<bool>, wide: bool) -> Option<nat> {
    if s[1] {
        if !s[2] {
            Some(4)
        } else if !s[3] {
            Some(8)
        } else {
            Some(10)
        }
    } else if !wide {
        None
    } else if s[2] {
        Some(3)
    } else {
        Some(2)
    }
}

/// Length of the header of a block of `count` samples.
pub open spec fn block_header_len(count: nat) -> nat {
    if count == 3 || count == 10 {
        6
    } else {
        4
    }
}

/// Code of sample `i` of a block of `count` samples at the front of `s`.
pub open spec fn block_field(s: Seq<bool>, count: nat, i: int) -> u64 {
    let h = block_header_len(count);
    let w = block_width(count);
    bits_value(s.subrange(h + i * w, h + i * w + w))
}

/// Outcome of reading one block.
pub enum BlockRead {
    /// The samples and the number of bits that the block takes.
    Values(Seq<int>, nat),
    /// The first bit is zero: no delta block starts here.
    NotDelta,
    /// An `i8` block header whose second bit is zero.
    NotEnough,
}

/// What reading one block from the front of `s` gives; `wide` for the types
/// wider than `i8`, which also know 2- and 3-sample blocks.
pub open spec fn block_decode(s: Seq<bool>, wide: bool) -> BlockRead {
    if !s[0] {
        BlockRead::NotDelta
    } else {
        match header_count(s, wide) {
            None => BlockRead::NotEnough,
            Some(c) => BlockRead::Values(
                Seq::new(c, |i: int| unzigzag(block_field(s, c, i) as int)),
                block_header_len(c) + c * block_width(c),
            ),
        }
    }
}

/// The decoder only reads bits that exist.
pub open spec fn block_readable(s: Seq<bool>, wide: bool) -> bool {
    &&& s.len() >= 1
    &&& s[0] ==> {
        &&& s.len() >= 2
        &&& (wide || s[1]) ==> s.len() >= 3
        &&& (s[1] && s[2]) ==> s.len() >= 4
        &&& (header_count(s, wide) matches Some(c) ==> block_header_len(c) + c * block_width(c)
            <= s.len())
    }
}

/// Why a block could not be read.
enum BlockFault {
    NotDelta,
    NotEnough,
}

/// Reads one block from the front of `bits`.
fn read_block(bits: &BitBufferSlice, wide: bool) -> (r: Result<(Vec<i64>, usize), BlockFault>)
    requires
        block_readable(bits@, wide),
    ensures
        block_decode(bits@, wide) is NotDelta ==> r matches Err(BlockFault::NotDelta),
        block_decode(bits@, wide) is NotEnough ==> r matches Err(BlockFault::NotEnough),
        block_decode(bits@, wide) is Values ==> r is Ok,
        r matches Ok((v, m)) ==> block_decode(bits@, wide) matches BlockRead::Values(vs, n) && m
            == n && v@.len() == vs.len() && forall|i: int|
            0 <= i < vs.len() ==> #[trigger] v@[i] as int == vs[i],
        r matches Ok((v, m)) ==> wide_count(v@.len() as nat) && (!wide ==> narrow_count(
            v@.len() as nat,
        )),
        r matches Ok((v, m)) ==> forall|i: int|
            0 <= i < v@.len() ==> -32768 <= #[trigger] v@[i] <= 32767 && (v@.len() != 2 && v@.len()
                != 3 ==> -128 <= v@[i] <= 127),
{
    let ghost s = bits@;
    let _ = bits.len();
    if !bits.get(0) {
        return Err(BlockFault::NotDelta);
    }
    let count: usize = if bits.get(1) {
        if !bits.get(2) {
            4
        } else if !bits.get(3) {
            8
        } else {
            10
        }
    } else if !wide {
        return Err(BlockFault::NotEnough);
    } else if bits.get(2) {
        3
    } else {
        2
    };
    assert(header_count(s, wide) == Some(count as nat));
    let h: usize = if count == 3 || count == 10 {
        6
    } else {
        4
    };
    let w: usize = if count == 2 {
        16
    } else if count == 3 {
        10
    } else if count == 4 {
        8
    } else if count == 8 {
        4
    } else {
        3
    };
    let ghost vs = Seq::new(count as nat, |i: int| unzigzag(block_field(s, count as nat, i) as int));
    let mut values: Vec<i64> = Vec::new();
    let mut i: usize = 0;
    let mut pos: usize = h;
    proof {
        lemma_shift_literals();
    }
    while i < count
        invariant
            i <= count,
            h == block_header_len(count as nat),
            w == block_width(count as nat),
            h + count * w <= s.len(),
            s.len() <= max_bits(),
            s == bits@,
            vs == Seq::new(count as nat, |i: int| unzigzag(block_field(s, count as nat, i) as int)),
            values@.len() == i,
            pos == h + i * w,
            forall|j: int| 0 <= j < i ==> #[trigger] values@[j] as int == vs[j] && -32768
                <= values@[j] <= 32767 && (count != 2 && count != 3 ==> -128 <= values@[j] <= 127),
            !(u64::MAX << 3u64) == 7,
            !(u64::MAX << 4u64) == 15,
            !(u64::MAX << 8u64) == 255,
            !(u64::MAX << 10u64) == 1023,
            !(u64::MAX << 16u64) == 65535,
        decreases count - i,
    {
        proof {
            assert(i * w + w <= count * w) by (nonlinear_arith)
                requires
                    i < count,
            ;
            assert((i + 1) * w == i * w + w) by (nonlinear_arith);
        }
        let field = read_low_bits(bits, pos, w);
        proof {
            lemma_bits_value_fits(s.subrange(pos as int, pos + w));
            lemma_field_within_mask(field, w as nat);
            assert(field == block_field(s, count as nat, i as int));
            assert(field <= low_mask(w as nat));
        }
        let v = unzigzag64(field);
        values.push(v);
        i += 1;
        pos += w;
    }
    assert(block_decode(s, wide) == BlockRead::Values(vs, (h + count * w) as nat));
    Ok((values, pos))
}

/// The samples of one block of `i8` deltas.
pub enum DeltaI8 {
    Four([i8; 4]),
    Eight([i8; 8]),
    Ten([i8; 10]),
}

impl View for DeltaI8 {
    type V = Seq<i8>;

    open spec fn view(&self) -> Seq<i8> {
        match self {
            DeltaI8::Four(a) => a@,
            DeltaI8::Eight(a) => a@,
            DeltaI8::Ten(a) => a@,
        }
    }
}

impl DeltaI8 {
    /// The samples, in order.
    pub fn to_vec(&self) -> (r: Vec<i8>)
        ensures
            r@ == self@,
    {
        let a: &[i8] = match self {
            DeltaI8::Four(a) => a.as_slice(),
            DeltaI8::Eight(a) => a.as_slice(),
            DeltaI8::Ten(a) => a.as_slice(),
        };
        let mut r: Vec<i8> = Vec::new();
        let mut i: usize = 0;
        while i < a.len()
            invariant
                i <= a@.len(),
                a@ == self@,
                r@ == a@.take(i as int),
            decreases a.len() - i,
        {
            r.push(a[i]);
            proof {
                assert(a@.take(i + 1) =~= a@.take(i as int).push(a@[i as int]));
            }
            i += 1;
        }
        assert(a@.take(i as int) =~= a@);
        r
    }
}

/// Reads one block of `i8` deltas from the front of `bits`, with what follows it.
pub fn decode_delta_i8<'a>(bits: BitBufferSlice<'a>) -> (r: Result<
    (DeltaI8, Option<BitBufferSlice<'a>>),
    &'static str,
>)
    requires
        block_readable(bits@, false),
    ensures
        block_decode(bits@, false) is NotDelta ==> r == Err::<(DeltaI8, Option<BitBufferSlice<'a>>), &'static str>(
            "Not valid for delta decoding",
        ),
        block_decode(bits@, false) is NotEnough ==> r == Err::<(DeltaI8, Option<BitBufferSlice<'a>>), &'static str>(
            "Not enough bits to decode",
        ),
        block_decode(bits@, false) matches BlockRead::Values(vs, n) ==> r matches Ok((d, rest))
            && d@.map_values(|x: i8| x as int) == vs && remainder_is(bits@, n, rest),
{
    match read_block(&bits, false) {
        Ok((v, n)) => {
            let ghost vs = v@;
            let d = if v.len() == 4 {
                DeltaI8::Four([v[0] as i8, v[1] as i8, v[2] as i8, v[3] as i8])
            } else if v.len() == 8 {
                DeltaI8::Eight([v[0] as i8, v[1] as i8, v[2] as i8, v[3] as i8, v[4] as i8, v[5] as i8, v[6] as i8, v[7] as i8])
            } else {
                DeltaI8::Ten([v[0] as i8, v[1] as i8, v[2] as i8, v[3] as i8, v[4] as i8, v[5] as i8, v[6] as i8, v[7] as i8, v[8] as i8, v[9] as i8])
            };
            assert(d@.map_values(|x: i8| x as int) =~= vs.map_values(|x: i64| x as int));
            Ok((d, remainder(bits, n)))
        }
        Err(BlockFault::NotDelta) => Err("Not valid for delta decoding"),
        Err(BlockFault::NotEnough) => Err("Not enough bits to decode"),
    }
}

/// The samples of one block of `i16` deltas.
pub enum DeltaI16 {
    Two([i16; 2]),
    Three([i16; 3]),
    Four([i16; 4]),
    Eight([i16; 8]),
    Ten([i16; 10]),
}

impl View for DeltaI16 {
    type V = Seq<i16>;

    open spec fn view(&self) -> Seq<i16> {
        match self {
            DeltaI16::Two(a) => a@,
            DeltaI16::Three(a) => a@,
            DeltaI16::Four(a) => a@,
            DeltaI16::Eight(a) => a@,
            DeltaI16::Ten(a) => a@,
        }
    }
}

impl DeltaI16 {
    /// The samples, in order.
    pub fn to_vec(&self) -> (r: Vec<i16>)
        ensures
            r@ == self@,
    {
        let a: &[i16] = match self {
            DeltaI16::Two(a) => a.as_slice(),
            DeltaI16::Three(a) => a.as_slice(),
            DeltaI16::Four(a) => a.as_slice(),
            DeltaI16::Eight(a) => a.as_slice(),
            DeltaI16::Ten(a) => a.as_slice(),
        };
        let mut r: Vec<i16> = Vec::new();
        let mut i: usize = 0;
        while i < a.len()
            invariant
                i <= a@.len(),
                a@ == self@,
                r@ == a@.take(i as int),
            decreases a.len() - i,
        {
            r.push(a[i]);
            proof {
                assert(a@.take(i + 1) =~= a@.take(i as int).push(a@[i as int]));
            }
            i += 1;
        }
        assert(a@.take(i as int) =~= a@);
        r
    }
}

/// Reads one block of `i16` deltas from the front of `bits`, with what follows it.
pub fn decode_delta_i16<'a>(bits: BitBufferSlice<'a>) -> (r: Result<
    (DeltaI16, Option<BitBufferSlice<'a>>),
    &'static str,
>)
    requires
        block_readable(bits@, true),
    ensures
        block_decode(bits@, true) is NotDelta ==> r == Err::<(DeltaI16, Option<BitBufferSlice<'a>>), &'static str>(
            "Not valid for delta decoding",
        ),
        block_decode(bits@, true) is NotEnough ==> r == Err::<(DeltaI16, Option<BitBufferSlice<'a>>), &'static str>(
            "Not enough bits to decode",
        ),
        block_decode(bits@, true) matches BlockRead::Values(vs, n) ==> r matches Ok((d, rest))
            && d@.map_values(|x: i16| x as int) == vs && remainder_is(bits@, n, rest),
{
    match read_block(&bits, true) {
        Ok((v, n)) => {
            let ghost vs = v@;
            let d = if v.len() == 2 {
                DeltaI16::Two([v[0] as i16, v[1] as i16])
            } else if v.len() == 3 {
                DeltaI16::Three([v[0] as i16, v[1] as i16, v[2] as i16])
            } else if v.len() == 4 {
                DeltaI16::Four([v[0] as i16, v[1] as i16, v[2] as i16, v[3] as i16])
            } else if v.len() == 8 {
                DeltaI16::Eight([v[0] as i16, v[1] as i16, v[2] as i16, v[3] as i16, v[4] as i16, v[5] as i16, v[6] as i16, v[7] as i16])
            } else {
                DeltaI16::Ten([v[0] as i16, v[1] as i16, v[2] as i16, v[3] as i16, v[4] as i16, v[5] as i16, v[6] as i16, v[7] as i16, v[8] as i16, v[9] as i16])
            };
            assert(d@.map_values(|x: i16| x as int) =~= vs.map_values(|x: i64| x as int));
            Ok((d, remainder(bits, n)))
        }
        Err(BlockFault::NotDelta) => Err("Not valid for delta decoding"),
        Err(BlockFault::NotEnough) => Err("Not enough bits to decode"),
    }
}

/// The samples of one block of `i32` deltas.
pub enum DeltaI32 {
    Two([i32; 2]),
    Three([i32; 3]),
    Four([i32; 4]),
    Eight([i32; 8]),
    Ten([i32; 10]),
}

impl View for DeltaI32 {
    type V = Seq<i32>;

    open spec fn view(&self) -> Seq<i32> {
        match self {
            DeltaI32::Two(a) => a@,
            DeltaI32::Three(a) => a@,
            DeltaI32::Four(a) => a@,
            DeltaI32::Eight(a) => a@,
            DeltaI32::Ten(a) => a@,
        }
    }
}

impl DeltaI32 {
    /// The samples, in order.
    pub fn to_vec(&self) -> (r: Vec<i32>)
        ensures
            r@ == self@,
    {
        let a: &[i32] = match self {
            DeltaI32::Two(a) => a.as_slice(),
            DeltaI32::Three(a) => a.as_slice(),
            DeltaI32::Four(a) => a.as_slice(),
            DeltaI32::Eight(a) => a.as_slice(),
            DeltaI32::Ten(a) => a.as_slice(),
        };
        let mut r: Vec<i32> = Vec::new();
        let mut i: usize = 0;
        while i < a.len()
            invariant
                i <= a@.len(),
                a@ == self@,
                r@ == a@.take(i as int),
            decreases a.len() - i,
        {
            r.push(a[i]);
            proof {
                assert(a@.take(i + 1) =~= a@.take(i as int).push(a@[i as int]));
            }
            i += 1;
        }
        assert(a@.take(i as int) =~= a@);
        r
    }
}

/// Reads one block of `i32` deltas from the front of `bits`, with what follows it.
pub fn decode_delta_i32<'a>(bits: BitBufferSlice<'a>) -> (r: Result<
    (DeltaI32, Option<BitBufferSlice<'a>>),
    &'static str,
>)
    requires
        block_readable(bits@, true),
    ensures
        block_decode(bits@, true) is NotDelta ==> r == Err::<(DeltaI32, Option<BitBufferSlice<'a>>), &'static str>(
            "Not valid for delta decoding",
        ),
        block_decode(bits@, true) is NotEnough ==> r == Err::<(DeltaI32, Option<BitBufferSlice<'a>>), &'static str>(
            "Not enough bits to decode",
        ),
        block_decode(bits@, true) matches BlockRead::Values(vs, n) ==> r matches Ok((d, rest))
            && d@.map_values(|x: i32| x as int) == vs && remainder_is(bits@, n, rest),
{
    match read_block(&bits, true) {
        Ok((v, n)) => {
            let ghost vs = v@;
            let d = if v.len() == 2 {
                DeltaI32::Two([v[0] as i32, v[1] as i32])
            } else if v.len() == 3 {
                DeltaI32::Three([v[0] as i32, v[1] as i32, v[2] as i32])
            } else if v.len() == 4 {
                DeltaI32::Four([v[0] as i32, v[1] as i32, v[2] as i32, v[3] as i32])
            } else if v.len() == 8 {
                DeltaI32::Eight([v[0] as i32, v[1] as i32, v[2] as i32, v[3] as i32, v[4] as i32, v[5] as i32, v[6] as i32, v[7] as i32])
            } else {
                DeltaI32::Ten([v[0] as i32, v[1] as i32, v[2] as i32, v[3] as i32, v[4] as i32, v[5] as i32, v[6] as i32, v[7] as i32, v[8] as i32, v[9] as i32])
            };
            assert(d@.map_values(|x: i32| x as int) =~= vs.map_values(|x: i64| x as int));
            Ok((d, remainder(bits, n)))
        }
        Err(BlockFault::NotDelta) => Err("Not valid for delta decoding"),
        Err(BlockFault::NotEnough) => Err("Not enough bits to decode"),
    }
}

/// The samples of one block of `i64` deltas.
pub enum DeltaI64 {
    Two([i64; 2]),
    Three([i64; 3]),
    Four([i64; 4]),
    Eight([i64; 8]),
    Ten([i64; 10]),
}

impl View for DeltaI64 {
    type V = Seq<i64>;

    open spec fn view(&self) -> Seq<i64> {
        match self {
            DeltaI64::Two(a) => a@,
            DeltaI64::Three(a) => a@,
            DeltaI64::Four(a) => a@,
            DeltaI64::Eight(a) => a@,
            DeltaI64::Ten(a) => a@,
        }
    }
}

impl DeltaI64 {
    /// The samples, in order.
    pub fn to_vec(&self) -> (r: Vec<i64>)
        ensures
            r@ == self@,
    {
        let a: &[i64] = match self {
            DeltaI64::Two(a) => a.as_slice(),
            DeltaI64::Three(a) => a.as_slice(),
            DeltaI64::Four(a) => a.as_slice(),
            DeltaI64::Eight(a) => a.as_slice(),
            DeltaI64::Ten(a) => a.as_slice(),
        };
        let mut r: Vec<i64> = Vec::new();
        let mut i: usize = 0;
        while i < a.len()
            invariant
                i <= a@.len(),
                a@ == self@,
                r@ == a@.take(i as int),
            decreases a.len() - i,
        {
            r.push(a[i]);
            proof {
                assert(a@.take(i + 1) =~= a@.take(i as int).push(a@[i as int]));
            }
            i += 1;
        }
        assert(a@.take(i as int) =~= a@);
        r
    }
}

/// Reads one block of `i64` deltas from the front of `bits`, with what follows it.
pub fn decode_delta_i64<'a>(bits: BitBufferSlice<'a>) -> (r: Result<
    (DeltaI64, Option<BitBufferSlice<'a>>),
    &'static str,
>)
    requires
        block_readable(bits@, true),
    ensures
        block_decode(bits@, true) is NotDelta ==> r == Err::<(DeltaI64, Option<BitBufferSlice<'a>>), &'static str>(
            "Not valid for delta decoding",
        ),
        block_decode(bits@, true) is NotEnough ==> r == Err::<(DeltaI64, Option<BitBufferSlice<'a>>), &'static str>(
            "Not enough bits to decode",
        ),
        block_decode(bits@, true) matches BlockRead::Values(vs, n) ==> r matches Ok((d, rest))
            && d@.map_values(|x: i64| x as int) == vs && remainder_is(bits@, n, rest),
{
    match read_block(&bits, true) {
        Ok((v, n)) => {
            let ghost vs = v@;
            let d = if v.len() == 2 {
                DeltaI64::Two([v[0] as i64, v[1] as i64])
            } else if v.len() == 3 {
                DeltaI64::Three([v[0] as i64, v[1] as i64, v[2] as i64])
            } else if v.len() == 4 {
                DeltaI64::Four([v[0] as i64, v[1] as i64, v[2] as i64, v[3] as i64])
            } else if v.len() == 8 {
                DeltaI64::Eight([v[0] as i64, v[1] as i64, v[2] as i64, v[3] as i64, v[4] as i64, v[5] as i64, v[6] as i64, v[7] as i64])
            } else {
                DeltaI64::Ten([v[0] as i64, v[1] as i64, v[2] as i64, v[3] as i64, v[4] as i64, v[5] as i64, v[6] as i64, v[7] as i64, v[8] as i64, v[9] as i64])
            };
            assert(d@.map_values(|x: i64| x as int) =~= vs.map_values(|x: i64| x as int));
            Ok((d, remainder(bits, n)))
        }
        Err(BlockFault::NotDelta) => Err("Not valid for delta decoding"),
        Err(BlockFault::NotEnough) => Err("Not enough bits to decode"),
    }
}

/// Every value comes back from its zigzag code.
pub proof fn lemma_unzigzag_zigzag(v: int)
    ensures
        zigzag(v) >= 0,
        unzigzag(zigzag(v)) == v,
{
}

/// Length and bits of a packing of codes: bit `j` of code `i` sits at `i * width + j`.
pub proof fn lemma_packed(zs: Seq<u64>, width: nat)
    ensures
        packed(zs, width).len() == zs.len() * width,
        forall|i: int, j: int|
            0 <= i < zs.len() && 0 <= j < width ==> #[trigger] packed(zs, width)[i * width + j]
                == bit_of(zs[i], j as nat),
    decreases zs.len(),
{
    if zs.len() > 0 {
        let init = zs.drop_last();
        lemma_packed(init, width);
        assert(zs.len() * width == init.len() * width + width) by (nonlinear_arith)
            requires
                zs.len() == init.len() + 1,
        ;
        assert forall|i: int, j: int| 0 <= i < zs.len() && 0 <= j < width implies #[trigger] packed(
            zs,
            width,
        )[i * width + j] == bit_of(zs[i], j as nat) by {
            if i < init.len() {
                assert(i * width + j < init.len() * width) by (nonlinear_arith)
                    requires
                        i < init.len(),
                        j < width,
                ;
                assert(zs[i] == init[i]);
            } else {
                assert(i * width == init.len() * width) by (nonlinear_arith)
                    requires
                        i == init.len(),
                ;
            }
        }
    }
}

/// A block whose codes each fit the block's width reads back as the values of
/// its codes, and takes exactly the bits of the block.
pub proof fn lemma_block_roundtrip(zs: Seq<u64>, wide: bool, rest: Seq<bool>)
    requires
        wide_count(zs.len()),
        !wide ==> narrow_count(zs.len()),
        forall|i: int| 0 <= i < zs.len() ==> zs[i] <= low_mask(block_width(zs.len())),
    ensures
        block_readable(block_code(zs.len(), zs) + rest, wide),
        block_decode(block_code(zs.len(), zs) + rest, wide) == BlockRead::Values(
            zs.map_values(|z: u64| unzigzag(z as int)),
            block_code(zs.len(), zs).len(),
        ),
{
    let count = zs.len();
    let w = block_width(count);
    let hdr = block_header(count);
    let h = block_header_len(count);
    let s = block_code(count, zs) + rest;
    lemma_packed(zs, w);
    assert(hdr.len() == h);
    assert(s[0] == hdr[0] && s[1] == hdr[1] && s[2] == hdr[2] && s[3] == hdr[3]);
    assert(header_count(s, wide) == Some(count));
    assert forall|i: int| 0 <= i < count implies #[trigger] block_field(s, count, i) == zs[i] by {
        assert(i * w + w <= count * w) by (nonlinear_arith)
            requires
                i < count,
        ;
        let f = s.subrange(h + i * w, h + i * w + w);
        assert forall|j: int| 0 <= j < w implies f[j] == low_bits(zs[i], w)[j] by {
            assert(f[j] == s[h + (i * w + j)]);
            assert(s[h + (i * w + j)] == packed(zs, w)[i * w + j]);
        }
        assert(f =~= low_bits(zs[i], w));
        lemma_bits_value_low_bits(zs[i], w);
        lemma_field_within_mask(zs[i], w);
    }
    assert(Seq::new(count, |i: int| unzigzag(block_field(s, count, i) as int)) =~= zs.map_values(
        |z: u64| unzigzag(z as int),
    ));
}

/// The samples written by the `i8` encoder are read back when each one's
/// zigzag code fits the block's width.
pub proof fn lemma_delta_zigzag_roundtrip_i8(vals: Seq<i8>, rest: Seq<bool>)
    requires
        narrow_count(vals.len()),
        forall|i: int|
            0 <= i < vals.len() ==> zigzag(#[trigger] vals[i] as int) <= low_mask(
                block_width(vals.len()),
            ),
    ensures
        block_readable(block_code_i8(vals) + rest, false),
        block_decode(block_code_i8(vals) + rest, false) == BlockRead::Values(
            vals.map_values(|v: i8| v as int),
            block_code_i8(vals).len(),
        ),
{
    let zs = zigzag_codes(vals, |v: i8| v as int);
    lemma_block_roundtrip(zs, false, rest);
    assert(zs.map_values(|z: u64| unzigzag(z as int)) =~= vals.map_values(|v: i8| v as int));
}

/// The samples written by the `i32` encoder are read back when each one's
/// zigzag code fits the block's width.
pub proof fn lemma_delta_zigzag_roundtrip_i32(vals: Seq<i32>, rest: Seq<bool>)
    requires
        wide_count(vals.len()),
        forall|i: int|
            0 <= i < vals.len() ==> zigzag(#[trigger] vals[i] as int) <= low_mask(
                block_width(vals.len()),
            ),
    ensures
        block_readable(block_code_i32(vals) + rest, true),
        block_decode(block_code_i32(vals) + rest, true) == BlockRead::Values(
            vals.map_values(|v: i32| v as int),
            block_code_i32(vals).len(),
        ),
{
    let zs = zigzag_codes(vals, |v: i32| v as int);
    lemma_block_roundtrip(zs, true, rest);
    assert(zs.map_values(|z: u64| unzigzag(z as int)) =~= vals.map_values(|v: i32| v as int));
}

/// The samples written by the `i64` encoder are read back when each one's
/// zigzag code fits the block's width.
pub proof fn lemma_delta_zigzag_roundtrip_i64(vals: Seq<i64>, rest: Seq<bool>)
    requires
        wide_count(vals.len()),
        forall|i: int|
            0 <= i < vals.len() ==> zigzag(#[trigger] vals[i] as int) <= low_mask(
                block_width(vals.len()),
            ),
    ensures
        block_readable(block_code_i64(vals) + rest, true),
        block_decode(block_code_i64(vals) + rest, true) == BlockRead::Values(
            vals.map_values(|v: i64| v as int),
            block_code_i64(vals).len(),
        ),
{
    let zs = zigzag_codes(vals, |v: i64| v as int);
    lemma_block_roundtrip(zs, true, rest);
    assert(zs.map_values(|z: u64| unzigzag(z as int)) =~= vals.map_values(|v: i64| v as int));
}

/// On `[-128, 127]` the `i16` encoder's 4- and 8-sample code is the zigzag code.
proof fn lemma_code_i16_small(v: i16)
    requires
        -128 <= v <= 127,
    ensures
        (((v as u16) << 1u16) ^ ((v >> 7i16) as u16)) as int == zigzag(v as int),
{
    assert(-128 <= v <= 127 ==> (((v as u16) << 1u16) ^ ((v >> 7i16) as u16)) == (if v >= 0 {
        (2 * v) as u16
    } else {
        (-2 * v - 1) as u16
    })) by (bit_vector);
}

/// The samples written by the `i16` encoder are read back when each one's
/// zigzag code fits the block's width.
pub proof fn lemma_delta_zigzag_roundtrip_i16(vals: Seq<i16>, rest: Seq<bool>)
    requires
        wide_count(vals.len()),
        forall|i: int|
            0 <= i < vals.len() ==> zigzag(#[trigger] vals[i] as int) <= low_mask(
                block_width(vals.len()),
            ),
    ensures
        block_readable(block_code_i16(vals) + rest, true),
        block_decode(block_code_i16(vals) + rest, true) == BlockRead::Values(
            vals.map_values(|v: i16| v as int),
            block_code_i16(vals).len(),
        ),
{
    let n = vals.len();
    let zs = vals.map_values(|v: i16| code_i16(v, n));
    lemma_shift_literals();
    assert forall|i: int| 0 <= i < n implies zs[i] as int == zigzag(#[trigger] vals[i] as int) by {
        let v = vals[i];
        if n == 4 || n == 8 {
            lemma_code_i16_small(v);
        }
    }
    lemma_block_roundtrip(zs, true, rest);
    assert(zs.map_values(|z: u64| unzigzag(z as int)) =~= vals.map_values(|v: i16| v as int));
}

} // verus!
