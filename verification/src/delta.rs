//! Prefix-coded deltas: one bit for a zero delta, otherwise a run of ones
//! naming a size class, then the delta's low bits in two's complement.
//!
//! A positive delta is stored minus one, so that each class holds one more
//! positive value than a plain two's-complement field would.

use vstd::prelude::*;
use crate::bits::{
    BitBuffer, BitBufferSlice, bits_value, low_bits, max_bits, push_low_bits, read_low_bits,
    remainder, remainder_is, sign_extend, signed_field, lemma_shift_literals, lemma_bits_value_fits,
    lemma_signed_field_bounds, lemma_bits_value_take_low_bits, lemma_signed_field_roundtrip,
};

verus! {

/// Payload width, in bits, of size class `c` (classes are numbered from 1).
pub open spec fn class_width(c: nat) -> nat {
    if c == 1 {
        4
    } else if c == 2 {
        7
    } else if c == 3 {
        9
    } else if c == 4 {
        12
    } else if c == 5 {
        15
    } else if c == 6 {
        18
    } else if c == 7 {
        32
    } else {
        64
    }
}

/// The size class of a stored delta `w`, for a type whose largest class is `last`:
/// the first class below `last` of `n` payload bits with `-(2^(n-1) - 1) <= w < 2^(n-1)`,
/// else `last`. For the delta itself (a positive delta is stored minus one) the
/// classes hold `[-7, 8]`, `[-63, 64]`, `[-255, 256]`, `[-2047, 2048]`,
/// `[-16383, 16384]`, `[-131071, 131072]` and `[-(2^31 - 1), 2^31]`.
pub open spec fn delta_class(w: int, last: nat) -> nat {
    if last > 1 && -7 <= w < 8 {
        1
    } else if last > 2 && -63 <= w < 64 {
        2
    } else if last > 3 && -255 <= w < 256 {
        3
    } else if last > 4 && -2047 <= w < 2048 {
        4
    } else if last > 5 && -16383 <= w < 16384 {
        5
    } else if last > 6 && -131071 <= w < 131072 {
        6
    } else if last > 7 && -2147483647 <= w < 2147483648 {
        7
    } else {
        last
    }
}

/// Header of size class `c`: `c` ones then a zero; class 8 is eight ones alone.
pub open spec fn class_header(c: nat) -> Seq<bool> {
    if c >= 8 {
        Seq::new(8, |i: int| true)
    } else {
        Seq::new(c + 1, |i: int| i < c)
    }
}

/// Length of the header of size class `c`.
pub open spec fn header_len(c: nat) -> nat {
    if c >= 8 {
        8
    } else {
        c + 1
    }
}

/// The stored form of a nonzero delta: positive deltas are lowered by one.
pub open spec fn stored_delta(v: int) -> int {
    if v > 0 {
        v - 1
    } else {
        v
    }
}

/// The code of delta `v` for a type whose largest class is `last`.
pub open spec fn delta_code(v: int, last: nat) -> Seq<bool> {
    if v == 0 {
        seq![false]
    } else {
        let w = stored_delta(v);
        let c = delta_class(w, last);
        class_header(c) + low_bits(w as u64, class_width(c))
    }
}

/// The first position `j` in `from..=end` with a zero bit, if any.
pub open spec fn first_zero(s: Seq<bool>, from: nat, end: nat) -> Option<nat>
    decreases end + 1 - from,
{
    if from > end {
        None
    } else if !s[from as int] {
        Some(from)
    } else {
        first_zero(s, from + 1, end)
    }
}

/// The scan for a zero in `from..=end` only looks at bits that exist.
pub open spec fn scan_in_bounds(s: Seq<bool>, from: nat, end: nat) -> bool
    decreases end + 1 - from,
{
    from > end || (from < s.len() && (!s[from as int] || scan_in_bounds(s, from + 1, end)))
}

/// Last header position scanned for the zero that ends a class header.
pub open spec fn scan_end(last: nat) -> nat {
    if last >= 8 {
        7
    } else {
        last
    }
}

/// The size class named by the header of `s` (whose first bit is one), or
/// `None` when the header is longer than the type allows.
pub open spec fn header_class(s: Seq<bool>, last: nat) -> Option<nat> {
    match first_zero(s, 1, scan_end(last)) {
        Some(j) => Some(j),
        None => if last >= 8 {
            Some(8)
        } else {
            None
        },
    }
}

/// How many payload bits the decoder reads for class `c` of a type of `tbits` bits.
pub open spec fn read_width(c: nat, last: nat, tbits: nat) -> nat {
    if c < last {
        class_width(c)
    } else {
        tbits
    }
}

/// Largest value of a signed type of `tbits` bits.
pub open spec fn signed_max(tbits: nat) -> int {
    if tbits == 8 {
        127
    } else if tbits == 16 {
        32767
    } else if tbits == 32 {
        2147483647
    } else {
        9223372036854775807
    }
}

/// Outcome of reading one delta code.
pub enum DeltaRead {
    /// The delta and the number of bits that its code takes.
    Value(int, nat),
    /// There was no bit at all.
    Empty,
    /// The header or the payload names no value of the type.
    Invalid,
}

/// What reading one delta code from the front of `s` gives.
pub open spec fn delta_decode(s: Seq<bool>, last: nat, tbits: nat) -> DeltaRead {
    if s.len() == 0 {
        DeltaRead::Empty
    } else if !s[0] {
        DeltaRead::Value(0, 1)
    } else {
        match header_class(s, last) {
            None => DeltaRead::Invalid,
            Some(c) => {
                let h = header_len(c);
                let n = read_width(c, last, tbits);
                let w = signed_field(bits_value(s.subrange(h as int, (h + n) as int)), n);
                if c >= last && w == signed_max(tbits) {
                    DeltaRead::Invalid
                } else {
                    DeltaRead::Value(
                        if w >= 0 {
                            w + 1
                        } else {
                            w
                        },
                        h + class_width(c),
                    )
                }
            },
        }
    }
}

/// The decoder only reads bits that exist: the header ends within `s`, and
/// so do the payload bits that it reads.
pub open spec fn delta_readable(s: Seq<bool>, last: nat, tbits: nat) -> bool {
    s.len() == 0 || !s[0] || {
        &&& scan_in_bounds(s, 1, scan_end(last))
        &&& (header_class(s, last) matches Some(c) ==> header_len(c) + read_width(c, last, tbits)
            <= s.len())
    }
}

/// Which of the typed decoders: largest class and bit width of the type.
pub open spec fn delta_layout(last: nat, tbits: nat) -> bool {
    (last == 3 && tbits == 8) || (last == 6 && tbits == 16) || (last == 7 && tbits == 32) || (
    last == 8 && tbits == 64)
}

/// Appends the header of class `c` and the `class_width(c)` low bits of `w`.
fn push_class(out: &mut BitBuffer, w: i64, c: u64)
    requires
        1 <= c <= 8,
        old(out)@.len() + header_len(c as nat) + class_width(c as nat) <= max_bits(),
    ensures
        final(out)@ == old(out)@ + class_header(c as nat) + low_bits(
            w as u64,
            class_width(c as nat),
        ),
{
    let hlen: u64 = if c >= 8 {
        8
    } else {
        c + 1
    };
    let mut i: u64 = 0;
    while i < hlen
        invariant
            i <= hlen,
            hlen == header_len(c as nat),
            1 <= c <= 8,
            old(out)@.len() + header_len(c as nat) + class_width(c as nat) <= max_bits(),
            out@ == old(out)@ + class_header(c as nat).take(i as int),
        decreases hlen - i,
    {
        let bit = i < c;
        out.push(bit);
        proof {
            assert(class_header(c as nat).take(i + 1) =~= class_header(c as nat).take(
                i as int,
            ).push(bit));
        }
        i += 1;
    }
    proof {
        assert(class_header(c as nat).take(hlen as int) =~= class_header(c as nat));
    }
    let width: u64 = if c == 1 {
        4
    } else if c == 2 {
        7
    } else if c == 3 {
        9
    } else if c == 4 {
        12
    } else if c == 5 {
        15
    } else if c == 6 {
        18
    } else if c == 7 {
        32
    } else {
        64
    };
    push_low_bits(out, w as u64, width);
    proof {
        assert(old(out)@ + class_header(c as nat) + low_bits(w as u64, class_width(c as nat))
            =~= old(out)@ + (class_header(c as nat) + low_bits(w as u64, class_width(c as nat))));
    }
}

/// Appends the code of the nonzero stored delta `w`, for a type whose largest class is `last`.
fn push_stored_delta(out: &mut BitBuffer, w: i64, last: u64)
    requires
        1 <= last <= 8,
        old(out)@.len() + header_len(last as nat) + class_width(last as nat) <= max_bits(),
    ensures
        final(out)@ == old(out)@ + class_header(delta_class(w as int, last as nat)) + low_bits(
            w as u64,
            class_width(delta_class(w as int, last as nat)),
        ),
{
    let c: u64 = if last > 1 && -7 <= w && w < 8 {
        1
    } else if last > 2 && -63 <= w && w < 64 {
        2
    } else if last > 3 && -255 <= w && w < 256 {
        3
    } else if last > 4 && -2047 <= w && w < 2048 {
        4
    } else if last > 5 && -16383 <= w && w < 16384 {
        5
    } else if last > 6 && -131071 <= w && w < 131072 {
        6
    } else if last > 7 && -2147483647 <= w && w < 2147483648 {
        7
    } else {
        last
    };
    push_class(out, w, c);
}

/// Appends the code of delta `v`, for a type whose largest class is `last`.
fn push_delta(out: &mut BitBuffer, v: i64, last: u64)
    requires
        1 <= last <= 8,
        v > i64::MIN,
        old(out)@.len() + header_len(last as nat) + class_width(last as nat) <= max_bits(),
    ensures
        final(out)@ == old(out)@ + delta_code(v as int, last as nat),
{
    if v == 0 {
        out.push(false);
    } else {
        let w = if v > 0 {
            v - 1
        } else {
            v
        };
        push_stored_delta(out, w, last);
        proof {
            assert(old(out)@ + class_header(delta_class(w as int, last as nat)) + low_bits(
                w as u64,
                class_width(delta_class(w as int, last as nat)),
            ) =~= old(out)@ + delta_code(v as int, last as nat));
        }
    }
}

/// Appends the code of an `i8` delta (at most 13 bits).
pub fn encode_delta_i8(value: i8, out: &mut BitBuffer)
    requires
        old(out)@.len() + 13 <= max_bits(),
    ensures
        final(out)@ == old(out)@ + delta_code(value as int, 3),
{
    push_delta(out, value as i64, 3);
}

/// Appends the code of an `i16` delta (at most 25 bits).
pub fn encode_delta_i16(value: i16, out: &mut BitBuffer)
    requires
        old(out)@.len() + 25 <= max_bits(),
    ensures
        final(out)@ == old(out)@ + delta_code(value as int, 6),
{
    push_delta(out, value as i64, 6);
}

/// Appends the code of an `i32` delta (at most 40 bits).
pub fn encode_delta_i32(value: i32, out: &mut BitBuffer)
    requires
        old(out)@.len() + 40 <= max_bits(),
    ensures
        final(out)@ == old(out)@ + delta_code(value as int, 7),
{
    push_delta(out, value as i64, 7);
}

/// Appends the code of an `i64` delta (at most 72 bits).
pub fn encode_delta_i64(value: i64, out: &mut BitBuffer)
    requires
        old(out)@.len() + 72 <= max_bits(),
    ensures
        final(out)@ == old(out)@ + delta_code(value as int, 8),
{
    if value == i64::MIN {
        push_stored_delta(out, value, 8);
        proof {
            assert(old(out)@ + class_header(delta_class(value as int, 8)) + low_bits(
                value as u64,
                class_width(delta_class(value as int, 8)),
            ) =~= old(out)@ + delta_code(value as int, 8));
        }
    } else {
        push_delta(out, value, 8);
    }
}


/// Why a delta code could not be read.
enum DeltaFault {
    Empty,
    Invalid,
}

/// Reads one delta code from the front of `bits`.
fn read_delta(bits: &BitBufferSlice, last: usize, tbits: usize) -> (r: Result<(i64, usize), DeltaFault>)
    requires
        delta_layout(last as nat, tbits as nat),
        delta_readable(bits@, last as nat, tbits as nat),
    ensures
        match delta_decode(bits@, last as nat, tbits as nat) {
            DeltaRead::Value(v, n) => r matches Ok((x, m)) && x == v && m == n && -signed_max(
                tbits as nat,
            ) - 1 <= v <= signed_max(tbits as nat),
            DeltaRead::Empty => r matches Err(DeltaFault::Empty),
            DeltaRead::Invalid => r matches Err(DeltaFault::Invalid),
        },
{
    let ghost s = bits@;
    let len = bits.len();
    if len == 0 {
        return Err(DeltaFault::Empty);
    }
    if !bits.get(0) {
        return Ok((0, 1));
    }
    let end: usize = if last >= 8 {
        7
    } else {
        last
    };
    let mut j: usize = 1;
    while j <= end && bits.get(j)
        invariant
            1 <= j <= end + 1,
            end == scan_end(last as nat),
            end <= 7,
            first_zero(s, 1, end as nat) == first_zero(s, j as nat, end as nat),
            scan_in_bounds(s, j as nat, end as nat),
            s == bits@,
        decreases end + 1 - j,
    {
        j += 1;
    }
    let c: usize = if j <= end {
        j
    } else if last >= 8 {
        8
    } else {
        return Err(DeltaFault::Invalid);
    };
    assert(header_class(s, last as nat) == Some(c as nat));
    let h: usize = if c >= 8 {
        8
    } else {
        c + 1
    };
    let width: usize = if c == 1 {
        4
    } else if c == 2 {
        7
    } else if c == 3 {
        9
    } else if c == 4 {
        12
    } else if c == 5 {
        15
    } else if c == 6 {
        18
    } else if c == 7 {
        32
    } else {
        64
    };
    let n: usize = if c < last {
        width
    } else {
        tbits
    };
    let raw = read_low_bits(bits, h, n);
    let w = sign_extend(raw, n as u64);
    let max: i64 = if tbits == 8 {
        127
    } else if tbits == 16 {
        32767
    } else if tbits == 32 {
        2147483647
    } else {
        9223372036854775807
    };
    if c >= last && w == max {
        return Err(DeltaFault::Invalid);
    }
    proof {
        lemma_shift_literals();
        if n < 64 {
            lemma_bits_value_fits(s.subrange(h as int, h + n));
            lemma_signed_field_bounds(raw, n as nat);
        }
    }
    let value = if w >= 0 {
        w + 1
    } else {
        w
    };
    Ok((value, h + width))
}

/// Whether a delta code can be read from the front of `bits` without
/// looking past its end: the decoders take only such input.
pub fn is_delta_readable(bits: &BitBufferSlice, last: usize, tbits: usize) -> (r: bool)
    requires
        delta_layout(last as nat, tbits as nat),
    ensures
        r == delta_readable(bits@, last as nat, tbits as nat),
{
    let ghost s = bits@;
    let len = bits.len();
    if len == 0 || !bits.get(0) {
        return true;
    }
    let end: usize = if last >= 8 {
        7
    } else {
        last
    };
    let mut j: usize = 1;
    while j <= end && j < len && bits.get(j)
        invariant
            1 <= j <= end + 1,
            end == scan_end(last as nat),
            end <= 7,
            len == s.len(),
            first_zero(s, 1, end as nat) == first_zero(s, j as nat, end as nat),
            scan_in_bounds(s, 1, end as nat) == scan_in_bounds(s, j as nat, end as nat),
            s == bits@,
        decreases end + 1 - j,
    {
        j += 1;
    }
    if j <= end && j >= len {
        return false;
    }
    let c: usize = if j <= end {
        j
    } else if last >= 8 {
        8
    } else {
        return true;
    };
    assert(header_class(s, last as nat) == Some(c as nat));
    let h: usize = if c >= 8 {
        8
    } else {
        c + 1
    };
    let width: usize = if c == 1 {
        4
    } else if c == 2 {
        7
    } else if c == 3 {
        9
    } else if c == 4 {
        12
    } else if c == 5 {
        15
    } else if c == 6 {
        18
    } else if c == 7 {
        32
    } else {
        64
    };
    let n: usize = if c < last {
        width
    } else {
        tbits
    };
    h + n <= len
}

/// The zero that a header scan finds lies in the scanned range.
pub proof fn lemma_first_zero_in_range(s: Seq<bool>, from: nat, end: nat)
    ensures
        first_zero(s, from, end) matches Some(j) ==> from <= j <= end,
    decreases end + 1 - from,
{
    if from <= end && s[from as int] {
        lemma_first_zero_in_range(s, from + 1, end);
    }
}

/// A delta code takes at least one bit, and no more than the header and
/// payload of the largest class.
pub proof fn lemma_delta_code_len(v: int, last: nat)
    requires
        1 <= last <= 8,
    ensures
        1 <= delta_code(v, last).len() <= header_len(last) + class_width(last),
{
    if v != 0 {
        let w = stored_delta(v);
        let c = delta_class(w, last);
        assert(class_header(c).len() == header_len(c));
        assert(low_bits(w as u64, class_width(c)).len() == class_width(c));
    }
}

/// Reads an `i8` delta code from the front of `bits`, with what follows it.
pub fn decode_delta_i8<'a>(bits: BitBufferSlice<'a>) -> (r: Result<
    (i8, Option<BitBufferSlice<'a>>),
    &'static str,
>)
    requires
        delta_readable(bits@, 3, 8),
    ensures
        match delta_decode(bits@, 3, 8) {
            DeltaRead::Value(v, n) => r matches Ok((x, rest)) && x == v && remainder_is(
                bits@,
                n,
                rest,
            ),
            DeltaRead::Empty => r == Err::<(i8, Option<BitBufferSlice<'a>>), &'static str>(
                "Not enough bits to decode",
            ),
            DeltaRead::Invalid => r == Err::<(i8, Option<BitBufferSlice<'a>>), &'static str>(
                "Invalid encoding for i8",
            ),
        },
{
    match read_delta(&bits, 3, 8) {
        Ok((v, n)) => Ok((v as i8, remainder(bits, n))),
        Err(DeltaFault::Empty) => Err("Not enough bits to decode"),
        Err(DeltaFault::Invalid) => Err("Invalid encoding for i8"),
    }
}


/// Reads an `i16` delta code from the front of `bits`, with what follows it.
pub fn decode_delta_i16<'a>(bits: BitBufferSlice<'a>) -> (r: Result<
    (i16, Option<BitBufferSlice<'a>>),
    &'static str,
>)
    requires
        delta_readable(bits@, 6, 16),
    ensures
        match delta_decode(bits@, 6, 16) {
            DeltaRead::Value(v, n) => r matches Ok((x, rest)) && x == v && remainder_is(
                bits@,
                n,
                rest,
            ),
            DeltaRead::Empty => r == Err::<(i16, Option<BitBufferSlice<'a>>), &'static str>(
                "Not enough bits to decode",
            ),
            DeltaRead::Invalid => r == Err::<(i16, Option<BitBufferSlice<'a>>), &'static str>(
                "Invalid encoding for i16",
            ),
        },
{
    match read_delta(&bits, 6, 16) {
        Ok((v, n)) => Ok((v as i16, remainder(bits, n))),
        Err(DeltaFault::Empty) => Err("Not enough bits to decode"),
        Err(DeltaFault::Invalid) => Err("Invalid encoding for i16"),
    }
}

/// Reads an `i32` delta code from the front of `bits`, with what follows it.
pub fn decode_delta_i32<'a>(bits: BitBufferSlice<'a>) -> (r: Result<
    (i32, Option<BitBufferSlice<'a>>),
    &'static str,
>)
    requires
        delta_readable(bits@, 7, 32),
    ensures
        match delta_decode(bits@, 7, 32) {
            DeltaRead::Value(v, n) => r matches Ok((x, rest)) && x == v && remainder_is(
                bits@,
                n,
                rest,
            ),
            DeltaRead::Empty => r == Err::<(i32, Option<BitBufferSlice<'a>>), &'static str>(
                "Not enough bits to decode",
            ),
            DeltaRead::Invalid => r == Err::<(i32, Option<BitBufferSlice<'a>>), &'static str>(
                "Invalid encoding for i32",
            ),
        },
{
    match read_delta(&bits, 7, 32) {
        Ok((v, n)) => Ok((v as i32, remainder(bits, n))),
        Err(DeltaFault::Empty) => Err("Not enough bits to decode"),
        Err(DeltaFault::Invalid) => Err("Invalid encoding for i32"),
    }
}

/// Reads an `i64` delta code from the front of `bits`, with what follows it.
pub fn decode_delta_i64<'a>(bits: BitBufferSlice<'a>) -> (r: Result<
    (i64, Option<BitBufferSlice<'a>>),
    &'static str,
>)
    requires
        delta_readable(bits@, 8, 64),
    ensures
        match delta_decode(bits@, 8, 64) {
            DeltaRead::Value(v, n) => r matches Ok((x, rest)) && x == v && remainder_is(
                bits@,
                n,
                rest,
            ),
            DeltaRead::Empty => r == Err::<(i64, Option<BitBufferSlice<'a>>), &'static str>(
                "Not enough bits to decode",
            ),
            DeltaRead::Invalid => r == Err::<(i64, Option<BitBufferSlice<'a>>), &'static str>(
                "Invalid encoding for i64",
            ),
        },
{
    match read_delta(&bits, 8, 64) {
        Ok((v, n)) => Ok((v as i64, remainder(bits, n))),
        Err(DeltaFault::Empty) => Err("Not enough bits to decode"),
        Err(DeltaFault::Invalid) => Err("Invalid encoding for i64"),
    }
}

/// A class header of `c` is read back as class `c`, and the scan stays in bounds.
proof fn lemma_first_zero_header(s: Seq<bool>, c: nat, from: nat, end: nat)
    requires
        1 <= from,
        forall|i: int| from <= i < c ==> s[i],
        c <= end ==> c < s.len() && !s[c as int],
        c > end ==> end < s.len(),
        from <= c,
    ensures
        first_zero(s, from, end) == (if c <= end {
            Some(c)
        } else {
            None::<nat>
        }),
        scan_in_bounds(s, from, end),
    decreases end + 1 - from,
{
    if from <= end && from < c {
        lemma_first_zero_header(s, c, from + 1, end);
    }
}

/// Decoding the code of any value of the type, followed by anything, gives
/// back the value and the code's length.
pub proof fn lemma_delta_roundtrip(v: int, last: nat, tbits: nat, rest: Seq<bool>)
    requires
        delta_layout(last, tbits),
        -signed_max(tbits) - 1 <= v <= signed_max(tbits),
    ensures
        delta_readable(delta_code(v, last) + rest, last, tbits),
        delta_decode(delta_code(v, last) + rest, last, tbits) == DeltaRead::Value(
            v,
            delta_code(v, last).len(),
        ),
{
    let code = delta_code(v, last);
    let s = code + rest;
    if v != 0 {
        let w = stored_delta(v);
        let c = delta_class(w, last);
        let h = header_len(c);
        let width = class_width(c);
        let n = read_width(c, last, tbits);
        assert(s.subrange(0, h as int) =~= class_header(c));
        lemma_first_zero_header(s, c, 1, scan_end(last));
        assert(header_class(s, last) == Some(c));
        assert(s.subrange(h as int, (h + n) as int) =~= low_bits(w as u64, width).take(n as int));
        lemma_bits_value_take_low_bits(w as u64, width, n);
        lemma_shift_literals();
        lemma_signed_field_roundtrip(w as i64, n);
    }
}

/// Each typed encoder writes a code that its decoder can read, and reads
/// back exactly, whatever follows it.
pub proof fn lemma_delta_roundtrip_typed(rest: Seq<bool>)
    ensures
        forall|v: i8|
            delta_readable(#[trigger] delta_code(v as int, 3) + rest, 3, 8) && delta_decode(
                delta_code(v as int, 3) + rest,
                3,
                8,
            ) == DeltaRead::Value(v as int, delta_code(v as int, 3).len()),
        forall|v: i16|
            delta_readable(#[trigger] delta_code(v as int, 6) + rest, 6, 16) && delta_decode(
                delta_code(v as int, 6) + rest,
                6,
                16,
            ) == DeltaRead::Value(v as int, delta_code(v as int, 6).len()),
        forall|v: i32|
            delta_readable(#[trigger] delta_code(v as int, 7) + rest, 7, 32) && delta_decode(
                delta_code(v as int, 7) + rest,
                7,
                32,
            ) == DeltaRead::Value(v as int, delta_code(v as int, 7).len()),
        forall|v: i64|
            delta_readable(#[trigger] delta_code(v as int, 8) + rest, 8, 64) && delta_decode(
                delta_code(v as int, 8) + rest,
                8,
                64,
            ) == DeltaRead::Value(v as int, delta_code(v as int, 8).len()),
{
    assert forall|v: i8| delta_readable(#[trigger] delta_code(v as int, 3) + rest, 3, 8)
        && delta_decode(delta_code(v as int, 3) + rest, 3, 8) == DeltaRead::Value(
        v as int,
        delta_code(v as int, 3).len(),
    ) by {
        lemma_delta_roundtrip(v as int, 3, 8, rest);
    }
    assert forall|v: i16| delta_readable(#[trigger] delta_code(v as int, 6) + rest, 6, 16)
        && delta_decode(delta_code(v as int, 6) + rest, 6, 16) == DeltaRead::Value(
        v as int,
        delta_code(v as int, 6).len(),
    ) by {
        lemma_delta_roundtrip(v as int, 6, 16, rest);
    }
    assert forall|v: i32| delta_readable(#[trigger] delta_code(v as int, 7) + rest, 7, 32)
        && delta_decode(delta_code(v as int, 7) + rest, 7, 32) == DeltaRead::Value(
        v as int,
        delta_code(v as int, 7).len(),
    ) by {
        lemma_delta_roundtrip(v as int, 7, 32, rest);
    }
    assert forall|v: i64| delta_readable(#[trigger] delta_code(v as int, 8) + rest, 8, 64)
        && delta_decode(delta_code(v as int, 8) + rest, 8, 64) == DeltaRead::Value(
        v as int,
        delta_code(v as int, 8).len(),
    ) by {
        lemma_delta_roundtrip(v as int, 8, 64, rest);
    }
}

/// The largest positive delta held by size class `c` in the documented table
/// (`[-7, 8]`, `[-63, 64]`, ..., `[-(2^31 - 1), 2^31]`).
pub open spec fn class_reach(c: nat) -> int {
    if c == 1 {
        8
    } else if c == 2 {
        64
    } else if c == 3 {
        256
    } else if c == 4 {
        2048
    } else if c == 5 {
        16384
    } else if c == 6 {
        131072
    } else {
        2147483648
    }
}

/// The length of a code in size class `c`: a header of `c` ones and a zero,
/// then `4, 7, 9, 12, 15, 18` or `32` payload bits.
pub open spec fn class_code_len(c: nat) -> int {
    if c == 1 {
        6
    } else if c == 2 {
        10
    } else if c == 3 {
        13
    } else if c == 4 {
        17
    } else if c == 5 {
        21
    } else if c == 6 {
        25
    } else {
        40
    }
}

/// A delta is written in the smallest size class that holds it: for the `i8`,
/// `i16`, `i32` and `i64` codes (largest class 3, 6, 7 and 8), a nonzero delta
/// in `[-(h - 1), h]` of a class `c` below the largest takes no more bits than a
/// code of class `c`; in particular a nonzero delta in `[-7, 8]` is written as
/// `10` and four payload bits.
pub proof fn lemma_delta_code_smallest(v: int, last: nat, c: nat)
    requires
        last == 3 || last == 6 || last == 7 || last == 8,
        1 <= c < last,
        v != 0,
        -(class_reach(c) - 1) <= v <= class_reach(c),
    ensures
        delta_code(v, last).len() <= class_code_len(c),
        c == 1 ==> delta_code(v, last).len() == 6 && delta_code(v, last)[0]
            && !delta_code(v, last)[1],
{
    let w = stored_delta(v);
    let d = delta_class(w, last);
    assert(d <= c);
    assert(class_header(d).len() == header_len(d));
    assert(low_bits(w as u64, class_width(d)).len() == class_width(d));
    if c == 1 {
        assert(delta_code(v, last)[0] == class_header(d)[0]);
        assert(delta_code(v, last)[1] == class_header(d)[1]);
    }
}

} // verus!
