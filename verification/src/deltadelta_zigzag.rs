//! Zigzag-coded delta-deltas: a zero bit marks the code, a size class
//! follows, then the value's zigzag code in the class's width, least
//! significant bit first.
//!
//! | class | header after the zero | payload bits |
//! |-------|-----------------------|--------------|
//! | 0     | `00`                  | 1 (0 or -1)  |
//! | 1     | `01`                  | 5            |
//! | 2     | `10`                  | 9 (8 for `i8`) |
//! | 3     | `110`                 | 16           |
//! | 4     | `111`                 | 32 (`i32`) or 64 (`i64`) |
//!
//! The `i8` and `i16` encoders pick the smallest class that holds the value;
//! the `i32` and `i64` encoders always write class 4.

use vstd::prelude::*;
use crate::bits::{
    BitBuffer, BitBufferSlice, bits_value, low_bits, low_mask, max_bits, push_low_bits,
    read_low_bits, remainder, remainder_is, lemma_bits_value_take_low_bits, lemma_bits_value_fits,
    lemma_field_within_mask, lemma_shift_literals,
};
use crate::delta_zigzag::{zigzag, unzigzag, zigzag64, unzigzag64, lemma_unzigzag_zigzag};

verus! {

/// Header bits of class `c`, after the leading zero.
pub open spec fn dd_header(c: nat) -> Seq<bool> {
    if c == 0 {
        seq![false, false]
    } else if c == 1 {
        seq![false, true]
    } else if c == 2 {
        seq![true, false]
    } else if c == 3 {
        seq![true, true, false]
    } else {
        seq![true, true, true]
    }
}

/// Payload width of class `c`; `big` is the width of the type's widest
/// class (class 4, or class 2 of an `i8`, which takes 8 bits, not 9).
pub open spec fn dd_width(c: nat, big: nat) -> nat {
    if c == 0 {
        1
    } else if c == 1 {
        5
    } else if c == 2 {
        if big < 9 {
            big
        } else {
            9
        }
    } else if c == 3 {
        16
    } else {
        big
    }
}

/// The class that the encoder of a type whose largest class is `top` picks for `v`.
pub open spec fn dd_class(v: int, top: nat) -> nat {
    if top >= 4 {
        4
    } else if v == 0 || v == -1 {
        0
    } else if -15 <= v < 15 {
        1
    } else if top == 2 || -255 <= v < 255 {
        2
    } else {
        3
    }
}

/// The code of `v` for a type whose largest class is `top` and whose class 4 is `big` bits.
pub open spec fn dd_code(v: int, top: nat, big: nat) -> Seq<bool> {
    let c = dd_class(v, top);
    seq![false] + dd_header(c) + low_bits(zigzag(v) as u64, dd_width(c, big))
}

/// The class named by the header of `s` (whose first bit is zero), or `None`
/// when the header names a class the type does not have.
pub open spec fn dd_read_class(s: Seq<bool>, top: nat) -> Option<nat> {
    if !s[1] {
        if !s[2] {
            Some(0)
        } else {
            Some(1)
        }
    } else if !s[2] {
        Some(2)
    } else if top < 3 {
        None
    } else if !s[3] {
        Some(3)
    } else if top < 4 {
        None
    } else {
        Some(4)
    }
}

/// Number of bits before the payload of class `c`, the leading zero included.
pub open spec fn dd_prefix_len(c: nat) -> nat {
    if c <= 2 {
        3
    } else {
        4
    }
}

/// Outcome of reading one delta-delta code.
pub enum DdRead {
    /// The value (before narrowing to the type) and the bits the code takes.
    Value(int, nat),
    /// No bits, or a header naming a class the type does not have.
    NotEnough,
    /// The first bit is one: no delta-delta code starts here.
    NotDeltaDelta,
}

/// What reading one delta-delta code from the front of `s` gives.
pub open spec fn dd_decode(s: Seq<bool>, top: nat, big: nat) -> DdRead {
    if s.len() == 0 {
        DdRead::NotEnough
    } else if s[0] {
        DdRead::NotDeltaDelta
    } else {
        match dd_read_class(s, top) {
            None => DdRead::NotEnough,
            Some(c) => {
                let p = dd_prefix_len(c);
                let w = dd_width(c, big);
                DdRead::Value(unzigzag(bits_value(s.subrange(p as int, (p + w) as int)) as int), p + w)
            },
        }
    }
}

/// The decoder only reads bits that exist.
pub open spec fn dd_readable(s: Seq<bool>, top: nat, big: nat) -> bool {
    s.len() == 0 || s[0] || {
        &&& s.len() >= 3
        &&& (s[1] && s[2] && top >= 3) ==> s.len() >= 4
        &&& (dd_read_class(s, top) matches Some(c) ==> dd_prefix_len(c) + dd_width(c, big)
            <= s.len())
    }
}

/// Which typed codec: largest class and width of the widest class.
pub open spec fn dd_layout(top: nat, big: nat) -> bool {
    (top == 2 && big == 8) || (top == 3 && big == 16) || (top == 4 && big == 32) || (top == 4
        && big == 64)
}

/// Appends the code of `v` in class `c`.
fn push_dd(out: &mut BitBuffer, v: i64, c: u64, big: u64)
    requires
        c <= 4,
        big == 8 || big == 32 || big == 64,
        old(out)@.len() + 1 + dd_header(c as nat).len() + dd_width(c as nat, big as nat) <= max_bits(),
    ensures
        final(out)@ == old(out)@ + seq![false] + dd_header(c as nat) + low_bits(
            zigzag(v as int) as u64,
            dd_width(c as nat, big as nat),
        ),
{
    out.push(false);
    let ghost mid = out@;
    if c == 0 {
        out.push(false);
        out.push(false);
    } else if c == 1 {
        out.push(false);
        out.push(true);
    } else if c == 2 {
        out.push(true);
        out.push(false);
    } else if c == 3 {
        out.push(true);
        out.push(true);
        out.push(false);
    } else {
        out.push(true);
        out.push(true);
        out.push(true);
    }
    assert(out@ =~= mid + dd_header(c as nat));
    let w: u64 = if c == 0 {
        1
    } else if c == 1 {
        5
    } else if c == 2 {
        if big < 9 {
            big
        } else {
            9
        }
    } else if c == 3 {
        16
    } else {
        big
    };
    push_low_bits(out, zigzag64(v), w);
}

/// Appends the delta-delta code of an `i8` (at most 11 bits).
pub fn encode_deltadelta_i8(value: i8, out: &mut BitBuffer)
    requires
        old(out)@.len() + 11 <= max_bits(),
    ensures
        final(out)@ == old(out)@ + dd_code(value as int, 2, 8),
{
    let c: u64 = if value == 0 || value == -1 {
        0
    } else if -15 <= value && value < 15 {
        1
    } else {
        2
    };
    push_dd(out, value as i64, c, 8);
    assert(final(out)@ =~= old(out)@ + dd_code(value as int, 2, 8));
}

/// Appends the delta-delta code of an `i16` (at most 20 bits).
pub fn encode_deltadelta_i16(value: i16, out: &mut BitBuffer)
    requires
        old(out)@.len() + 20 <= max_bits(),
    ensures
        final(out)@ == old(out)@ + dd_code(value as int, 3, 16),
{
    let c: u64 = if value == 0 || value == -1 {
        0
    } else if -15 <= value && value < 15 {
        1
    } else if -255 <= value && value < 255 {
        2
    } else {
        3
    };
    push_dd(out, value as i64, c, 32);
    assert(final(out)@ =~= old(out)@ + dd_code(value as int, 3, 16));
}

/// Appends the delta-delta code of an `i32`, always in class 4 (36 bits).
pub fn encode_deltadelta_i32(value: i32, out: &mut BitBuffer)
    requires
        old(out)@.len() + 36 <= max_bits(),
    ensures
        final(out)@ == old(out)@ + dd_code(value as int, 4, 32),
{
    push_dd(out, value as i64, 4, 32);
    assert(final(out)@ =~= old(out)@ + dd_code(value as int, 4, 32));
}

/// Appends the delta-delta code of an `i64`, always in class 4 (68 bits).
pub fn encode_deltadelta_i64(value: i64, out: &mut BitBuffer)
    requires
        old(out)@.len() + 68 <= max_bits(),
    ensures
        final(out)@ == old(out)@ + dd_code(value as int, 4, 64),
{
    push_dd(out, value, 4, 64);
    assert(final(out)@ =~= old(out)@ + dd_code(value as int, 4, 64));
}

/// Why a delta-delta code could not be read.
enum DdFault {
    NotEnough,
    NotDeltaDelta,
}

/// Reads one delta-delta code from the front of `bits`.
fn read_dd(bits: &BitBufferSlice, top: usize, big: usize) -> (r: Result<(i64, usize), DdFault>)
    requires
        dd_layout(top as nat, big as nat),
        dd_readable(bits@, top as nat, big as nat),
    ensures
        dd_decode(bits@, top as nat, big as nat) is NotEnough ==> r matches Err(
            DdFault::NotEnough,
        ),
        dd_decode(bits@, top as nat, big as nat) is NotDeltaDelta ==> r matches Err(
            DdFault::NotDeltaDelta,
        ),
        dd_decode(bits@, top as nat, big as nat) matches DdRead::Value(v, n) ==> r matches Ok(
            (x, m),
        ) && x == v && m == n,
{
    let ghost s = bits@;
    let len = bits.len();
    if len == 0 {
        return Err(DdFault::NotEnough);
    }
    if bits.get(0) {
        return Err(DdFault::NotDeltaDelta);
    }
    let c: usize = if !bits.get(1) {
        if !bits.get(2) {
            0
        } else {
            1
        }
    } else if !bits.get(2) {
        2
    } else if top < 3 {
        return Err(DdFault::NotEnough);
    } else if !bits.get(3) {
        3
    } else if top < 4 {
        return Err(DdFault::NotEnough);
    } else {
        4
    };
    assert(dd_read_class(s, top as nat) == Some(c as nat));
    let p: usize = if c <= 2 {
        3
    } else {
        4
    };
    let w: usize = if c == 0 {
        1
    } else if c == 1 {
        5
    } else if c == 2 {
        if big < 9 {
            big
        } else {
            9
        }
    } else if c == 3 {
        16
    } else {
        big
    };
    let field = read_low_bits(bits, p, w);
    Ok((unzigzag64(field), p + w))
}

/// Reads the delta-delta code of an `i8` from the front of `bits`, with what follows it.
pub fn decode_deltadelta_i8<'a>(bits: BitBufferSlice<'a>) -> (r: Result<
    (i8, Option<BitBufferSlice<'a>>),
    &'static str,
>)
    requires
        dd_readable(bits@, 2, 8),
    ensures
        dd_decode(bits@, 2, 8) is NotEnough ==> r == Err::<(i8, Option<BitBufferSlice<'a>>), &'static str>(
            "Not enough bits to decode",
        ),
        dd_decode(bits@, 2, 8) is NotDeltaDelta ==> r == Err::<(i8, Option<BitBufferSlice<'a>>), &'static str>(
            "Not a delta-delta encoded value",
        ),
        dd_decode(bits@, 2, 8) matches DdRead::Value(v, n) ==> r matches Ok((x, rest)) && x == v as i8
            && remainder_is(bits@, n, rest),
{
    match read_dd(&bits, 2, 8) {
        Ok((v, n)) => Ok((v as i8, remainder(bits, n))),
        Err(DdFault::NotEnough) => Err("Not enough bits to decode"),
        Err(DdFault::NotDeltaDelta) => Err("Not a delta-delta encoded value"),
    }
}

/// Reads the delta-delta code of an `i16` from the front of `bits`, with what follows it.
pub fn decode_deltadelta_i16<'a>(bits: BitBufferSlice<'a>) -> (r: Result<
    (i16, Option<BitBufferSlice<'a>>),
    &'static str,
>)
    requires
        dd_readable(bits@, 3, 16),
    ensures
        dd_decode(bits@, 3, 16) is NotEnough ==> r == Err::<(i16, Option<BitBufferSlice<'a>>), &'static str>(
            "Not enough bits to decode",
        ),
        dd_decode(bits@, 3, 16) is NotDeltaDelta ==> r == Err::<(i16, Option<BitBufferSlice<'a>>), &'static str>(
            "Not a delta-delta encoded value",
        ),
        dd_decode(bits@, 3, 16) matches DdRead::Value(v, n) ==> r matches Ok((x, rest)) && x == v
            && remainder_is(bits@, n, rest),
{
    match read_dd(&bits, 3, 16) {
        Ok((v, n)) => {
            proof {
                let c = dd_read_class(bits@, 3);
                let p = dd_prefix_len(c.unwrap());
                let w = dd_width(c.unwrap(), 16);
                if w < 64 {
                    lemma_bits_value_fits(bits@.subrange(p as int, (p + w) as int));
                    lemma_field_within_mask(bits_value(bits@.subrange(p as int, (p + w) as int)), w);
                }
                lemma_shift_literals();
            }
            Ok((v as i16, remainder(bits, n)))
        }
        Err(DdFault::NotEnough) => Err("Not enough bits to decode"),
        Err(DdFault::NotDeltaDelta) => Err("Not a delta-delta encoded value"),
    }
}

/// Reads the delta-delta code of an `i32` from the front of `bits`, with what follows it.
pub fn decode_deltadelta_i32<'a>(bits: BitBufferSlice<'a>) -> (r: Result<
    (i32, Option<BitBufferSlice<'a>>),
    &'static str,
>)
    requires
        dd_readable(bits@, 4, 32),
    ensures
        dd_decode(bits@, 4, 32) is NotEnough ==> r == Err::<(i32, Option<BitBufferSlice<'a>>), &'static str>(
            "Not enough bits to decode",
        ),
        dd_decode(bits@, 4, 32) is NotDeltaDelta ==> r == Err::<(i32, Option<BitBufferSlice<'a>>), &'static str>(
            "Not a delta-delta encoded value",
        ),
        dd_decode(bits@, 4, 32) matches DdRead::Value(v, n) ==> r matches Ok((x, rest)) && x == v
            && remainder_is(bits@, n, rest),
{
    match read_dd(&bits, 4, 32) {
        Ok((v, n)) => {
            proof {
                let c = dd_read_class(bits@, 4);
                let p = dd_prefix_len(c.unwrap());
                let w = dd_width(c.unwrap(), 32);
                if w < 64 {
                    lemma_bits_value_fits(bits@.subrange(p as int, (p + w) as int));
                    lemma_field_within_mask(bits_value(bits@.subrange(p as int, (p + w) as int)), w);
                }
                lemma_shift_literals();
            }
            Ok((v as i32, remainder(bits, n)))
        }
        Err(DdFault::NotEnough) => Err("Not enough bits to decode"),
        Err(DdFault::NotDeltaDelta) => Err("Not a delta-delta encoded value"),
    }
}

/// Reads the delta-delta code of an `i64` from the front of `bits`, with what follows it.
pub fn decode_deltadelta_i64<'a>(bits: BitBufferSlice<'a>) -> (r: Result<
    (i64, Option<BitBufferSlice<'a>>),
    &'static str,
>)
    requires
        dd_readable(bits@, 4, 64),
    ensures
        dd_decode(bits@, 4, 64) is NotEnough ==> r == Err::<(i64, Option<BitBufferSlice<'a>>), &'static str>(
            "Not enough bits to decode",
        ),
        dd_decode(bits@, 4, 64) is NotDeltaDelta ==> r == Err::<(i64, Option<BitBufferSlice<'a>>), &'static str>(
            "Not a delta-delta encoded value",
        ),
        dd_decode(bits@, 4, 64) matches DdRead::Value(v, n) ==> r matches Ok((x, rest)) && x == v
            && remainder_is(bits@, n, rest),
{
    match read_dd(&bits, 4, 64) {
        Ok((v, n)) => {
            proof {
                let c = dd_read_class(bits@, 4);
                let p = dd_prefix_len(c.unwrap());
                let w = dd_width(c.unwrap(), 64);
                if w < 64 {
                    lemma_bits_value_fits(bits@.subrange(p as int, (p + w) as int));
                    lemma_field_within_mask(bits_value(bits@.subrange(p as int, (p + w) as int)), w);
                }
                lemma_shift_literals();
            }
            Ok((v as i64, remainder(bits, n)))
        }
        Err(DdFault::NotEnough) => Err("Not enough bits to decode"),
        Err(DdFault::NotDeltaDelta) => Err("Not a delta-delta encoded value"),
    }
}

/// The code of any value of the type, followed by anything, reads back as the
/// value and the code's length.
pub proof fn lemma_dd_roundtrip(v: int, top: nat, big: nat, rest: Seq<bool>)
    requires
        dd_layout(top, big),
        top == 2 ==> -128 <= v <= 127,
        top == 3 ==> -32768 <= v <= 32767,
        big == 32 ==> -2147483648 <= v <= 2147483647,
        big == 64 ==> -9223372036854775808 <= v <= 9223372036854775807,
    ensures
        dd_readable(dd_code(v, top, big) + rest, top, big),
        dd_decode(dd_code(v, top, big) + rest, top, big) == DdRead::Value(
            v,
            dd_code(v, top, big).len(),
        ),
{
    let c = dd_class(v, top);
    let w = dd_width(c, big);
    let z = zigzag(v) as u64;
    let code = dd_code(v, top, big);
    let s = code + rest;
    let p = dd_prefix_len(c);
    assert(s[1] == dd_header(c)[0] && s[2] == dd_header(c)[1]);
    if c >= 3 {
        assert(s[3] == dd_header(c)[2]);
    }
    assert(dd_read_class(s, top) == Some(c));
    assert(s.subrange(p as int, (p + w) as int) =~= low_bits(z, w));
    lemma_bits_value_take_low_bits(z, w, w);
    assert(low_bits(z, w).take(w as int) =~= low_bits(z, w));
    lemma_unzigzag_zigzag(v);
    lemma_shift_literals();
    if w < 64 {
        lemma_field_within_mask(z, w);
    } else {
        assert(z & u64::MAX == z) by (bit_vector);
    }
}

/// The `i8` and `i16` encoders pick the smallest class that holds the value:
/// `0` and `-1` take 4 bits, any other value in `[-15, 15)` takes 8 bits
/// (header `01` and five payload bits), and any value in `[-255, 255)` takes
/// at most 11 bits for an `i8` and 12 bits for an `i16`.
pub proof fn lemma_dd_code_smallest(v: int, top: nat, big: nat)
    requires
        (top == 2 && big == 8 && -128 <= v <= 127) || (top == 3 && big == 16 && -32768 <= v
            <= 32767),
    ensures
        (v == 0 || v == -1) ==> dd_code(v, top, big).len() == 4 && !dd_code(v, top, big)[0]
            && !dd_code(v, top, big)[1] && !dd_code(v, top, big)[2],
        (v != 0 && v != -1 && -15 <= v < 15) ==> dd_code(v, top, big).len() == 8
            && !dd_code(v, top, big)[0] && !dd_code(v, top, big)[1] && dd_code(v, top, big)[2],
        (-255 <= v < 255) ==> dd_code(v, top, big).len() <= (if top == 2 {
            11int
        } else {
            12int
        }),
        dd_code(v, top, big).len() <= (if top == 2 {
            11int
        } else {
            20int
        }),
{
    let c = dd_class(v, top);
    let code = dd_code(v, top, big);
    assert(code[0] == false);
    assert(code[1] == dd_header(c)[0] && code[2] == dd_header(c)[1]);
}

} // verus!
