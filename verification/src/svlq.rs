//! Signed variable-length quantities: a sign bit, then a first chunk of a
//! continuation flag and the magnitude's six low bits (most significant
//! first), then, when the magnitude needs more, the rest of it as an
//! unsigned quantity: 7-bit groups, least significant first, each behind a
//! flag that is set when another chunk follows.

use vstd::prelude::*;
use vstd::arithmetic::power2::{pow2, lemma_pow2_adds, lemma2_to64, lemma_pow2_strictly_increases};
use crate::bits::{BitBuffer, BitBufferSlice, max_bits};
use crate::uvlq::{
    chunk_bits, chunk_flag, encode, lemma_chunk_group_bits, lemma_code_len, lemma_msb_value_split,
    lemma_uvlq_roundtrip, msb_value, push_chunk, read_chunks, read_overruns, read_result,
    stop_chunks, uvlq_code,
};

verus! {

/// The magnitude of `v`.
pub open spec fn magnitude(v: int) -> nat {
    if v < 0 {
        (-v) as nat
    } else {
        v as nat
    }
}

/// The group of the first chunk of magnitude `m`: the continuation flag as
/// its top bit, then the six low bits of `m`.
pub open spec fn head_group(m: nat) -> u8 {
    if m < 64 {
        m as u8
    } else {
        (64 + m % 64) as u8
    }
}

/// The code of `v`.
pub open spec fn svlq_code(v: int) -> Seq<bool> {
    let m = magnitude(v);
    chunk_bits(v < 0, head_group(m)) + if m < 64 {
        Seq::<bool>::empty()
    } else {
        uvlq_code(m / 64)
    }
}

/// What reading a quantity gives.
pub enum SvlqRead {
    /// The value and the number of bits taken.
    Value(int, nat),
    /// A magnitude bit beyond the type's range is set.
    Overflow,
    /// The magnitude of a negative value is one bit wide enough, but too large.
    OutOfRange,
}

/// The outcome for sign `neg` and magnitude `m` in a type with `w` bits of
/// magnitude (its width less the sign): a positive magnitude below `2^w`,
/// or a negative one up to `2^w`, is a value.
pub open spec fn classify(neg: bool, m: nat, w: nat, n: nat) -> SvlqRead {
    if !neg {
        if m < pow2(w) {
            SvlqRead::Value(m as int, n)
        } else {
            SvlqRead::Overflow
        }
    } else if m >= pow2(w + 1) {
        SvlqRead::Overflow
    } else if m > pow2(w) {
        SvlqRead::OutOfRange
    } else {
        SvlqRead::Value(-m, n)
    }
}

/// The number of unsigned chunks that follow the first chunk: up to the
/// first chunk with a clear flag (with `stop`), or all whole chunks.
pub open spec fn tail_chunks(s: Seq<bool>, stop: bool) -> nat {
    let t = s.skip(8);
    if stop {
        if s[1] {
            stop_chunks(t, 0)
        } else {
            0
        }
    } else {
        t.len() / 8
    }
}

/// What reading a quantity from the front of `s` gives, for a type with `w`
/// bits of magnitude. Fewer than eight bits read as zero, taking none.
pub open spec fn svlq_read(s: Seq<bool>, w: nat, stop: bool) -> SvlqRead {
    if s.len() < 8 {
        SvlqRead::Value(0, 0)
    } else {
        let c = tail_chunks(s, stop);
        match read_result(s.skip(8), c, 64) {
            None => SvlqRead::Overflow,
            Some(u) => classify(s[0], msb_value(s.subrange(2, 8)) + 64 * u, w, 8 + 8 * c),
        }
    }
}

/// The reader does not run on past the chunks that can hold a 64-bit group.
pub open spec fn svlq_readable(s: Seq<bool>, stop: bool) -> bool {
    s.len() >= 8 ==> !read_overruns(s.skip(8), tail_chunks(s, stop), 64)
}

/// The code of `value`.
fn encode_signed(value: i64) -> (r: BitBuffer)
    ensures
        r@ == svlq_code(value as int),
{
    let neg = value < 0;
    let m128: i128 = if neg {
        -(value as i128)
    } else {
        value as i128
    };
    let m = m128 as u64;
    assert(m as nat == magnitude(value as int));
    let h: u8 = if m < 64 {
        m as u8
    } else {
        (64 + m % 64) as u8
    };
    let mut bits = BitBuffer::new();
    push_chunk(&mut bits, neg, h);
    if m < 64 {
        assert(bits@ =~= svlq_code(value as int));
        return bits;
    }
    let tail = encode((m / 64) as u128);
    proof {
        lemma2_to64();
        lemma_pow2_strictly_increases(64, 70);
        lemma_code_len((m / 64) as nat, 10);
    }
    let n = tail.len();
    let ghost head = bits@;
    let mut i: usize = 0;
    while i < n
        invariant
            n == tail@.len(),
            n <= 80,
            head.len() == 8,
            i <= n,
            bits@ == head + tail@.take(i as int),
        decreases n - i,
    {
        proof {
            assert(bits@.len() == 8 + i);
        }
        bits.push(tail.get(i));
        proof {
            assert(head + tail@.take(i + 1) =~= (head + tail@.take(i as int)).push(tail@[i as int]));
        }
        i += 1;
    }
    assert(tail@.take(n as int) =~= tail@);
    bits
}

/// Why a quantity could not be read.
enum SvlqFault {
    Overflow,
    OutOfRange,
}

/// Reads the six low bits of the first chunk, most significant first.
fn read_low6(s: &BitBufferSlice) -> (r: u128)
    requires
        s@.len() >= 8,
    ensures
        r == msb_value(s@.subrange(2, 8)),
        r < 64,
{
    let mut val: u128 = 0;
    let mut i: usize = 2;
    proof {
        lemma2_to64();
    }
    while i < 8
        invariant
            s@.len() >= 8,
            2 <= i <= 8,
            val == msb_value(s@.subrange(2, i as int)),
            val < pow2((i - 2) as nat),
        decreases 8 - i,
    {
        let bit = s.get(i);
        proof {
            assert(s@.subrange(2, i + 1).drop_last() =~= s@.subrange(2, i as int));
            lemma_pow2_adds((i - 2) as nat, 1);
            lemma2_to64();
        }
        val = 2 * val + if bit {
            1
        } else {
            0
        };
        i += 1;
    }
    proof {
        lemma2_to64();
    }
    val
}

/// Reads a quantity for a type with `w` bits of magnitude (7, 15, 31 or 63).
fn read_svlq(s: &BitBufferSlice, w: u32, stop: bool) -> (r: Result<(i128, usize), SvlqFault>)
    requires
        w == 7 || w == 15 || w == 31 || w == 63,
        svlq_readable(s@, stop),
    ensures
        match svlq_read(s@, w as nat, stop) {
            SvlqRead::Value(v, n) => r matches Ok((x, k)) && x == v && k == n,
            SvlqRead::Overflow => r matches Err(SvlqFault::Overflow),
            SvlqRead::OutOfRange => r matches Err(SvlqFault::OutOfRange),
        },
        r matches Ok((x, _)) ==> -pow2(w as nat) <= x < pow2(w as nat),
{
    proof {
        vstd::arithmetic::power2::lemma_pow2_pos(w as nat);
    }
    if s.len() < 8 {
        return Ok((0, 0));
    }
    let neg = s.get(0);
    let flag = s.get(1);
    let low = read_low6(s);
    let t = s.skip(8);
    let (u, taken) = if stop && !flag {
        proof {
            lemma2_to64();
            assert(read_result(t@, 0, 64) == Some(0nat));
        }
        (0u128, 0usize)
    } else {
        match read_chunks(&t, 64, stop) {
            Ok(read) => read,
            Err(()) => return Err(SvlqFault::Overflow),
        }
    };
    proof {
        lemma2_to64();
    }
    let m: u128 = low + 64 * u;
    let limit: u128 = if w == 7 {
        128
    } else if w == 15 {
        32768
    } else if w == 31 {
        2147483648
    } else {
        9223372036854775808
    };
    proof {
        if w == 7 {
            assert(pow2(7) == 128 && pow2(8) == 256) by {
                lemma2_to64();
            }
        } else if w == 15 {
            assert(pow2(15) == 32768 && pow2(16) == 65536) by {
                lemma2_to64();
            }
        } else if w == 31 {
            assert(pow2(31) == 2147483648 && pow2(32) == 4294967296) by {
                lemma2_to64();
            }
        } else {
            assert(pow2(63) == 9223372036854775808 && pow2(64) == 18446744073709551616) by {
                lemma2_to64();
                lemma_pow2_adds(32, 31);
            }
        }
    }
    if !neg {
        if m < limit {
            Ok((m as i128, 8 + taken))
        } else {
            Err(SvlqFault::Overflow)
        }
    } else if m >= 2 * limit {
        Err(SvlqFault::Overflow)
    } else if m > limit {
        Err(SvlqFault::OutOfRange)
    } else {
        Ok((-(m as i128), 8 + taken))
    }
}

/// The first chunk of magnitude `m`: the flag says whether `m` needs more
/// than six bits, and the six bits after it are the low bits of `m`.
proof fn lemma_head_bits(neg: bool, m: nat)
    ensures
        chunk_bits(neg, head_group(m)).len() == 8,
        chunk_bits(neg, head_group(m))[0] == neg,
        chunk_bits(neg, head_group(m))[1] == (m >= 64),
        msb_value(chunk_bits(neg, head_group(m)).subrange(2, 8)) == m % 64,
{
    let h = head_group(m);
    let c = chunk_bits(neg, h);
    lemma2_to64();
    assert(h < 128);
    lemma_chunk_group_bits(neg, h);
    let one = c.subrange(1, 2);
    lemma_msb_value_split(one, c.subrange(2, 8));
    assert(one + c.subrange(2, 8) =~= c.subrange(1, 8));
    assert(one.drop_last() =~= Seq::<bool>::empty());
    assert(one.last() == c[1]);
    assert(msb_value(Seq::<bool>::empty()) == 0);
    assert(c[1] == ((h >> 6u8) & 1u8 == 1u8));
    assert(h < 128 ==> (((h >> 6u8) & 1u8 == 1u8) == (h >= 64))) by (bit_vector);
    assert(pow2(6) == 64);
    assert(pow2(one.len()) == 2);
    assert(msb_value(one) == 2 * msb_value(one.drop_last()) + if one.last() {
        1nat
    } else {
        0nat
    });
    let low = msb_value(c.subrange(2, 8));
    assert(c.subrange(2, 8).len() == 6);
    assert(msb_value(c.subrange(1, 8)) == msb_value(one) * 64 + low);
    assert(msb_value(c.subrange(1, 8)) == h);
    assert(low < 64);
    if m >= 64 {
        assert((64 + m % 64) as u8 == 64 + m % 64);
        assert(h == 64 + m % 64);
    } else {
        assert(h == m);
    }
}

/// The bits after the first chunk: the unsigned code of the magnitude's
/// high part, or nothing.
pub open spec fn svlq_tail(m: nat) -> Seq<bool> {
    if m < 64 {
        Seq::<bool>::empty()
    } else {
        uvlq_code(m / 64)
    }
}

/// The tail is read back, whatever follows it, as the magnitude's high part.
proof fn lemma_tail_read(m: nat, rest: Seq<bool>)
    requires
        m <= pow2(63),
    ensures
        svlq_tail(m).len() % 8 == 0,
        m >= 64 ==> stop_chunks(svlq_tail(m) + rest, 0) == svlq_tail(m).len() / 8,
        svlq_tail(m).len() / 8 <= 10,
        m >= 64 ==> !read_overruns(svlq_tail(m) + rest, svlq_tail(m).len() / 8, 64),
        m >= 64 ==> read_result(svlq_tail(m) + rest, svlq_tail(m).len() / 8, 64) == Some(m / 64),
        !read_overruns(svlq_tail(m), svlq_tail(m).len() / 8, 64),
        read_result(svlq_tail(m), svlq_tail(m).len() / 8, 64) == Some(
            if m < 64 {
                0nat
            } else {
                m / 64
            },
        ),
{
    lemma2_to64();
    lemma_pow2_adds(32, 31);
    if m >= 64 {
        lemma_pow2_strictly_increases(64, 70);
        lemma_code_len(m / 64, 10);
        lemma_uvlq_roundtrip(m / 64, 64, rest);
    } else {
        assert(read_result(Seq::<bool>::empty(), 0, 64) == Some(0nat));
    }
}

/// The code of `v` is read back as `v`, whatever follows it, by a reader of
/// any type with `w` bits of magnitude that holds `v`.
pub proof fn lemma_svlq_roundtrip(v: int, w: nat, rest: Seq<bool>)
    requires
        w == 7 || w == 15 || w == 31 || w == 63,
        -pow2(w) <= v < pow2(w),
    ensures
        svlq_readable(svlq_code(v) + rest, true),
        tail_chunks(svlq_code(v) + rest, true) <= 10,
        svlq_read(svlq_code(v) + rest, w, true) == SvlqRead::Value(v, svlq_code(v).len()),
        svlq_readable(svlq_code(v), false),
        svlq_read(svlq_code(v), w, false) == SvlqRead::Value(v, svlq_code(v).len()),
{
    let m = magnitude(v);
    let c = chunk_bits(v < 0, head_group(m));
    let tail = svlq_tail(m);
    lemma2_to64();
    lemma_pow2_adds(32, 31);
    if w < 63 {
        lemma_pow2_strictly_increases(w, 63);
    }
    lemma_pow2_adds(w, 1);
    lemma_head_bits(v < 0, m);
    lemma_tail_read(m, rest);
    let u: nat = if m < 64 {
        0
    } else {
        m / 64
    };
    assert(m == m % 64 + 64 * u);
    assert(m < pow2(w) || (v < 0 && m <= pow2(w)));
    assert(svlq_code(v) == c + tail);
    let s = svlq_code(v) + rest;
    assert(s =~= c + (tail + rest));
    assert(s.subrange(2, 8) =~= c.subrange(2, 8));
    assert(s.skip(8) =~= tail + rest);
    assert(s[0] == c[0] && s[1] == c[1]);
    let s2 = svlq_code(v);
    assert(s2.subrange(2, 8) =~= c.subrange(2, 8));
    assert(s2.skip(8) =~= tail);
    assert(s2[0] == c[0]);
    assert(classify(v < 0, m, w, 8 + tail.len()) == SvlqRead::Value(v, 8 + tail.len()));
}

/// The code of a 64-bit value that the type does not hold, followed by
/// anything, is refused by a reader of that type: a positive value of `2^w` or
/// more, or a negative one below `-2^w`, never reads back as a value.
pub proof fn lemma_svlq_out_of_range(v: int, w: nat, rest: Seq<bool>)
    requires
        w == 7 || w == 15 || w == 31,
        -pow2(63) <= v < pow2(63),
        v < -pow2(w) || pow2(w) <= v,
    ensures
        !(svlq_read(svlq_code(v) + rest, w, true) is Value),
        !(svlq_read(svlq_code(v), w, false) is Value),
{
    lemma_svlq_roundtrip(v, 63, rest);
}

/// The quantity at the front of `s` spans at most ten chunks after the
/// first, as the code of any 64-bit value does.
pub open spec fn svlq_short(s: Seq<bool>) -> bool {
    s.len() < 8 || tail_chunks(s, true) <= 10
}

/// A quantity that spans at most ten chunks after the first can be read.
proof fn lemma_short_readable(s: Seq<bool>)
    requires
        svlq_short(s),
    ensures
        svlq_readable(s, true),
{
}

/// Whether the quantity at the front of `s` spans at most ten chunks after the first.
pub fn is_svlq_short(s: &BitBufferSlice) -> (r: bool)
    ensures
        r == svlq_short(s@),
{
    if s.len() < 8 || !s.get(1) {
        return true;
    }
    let t = s.skip(8);
    let n = t.len() / 8;
    let mut j: usize = 0;
    while j < n && j < 10 && t.get(8 * j)
        invariant
            n == t@.len() / 8,
            j <= n,
            j <= 10,
            stop_chunks(t@, 0) == stop_chunks(t@, j as nat),
        decreases n - j,
    {
        proof {
            assert(chunk_flag(t@, j as int));
        }
        j += 1;
    }
    if j == n {
        return true;
    }
    if j == 10 {
        proof {
            crate::uvlq::lemma_stop_chunks_after(t@, 10);
        }
        return false;
    }
    true
}

/// The code of a 64-bit value takes one to eleven whole chunks.
pub proof fn lemma_svlq_len(v: int)
    requires
        -pow2(63) <= v < pow2(63),
    ensures
        8 <= svlq_code(v).len() <= 88,
{
    let m = magnitude(v);
    lemma_tail_read(m, Seq::<bool>::empty());
    lemma_head_bits(v < 0, m);
    assert(svlq_code(v) == chunk_bits(v < 0, head_group(m)) + svlq_tail(m));
}

/// A code takes the fewest chunks that its magnitude needs: one chunk for a
/// magnitude below `2^6`, and at most `1 + t` chunks for one below `2^(6 + 7 t)`.
pub proof fn lemma_svlq_len_smallest(v: int, t: nat)
    requires
        magnitude(v) < pow2(6 + 7 * t),
    ensures
        svlq_code(v).len() % 8 == 0,
        8 <= svlq_code(v).len() <= 8 * (t + 1),
        magnitude(v) < 64 ==> svlq_code(v).len() == 8,
{
    let m = magnitude(v);
    lemma_head_bits(v < 0, m);
    if m >= 64 {
        lemma_pow2_adds(6, 7 * t);
        lemma2_to64();
        if t == 0 {
            assert(pow2(6) == 64);
            assert(false);
        }
        assert(m / 64 < pow2(7 * t)) by (nonlinear_arith)
            requires
                m < 64 * pow2(7 * t),
        ;
        lemma_code_len(m / 64, t);
    }
}

/// A signed variable-length quantity.
pub struct Svlq {
    pub bits: BitBuffer,
}

/// A view of bits that start with a signed variable-length quantity.
pub struct SvlqRef<'a>(pub BitBufferSlice<'a>);

impl Svlq {
    /// The quantity of an `i8`.
    pub fn from_i8(value: i8) -> (r: Self)
        ensures
            r.bits@ == svlq_code(value as int),
    {
        Svlq { bits: encode_signed(value as i64) }
    }

    /// The quantity of an `i16`.
    pub fn from_i16(value: i16) -> (r: Self)
        ensures
            r.bits@ == svlq_code(value as int),
    {
        Svlq { bits: encode_signed(value as i64) }
    }

    /// The quantity of an `i32`.
    pub fn from_i32(value: i32) -> (r: Self)
        ensures
            r.bits@ == svlq_code(value as int),
    {
        Svlq { bits: encode_signed(value as i64) }
    }

    /// The quantity of an `i64`.
    pub fn from_i64(value: i64) -> (r: Self)
        ensures
            r.bits@ == svlq_code(value as int),
    {
        Svlq { bits: encode_signed(value) }
    }

    /// The quantity, read from all its whole chunks, as an `i8`.
    pub fn try_into_i8(self) -> (r: Result<i8, ()>)
        requires
            svlq_readable(self.bits@, false),
        ensures
            match svlq_read(self.bits@, 7, false) {
                SvlqRead::Value(v, _) => r == Ok::<i8, ()>(v as i8),
                _ => r is Err,
            },
    {
        proof {
            lemma2_to64();
            lemma_pow2_adds(32, 31);
        }
        match read_svlq(&self.bits.as_bitslice(), 7, false) {
            Ok((v, _)) => Ok(v as i8),
            Err(_) => Err(()),
        }
    }

    /// The quantity, read from all its whole chunks, as an `i16`.
    pub fn try_into_i16(self) -> (r: Result<i16, ()>)
        requires
            svlq_readable(self.bits@, false),
        ensures
            match svlq_read(self.bits@, 15, false) {
                SvlqRead::Value(v, _) => r == Ok::<i16, ()>(v as i16),
                _ => r is Err,
            },
    {
        proof {
            lemma2_to64();
            lemma_pow2_adds(32, 31);
        }
        match read_svlq(&self.bits.as_bitslice(), 15, false) {
            Ok((v, _)) => Ok(v as i16),
            Err(_) => Err(()),
        }
    }

    /// The quantity, read from all its whole chunks, as an `i32`.
    pub fn try_into_i32(self) -> (r: Result<i32, ()>)
        requires
            svlq_readable(self.bits@, false),
        ensures
            match svlq_read(self.bits@, 31, false) {
                SvlqRead::Value(v, _) => r == Ok::<i32, ()>(v as i32),
                _ => r is Err,
            },
    {
        proof {
            lemma2_to64();
            lemma_pow2_adds(32, 31);
        }
        match read_svlq(&self.bits.as_bitslice(), 31, false) {
            Ok((v, _)) => Ok(v as i32),
            Err(_) => Err(()),
        }
    }

    /// The quantity, read from all its whole chunks, as an `i64`.
    pub fn try_into_i64(self) -> (r: Result<i64, ()>)
        requires
            svlq_readable(self.bits@, false),
        ensures
            match svlq_read(self.bits@, 63, false) {
                SvlqRead::Value(v, _) => r == Ok::<i64, ()>(v as i64),
                _ => r is Err,
            },
    {
        proof {
            lemma2_to64();
            lemma_pow2_adds(32, 31);
        }
        match read_svlq(&self.bits.as_bitslice(), 63, false) {
            Ok((v, _)) => Ok(v as i64),
            Err(_) => Err(()),
        }
    }
}

impl<'a> SvlqRef<'a> {
    /// Reads a quantity from the front of the bits as an `i8`: the value and
    /// the number of bits it took, up to the first chunk with a clear flag.
    pub fn try_read_i8(&self) -> (r: Result<(i8, usize), &'static str>)
        requires
            svlq_readable(self.0@, true),
        ensures
            svlq_outcome(svlq_read(self.0@, 7, true)) == match r {
                Ok((x, k)) => Ok((x as int, k as nat)),
                Err(e) => Err::<(int, nat), &'static str>(e),
            },
    {
        proof {
            lemma2_to64();
            lemma_pow2_adds(32, 31);
        }
        match read_svlq(&self.0, 7, true) {
            Ok((v, n)) => Ok((v as i8, n)),
            Err(SvlqFault::Overflow) => Err("Signed VLQ bit overflow"),
            Err(SvlqFault::OutOfRange) => Err("Signed VLQ value out of bit range"),
        }
    }

    /// Reads a quantity from the front of the bits as an `i16`.
    pub fn try_read_i16(&self) -> (r: Result<(i16, usize), &'static str>)
        requires
            svlq_readable(self.0@, true),
        ensures
            svlq_outcome(svlq_read(self.0@, 15, true)) == match r {
                Ok((x, k)) => Ok((x as int, k as nat)),
                Err(e) => Err::<(int, nat), &'static str>(e),
            },
    {
        proof {
            lemma2_to64();
            lemma_pow2_adds(32, 31);
        }
        match read_svlq(&self.0, 15, true) {
            Ok((v, n)) => Ok((v as i16, n)),
            Err(SvlqFault::Overflow) => Err("Signed VLQ bit overflow"),
            Err(SvlqFault::OutOfRange) => Err("Signed VLQ value out of bit range"),
        }
    }

    /// Reads a quantity from the front of the bits as an `i32`.
    pub fn try_read_i32(&self) -> (r: Result<(i32, usize), &'static str>)
        requires
            svlq_readable(self.0@, true),
        ensures
            svlq_outcome(svlq_read(self.0@, 31, true)) == match r {
                Ok((x, k)) => Ok((x as int, k as nat)),
                Err(e) => Err::<(int, nat), &'static str>(e),
            },
    {
        proof {
            lemma2_to64();
            lemma_pow2_adds(32, 31);
        }
        match read_svlq(&self.0, 31, true) {
            Ok((v, n)) => Ok((v as i32, n)),
            Err(SvlqFault::Overflow) => Err("Signed VLQ bit overflow"),
            Err(SvlqFault::OutOfRange) => Err("Signed VLQ value out of bit range"),
        }
    }

    /// Reads a quantity from the front of the bits as an `i64`.
    pub fn try_read_i64(&self) -> (r: Result<(i64, usize), &'static str>)
        requires
            svlq_readable(self.0@, true),
        ensures
            svlq_outcome(svlq_read(self.0@, 63, true)) == match r {
                Ok((x, k)) => Ok((x as int, k as nat)),
                Err(e) => Err::<(int, nat), &'static str>(e),
            },
    {
        proof {
            lemma2_to64();
            lemma_pow2_adds(32, 31);
        }
        match read_svlq(&self.0, 63, true) {
            Ok((v, n)) => Ok((v as i64, n)),
            Err(SvlqFault::Overflow) => Err("Signed VLQ bit overflow"),
            Err(SvlqFault::OutOfRange) => Err("Signed VLQ value out of bit range"),
        }
    }
}

/// What a reader hands back for what reading gives: the value and the bits
/// taken, or the error for an overflowing or out-of-range magnitude.
pub open spec fn svlq_outcome(read: SvlqRead) -> Result<(int, nat), &'static str> {
    match read {
        SvlqRead::Value(v, n) => Ok((v, n)),
        SvlqRead::Overflow => Err("Signed VLQ bit overflow"),
        SvlqRead::OutOfRange => Err("Signed VLQ value out of bit range"),
    }
}

} // verus!
