//! Unsigned variable-length quantities: 7-bit groups, least significant
//! first, each in a chunk of 8 bits led by a flag that is set when another
//! chunk follows.

use vstd::prelude::*;
use vstd::arithmetic::power2::{pow2, lemma_pow2_adds, lemma_pow2_pos, lemma2_to64, lemma_pow2_strictly_increases};
use crate::bits::{BitBuffer, BitBufferSlice, max_bits};

verus! {

/// Bits read most significant first, as a number.
pub open spec fn msb_value(s: Seq<bool>) -> nat
    decreases s.len(),
{
    if s.len() == 0 {
        0
    } else {
        2 * msb_value(s.drop_last()) + if s.last() {
            1nat
        } else {
            0nat
        }
    }
}

/// The 7-bit group of chunk `j`: the bits after the chunk's flag.
pub open spec fn chunk_group(s: Seq<bool>, j: int) -> nat {
    msb_value(s.subrange(8 * j + 1, 8 * j + 8))
}

/// The value of the first `m` chunks: their groups, least significant first.
pub open spec fn chunks_value(s: Seq<bool>, m: nat) -> nat
    decreases m,
{
    if m == 0 {
        0
    } else {
        chunks_value(s, (m - 1) as nat) + chunk_group(s, m - 1) * pow2((7 * (m - 1)) as nat)
    }
}

/// The flag of chunk `j`: set when another chunk follows.
pub open spec fn chunk_flag(s: Seq<bool>, j: int) -> bool {
    s[8 * j]
}

/// The first chunk whose group lies wholly at or above bit `w`.
pub open spec fn high_chunk(w: nat) -> nat {
    ((w + 6) / 7) as nat
}

/// The number of chunks that a reader which stops after a clear flag takes,
/// from chunk `j` on.
pub open spec fn stop_chunks(s: Seq<bool>, j: nat) -> nat
    decreases s.len() / 8 - j,
{
    if j >= s.len() / 8 {
        s.len() / 8
    } else if !chunk_flag(s, j as int) {
        j + 1
    } else {
        stop_chunks(s, j + 1)
    }
}

/// What reading `c` chunks as a `w`-bit value gives: the value, or `None`
/// when a group bit at or above bit `w` is set in a chunk read before the
/// first chunk above `w`.
pub open spec fn read_result(s: Seq<bool>, c: nat, w: nat) -> Option<nat> {
    let m = if c < high_chunk(w) + 1 {
        c
    } else {
        high_chunk(w) + 1
    };
    if chunks_value(s, m) >= pow2(w) {
        None
    } else {
        Some(chunks_value(s, c))
    }
}

/// Reading `c` chunks as a `w`-bit value shifts past the value's width: the
/// reader goes on past the first chunk above `w` without having failed.
pub open spec fn read_overruns(s: Seq<bool>, c: nat, w: nat) -> bool {
    c > high_chunk(w) && chunks_value(s, high_chunk(w) + 1) < pow2(w)
}

/// Bits after a prefix of zeros have the value of all the bits.
pub(crate) proof fn lemma_msb_value_split(a: Seq<bool>, b: Seq<bool>)
    ensures
        msb_value(a + b) == msb_value(a) * pow2(b.len()) + msb_value(b),
        msb_value(b) < pow2(b.len()),
    decreases b.len(),
{
    if b.len() == 0 {
        assert(a + b =~= a);
        assert(pow2(0) == 1) by {
            lemma2_to64();
        }
    } else {
        assert((a + b).drop_last() =~= a + b.drop_last());
        lemma_msb_value_split(a, b.drop_last());
        let p = pow2(b.drop_last().len());
        assert(pow2(b.len()) == 2 * p) by {
            lemma_pow2_adds(b.drop_last().len(), 1);
            lemma2_to64();
        }
        let x = msb_value(a);
        let y = msb_value(b.drop_last());
        let bit: nat = if b.last() {
            1
        } else {
            0
        };
        assert(2 * (x * p + y) + bit == x * (2 * p) + (2 * y + bit)) by (nonlinear_arith);
    }
}

/// All-clear bits have the value zero.
pub(crate) proof fn lemma_msb_value_clear(a: Seq<bool>)
    requires
        forall|i: int| 0 <= i < a.len() ==> !a[i],
    ensures
        msb_value(a) == 0,
    decreases a.len(),
{
    if a.len() > 0 {
        lemma_msb_value_clear(a.drop_last());
    }
}

/// Bits with one set among them have a value of at least one.
proof fn lemma_msb_value_set(a: Seq<bool>, i: int)
    requires
        0 <= i < a.len(),
        a[i],
    ensures
        msb_value(a) >= 1,
    decreases a.len(),
{
    if i < a.len() - 1 {
        lemma_msb_value_set(a.drop_last(), i);
    }
}

/// The value of more chunks is no smaller.
proof fn lemma_chunks_value_grows(s: Seq<bool>, a: nat, b: nat)
    requires
        a <= b,
    ensures
        chunks_value(s, a) <= chunks_value(s, b),
    decreases b,
{
    if a < b {
        lemma_chunks_value_grows(s, a, (b - 1) as nat);
        lemma_pow2_pos((7 * (b - 1)) as nat);
        assert(chunk_group(s, b - 1) * pow2((7 * (b - 1)) as nat) >= 0) by (nonlinear_arith)
            requires
                pow2((7 * (b - 1)) as nat) > 0,
        ;
    }
}

/// A value below `p` plus `g` times `p` is below `p * q` exactly when `g` is below `q`.
proof fn lemma_scaled_bound(low: int, g: int, p: int, q: int)
    by (nonlinear_arith)
    requires
        0 <= low < p,
        0 <= g,
        0 < q,
    ensures
        (low + g * p < p * q) <==> (g < q),
        low + g * p >= g * p,
{
}

/// Chunks whose flags are all set between `i` and `j` leave the stopping count unchanged.
proof fn lemma_stop_chunks_skip(s: Seq<bool>, i: nat, j: nat)
    requires
        i <= j <= s.len() / 8,
        forall|t: int| i <= t < j ==> #[trigger] chunk_flag(s, t),
    ensures
        stop_chunks(s, i) == stop_chunks(s, j),
    decreases j - i,
{
    if i < j {
        lemma_stop_chunks_skip(s, i + 1, j);
    }
}

/// A reader that stops after a clear flag takes at least one more chunk, if any is left.
pub(crate) proof fn lemma_stop_chunks_after(s: Seq<bool>, j: nat)
    requires
        j < s.len() / 8,
    ensures
        j < stop_chunks(s, j) <= s.len() / 8,
    decreases s.len() / 8 - j,
{
    if chunk_flag(s, j as int) {
        if j + 1 < s.len() / 8 {
            lemma_stop_chunks_after(s, j + 1);
        } else {
            assert(stop_chunks(s, j + 1) == s.len() / 8);
        }
    }
}

/// Powers of two grow with the exponent.
proof fn lemma_pow2_le(a: nat, b: nat)
    requires
        a <= b,
    ensures
        pow2(a) <= pow2(b),
{
    if a < b {
        lemma_pow2_strictly_increases(a, b);
    }
}

/// Reads the group of chunk `j`: whether any of its top `extra` bits is
/// set, and the value of its other bits.
fn read_group(s: &BitBufferSlice, j: usize, extra: u32) -> (r: (bool, u128))
    requires
        8 * j + 8 <= s@.len(),
        extra <= 7,
    ensures
        chunk_group(s@, j as int) < 128,
        r.0 <==> chunk_group(s@, j as int) >= pow2((7 - extra) as nat),
        !r.0 ==> r.1 == chunk_group(s@, j as int),
{
    let _ = s.len();
    let base = 8 * j;
    let ghost grp = s@.subrange(8 * j + 1, 8 * j + 8);
    let ghost g = chunk_group(s@, j as int);
    proof {
        lemma_msb_value_split(grp.take(extra as int), grp.skip(extra as int));
        assert(grp.take(extra as int) + grp.skip(extra as int) =~= grp);
        lemma_msb_value_split(Seq::<bool>::empty(), grp);
        assert(Seq::<bool>::empty() + grp =~= grp);
        lemma2_to64();
    }
    let mut overflow = false;
    let mut b: u32 = 0;
    while b < extra
        invariant
            extra <= 7,
            b <= extra,
            base == 8 * j,
            8 * j + 8 <= s@.len(),
            grp == s@.subrange(8 * j + 1, 8 * j + 8),
            overflow <==> exists|t: int| 0 <= t < b && #[trigger] grp[t],
        decreases extra - b,
    {
        let bit = s.get(base + 1 + b as usize);
        assert(bit == grp[b as int]);
        overflow = overflow || bit;
        b += 1;
    }
    let ghost top = grp.take(extra as int);
    if overflow {
        proof {
            let t = choose|t: int| 0 <= t < extra && #[trigger] grp[t];
            assert(top[t]);
            lemma_msb_value_set(top, t);
            let p = pow2((7 - extra) as nat);
            let low = msb_value(grp.skip(extra as int));
            assert(g >= p) by (nonlinear_arith)
                requires
                    g == msb_value(top) * p + low,
                    msb_value(top) >= 1,
            ;
        }
        return (true, 0);
    }
    proof {
        assert forall|t: int| 0 <= t < top.len() implies !top[t] by {
            assert(top[t] == grp[t]);
        }
        lemma_msb_value_clear(top);
    }
    let mut val: u128 = 0;
    let mut i: usize = base + 1 + extra as usize;
    while i < base + 8
        invariant
            extra <= 7,
            base == 8 * j,
            8 * j + 8 <= s@.len(),
            s@.len() <= max_bits(),
            base + 1 + extra <= i <= base + 8,
            val == msb_value(s@.subrange(base + 1 + extra, i as int)),
            val < pow2((i - (base + 1 + extra)) as nat),
            pow2(7) == 128,
        decreases base + 8 - i,
    {
        let bit = s.get(i);
        proof {
            assert(s@.subrange(base + 1 + extra, i + 1).drop_last() =~= s@.subrange(
                base + 1 + extra,
                i as int,
            ));
            lemma_pow2_adds((i - (base + 1 + extra)) as nat, 1);
            lemma2_to64();
            lemma_pow2_le((i + 1 - (base + 1 + extra)) as nat, 7);
        }
        val = 2 * val + if bit {
            1
        } else {
            0
        };
        i += 1;
    }
    proof {
        assert(s@.subrange(base + 1 + extra, base + 8) =~= grp.skip(extra as int));
        lemma_pow2_pos((7 - extra) as nat);
    }
    (false, val)
}

/// Reads chunks as a `w`-bit value (`w` one of 8, 16, 32, 64, 128): all
/// whole chunks, or, with `stop`, up to the first chunk whose flag is
/// clear. The value, and the number of bits taken; an error when the value
/// does not fit `w` bits.
#[verifier::rlimit(40)]
#[verifier::spinoff_prover]
pub(crate) fn read_chunks(s: &BitBufferSlice, w: u32, stop: bool) -> (r: Result<(u128, usize), ()>)
    requires
        w == 8 || w == 16 || w == 32 || w == 64 || w == 128,
        !read_overruns(
            s@,
            if stop {
                stop_chunks(s@, 0)
            } else {
                s@.len() / 8
            },
            w as nat,
        ),
    ensures
        ({
            let c = if stop {
                stop_chunks(s@, 0)
            } else {
                s@.len() / 8
            };
            match read_result(s@, c, w as nat) {
                None => r is Err,
                Some(v) => r == Ok::<(u128, usize), ()>((v as u128, (8 * c) as usize)),
            }
        }),
        r matches Ok((x, _)) ==> (x as nat) < pow2(w as nat),
{
    let ghost c = if stop {
        stop_chunks(s@, 0)
    } else {
        s@.len() / 8
    };
    let ghost j0 = high_chunk(w as nat);
    let n = s.len() / 8;
    let mut out: u128 = 0;
    let mut scale: u128 = 1;
    let mut out_idx: u32 = 0;
    let mut j: usize = 0;
    proof {
        lemma2_to64();
        lemma_pow2_adds(64, 64);
        assert(pow2(128) == u128::MAX + 1);
    }
    while j < n
        invariant
            w == 8 || w == 16 || w == 32 || w == 64 || w == 128,
            j0 == high_chunk(w as nat),
            s@.len() <= usize::MAX,
            n == s@.len() / 8,
            c == (if stop {
                stop_chunks(s@, 0)
            } else {
                s@.len() / 8
            }),
            !read_overruns(s@, c, w as nat),
            j <= n,
            j <= j0,
            stop ==> forall|t: int| 0 <= t < j ==> #[trigger] chunk_flag(s@, t),
            out_idx == (if 7 * j < w {
                7 * j
            } else {
                w as int
            }),
            out == chunks_value(s@, j as nat),
            chunks_value(s@, j as nat) < pow2(out_idx as nat),
            7 * j < 128 ==> scale == pow2((7 * j) as nat),
            pow2(128) == u128::MAX + 1,
        decreases n - j,
    {
        let base = 8 * j;
        let ghost g = chunk_group(s@, j as int);
        let extra: u32 = if out_idx + 7 > w {
            out_idx + 7 - w
        } else {
            0
        };
        proof {
            if stop {
                lemma_stop_chunks_skip(s@, 0, j as nat);
                lemma_stop_chunks_after(s@, j as nat);
            }
            assert(j < c);
            lemma_pow2_pos((7 * j) as nat);
            lemma_pow2_le(out_idx as nat, (7 * j) as nat);
            lemma2_to64();
        }
        let (overflow, val) = read_group(s, j, extra);
        if overflow {
            proof {
                let p = pow2((7 - extra) as nat);
                let sc = pow2((7 * j) as nat);
                lemma_pow2_pos((7 - extra) as nat);
                lemma_scaled_bound(out as int, g as int, sc as int, p as int);
                if 7 * j < w {
                    lemma_pow2_adds((7 * j) as nat, (7 - extra) as nat);
                } else {
                    lemma_pow2_le(w as nat, (7 * j) as nat);
                    lemma2_to64();
                    assert(g * sc >= sc) by (nonlinear_arith)
                        requires
                            g >= 1,
                            sc > 0,
                    ;
                }
                assert(chunks_value(s@, (j + 1) as nat) >= pow2(w as nat));
                lemma_chunks_value_grows(
                    s@,
                    (j + 1) as nat,
                    if c < j0 + 1 {
                        c
                    } else {
                        j0 + 1
                    },
                );
            }
            return Err(());
        }
        if out_idx >= w {
            proof {
                assert(g == 0);
                assert(g * pow2((7 * j) as nat) == 0) by (nonlinear_arith)
                    requires
                        g == 0,
                ;
                assert(chunks_value(s@, (j + 1) as nat) == chunks_value(s@, j as nat) + g * pow2(
                    (7 * j) as nat,
                ));
                assert(chunks_value(s@, (j + 1) as nat) == chunks_value(s@, j as nat));
                assert(j == j0);
                assert(false);
            }
            return Err(());
        }
        proof {
            let p = pow2((7 * j) as nat);
            let e = (out_idx + 7 - extra - 7 * j) as nat;
            let q = pow2(e);
            lemma_pow2_adds((7 * j) as nat, e);
            lemma_scaled_bound(out as int, g as int, p as int, q as int);
            assert(out_idx + 7 - extra == (if 7 * (j + 1) < w {
                7 * (j + 1)
            } else {
                w as int
            }));
            lemma_pow2_le((out_idx + 7 - extra) as nat, 128);
            if 7 * j + 7 < 128 {
                lemma2_to64();
                lemma_pow2_adds((7 * j) as nat, 7);
                lemma_pow2_strictly_increases((7 * j + 7) as nat, 128);
            }
        }
        out = out + val * scale;
        out_idx = out_idx + 7 - extra;
        if 7 * j + 7 < 128 {
            scale = scale * 128;
        }
        j += 1;
        let flag = s.get(base);
        assert(flag == chunk_flag(s@, (j - 1) as int));
        if stop && !flag {
            proof {
                assert(stop_chunks(s@, (j - 1) as nat) == j);
                lemma_stop_chunks_skip(s@, 0, (j - 1) as nat);
                assert(c == j);
                lemma_pow2_le(out_idx as nat, w as nat);
            }
            return Ok((out, 8 * j));
        }
    }
    proof {
        if stop {
            lemma_stop_chunks_skip(s@, 0, j as nat);
        }
        assert(c == j);
        lemma_pow2_le(out_idx as nat, w as nat);
    }
    Ok((out, 8 * j))
}

/// The 8 bits of one chunk: the flag, then the group's 7 bits, most significant first.
pub open spec fn chunk_bits(more: bool, g: u8) -> Seq<bool> {
    seq![more] + Seq::new(7, |i: int| (g >> ((6 - i) as u8)) & 1u8 == 1u8)
}

/// The code of `v`: at least one chunk, and no more than its bits need.
pub open spec fn uvlq_code(v: nat) -> Seq<bool>
    decreases v,
{
    if v < 128 {
        chunk_bits(false, v as u8)
    } else {
        chunk_bits(true, (v % 128) as u8) + uvlq_code(v / 128)
    }
}

/// The number of chunks in the code of `v`.
pub open spec fn code_chunks(v: nat) -> nat
    decreases v,
{
    if v < 128 {
        1
    } else {
        1 + code_chunks(v / 128)
    }
}

/// The code of `v` is made of whole chunks, at most `t` of them when `v` is below `2^(7 t)`.
pub proof fn lemma_code_len(v: nat, t: nat)
    requires
        1 <= t,
        v < pow2(7 * t),
    ensures
        uvlq_code(v).len() == 8 * code_chunks(v),
        code_chunks(v) <= t,
    decreases t,
{
    if v >= 128 {
        lemma2_to64();
        lemma_pow2_adds((7 * (t - 1)) as nat, 7);
        if t == 1 {
            assert(false);
        }
        assert(v / 128 < pow2((7 * (t - 1)) as nat)) by (nonlinear_arith)
            requires
                v < pow2((7 * (t - 1)) as nat) * 128,
        ;
        lemma_code_len(v / 128, (t - 1) as nat);
    }
}

/// Appends one chunk.
pub(crate) fn push_chunk(bits: &mut BitBuffer, more: bool, g: u8)
    requires
        old(bits)@.len() + 8 <= max_bits(),
    ensures
        final(bits)@ == old(bits)@ + chunk_bits(more, g),
{
    bits.push(more);
    let mut i: u8 = 0;
    while i < 7
        invariant
            i <= 7,
            bits@ == old(bits)@ + seq![more] + Seq::new(
                i as nat,
                |k: int| (g >> ((6 - k) as u8)) & 1u8 == 1u8,
            ),
            old(bits)@.len() + 8 <= max_bits(),
        decreases 7 - i,
    {
        bits.push((g >> (6 - i)) & 1 == 1);
        proof {
            assert(bits@ =~= old(bits)@ + seq![more] + Seq::new(
                (i + 1) as nat,
                |k: int| (g >> ((6 - k) as u8)) & 1u8 == 1u8,
            ));
        }
        i += 1;
    }
    assert(bits@ =~= old(bits)@ + chunk_bits(more, g));
}

/// The code of `value`.
pub(crate) fn encode(value: u128) -> (r: BitBuffer)
    ensures
        r@ == uvlq_code(value as nat),
{
    let ghost v0 = value as nat;
    proof {
        lemma2_to64();
        lemma_pow2_adds(64, 64);
        lemma_pow2_strictly_increases(128, 133);
        lemma_code_len(v0, 19);
    }
    let mut bits = BitBuffer::new();
    let mut value = value;
    while value > 0
        invariant
            v0 > 0 ==> bits@ + (if value > 0 {
                uvlq_code(value as nat)
            } else {
                Seq::<bool>::empty()
            }) == uvlq_code(v0),
            v0 == 0 ==> value == 0 && bits@.len() == 0,
            uvlq_code(v0).len() <= 152,
        decreases value,
    {
        let g = (value & 0x7f) as u8;
        let ghost old_value = value;
        value = value >> 7;
        proof {
            assert(((old_value & 0x7f) as u8) as nat == old_value % 128 && old_value >> 7
                == old_value / 128) by (bit_vector);
            assert(old_value < 128 <==> value == 0);
            let rest = if value > 0 {
                uvlq_code(value as nat)
            } else {
                Seq::<bool>::empty()
            };
            assert(uvlq_code(old_value as nat) =~= chunk_bits(value > 0, g) + rest);
            assert(bits@ + uvlq_code(old_value as nat) =~= bits@ + chunk_bits(value > 0, g) + rest);
        }
        push_chunk(&mut bits, value > 0, g);
    }
    if bits.len() == 0 {
        push_chunk(&mut bits, false, 0);
        proof {
            assert(bits@ =~= uvlq_code(0));
        }
    } else {
        proof {
            assert(bits@ + Seq::<bool>::empty() =~= bits@);
        }
    }
    bits
}

/// An unsigned variable-length quantity.
pub struct Uvlq {
    pub bits: BitBuffer,
}

/// A view of bits that start with an unsigned variable-length quantity.
pub struct UvlqRef<'a>(pub BitBufferSlice<'a>);

impl Uvlq {
    /// The quantity of a `u8`: the fewest chunks that hold its bits, at least one.
    pub fn from_u8(value: u8) -> (r: Self)
        ensures
            r.bits@ == uvlq_code(value as nat),
    {
        Uvlq { bits: encode(value as u128) }
    }

    /// The quantity of a `u16`: the fewest chunks that hold its bits, at least one.
    pub fn from_u16(value: u16) -> (r: Self)
        ensures
            r.bits@ == uvlq_code(value as nat),
    {
        Uvlq { bits: encode(value as u128) }
    }

    /// The quantity of a `u32`: the fewest chunks that hold its bits, at least one.
    pub fn from_u32(value: u32) -> (r: Self)
        ensures
            r.bits@ == uvlq_code(value as nat),
    {
        Uvlq { bits: encode(value as u128) }
    }

    /// The quantity of a `u64`: the fewest chunks that hold its bits, at least one.
    pub fn from_u64(value: u64) -> (r: Self)
        ensures
            r.bits@ == uvlq_code(value as nat),
    {
        Uvlq { bits: encode(value as u128) }
    }

    /// The quantity of a `u128`: the fewest chunks that hold its bits, at least one.
    pub fn from_u128(value: u128) -> (r: Self)
        ensures
            r.bits@ == uvlq_code(value as nat),
    {
        Uvlq { bits: encode(value) }
    }

    /// The value of all whole chunks as a `u8`; an error when it needs more bits.
    pub fn try_into_u8(self) -> (r: Result<u8, ()>)
        requires
            !read_overruns(self.bits@, self.bits@.len() / 8, 8),
        ensures
            match read_result(self.bits@, self.bits@.len() / 8, 8) {
                None => r is Err,
                Some(v) => r == Ok::<u8, ()>(v as u8),
            },
    {
        match read_chunks(&self.bits.as_bitslice(), 8, false) {
            Ok((v, _)) => {
                proof {
                    lemma2_to64();
                }
                Ok(v as u8)
            },
            Err(()) => Err(()),
        }
    }

    /// The value of all whole chunks as a `u16`; an error when it needs more bits.
    pub fn try_into_u16(self) -> (r: Result<u16, ()>)
        requires
            !read_overruns(self.bits@, self.bits@.len() / 8, 16),
        ensures
            match read_result(self.bits@, self.bits@.len() / 8, 16) {
                None => r is Err,
                Some(v) => r == Ok::<u16, ()>(v as u16),
            },
    {
        match read_chunks(&self.bits.as_bitslice(), 16, false) {
            Ok((v, _)) => {
                proof {
                    lemma2_to64();
                }
                Ok(v as u16)
            },
            Err(()) => Err(()),
        }
    }

    /// The value of all whole chunks as a `u32`; an error when it needs more bits.
    pub fn try_into_u32(self) -> (r: Result<u32, ()>)
        requires
            !read_overruns(self.bits@, self.bits@.len() / 8, 32),
        ensures
            match read_result(self.bits@, self.bits@.len() / 8, 32) {
                None => r is Err,
                Some(v) => r == Ok::<u32, ()>(v as u32),
            },
    {
        match read_chunks(&self.bits.as_bitslice(), 32, false) {
            Ok((v, _)) => {
                proof {
                    lemma2_to64();
                }
                Ok(v as u32)
            },
            Err(()) => Err(()),
        }
    }

    /// The value of all whole chunks as a `u64`; an error when it needs more bits.
    pub fn try_into_u64(self) -> (r: Result<u64, ()>)
        requires
            !read_overruns(self.bits@, self.bits@.len() / 8, 64),
        ensures
            match read_result(self.bits@, self.bits@.len() / 8, 64) {
                None => r is Err,
                Some(v) => r == Ok::<u64, ()>(v as u64),
            },
    {
        match read_chunks(&self.bits.as_bitslice(), 64, false) {
            Ok((v, _)) => {
                proof {
                    lemma2_to64();
                }
                Ok(v as u64)
            },
            Err(()) => Err(()),
        }
    }

    /// The value of all whole chunks as a `u128`; an error when it needs more bits.
    pub fn try_into_u128(self) -> (r: Result<u128, ()>)
        requires
            !read_overruns(self.bits@, self.bits@.len() / 8, 128),
        ensures
            match read_result(self.bits@, self.bits@.len() / 8, 128) {
                None => r is Err,
                Some(v) => r == Ok::<u128, ()>(v as u128),
            },
    {
        match read_chunks(&self.bits.as_bitslice(), 128, false) {
            Ok((v, _)) => Ok(v),
            Err(()) => Err(()),
        }
    }
}

impl<'a> UvlqRef<'a> {
    /// Reads a quantity from the front of the bits as a `u8`: the value and
    /// the number of bits it took, up to the first chunk with a clear flag.
    pub fn try_read_u8(&self) -> (r: Result<(u8, usize), &'static str>)
        requires
            !read_overruns(self.0@, stop_chunks(self.0@, 0), 8),
        ensures
            match read_result(self.0@, stop_chunks(self.0@, 0), 8) {
                None => r == Err::<(u8, usize), &'static str>("Unsigned VLQ bit overflow"),
                Some(v) => r == Ok::<(u8, usize), &'static str>(
                    (v as u8, (8 * stop_chunks(self.0@, 0)) as usize),
                ),
            },
    {
        match read_chunks(&self.0, 8, true) {
            Ok((v, n)) => {
                proof {
                    lemma2_to64();
                }
                Ok((v as u8, n))
            },
            Err(()) => Err("Unsigned VLQ bit overflow"),
        }
    }

    /// Reads a quantity from the front of the bits as a `u16`: the value and
    /// the number of bits it took, up to the first chunk with a clear flag.
    pub fn try_read_u16(&self) -> (r: Result<(u16, usize), &'static str>)
        requires
            !read_overruns(self.0@, stop_chunks(self.0@, 0), 16),
        ensures
            match read_result(self.0@, stop_chunks(self.0@, 0), 16) {
                None => r == Err::<(u16, usize), &'static str>("Unsigned VLQ bit overflow"),
                Some(v) => r == Ok::<(u16, usize), &'static str>(
                    (v as u16, (8 * stop_chunks(self.0@, 0)) as usize),
                ),
            },
    {
        match read_chunks(&self.0, 16, true) {
            Ok((v, n)) => {
                proof {
                    lemma2_to64();
                }
                Ok((v as u16, n))
            },
            Err(()) => Err("Unsigned VLQ bit overflow"),
        }
    }

    /// Reads a quantity from the front of the bits as a `u32`: the value and
    /// the number of bits it took, up to the first chunk with a clear flag.
    pub fn try_read_u32(&self) -> (r: Result<(u32, usize), &'static str>)
        requires
            !read_overruns(self.0@, stop_chunks(self.0@, 0), 32),
        ensures
            match read_result(self.0@, stop_chunks(self.0@, 0), 32) {
                None => r == Err::<(u32, usize), &'static str>("Unsigned VLQ bit overflow"),
                Some(v) => r == Ok::<(u32, usize), &'static str>(
                    (v as u32, (8 * stop_chunks(self.0@, 0)) as usize),
                ),
            },
    {
        match read_chunks(&self.0, 32, true) {
            Ok((v, n)) => {
                proof {
                    lemma2_to64();
                }
                Ok((v as u32, n))
            },
            Err(()) => Err("Unsigned VLQ bit overflow"),
        }
    }

    /// Reads a quantity from the front of the bits as a `u64`: the value and
    /// the number of bits it took, up to the first chunk with a clear flag.
    pub fn try_read_u64(&self) -> (r: Result<(u64, usize), &'static str>)
        requires
            !read_overruns(self.0@, stop_chunks(self.0@, 0), 64),
        ensures
            match read_result(self.0@, stop_chunks(self.0@, 0), 64) {
                None => r == Err::<(u64, usize), &'static str>("Unsigned VLQ bit overflow"),
                Some(v) => r == Ok::<(u64, usize), &'static str>(
                    (v as u64, (8 * stop_chunks(self.0@, 0)) as usize),
                ),
            },
    {
        match read_chunks(&self.0, 64, true) {
            Ok((v, n)) => {
                proof {
                    lemma2_to64();
                }
                Ok((v as u64, n))
            },
            Err(()) => Err("Unsigned VLQ bit overflow"),
        }
    }

    /// Reads a quantity from the front of the bits as a `u128`: the value and
    /// the number of bits it took, up to the first chunk with a clear flag.
    pub fn try_read_u128(&self) -> (r: Result<(u128, usize), &'static str>)
        requires
            !read_overruns(self.0@, stop_chunks(self.0@, 0), 128),
        ensures
            match read_result(self.0@, stop_chunks(self.0@, 0), 128) {
                None => r == Err::<(u128, usize), &'static str>("Unsigned VLQ bit overflow"),
                Some(v) => r == Ok::<(u128, usize), &'static str>(
                    (v as u128, (8 * stop_chunks(self.0@, 0)) as usize),
                ),
            },
    {
        match read_chunks(&self.0, 128, true) {
            Ok((v, n)) => Ok((v, n)),
            Err(()) => Err("Unsigned VLQ bit overflow"),
        }
    }
}

proof fn lemma_group_bits_prefix(g: u8, i: int)
    requires
        g < 128,
        0 <= i <= 7,
    ensures
        msb_value(Seq::new(7, |k: int| (g >> ((6 - k) as u8)) & 1u8 == 1u8).take(i)) == (g >> ((7
            - i) as u8)) as nat,
    decreases i,
{
    let bs = Seq::new(7, |k: int| (g >> ((6 - k) as u8)) & 1u8 == 1u8);
    if i == 0 {
        assert(bs.take(0) =~= Seq::<bool>::empty());
        assert(g < 128 ==> g >> 7u8 == 0) by (bit_vector);
    } else {
        lemma_group_bits_prefix(g, i - 1);
        assert(bs.take(i).drop_last() =~= bs.take(i - 1));
        let k = (7 - i) as u8;
        assert(k < 7);
        assert(k < 7 ==> (g >> (k + 1) as u8) * 2 + ((g >> k) & 1u8) == g >> k && ((g >> k) & 1u8
            == 0 || (g >> k) & 1u8 == 1)) by (bit_vector);
    }
}

/// The group bits of a chunk are read back as the group.
pub(crate) proof fn lemma_chunk_group_bits(more: bool, g: u8)
    requires
        g < 128,
    ensures
        chunk_bits(more, g).len() == 8,
        chunk_group(chunk_bits(more, g), 0) == g,
        chunk_flag(chunk_bits(more, g), 0) == more,
{
    let bs = Seq::new(7, |k: int| (g >> ((6 - k) as u8)) & 1u8 == 1u8);
    lemma_group_bits_prefix(g, 7);
    assert(bs.take(7) =~= bs);
    assert(chunk_bits(more, g).subrange(1, 8) =~= bs);
    assert(g >> 0u8 == g) by (bit_vector);
}

/// Chunks after a first chunk `c` count 128 times as much.
proof fn lemma_chunks_value_shift(c: Seq<bool>, y: Seq<bool>, m: nat)
    requires
        c.len() == 8,
        y.len() >= 8 * m,
    ensures
        chunks_value(c + y, m + 1) == chunk_group(c, 0) + 128 * chunks_value(y, m),
    decreases m,
{
    let x = c + y;
    lemma2_to64();
    if m == 0 {
        assert(x.subrange(1, 8) =~= c.subrange(1, 8));
        assert(chunks_value(x, 0) == 0);
        assert(chunks_value(y, 0) == 0);
        assert(chunks_value(x, 1) == chunks_value(x, 0) + chunk_group(x, 0) * pow2(0));
        assert(chunk_group(x, 0) * pow2(0) == chunk_group(x, 0));
    } else {
        lemma_chunks_value_shift(c, y, (m - 1) as nat);
        let mi = m as int;
        assert(x.subrange(8 * mi + 1, 8 * mi + 8) =~= y.subrange(8 * (mi - 1) + 1, 8 * (mi - 1) + 8));
        lemma_pow2_adds((7 * (m - 1)) as nat, 7);
        let a = chunks_value(y, (m - 1) as nat);
        let b = chunk_group(y, m - 1);
        let p = pow2((7 * (m - 1)) as nat);
        assert(128 * a + b * (p * 128) == 128 * (a + b * p)) by (nonlinear_arith);
        assert(chunk_group(x, mi) == b);
        assert(pow2((7 * m) as nat) == p * 128);
        assert(chunks_value(x, m + 1) == chunks_value(x, m) + chunk_group(x, mi) * pow2(
            (7 * m) as nat,
        ));
        assert(chunks_value(y, m) == a + b * p);
    }
}

/// A code followed by anything: a reader that stops at a clear flag takes
/// exactly the code's chunks, and their value is the coded value.
proof fn lemma_code_read(v: nat, rest: Seq<bool>)
    ensures
        uvlq_code(v).len() == 8 * code_chunks(v),
        stop_chunks(uvlq_code(v) + rest, 0) == code_chunks(v),
        chunks_value(uvlq_code(v) + rest, code_chunks(v)) == v,
    decreases v,
{
    let x = uvlq_code(v) + rest;
    if v < 128 {
        lemma_chunk_group_bits(false, v as u8);
        assert(x.subrange(1, 8) =~= uvlq_code(v).subrange(1, 8));
        assert(chunk_flag(x, 0) == chunk_flag(uvlq_code(v), 0));
        lemma2_to64();
        assert(chunks_value(x, 0) == 0);
        assert(chunk_group(x, 0) == chunk_group(uvlq_code(v), 0));
        assert(chunks_value(x, 1) == chunks_value(x, 0) + chunk_group(x, 0) * pow2(0));
        assert(chunk_group(x, 0) * pow2(0) == chunk_group(x, 0));
    } else {
        let c = chunk_bits(true, (v % 128) as u8);
        let y = uvlq_code(v / 128) + rest;
        lemma_code_read(v / 128, rest);
        lemma_chunk_group_bits(true, (v % 128) as u8);
        assert(x =~= c + y);
        lemma_chunks_value_shift(c, y, code_chunks(v / 128));
        assert(((v % 128) as u8) as nat == v % 128);
        assert(chunks_value(x, code_chunks(v)) == v % 128 + 128 * (v / 128));
        assert(chunk_flag(x, 0) == chunk_flag(c, 0));
        assert forall|t: nat| t <= y.len() / 8 implies stop_chunks(x, t + 1) == stop_chunks(y, t) + 1
            by {
            lemma_stop_chunks_shift(c, y, t);
        }
    }
}

/// Chunks after a first chunk `c`: a reader from chunk `t + 1` stops one chunk later than on the rest alone.
proof fn lemma_stop_chunks_shift(c: Seq<bool>, y: Seq<bool>, t: nat)
    requires
        c.len() == 8,
        t <= y.len() / 8,
    ensures
        stop_chunks(c + y, t + 1) == stop_chunks(y, t) + 1,
    decreases y.len() / 8 - t,
{
    let x = c + y;
    assert(x.len() / 8 == y.len() / 8 + 1);
    if t < y.len() / 8 {
        assert(chunk_flag(x, t + 1 as int) == chunk_flag(y, t as int));
        lemma_stop_chunks_shift(c, y, t + 1);
    }
}

/// A value of at most `w` bits is read back from its code, whole or at the
/// front of a stream, by a reader of `w`-bit values.
pub proof fn lemma_uvlq_roundtrip(v: nat, w: nat, rest: Seq<bool>)
    requires
        w == 8 || w == 16 || w == 32 || w == 64 || w == 128,
        v < pow2(w),
    ensures
        !read_overruns(uvlq_code(v), uvlq_code(v).len() / 8, w),
        read_result(uvlq_code(v), uvlq_code(v).len() / 8, w) == Some(v),
        stop_chunks(uvlq_code(v) + rest, 0) == code_chunks(v),
        !read_overruns(uvlq_code(v) + rest, code_chunks(v), w),
        read_result(uvlq_code(v) + rest, code_chunks(v), w) == Some(v),
{
    lemma_code_read(v, rest);
    lemma_code_read(v, Seq::<bool>::empty());
    assert(uvlq_code(v) + Seq::<bool>::empty() =~= uvlq_code(v));
    let j0 = high_chunk(w);
    lemma_pow2_le(w, 7 * j0);
    lemma_code_len(v, j0);
}

/// A value above `w` bits, whose code has no chunk past the first chunk
/// above `w`, is refused by a reader of `w`-bit values.
pub proof fn lemma_uvlq_too_wide(v: nat, w: nat)
    requires
        w == 8 || w == 16 || w == 32 || w == 64 || w == 128,
        pow2(w) <= v,
        code_chunks(v) <= high_chunk(w) + 1,
    ensures
        !read_overruns(uvlq_code(v), uvlq_code(v).len() / 8, w),
        read_result(uvlq_code(v), uvlq_code(v).len() / 8, w) is None,
{
    lemma_code_read(v, Seq::<bool>::empty());
    assert(uvlq_code(v) + Seq::<bool>::empty() =~= uvlq_code(v));
}

} // verus!
