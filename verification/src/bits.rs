//! Growable bit buffers backed by `bitvec`, and read-only views into them.

use vstd::prelude::*;
use bitvec::vec::BitVec;

verus! {

/// A growable sequence of bits, stored in a `bitvec` bit-vector.
#[verifier::external_body]
pub struct BitBuffer {
    bits: BitVec,
}

/// The bits that a buffer holds, first bit first.
pub uninterp spec fn buffer_bits(b: BitBuffer) -> Seq<bool>;

/// Largest number of bits a bit-vector can hold (`BitSlice::MAX_BITS`, `usize::MAX >> 3`).
pub open spec fn max_bits() -> nat {
    (usize::MAX as nat) / 8
}

/// `BitVec::new`: an empty bit-vector.
#[verifier::external_body]
fn bitvec_new() -> (r: BitBuffer)
    ensures
        buffer_bits(r) == Seq::<bool>::empty(),
{
    BitBuffer { bits: BitVec::new() }
}

/// `BitVec::push`: appends one bit at the end; the crate panics past `MAX_BITS` bits.
#[verifier::external_body]
fn bitvec_push(v: &mut BitBuffer, bit: bool)
    requires
        buffer_bits(*old(v)).len() < max_bits(),
    ensures
        buffer_bits(*final(v)) == buffer_bits(*old(v)).push(bit),
{
    v.bits.push(bit)
}

/// `BitVec::len`: the number of bits held, never more than `MAX_BITS`.
#[verifier::external_body]
fn bitvec_len(v: &BitBuffer) -> (r: usize)
    ensures
        r == buffer_bits(*v).len(),
        r <= max_bits(),
{
    v.bits.len()
}

/// `Index<usize>` on a bit-slice: the bit at position `i`.
#[verifier::external_body]
fn bitvec_get(v: &BitBuffer, i: usize) -> (r: bool)
    requires
        i < buffer_bits(*v).len(),
    ensures
        r == buffer_bits(*v)[i as int],
{
    v.bits[i]
}

impl View for BitBuffer {
    type V = Seq<bool>;

    open spec fn view(&self) -> Seq<bool> {
        buffer_bits(*self)
    }
}

impl BitBuffer {
    /// An empty buffer.
    pub fn new() -> (r: Self)
        ensures
            r@ == Seq::<bool>::empty(),
    {
        bitvec_new()
    }

    /// Appends one bit.
    pub fn push(&mut self, bit: bool)
        requires
            old(self)@.len() < max_bits(),
        ensures
            final(self)@ == old(self)@.push(bit),
    {
        bitvec_push(self, bit)
    }

    /// Number of bits held.
    pub fn len(&self) -> (r: usize)
        ensures
            r == self@.len(),
            r <= max_bits(),
    {
        bitvec_len(self)
    }

    /// The bit at position `i`.
    pub fn get(&self, i: usize) -> (r: bool)
        requires
            i < self@.len(),
        ensures
            r == self@[i as int],
    {
        bitvec_get(self, i)
    }

    /// Appends the bits of `other`, in order.
    pub fn extend_from(&mut self, other: &BitBuffer)
        requires
            old(self)@.len() + other@.len() <= max_bits(),
        ensures
            final(self)@ == old(self)@ + other@,
    {
        let n = other.len();
        let mut i: usize = 0;
        while i < n
            invariant
                n == other@.len(),
                i <= n,
                self@ == old(self)@ + other@.take(i as int),
                old(self)@.len() + n <= max_bits(),
            decreases n - i,
        {
            self.push(other.get(i));
            proof {
                assert(old(self)@ + other@.take(i + 1) =~= (old(self)@ + other@.take(i as int)).push(
                    other@[i as int],
                ));
            }
            i += 1;
        }
        assert(other@.take(n as int) =~= other@);
    }
}


impl BitBuffer {
    /// A read-only view of all the bits.
    pub fn as_bitslice(&self) -> (r: BitBufferSlice<'_>)
        ensures
            r@ == self@,
    {
        proof {
            assert(self@.skip(0) =~= self@);
        }
        BitBufferSlice { buf: self, start: 0 }
    }
}

/// A read-only view of the bits of a buffer from some position to its end.
#[derive(Clone, Copy)]
pub struct BitBufferSlice<'a> {
    buf: &'a BitBuffer,
    start: usize,
}

impl<'a> BitBufferSlice<'a> {
    #[verifier::type_invariant]
    spec fn start_in_bounds(self) -> bool {
        self.start <= self.buf@.len()
    }
}

impl<'a> View for BitBufferSlice<'a> {
    type V = Seq<bool>;

    closed spec fn view(&self) -> Seq<bool> {
        self.buf@.skip(self.start as int)
    }
}

impl<'a> BitBufferSlice<'a> {
    /// Number of bits in view.
    pub fn len(&self) -> (r: usize)
        ensures
            r == self@.len(),
            r <= max_bits(),
    {
        proof {
            use_type_invariant(self);
        }
        self.buf.len() - self.start
    }

    /// True when no bit is in view.
    pub fn is_empty(&self) -> (r: bool)
        ensures
            r == (self@.len() == 0),
    {
        self.len() == 0
    }

    /// The bit at position `i` of the view.
    pub fn get(&self, i: usize) -> (r: bool)
        requires
            i < self@.len(),
        ensures
            r == self@[i as int],
    {
        proof {
            use_type_invariant(self);
        }
        let _ = self.buf.len();
        self.buf.get(self.start + i)
    }

    /// The view without its first `n` bits.
    pub fn skip(&self, n: usize) -> (r: BitBufferSlice<'a>)
        requires
            n <= self@.len(),
        ensures
            r@ == self@.skip(n as int),
    {
        proof {
            use_type_invariant(self);
            assert(self.buf@.skip(self.start + n) =~= self@.skip(n as int));
        }
        let _ = self.buf.len();
        BitBufferSlice { buf: self.buf, start: self.start + n }
    }
}

/// Bit `i` of `x`; bit 0 is the least significant.
pub open spec fn bit_of(x: u64, i: nat) -> bool {
    (x >> (i as u64)) & 1u64 == 1u64
}

/// The `n` lowest bits of `x`, least significant first.
pub open spec fn low_bits(x: u64, n: nat) -> Seq<bool> {
    Seq::new(n, |i: int| bit_of(x, i as nat))
}

/// The mask of the `n` lowest bits.
pub open spec fn low_mask(n: nat) -> u64 {
    if n >= 64 {
        u64::MAX
    } else {
        !(u64::MAX << (n as u64))
    }
}

/// The number whose bits, least significant first, are `s` (at most 64 of them).
pub open spec fn bits_value(s: Seq<bool>) -> u64
    decreases s.len(),
{
    if s.len() == 0 {
        0
    } else if s.last() {
        bits_value(s.drop_last()) | (1u64 << ((s.len() - 1) as u64))
    } else {
        bits_value(s.drop_last())
    }
}

proof fn lemma_mask_step(x: u64, k: u64)
    requires
        k < 63,
    ensures
        (x >> k) & 1u64 == 1u64 ==> ((x & !(u64::MAX << k)) | (1u64 << k)) == x & !(u64::MAX << (
        (k + 1) as u64)),
        (x >> k) & 1u64 != 1u64 ==> (x & !(u64::MAX << k)) == x & !(u64::MAX << ((k + 1) as u64)),
{
    assert(((x >> k) & 1u64 == 1u64 ==> ((x & !(u64::MAX << k)) | (1u64 << k)) == x & !(u64::MAX
        << ((k + 1) as u64))) && ((x >> k) & 1u64 != 1u64 ==> (x & !(u64::MAX << k)) == x & !(
        u64::MAX << ((k + 1) as u64)))) by (bit_vector)
        requires
            k < 63,
    ;
}

proof fn lemma_mask_top(x: u64)
    ensures
        (x >> 63u64) & 1u64 == 1u64 ==> ((x & !(u64::MAX << 63u64)) | (1u64 << 63u64)) == x,
        (x >> 63u64) & 1u64 != 1u64 ==> (x & !(u64::MAX << 63u64)) == x,
        x & u64::MAX == x,
{
    assert(((x >> 63u64) & 1u64 == 1u64 ==> ((x & !(u64::MAX << 63u64)) | (1u64 << 63u64)) == x)
        && ((x >> 63u64) & 1u64 != 1u64 ==> (x & !(u64::MAX << 63u64)) == x) && x & u64::MAX == x)
        by (bit_vector);
}

/// Reading back the `n` lowest bits of `x` gives `x` masked to `n` bits.
pub proof fn lemma_bits_value_low_bits(x: u64, n: nat)
    requires
        n <= 64,
    ensures
        bits_value(low_bits(x, n)) == x & low_mask(n),
    decreases n,
{
    if n == 0 {
        assert(x & !(u64::MAX << 0u64) == 0) by (bit_vector);
    } else {
        let k = (n - 1) as nat;
        lemma_bits_value_low_bits(x, k);
        assert(low_bits(x, n).drop_last() =~= low_bits(x, k));
        let ku = k as u64;
        if k < 63 {
            lemma_mask_step(x, ku);
        } else {
            lemma_mask_top(x);
        }
    }
}

/// Bits read back from a prefix agree with the prefix's own value.
pub proof fn lemma_bits_value_take_low_bits(x: u64, n: nat, m: nat)
    requires
        m <= n,
        m <= 64,
    ensures
        bits_value(low_bits(x, n).take(m as int)) == x & low_mask(m),
{
    assert(low_bits(x, n).take(m as int) =~= low_bits(x, m));
    lemma_bits_value_low_bits(x, m);
}

/// Appends the `n` lowest bits of `x`, least significant first.
pub fn push_low_bits(out: &mut BitBuffer, x: u64, n: u64)
    requires
        n <= 64,
        old(out)@.len() + n <= max_bits(),
    ensures
        final(out)@ == old(out)@ + low_bits(x, n as nat),
{
    let mut j: u64 = 0;
    while j < n
        invariant
            j <= n,
            n <= 64,
            out@ == old(out)@ + low_bits(x, j as nat),
            old(out)@.len() + n <= max_bits(),
        decreases n - j,
    {
        let bit = (x >> j) & 1 == 1;
        out.push(bit);
        proof {
            assert(low_bits(x, (j + 1) as nat) =~= low_bits(x, j as nat).push(bit));
        }
        j += 1;
    }
}

/// Reads `n` bits starting at position `start`, least significant first.
pub fn read_low_bits(bits: &BitBufferSlice, start: usize, n: usize) -> (r: u64)
    requires
        n <= 64,
        start + n <= bits@.len(),
    ensures
        r == bits_value(bits@.subrange(start as int, start + n)),
{
    let _ = bits.len();
    let mut acc: u64 = 0;
    let mut j: usize = 0;
    while j < n
        invariant
            j <= n,
            n <= 64,
            start + n <= bits@.len(),
            bits@.len() <= max_bits(),
            acc == bits_value(bits@.subrange(start as int, start + j)),
        decreases n - j,
    {
        let bit = bits.get(start + j);
        proof {
            let s = bits@.subrange(start as int, start + j + 1);
            assert(s.drop_last() =~= bits@.subrange(start as int, start + j));
        }
        if bit {
            acc = acc | (1u64 << (j as u64));
        }
        j += 1;
    }
    acc
}


/// The two's-complement reading of an `n`-bit field `raw` (`1 <= n <= 64`).
pub open spec fn signed_field(raw: u64, n: nat) -> int {
    if n >= 64 {
        (raw as i64) as int
    } else if bit_of(raw, (n - 1) as nat) {
        ((raw | (u64::MAX << (n as u64))) as i64) as int
    } else {
        (raw as i64) as int
    }
}

/// Sign-extends the `n`-bit field `raw`.
pub fn sign_extend(raw: u64, n: u64) -> (r: i64)
    requires
        1 <= n <= 64,
    ensures
        r == signed_field(raw, n as nat),
{
    if n >= 64 {
        raw as i64
    } else if (raw >> (n - 1)) & 1 == 1 {
        (raw | (u64::MAX << n)) as i64
    } else {
        raw as i64
    }
}

/// Powers of two that the codecs use as range bounds.
pub proof fn lemma_shift_literals()
    ensures
        1i64 << 3u64 == 8,
        1i64 << 6u64 == 64,
        1i64 << 8u64 == 256,
        1i64 << 11u64 == 2048,
        1i64 << 14u64 == 16384,
        1i64 << 17u64 == 131072,
        1i64 << 31u64 == 2147483648,
        1i64 << 7u64 == 128,
        1i64 << 15u64 == 32768,
        !(u64::MAX << 3u64) == 7,
        !(u64::MAX << 4u64) == 15,
        !(u64::MAX << 8u64) == 255,
        !(u64::MAX << 10u64) == 1023,
        !(u64::MAX << 16u64) == 65535,
        !(u64::MAX << 1u64) == 1,
        !(u64::MAX << 5u64) == 31,
        !(u64::MAX << 9u64) == 511,
        !(u64::MAX << 32u64) == 4294967295,
{
    assert(1i64 << 3u64 == 8 && 1i64 << 6u64 == 64 && 1i64 << 8u64 == 256 && 1i64 << 11u64 == 2048
        && 1i64 << 14u64 == 16384 && 1i64 << 17u64 == 131072 && 1i64 << 31u64 == 2147483648
        && 1i64 << 7u64 == 128 && 1i64 << 15u64 == 32768 && !(u64::MAX << 3u64) == 7 && !(
    u64::MAX << 4u64) == 15 && !(u64::MAX << 8u64) == 255 && !(u64::MAX << 10u64) == 1023 && !(
    u64::MAX << 16u64) == 65535 && !(u64::MAX << 1u64) == 1 && !(u64::MAX << 5u64) == 31 && !(
    u64::MAX << 9u64) == 511 && !(u64::MAX << 32u64) == 4294967295) by (bit_vector);
}

/// Writing a value that fits `n` signed bits and reading the field back gives the value.
pub proof fn lemma_signed_field_roundtrip(w: i64, n: nat)
    requires
        1 <= n <= 64,
        n < 64 ==> -(1i64 << ((n - 1) as u64)) <= w < (1i64 << ((n - 1) as u64)),
    ensures
        signed_field((w as u64) & low_mask(n), n) == w,
{
    let k = n as u64;
    if n >= 64 {
        assert((w as u64) & u64::MAX == w as u64 && ((w as u64) as i64) == w) by (bit_vector);
    } else {
        assert({
            &&& ((w as u64) & !(u64::MAX << k)) >> ((k - 1) as u64) & 1u64 == 1u64 ==> ((((w as u64)
                & !(u64::MAX << k)) | (u64::MAX << k)) as i64) == w
            &&& ((w as u64) & !(u64::MAX << k)) >> ((k - 1) as u64) & 1u64 != 1u64 ==> (((w as u64)
                & !(u64::MAX << k)) as i64) == w
        }) by (bit_vector)
            requires
                1 <= k < 64,
                -(1i64 << ((k - 1) as u64)) <= w < (1i64 << ((k - 1) as u64)),
        ;
    }
}

/// An `n`-bit field read as two's complement lies in `[-2^(n-1), 2^(n-1))`.
pub proof fn lemma_signed_field_bounds(raw: u64, n: nat)
    requires
        1 <= n < 64,
        raw & (u64::MAX << (n as u64)) == 0,
    ensures
        -(1i64 << ((n - 1) as u64)) <= signed_field(raw, n) < (1i64 << ((n - 1) as u64)),
{
    let k = n as u64;
    assert({
        &&& raw >> ((k - 1) as u64) & 1u64 == 1u64 ==> -(1i64 << ((k - 1) as u64)) <= ((raw | (
        u64::MAX << k)) as i64) < 0
        &&& raw >> ((k - 1) as u64) & 1u64 != 1u64 ==> 0 <= (raw as i64) < (1i64 << ((k
            - 1) as u64))
    }) by (bit_vector)
        requires
            1 <= k < 64,
            raw & (u64::MAX << k) == 0,
    ;
}

/// A field with no bit at or above position `n` is at most the `n`-bit mask,
/// and masking it to `n` bits leaves it unchanged.
pub proof fn lemma_field_within_mask(x: u64, n: nat)
    requires
        n < 64,
    ensures
        x & (u64::MAX << (n as u64)) == 0 <==> x <= low_mask(n),
        x <= low_mask(n) ==> x & low_mask(n) == x,
{
    let k = n as u64;
    assert((x & (u64::MAX << k) == 0 <==> x <= !(u64::MAX << k)) && (x <= !(u64::MAX << k) ==> x
        & !(u64::MAX << k) == x)) by (bit_vector)
        requires
            k < 64,
    ;
}

/// The value of `s` has no bit at or above position `s.len()`.
pub proof fn lemma_bits_value_fits(s: Seq<bool>)
    requires
        s.len() <= 64,
    ensures
        s.len() < 64 ==> bits_value(s) & (u64::MAX << (s.len() as u64)) == 0,
    decreases s.len(),
{
    if s.len() > 0 {
        lemma_bits_value_fits(s.drop_last());
        let r = bits_value(s.drop_last());
        let k = (s.len() - 1) as u64;
        assert(k < 63 ==> r & (u64::MAX << k) == 0 ==> (r | (1u64 << k)) & (u64::MAX << ((k + 1) as u64))
            == 0 && r & (u64::MAX << ((k + 1) as u64)) == 0) by (bit_vector);
    } else {
        assert(0u64 & (u64::MAX << 0u64) == 0) by (bit_vector);
    }
}

/// `rest` is what follows the first `n` bits of `s`: `None` when nothing does.
pub open spec fn remainder_is(s: Seq<bool>, n: nat, rest: Option<BitBufferSlice>) -> bool {
    if s.len() > n {
        rest matches Some(t) && t@ == s.skip(n as int)
    } else {
        rest is None
    }
}

/// The view after the first `n` bits, or `None` when no bit follows them.
pub fn remainder<'a>(bits: BitBufferSlice<'a>, n: usize) -> (r: Option<BitBufferSlice<'a>>)
    ensures
        remainder_is(bits@, n as nat, r),
{
    if bits.len() > n {
        Some(bits.skip(n))
    } else {
        None
    }
}

} // verus!
