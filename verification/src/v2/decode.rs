//! Reading columns back from packed nibbles.

use vstd::prelude::*;
use crate::delta_zigzag::unzigzag;
use crate::v2::CodingError;
use crate::v2::consts::headers;

verus! {

/// The nibbles of bytes, high nibble first.
pub open spec fn byte_nibbles(b: Seq<u8>) -> Seq<u8> {
    Seq::new(
        2 * b.len(),
        |i: int|
            if i % 2 == 0 {
                b[i / 2] >> 4u8
            } else {
                b[i / 2] & 0x0f
            },
    )
}

/// An iterator over the nibbles of a slice of bytes, high nibble first.
pub struct HalfIter<'it> {
    buf: &'it [u8],
    upper: bool,
    idx: usize,
}

impl<'it> HalfIter<'it> {
    #[verifier::type_invariant]
    spec fn position_in_bounds(self) -> bool {
        &&& self.idx <= self.buf@.len()
        &&& !self.upper ==> self.idx < self.buf@.len()
    }
}

impl<'it> View for HalfIter<'it> {
    type V = Seq<u8>;

    /// The nibbles not yet taken.
    closed spec fn view(&self) -> Seq<u8> {
        byte_nibbles(self.buf@).skip(
            2 * self.idx + if self.upper {
                0int
            } else {
                1int
            },
        )
    }
}

impl<'it> HalfIter<'it> {
    /// An iterator from the first nibble of `buf`.
    pub fn new(buf: &'it [u8]) -> (r: Self)
        ensures
            r@ == byte_nibbles(buf@),
    {
        let r = Self { buf, upper: true, idx: 0 };
        assert(byte_nibbles(buf@).skip(0) =~= byte_nibbles(buf@));
        r
    }

    /// Takes the next nibble: the high then the low nibble of each byte.
    pub fn next(&mut self) -> (r: Option<u8>)
        ensures
            old(self)@.len() == 0 ==> r is None && final(self)@ == old(self)@,
            old(self)@.len() > 0 ==> r == Some(old(self)@[0]) && final(self)@ == old(
                self,
            )@.drop_first(),
            r matches Some(n) ==> n < 16,
    {
        proof {
            use_type_invariant(&*self);
        }
        if self.idx >= self.buf.len() {
            return None;
        }
        let byte = self.buf[self.idx];
        if self.upper {
            let value = byte >> 4;
            self.upper = false;
            proof {
                assert(byte >> 4u8 < 16) by (bit_vector);
                assert(self@ =~= old(self)@.drop_first());
            }
            Some(value)
        } else {
            let value = byte & 0x0F;
            self.upper = true;
            self.idx += 1;
            proof {
                assert(byte & 0x0fu8 < 16) by (bit_vector);
                assert(self@ =~= old(self)@.drop_first());
            }
            Some(value)
        }
    }
}

/// The value of bytes, most significant first.
pub open spec fn be_word(b: Seq<u8>) -> u128
    decreases b.len(),
{
    if b.len() == 0 {
        0
    } else {
        (be_word(b.drop_last()) << 8u128) | (b.last() as u128)
    }
}

fn read_be(buf: &[u8]) -> (r: u128)
    ensures
        r == be_word(buf@),
{
    let mut word: u128 = 0;
    let mut i: usize = 0;
    while i < buf.len()
        invariant
            i <= buf@.len(),
            word == be_word(buf@.take(i as int)),
        decreases buf.len() - i,
    {
        proof {
            assert(buf@.take(i + 1).drop_last() =~= buf@.take(i as int));
        }
        word = (word << 8) | (buf[i] as u128);
        i += 1;
    }
    proof {
        assert(buf@.take(i as int) =~= buf@);
    }
    word
}

/// Reads a 128-bit integer stored most significant byte first.
pub fn read_full_i128(buf: &[u8; 16]) -> (r: i128)
    ensures
        r == be_word(buf@) as i128,
{
    read_be(buf.as_slice()) as i128
}

/// Reads a 64-bit integer stored most significant byte first.
pub fn read_full_i64(buf: &[u8; 8]) -> (r: i64)
    ensures
        r == (be_word(buf@) as u64) as i64,
{
    (read_be(buf.as_slice()) as u64) as i64
}

/// Reads a 32-bit integer stored most significant byte first.
pub fn read_full_i32(buf: &[u8; 4]) -> (r: i32)
    ensures
        r == (be_word(buf@) as u32) as i32,
{
    (read_be(buf.as_slice()) as u32) as i32
}

/// Reads a 16-bit integer stored most significant byte first.
pub fn read_full_i16(buf: &[u8; 2]) -> (r: i16)
    ensures
        r == (be_word(buf@) as u16) as i16,
{
    (read_be(buf.as_slice()) as u16) as i16
}

/// Reads an 8-bit integer.
pub fn read_full_i8(buf: &[u8; 1]) -> (r: i8)
    ensures
        r == buf@[0] as i8,
{
    buf[0] as i8
}

/// The value of nibbles, most significant first.
pub open spec fn nib_word(s: Seq<u8>) -> u128
    decreases s.len(),
{
    if s.len() == 0 {
        0
    } else {
        (nib_word(s.drop_last()) << 4u128) | (s.last() as u128)
    }
}

/// A word read as a signed integer of `bits` bits (8, 16, 32, 64 or 128), keeping the low bits.
pub open spec fn as_signed(w: u128, bits: nat) -> int {
    if bits == 8 {
        (w as i8) as int
    } else if bits == 16 {
        (w as i16) as int
    } else if bits == 32 {
        (w as i32) as int
    } else if bits == 64 {
        (w as i64) as int
    } else {
        (w as i128) as int
    }
}

/// An integer wrapped into a signed type of `bits` bits (8, 16, 32 or 64).
pub open spec fn wrap_signed(x: int, bits: nat) -> int {
    if bits == 8 {
        (x as i8) as int
    } else if bits == 16 {
        (x as i16) as int
    } else if bits == 32 {
        (x as i32) as int
    } else {
        (x as i64) as int
    }
}

/// The integer lies in the range of a signed type of `bits` bits (16, 32, 64 or 128).
pub open spec fn in_signed(x: int, bits: nat) -> bool {
    if bits == 16 {
        i16::MIN <= x <= i16::MAX
    } else if bits == 32 {
        i32::MIN <= x <= i32::MAX
    } else if bits == 64 {
        i64::MIN <= x <= i64::MAX
    } else {
        i128::MIN <= x <= i128::MAX
    }
}

/// A delta block's shape: samples, bits per sample, shift of the first
/// sample, and nibbles of its word; `None` for a tag that a `k`-bit column
/// does not know.
pub open spec fn tag_block(tag: u8, k: nat) -> Option<(nat, nat, nat, nat)> {
    if tag == headers::THREE_BITS_TEN_SAMPLES {
        Some((10, 3, 27, 8))
    } else if tag == headers::SIX_BITS_FIVE_SAMPLES {
        Some((5, 6, 24, 8))
    } else if tag == headers::EIGHT_BITS_FOUR_SAMPLES {
        Some((4, 8, 24, 8))
    } else if tag == headers::TEN_BITS_THREE_SAMPLES {
        Some((3, 10, 20, 8))
    } else if tag == headers::SIXTEEN_BITS_TWO_SAMPLES {
        Some((2, 16, 16, 8))
    } else if tag == headers::THIRTY_TWO_BITS_ONE_SAMPLE {
        Some((1, 32, 0, 8))
    } else if tag == headers::SIXTY_FOUR_BITS_ONE_SAMPLE && k >= 32 {
        Some((1, 64, 0, 16))
    } else {
        None
    }
}

/// Sample `i` of a block word.
pub open spec fn block_field(word: u128, width: nat, shift: nat, i: nat) -> u128 {
    if width >= 32 {
        word
    } else {
        (word >> ((shift - width * i) as u128)) & !(u128::MAX << (width as u128))
    }
}

/// How the reading of a column ended.
pub enum ColumnEnd {
    /// Reached the end of the nibbles, or a column tag; the nibbles taken.
    Done(nat),
    /// The nibbles ran out inside a value.
    NotEnough,
    /// A tag that the column type does not know.
    Unknown,
}

/// The same end, `n` nibbles further on.
pub open spec fn end_after(e: ColumnEnd, n: nat) -> ColumnEnd {
    match e {
        ColumnEnd::Done(m) => ColumnEnd::Done(m + n),
        other => other,
    }
}

/// The deltas of the blocks at the front of `s` for a `k`-bit column, and how reading ends.
pub open spec fn block_deltas(s: Seq<u8>, k: nat) -> (Seq<int>, ColumnEnd)
    decreases s.len(),
{
    if s.len() == 0 {
        (Seq::empty(), ColumnEnd::Done(0))
    } else if s[0] == headers::START_OF_COLUMN {
        (Seq::empty(), ColumnEnd::Done(1))
    } else {
        match tag_block(s[0], k) {
            None => (Seq::empty(), ColumnEnd::Unknown),
            Some((count, width, shift, nibs)) => if s.len() < 1 + nibs {
                (Seq::empty(), ColumnEnd::NotEnough)
            } else {
                let word = nib_word(s.subrange(1, (1 + nibs) as int));
                let ds = Seq::new(
                    count,
                    |i: int| unzigzag(as_signed(block_field(word, width, shift, i as nat), 2 * k)),
                );
                let (rest, end) = block_deltas(s.skip((1 + nibs) as int), k);
                (ds + rest, end_after(end, 1 + nibs))
            },
        }
    }
}

/// What the front of `s` holds for a `k`-bit column: the first value (if
/// any), the deltas that follow it, and how reading ends. The first value
/// takes `k / 4` nibbles and the second delta `k / 2`.
pub open spec fn column_read(s: Seq<u8>, k: nat) -> (Seq<int>, Seq<int>, ColumnEnd) {
    let f = k / 4;
    if s.len() == 0 {
        (Seq::empty(), Seq::empty(), ColumnEnd::Done(0))
    } else if s[0] == headers::START_OF_COLUMN {
        (Seq::empty(), Seq::empty(), ColumnEnd::Done(1))
    } else if s.len() < f {
        (Seq::empty(), Seq::empty(), ColumnEnd::NotEnough)
    } else {
        let v0 = as_signed(nib_word(s.take(f as int)), k);
        if s.len() == f {
            (seq![v0], Seq::empty(), ColumnEnd::Done(f))
        } else if s[f as int] == headers::START_OF_COLUMN {
            (seq![v0], Seq::empty(), ColumnEnd::Done(f + 1))
        } else if s.len() < 3 * f {
            (seq![v0], Seq::empty(), ColumnEnd::NotEnough)
        } else {
            let d1 = as_signed(nib_word(s.subrange(f as int, (3 * f) as int)), 2 * k);
            let (ds, end) = block_deltas(s.skip((3 * f) as int), k);
            (seq![v0], seq![d1] + ds, end_after(end, 3 * f))
        }
    }
}

/// The values that adding the deltas one by one to `v0` gives, each wrapped to `k` bits.
pub open spec fn scan(v0: int, ds: Seq<int>, k: nat) -> Seq<int>
    decreases ds.len(),
{
    if ds.len() == 0 {
        Seq::empty()
    } else {
        let p = scan(v0, ds.drop_last(), k);
        p.push(wrap_signed(scan_last(v0, p) + ds.last(), k))
    }
}

/// The last value of a scan, or `v0` before any delta.
pub open spec fn scan_last(v0: int, p: Seq<int>) -> int {
    if p.len() == 0 {
        v0
    } else {
        p.last()
    }
}

/// Each sum of the scan fits the doubled width in which it is computed.
pub open spec fn scan_ok(v0: int, ds: Seq<int>, k: nat) -> bool
    decreases ds.len(),
{
    ds.len() == 0 || (scan_ok(v0, ds.drop_last(), k) && in_signed(
        scan_last(v0, scan(v0, ds.drop_last(), k)) + ds.last(),
        2 * k,
    ))
}

/// The values of the column at the front of `s`.
pub open spec fn column_values(s: Seq<u8>, k: nat) -> Seq<int> {
    let (first, ds, end) = column_read(s, k);
    if first.len() == 0 {
        Seq::empty()
    } else {
        first + scan(first[0], ds, k)
    }
}

/// The end of the column at the front of `s`.
pub open spec fn column_end(s: Seq<u8>, k: nat) -> ColumnEnd {
    column_read(s, k).2
}

/// Reading the column meets no unknown tag and no sum beyond its width.
pub open spec fn column_decodable(s: Seq<u8>, k: nat) -> bool {
    let (first, ds, end) = column_read(s, k);
    &&& !(end is Unknown)
    &&& first.len() > 0 ==> scan_ok(first[0], ds, k)
}

/// A prefix of deltas whose scan fits, fits too.
proof fn lemma_scan_ok_prefix(v0: int, ds: Seq<int>, k: nat, n: int)
    requires
        scan_ok(v0, ds, k),
        0 <= n <= ds.len(),
    ensures
        scan_ok(v0, ds.take(n), k),
    decreases ds.len() - n,
{
    if n < ds.len() {
        assert(ds.take(n + 1).drop_last() =~= ds.take(n));
        lemma_scan_ok_prefix(v0, ds, k, n + 1);
    } else {
        assert(ds.take(n) =~= ds);
    }
}

/// Continues reading nibbles into `acc`, the value of the nibbles taken so far.
fn read_more(iter: &mut HalfIter, acc: u128, n: usize, Ghost(taken): Ghost<Seq<u8>>) -> (r: Result<
    u128,
    CodingError,
>)
    requires
        acc == nib_word(taken),
    ensures
        old(iter)@.len() >= n ==> (r matches Ok(w) && w == nib_word(taken + old(iter)@.take(n as int))
            && final(iter)@ == old(iter)@.skip(n as int)),
        old(iter)@.len() < n ==> (r matches Err(CodingError::NotEnoughBits) && final(iter)@.len()
            == 0),
{
    let ghost s = iter@;
    let mut word = acc;
    let mut i: usize = 0;
    while i < n
        invariant
            i <= n,
            i <= s.len(),
            s == old(iter)@,
            iter@ == s.skip(i as int),
            word == nib_word(taken + s.take(i as int)),
        decreases n - i,
    {
        match iter.next() {
            Some(half) => {
                proof {
                    assert((taken + s.take(i + 1)).drop_last() =~= taken + s.take(i as int));
                    assert(s.skip(i as int).drop_first() =~= s.skip(i + 1));
                }
                word = (word << 4) | (half as u128);
                i += 1;
            },
            None => {
                return Err(CodingError::NotEnoughBits);
            },
        }
    }
    Ok(word)
}

/// The word read as a signed integer of `bits` bits.
fn signed_of(w: u128, bits: u32) -> (r: i128)
    requires
        bits == 8 || bits == 16 || bits == 32 || bits == 64 || bits == 128,
    ensures
        r == as_signed(w, bits as nat),
{
    if bits == 8 {
        (w as i8) as i128
    } else if bits == 16 {
        (w as i16) as i128
    } else if bits == 32 {
        (w as i32) as i128
    } else if bits == 64 {
        (w as i64) as i128
    } else {
        w as i128
    }
}

/// The integer wrapped into `bits` bits.
fn wrap_to(x: i128, bits: u32) -> (r: i128)
    requires
        bits == 8 || bits == 16 || bits == 32 || bits == 64,
    ensures
        r == wrap_signed(x as int, bits as nat),
{
    if bits == 8 {
        (x as i8) as i128
    } else if bits == 16 {
        (x as i16) as i128
    } else if bits == 32 {
        (x as i32) as i128
    } else {
        (x as i64) as i128
    }
}

/// The value whose zigzag code is `d`, read as the arithmetic shift
/// `(d >> 1) ^ -(d & 1)` does, for either sign of `d`.
fn unzigzag_wide(d: i128) -> (r: i128)
    ensures
        r == unzigzag(d as int),
{
    if d >= 0 {
        let h = d / 2;
        if d % 2 == 0 {
            h
        } else {
            -h - 1
        }
    } else {
        let m = -(d + 1);
        let fl = -(m / 2) - 1;
        if m % 2 == 1 {
            fl
        } else {
            -fl - 1
        }
    }
}

/// Values of `i128` taken as integers.
pub open spec fn ints(v: Seq<i128>) -> Seq<int> {
    v.map_values(|x: i128| x as int)
}

/// Appends the next value of the scan: `last` plus the delta `ds[j]`,
/// wrapped to `k` bits.
fn push_next(
    out: &mut Vec<i128>,
    last: i128,
    d: i128,
    k: u32,
    Ghost(v0): Ghost<int>,
    Ghost(ds): Ghost<Seq<int>>,
    Ghost(j): Ghost<int>,
) -> (r: i128)
    requires
        k == 8 || k == 16 || k == 32 || k == 64,
        0 <= j < ds.len(),
        d == ds[j],
        scan_ok(v0, ds, k as nat),
        ints(old(out)@) == seq![v0] + scan(v0, ds.take(j), k as nat),
        last == scan_last(v0, scan(v0, ds.take(j), k as nat)),
    ensures
        ints(final(out)@) == seq![v0] + scan(v0, ds.take(j + 1), k as nat),
        r == scan_last(v0, scan(v0, ds.take(j + 1), k as nat)),
{
    proof {
        lemma_scan_ok_prefix(v0, ds, k as nat, j + 1);
        assert(ds.take(j + 1).drop_last() =~= ds.take(j));
    }
    let v = wrap_to(last + d, k);
    out.push(v);
    proof {
        assert(ints(out@) =~= ints(old(out)@).push(v as int));
    }
    v
}

/// The shape of the block that `tag` starts in a `k`-bit column.
fn block_shape(tag: u8, k: u32) -> (r: Option<(u32, u32, u32, usize)>)
    ensures
        r is Some <==> tag_block(tag, k as nat) is Some,
        r matches Some((c, w, s, n)) ==> tag_block(tag, k as nat) == Some(
            (c as nat, w as nat, s as nat, n as nat),
        ),
        r matches Some((c, w, s, n)) ==> (1 <= c && (w < 32 ==> w * (c - 1) <= s <= 32)),
{
    if tag == headers::THREE_BITS_TEN_SAMPLES {
        Some((10, 3, 27, 8))
    } else if tag == headers::SIX_BITS_FIVE_SAMPLES {
        Some((5, 6, 24, 8))
    } else if tag == headers::EIGHT_BITS_FOUR_SAMPLES {
        Some((4, 8, 24, 8))
    } else if tag == headers::TEN_BITS_THREE_SAMPLES {
        Some((3, 10, 20, 8))
    } else if tag == headers::SIXTEEN_BITS_TWO_SAMPLES {
        Some((2, 16, 16, 8))
    } else if tag == headers::THIRTY_TWO_BITS_ONE_SAMPLE {
        Some((1, 32, 0, 8))
    } else if tag == headers::SIXTY_FOUR_BITS_ONE_SAMPLE && k >= 32 {
        Some((1, 64, 0, 16))
    } else {
        None
    }
}

/// Sample `i` of a block word.
fn field_of(word: u128, width: u32, shift: u32, i: u32) -> (r: u128)
    requires
        width < 32 ==> width * i <= shift <= 32,
    ensures
        r == block_field(word, width as nat, shift as nat, i as nat),
{
    if width >= 32 {
        word
    } else {
        let sh: u128 = (shift - width * i) as u128;
        (word >> sh) & !(u128::MAX << (width as u128))
    }
}

/// Appends the values of one block: `count` deltas packed in `word`.
fn push_block(
    out: &mut Vec<i128>,
    last: i128,
    word: u128,
    count: u32,
    width: u32,
    shift: u32,
    k: u32,
    Ghost(v0): Ghost<int>,
    Ghost(ds): Ghost<Seq<int>>,
    Ghost(j0): Ghost<int>,
) -> (r: i128)
    requires
        k == 8 || k == 16 || k == 32 || k == 64,
        width < 32 ==> width * (count - 1) <= shift <= 32,
        0 <= j0,
        j0 + count <= ds.len(),
        forall|q: int|
            j0 <= q < j0 + count ==> #[trigger] ds[q] == unzigzag(
                as_signed(
                    block_field(word, width as nat, shift as nat, (q - j0) as nat),
                    2 * k as nat,
                ),
            ),
        scan_ok(v0, ds, k as nat),
        ints(old(out)@) == seq![v0] + scan(v0, ds.take(j0), k as nat),
        last == scan_last(v0, scan(v0, ds.take(j0), k as nat)),
    ensures
        ints(final(out)@) == seq![v0] + scan(v0, ds.take(j0 + count), k as nat),
        r == scan_last(v0, scan(v0, ds.take(j0 + count), k as nat)),
{
    let mut last = last;
    let mut i: u32 = 0;
    while i < count
        invariant
            k == 8 || k == 16 || k == 32 || k == 64,
            width < 32 ==> width * (count - 1) <= shift <= 32,
            i <= count,
            0 <= j0,
            j0 + count <= ds.len(),
            forall|q: int|
                j0 <= q < j0 + count ==> #[trigger] ds[q] == unzigzag(
                    as_signed(
                        block_field(word, width as nat, shift as nat, (q - j0) as nat),
                        2 * k as nat,
                    ),
                ),
            scan_ok(v0, ds, k as nat),
            ints(out@) == seq![v0] + scan(v0, ds.take(j0 + i), k as nat),
            last == scan_last(v0, scan(v0, ds.take(j0 + i), k as nat)),
        decreases count - i,
    {
        proof {
            if width < 32 {
                assert(width * i <= width * (count - 1)) by (nonlinear_arith)
                    requires
                        i < count,
                ;
            }
        }
        let field = field_of(word, width, shift, i);
        let d = unzigzag_wide(signed_of(field, 2 * k));
        assert(ds[j0 + i] == d);
        last = push_next(out, last, d, k, Ghost(v0), Ghost(ds), Ghost(j0 + i));
        i += 1;
    }
    last
}

/// The value of a single nibble.
proof fn lemma_nib_word_single(x: u8)
    ensures
        nib_word(seq![x]) == x as u128,
{
    assert(seq![x].drop_last() =~= Seq::<u8>::empty());
    assert(nib_word(Seq::<u8>::empty()) == 0);
    assert((0u128 << 4u128) | (x as u128) == x as u128) by (bit_vector);
}

/// What reading at a block position gave: the last value after a block, or the end of the column.
enum BlockStep {
    Next(i128),
    End(Result<(), CodingError>),
}

/// Reads the block (or the end of the column) at the front of the nibbles,
/// appending its values to `out`; `ds[j..]` are the deltas still to come.
#[verifier::rlimit(60)]
fn decode_block(
    iter: &mut HalfIter,
    out: &mut Vec<i128>,
    last: i128,
    k: u32,
    Ghost(v0): Ghost<int>,
    Ghost(ds): Ghost<Seq<int>>,
    Ghost(j): Ghost<int>,
) -> (r: BlockStep)
    requires
        k == 8 || k == 16 || k == 32 || k == 64,
        0 <= j <= ds.len(),
        ds.skip(j) == block_deltas(old(iter)@, k as nat).0,
        !(block_deltas(old(iter)@, k as nat).1 is Unknown),
        scan_ok(v0, ds, k as nat),
        ints(old(out)@) == seq![v0] + scan(v0, ds.take(j), k as nat),
        last == scan_last(v0, scan(v0, ds.take(j), k as nat)),
    ensures
        ({
            let before = block_deltas(old(iter)@, k as nat);
            let after = block_deltas(final(iter)@, k as nat);
            let m = old(iter)@.len() - final(iter)@.len();
            let c = before.0.len() - after.0.len();
            match r {
                BlockStep::Next(l) => {
                    &&& 0 < m
                    &&& final(iter)@ == old(iter)@.skip(m)
                    &&& 0 <= c
                    &&& before.0.skip(c) == after.0
                    &&& before.1 == end_after(after.1, m as nat)
                    &&& ints(final(out)@) == seq![v0] + scan(v0, ds.take(j + c), k as nat)
                    &&& l == scan_last(v0, scan(v0, ds.take(j + c), k as nat))
                },
                BlockStep::End(res) => {
                    &&& before.0.len() == 0
                    &&& final(out)@ == old(out)@
                    &&& (before.1 matches ColumnEnd::Done(n) ==> (res is Ok && final(iter)@
                        == old(iter)@.skip(n as int)))
                    &&& (before.1 is NotEnough ==> (res matches Err(CodingError::NotEnoughBits)
                        && final(iter)@.len() == 0))
                },
            }
        }),
{
    let ghost u = iter@;
    let tag = match iter.next() {
        None => {
            return BlockStep::End(Ok(()));
        },
        Some(h) => h,
    };
    if tag == headers::START_OF_COLUMN {
        return BlockStep::End(Ok(()));
    }
    let (count, width, shift, nibs) = match block_shape(tag, k) {
        None => {
            return BlockStep::End(Err(CodingError::InvalidBits));
        },
        Some(shape) => shape,
    };
    let ghost u1 = iter@;
    let ghost none = Seq::<u8>::empty();
    let word = match read_more(iter, 0, nibs, Ghost(none)) {
        Ok(w) => w,
        Err(e) => {
            return BlockStep::End(Err(e));
        },
    };
    let ghost rest = u.skip(1 + nibs as int);
    let ghost block = Seq::new(
        count as nat,
        |i: int|
            unzigzag(as_signed(block_field(word, width as nat, shift as nat, i as nat), 2 * k as nat)),
    );
    proof {
        assert(Seq::<u8>::empty() + u1.take(nibs as int) =~= u.subrange(1, 1 + nibs as int));
        assert(u1.skip(nibs as int) =~= rest);
        assert(block_deltas(u, k as nat).0 == block + block_deltas(rest, k as nat).0);
        assert((block + block_deltas(rest, k as nat).0).skip(count as int) =~= block_deltas(
            rest,
            k as nat,
        ).0);
        assert forall|q: int| j <= q < j + count implies #[trigger] ds[q] == unzigzag(
            as_signed(block_field(word, width as nat, shift as nat, (q - j) as nat), 2 * k as nat),
        ) by {
            assert(ds[q] == ds.skip(j)[q - j]);
        }
    }
    let l = push_block(out, last, word, count, width, shift, k, Ghost(v0), Ghost(ds), Ghost(j));
    BlockStep::Next(l)
}

/// Reads one column of `k`-bit values (8, 16, 32 or 64) from the nibbles:
/// the values, as `i128`, and how the column ended.
#[verifier::rlimit(100)]
#[verifier::spinoff_prover]
fn decode_column(iter: &mut HalfIter, k: u32) -> (r: (Vec<i128>, Result<(), CodingError>))
    requires
        k == 8 || k == 16 || k == 32 || k == 64,
        column_decodable(old(iter)@, k as nat),
    ensures
        ints(r.0@) == column_values(old(iter)@, k as nat),
        column_end(old(iter)@, k as nat) matches ColumnEnd::Done(n) ==> (r.1 is Ok && final(iter)@
            == old(iter)@.skip(n as int)),
        column_end(old(iter)@, k as nat) is NotEnough ==> (r.1 matches Err(
            CodingError::NotEnoughBits,
        ) && final(iter)@.len() == 0),
{
    let ghost s = iter@;
    let ghost kk = k as nat;
    let f: usize = (k / 4) as usize;
    let mut out: Vec<i128> = Vec::new();
    let first = match iter.next() {
        None => {
            return (out, Ok(()));
        },
        Some(h) => h,
    };
    if first == headers::START_OF_COLUMN {
        return (out, Ok(()));
    }
    let ghost s1 = iter@;
    let ghost h0 = seq![first];
    proof {
        lemma_nib_word_single(first);
    }
    let w0 = match read_more(iter, first as u128, f - 1, Ghost(h0)) {
        Ok(w) => w,
        Err(e) => {
            return (out, Err(e));
        },
    };
    proof {
        assert(seq![first] + s1.take(f - 1) =~= s.take(f as int));
        assert(s1.skip(f - 1) =~= s.skip(f as int));
    }
    let v0 = signed_of(w0, k);
    out.push(v0);
    proof {
        assert(ints(out@) =~= seq![v0 as int]);
    }
    let second = match iter.next() {
        None => {
            return (out, Ok(()));
        },
        Some(h) => h,
    };
    if second == headers::START_OF_COLUMN {
        return (out, Ok(()));
    }
    let ghost s3 = iter@;
    let ghost h1 = seq![second];
    proof {
        lemma_nib_word_single(second);
    }
    let w1 = match read_more(iter, second as u128, 2 * f - 1, Ghost(h1)) {
        Ok(w) => w,
        Err(e) => {
            return (out, Err(e));
        },
    };
    proof {
        assert(seq![second] + s3.take(2 * f - 1) =~= s.subrange(f as int, 3 * f as int));
        assert(s3.skip(2 * f - 1) =~= s.skip(3 * f as int));
    }
    let d1 = signed_of(w1, 2 * k);
    let ghost t = s.skip(3 * f as int);
    let ghost ds = seq![d1 as int] + block_deltas(t, kk).0;
    proof {
        assert(ds.take(0) =~= Seq::<int>::empty());
        assert(ints(out@) =~= seq![v0 as int] + scan(v0 as int, ds.take(0), kk));
    }
    let mut last = push_next(&mut out, v0, d1, k, Ghost(v0 as int), Ghost(ds), Ghost(0));
    let ghost mut p: int = 0;
    let ghost mut c: int = 0;
    proof {
        assert(t.skip(0) =~= t);
        assert(block_deltas(t, kk).0.skip(0) =~= block_deltas(t, kk).0);
        assert(ds.skip(1) =~= block_deltas(t, kk).0);
    }
    loop
        invariant
            kk == k,
            k == 8 || k == 16 || k == 32 || k == 64,
            f == k / 4,
            s == old(iter)@,
            t == s.skip(3 * f as int),
            column_values(s, kk) == seq![v0 as int] + scan(v0 as int, ds, kk),
            column_end(s, kk) == end_after(block_deltas(t, kk).1, 3 * f as nat),
            0 <= p <= t.len(),
            iter@ == t.skip(p),
            0 <= c <= block_deltas(t, kk).0.len(),
            ds == seq![d1 as int] + block_deltas(t, kk).0,
            block_deltas(t, kk).0.skip(c) == block_deltas(iter@, kk).0,
            block_deltas(t, kk).1 == end_after(block_deltas(iter@, kk).1, p as nat),
            !(block_deltas(iter@, kk).1 is Unknown),
            scan_ok(v0 as int, ds, kk),
            ints(out@) == seq![v0 as int] + scan(v0 as int, ds.take(1 + c), kk),
            last == scan_last(v0 as int, scan(v0 as int, ds.take(1 + c), kk)),
        decreases iter@.len(),
    {
        proof {
            assert(ds.skip(1 + c) =~= block_deltas(t, kk).0.skip(c));
        }
        let ghost u = iter@;
        match decode_block(
            iter,
            &mut out,
            last,
            k,
            Ghost(v0 as int),
            Ghost(ds),
            Ghost(1 + c),
        ) {
            BlockStep::Next(l) => {
                last = l;
                proof {
                    let m = u.len() - iter@.len();
                    let cc = block_deltas(u, kk).0.len() - block_deltas(iter@, kk).0.len();
                    assert(t.skip(p + m) =~= iter@);
                    assert(block_deltas(t, kk).0.skip(c + cc) =~= block_deltas(iter@, kk).0);
                    p = p + m;
                    c = c + cc;
                }
            },
            BlockStep::End(res) => {
                proof {
                    assert(ds.take(1 + c) =~= ds);
                    assert(s.skip(3 * f as int + p) =~= u);
                }
                return (out, res);
            },
        }
    }
}

/// Decodes a column of `i8` values from the nibbles, appending them to
/// `output`: the first value in full, the second as a delta of twice the
/// width, then the delta blocks, until the nibbles end or the next column
/// starts. An error when the nibbles end inside a value; the values before
/// it are kept.
pub fn decode_i8(iter: &mut HalfIter<'_>, output: &mut Vec<i8>) -> (r: Result<(), CodingError>)
    requires
        column_decodable(old(iter)@, 8),
    ensures
        final(output)@ == old(output)@ + column_values(old(iter)@, 8).map_values(|v: int| v as i8),
        column_end(old(iter)@, 8) matches ColumnEnd::Done(n) ==> (r is Ok && final(iter)@ == old(
            iter,
        )@.skip(n as int)),
        column_end(old(iter)@, 8) is NotEnough ==> (r matches Err(CodingError::NotEnoughBits)
            && final(iter)@.len() == 0),
{
    let (vals, res) = decode_column(iter, 8);
    let mut i: usize = 0;
    while i < vals.len()
        invariant
            i <= vals@.len(),
            ints(vals@) == column_values(old(iter)@, 8),
            output@ == old(output)@ + ints(vals@).take(i as int).map_values(|v: int| v as i8),
        decreases vals.len() - i,
    {
        output.push(vals[i] as i8);
        proof {
            assert(ints(vals@).take(i + 1).map_values(|v: int| v as i8) =~= ints(vals@).take(
                i as int,
            ).map_values(|v: int| v as i8).push(vals@[i as int] as i8));
        }
        i += 1;
    }
    proof {
        assert(ints(vals@).take(i as int) =~= ints(vals@));
    }
    res
}

/// Decodes a column of `i16` values from the nibbles, appending them to
/// `output`: the first value in full, the second as a delta of twice the
/// width, then the delta blocks, until the nibbles end or the next column
/// starts. An error when the nibbles end inside a value; the values before
/// it are kept.
pub fn decode_i16(iter: &mut HalfIter<'_>, output: &mut Vec<i16>) -> (r: Result<(), CodingError>)
    requires
        column_decodable(old(iter)@, 16),
    ensures
        final(output)@ == old(output)@ + column_values(old(iter)@, 16).map_values(|v: int| v as i16),
        column_end(old(iter)@, 16) matches ColumnEnd::Done(n) ==> (r is Ok && final(iter)@ == old(
            iter,
        )@.skip(n as int)),
        column_end(old(iter)@, 16) is NotEnough ==> (r matches Err(CodingError::NotEnoughBits)
            && final(iter)@.len() == 0),
{
    let (vals, res) = decode_column(iter, 16);
    let mut i: usize = 0;
    while i < vals.len()
        invariant
            i <= vals@.len(),
            ints(vals@) == column_values(old(iter)@, 16),
            output@ == old(output)@ + ints(vals@).take(i as int).map_values(|v: int| v as i16),
        decreases vals.len() - i,
    {
        output.push(vals[i] as i16);
        proof {
            assert(ints(vals@).take(i + 1).map_values(|v: int| v as i16) =~= ints(vals@).take(
                i as int,
            ).map_values(|v: int| v as i16).push(vals@[i as int] as i16));
        }
        i += 1;
    }
    proof {
        assert(ints(vals@).take(i as int) =~= ints(vals@));
    }
    res
}

/// Decodes a column of `i32` values from the nibbles, appending them to
/// `output`: the first value in full, the second as a delta of twice the
/// width, then the delta blocks, until the nibbles end or the next column
/// starts. An error when the nibbles end inside a value; the values before
/// it are kept.
pub fn decode_i32(iter: &mut HalfIter<'_>, output: &mut Vec<i32>) -> (r: Result<(), CodingError>)
    requires
        column_decodable(old(iter)@, 32),
    ensures
        final(output)@ == old(output)@ + column_values(old(iter)@, 32).map_values(|v: int| v as i32),
        column_end(old(iter)@, 32) matches ColumnEnd::Done(n) ==> (r is Ok && final(iter)@ == old(
            iter,
        )@.skip(n as int)),
        column_end(old(iter)@, 32) is NotEnough ==> (r matches Err(CodingError::NotEnoughBits)
            && final(iter)@.len() == 0),
{
    let (vals, res) = decode_column(iter, 32);
    let mut i: usize = 0;
    while i < vals.len()
        invariant
            i <= vals@.len(),
            ints(vals@) == column_values(old(iter)@, 32),
            output@ == old(output)@ + ints(vals@).take(i as int).map_values(|v: int| v as i32),
        decreases vals.len() - i,
    {
        output.push(vals[i] as i32);
        proof {
            assert(ints(vals@).take(i + 1).map_values(|v: int| v as i32) =~= ints(vals@).take(
                i as int,
            ).map_values(|v: int| v as i32).push(vals@[i as int] as i32));
        }
        i += 1;
    }
    proof {
        assert(ints(vals@).take(i as int) =~= ints(vals@));
    }
    res
}

/// Decodes a column of `i64` values from the nibbles, appending them to
/// `output`: the first value in full, the second as a delta of twice the
/// width, then the delta blocks, until the nibbles end or the next column
/// starts. An error when the nibbles end inside a value; the values before
/// it are kept.
pub fn decode_i64(iter: &mut HalfIter<'_>, output: &mut Vec<i64>) -> (r: Result<(), CodingError>)
    requires
        column_decodable(old(iter)@, 64),
    ensures
        final(output)@ == old(output)@ + column_values(old(iter)@, 64).map_values(|v: int| v as i64),
        column_end(old(iter)@, 64) matches ColumnEnd::Done(n) ==> (r is Ok && final(iter)@ == old(
            iter,
        )@.skip(n as int)),
        column_end(old(iter)@, 64) is NotEnough ==> (r matches Err(CodingError::NotEnoughBits)
            && final(iter)@.len() == 0),
{
    let (vals, res) = decode_column(iter, 64);
    let mut i: usize = 0;
    while i < vals.len()
        invariant
            i <= vals@.len(),
            ints(vals@) == column_values(old(iter)@, 64),
            output@ == old(output)@ + ints(vals@).take(i as int).map_values(|v: int| v as i64),
        decreases vals.len() - i,
    {
        output.push(vals[i] as i64);
        proof {
            assert(ints(vals@).take(i + 1).map_values(|v: int| v as i64) =~= ints(vals@).take(
                i as int,
            ).map_values(|v: int| v as i64).push(vals@[i as int] as i64));
        }
        i += 1;
    }
    proof {
        assert(ints(vals@).take(i as int) =~= ints(vals@));
    }
    res
}

} // verus!
