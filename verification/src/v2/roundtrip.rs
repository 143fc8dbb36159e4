//! What the column writers emit, the column readers give back.

use vstd::prelude::*;
use crate::v2::consts::headers::START_OF_COLUMN;
use crate::delta_zigzag::{lemma_unzigzag_zigzag, unzigzag, zigzag};
use crate::v2::consts::headers;
use crate::v2::decode::{
    ColumnEnd,
    as_signed,
    block_deltas,
    block_field,
    byte_nibbles,
    column_decodable,
    column_end,
    column_read,
    column_values,
    end_after,
    scan,
    scan_last,
    scan_ok,
    wrap_signed,
    in_signed,
    nib_word,
    tag_block,
};
use crate::v2::encode::{bit_len, block_bits, block_tag, block_words, codes_fit, pack_word};
use crate::v2::halfvec::{
    HalfVec,
    HalfWord,
    all_nibbles,
    full_nibble,
    lemma_word_nibbles_small,
    lists_nibbles,
    pack_nibbles,
    word_nibbles,
    words_nibbles,
};

verus! {

/// The nibbles of two word lists one after the other.
pub proof fn lemma_words_nibbles_add(a: Seq<HalfWord>, b: Seq<HalfWord>)
    ensures
        words_nibbles(a + b) == words_nibbles(a) + words_nibbles(b),
    decreases b.len(),
{
    if b.len() == 0 {
        assert(a + b =~= a);
        assert(words_nibbles(b) =~= Seq::<u8>::empty());
        assert(words_nibbles(a) + words_nibbles(b) =~= words_nibbles(a));
    } else {
        assert((a + b).drop_last() =~= a + b.drop_last());
        lemma_words_nibbles_add(a, b.drop_last());
        assert(words_nibbles(a) + words_nibbles(b) =~= words_nibbles(a) + words_nibbles(
            b.drop_last(),
        ) + word_nibbles(b.last()));
    }
}

/// Every nibble of a word list is below 16.
pub proof fn lemma_words_nibbles_small(ws: Seq<HalfWord>)
    ensures
        all_nibbles(words_nibbles(ws)),
    decreases ws.len(),
{
    if ws.len() > 0 {
        lemma_words_nibbles_small(ws.drop_last());
        lemma_word_nibbles_small(ws.last());
        let a = words_nibbles(ws.drop_last());
        let b = word_nibbles(ws.last());
        assert forall|i: int| 0 <= i < (a + b).len() implies #[trigger] (a + b)[i] < 16 by {
            if i < a.len() {
                assert((a + b)[i] == a[i]);
            } else {
                assert((a + b)[i] == b[i - a.len()]);
            }
        }
    }
}

/// Every nibble of the lists is below 16.
pub proof fn lemma_lists_nibbles_small(ls: Seq<&HalfVec>)
    ensures
        all_nibbles(lists_nibbles(ls)),
    decreases ls.len(),
{
    if ls.len() > 0 {
        lemma_lists_nibbles_small(ls.drop_last());
        lemma_words_nibbles_small(ls.last()@);
        let a = lists_nibbles(ls.drop_last());
        let b = ls.last().nibbles();
        assert forall|i: int| 0 <= i < (a + b).len() implies #[trigger] (a + b)[i] < 16 by {
            if i < a.len() {
                assert((a + b)[i] == a[i]);
            } else {
                assert((a + b)[i] == b[i - a.len()]);
            }
        }
    }
}

/// Nibbles packed two to a byte are read back one by one, high nibble first;
/// an odd count comes back with the `START_OF_COLUMN` that pads the last byte.
pub proof fn lemma_pack_read(n: Seq<u8>)
    requires
        all_nibbles(n),
    ensures
        byte_nibbles(pack_nibbles(n)) == (if n.len() % 2 == 0 {
            n
        } else {
            n.push(START_OF_COLUMN)
        }),
{
    let m = if n.len() % 2 == 0 {
        n
    } else {
        n.push(START_OF_COLUMN)
    };
    let b = pack_nibbles(n);
    assert forall|i: int| 0 <= i < m.len() implies #[trigger] byte_nibbles(b)[i] == m[i] by {
        let j = i / 2;
        let hi = n[2 * j];
        let lo: u8 = if 2 * j + 1 < n.len() {
            n[2 * j + 1]
        } else {
            START_OF_COLUMN
        };
        assert(hi < 16);
        assert(lo < 16);
        assert(b[j] == (hi << 4u8) | lo);
        assert(((hi << 4u8) | lo) >> 4u8 == hi && ((hi << 4u8) | lo) & 0x0f == lo) by (bit_vector)
            requires
                hi < 16,
                lo < 16,
        ;
    }
    assert(byte_nibbles(b) =~= m);
}

/// The bytes that `HalfVec::finish` writes for the lists are read back, by
/// `HalfIter`, as the lists' nibbles in order, padded to a whole byte with
/// `START_OF_COLUMN`.
pub proof fn lemma_finish_read(ls: Seq<&HalfVec>)
    ensures
        byte_nibbles(pack_nibbles(lists_nibbles(ls))) == (if lists_nibbles(ls).len() % 2 == 0 {
            lists_nibbles(ls)
        } else {
            lists_nibbles(ls).push(START_OF_COLUMN)
        }),
{
    lemma_lists_nibbles_small(ls);
    lemma_pack_read(lists_nibbles(ls));
}

/// The value of nibbles split in two: the first part shifted above the second.
pub proof fn lemma_nib_word_concat(a: Seq<u8>, b: Seq<u8>)
    requires
        b.len() < 32,
    ensures
        nib_word(a + b) == (nib_word(a) << (4 * b.len()) as u128) | nib_word(b),
    decreases b.len(),
{
    if b.len() == 0 {
        assert(a + b =~= a);
        let x = nib_word(a);
        assert((x << 0u128) | 0u128 == x) by (bit_vector);
    } else {
        assert((a + b).drop_last() =~= a + b.drop_last());
        lemma_nib_word_concat(a, b.drop_last());
        let x = nib_word(a);
        let y = nib_word(b.drop_last());
        let z = b.last() as u128;
        let s = (4 * b.drop_last().len()) as u128;
        assert(s < 124);
        assert((((x << s) | y) << 4u128) | z == (x << (s + 4) as u128) | ((y << 4u128) | z))
            by (bit_vector)
            requires
                s < 124,
        ;
    }
}

/// The first `i` nibbles of a 32-bit word, as a value: the word's top `4 * i` bits.
proof fn lemma_nib_word_full_prefix(v: u32, i: int)
    requires
        0 <= i <= 8,
    ensures
        nib_word(word_nibbles(HalfWord::Full(v)).take(i)) == (v as u128) >> (32 - 4 * i) as u128,
    decreases i,
{
    let s = word_nibbles(HalfWord::Full(v));
    if i == 0 {
        assert(s.take(0) =~= Seq::<u8>::empty());
        assert((v as u128) >> 32u128 == 0) by (bit_vector);
    } else {
        lemma_nib_word_full_prefix(v, i - 1);
        assert(s.take(i).drop_last() =~= s.take(i - 1));
        let sh = (28 - 4 * (i - 1)) as u32;
        assert(s[i - 1] == full_nibble(v, i - 1));
        assert(sh <= 28);
        assert(((((v as u128) >> (sh + 4) as u128) << 4u128) | ((((v >> sh) & 0x0f) as u8)
            as u128)) == (v as u128) >> (sh as u128)) by (bit_vector)
            requires
                sh <= 28,
        ;
    }
}

/// A 32-bit word's nibbles are read back as the word.
pub proof fn lemma_nib_word_full(v: u32)
    ensures
        nib_word(word_nibbles(HalfWord::Full(v))) == v as u128,
{
    lemma_nib_word_full_prefix(v, 8);
    assert(word_nibbles(HalfWord::Full(v)).take(8) =~= word_nibbles(HalfWord::Full(v)));
    assert((v as u128) >> 0u128 == v as u128) by (bit_vector);
}

/// A byte's two nibbles are read back as the byte.
pub proof fn lemma_nib_word_byte(v: u8)
    ensures
        nib_word(word_nibbles(HalfWord::Byte(v))) == v as u128,
{
    let s = word_nibbles(HalfWord::Byte(v));
    let s1 = s.drop_last();
    assert(s1.drop_last() =~= Seq::<u8>::empty());
    assert(nib_word(s1.drop_last()) == 0);
    assert(s1.last() == v >> 4u8);
    assert(nib_word(s1) == (0u128 << 4u128) | ((v >> 4u8) as u128));
    assert(nib_word(s) == (nib_word(s1) << 4u128) | ((v & 0x0f) as u128));
    assert(((((0u128 << 4u128) | ((v >> 4u8) as u128)) << 4u128) | ((v & 0x0f) as u128))
        == v as u128) by (bit_vector);
}

proof fn lemma_pack_bound_step(p: u64, l: u64, w: u64, a: u64)
    by (bit_vector)
    requires
        p >> a == 0,
        l >> w == 0,
        a + w <= 32,
    ensures
        ((p << w) | l) >> (a + w) as u64 == 0,
{
}

proof fn lemma_pack_last_field(p: u64, l: u64, w: u64)
    by (bit_vector)
    requires
        l >> w == 0,
        1 <= w <= 16,
    ensures
        ((((p << w) | l) as u128) >> 0u128) & !(u128::MAX << (w as u128)) == l as u128,
{
}

proof fn lemma_pack_inner_field(p: u64, l: u64, w: u64, a: u64, s: u64)
    by (bit_vector)
    requires
        p >> a == 0,
        a + w <= 32,
        l >> w == 0,
        1 <= w <= 16,
        w <= s <= 32,
    ensures
        ((((p << w) | l) as u128) >> (s as u128)) & !(u128::MAX << (w as u128)) == ((p as u128)
            >> ((s - w) as u128)) & !(u128::MAX << (w as u128)),
{
}

/// Codes below `2^w`, packed `w` bits each into at most 32 bits: the packing
/// stays below `2^(n w)`, and code `i` of `n` sits `w (n - 1 - i)` bits up.
pub proof fn lemma_pack_word_fields(vs: Seq<u64>, w: nat)
    requires
        1 <= w <= 16,
        vs.len() * w <= 32,
        forall|i: int| 0 <= i < vs.len() ==> #[trigger] (vs[i] >> (w as u64)) == 0,
    ensures
        pack_word(vs, w) >> ((vs.len() * w) as u64) == 0,
        forall|i: int|
            0 <= i < vs.len() ==> ((pack_word(vs, w) as u128) >> ((w * (vs.len() - 1 - i))
                as u128)) & !(u128::MAX << (w as u128)) == #[trigger] vs[i] as u128,
    decreases vs.len(),
{
    let n = vs.len();
    if n == 0 {
        assert(0u64 >> 0u64 == 0) by (bit_vector);
    } else {
        let d = vs.drop_last();
        assert(d.len() * w <= 32) by (nonlinear_arith)
            requires
                d.len() == n - 1,
                n * w <= 32,
        ;
        assert forall|i: int| 0 <= i < d.len() implies #[trigger] (d[i] >> (w as u64)) == 0 by {
            assert(d[i] == vs[i]);
        }
        lemma_pack_word_fields(d, w);
        let p = pack_word(d, w);
        let l = vs.last();
        let a = (d.len() * w) as u64;
        assert(a + w == n * w) by (nonlinear_arith)
            requires
                d.len() == n - 1,
                a == d.len() * w,
        ;
        assert(l >> (w as u64) == 0);
        lemma_pack_bound_step(p, l, w as u64, a);
        assert forall|i: int| 0 <= i < n implies ((pack_word(vs, w) as u128) >> ((w * (n - 1 - i))
            as u128)) & !(u128::MAX << (w as u128)) == #[trigger] vs[i] as u128 by {
            if i == n - 1 {
                assert(w * (n - 1 - i) == 0);
                lemma_pack_last_field(p, l, w as u64);
            } else {
                let sh = w * (n - 1 - i);
                assert(w <= sh <= 32 && sh - w == w * (d.len() - 1 - i)) by (nonlinear_arith)
                    requires
                        sh == w * (n - 1 - i),
                        0 <= i < n - 1,
                        n * w <= 32,
                        d.len() == n - 1,
                        w >= 1,
                ;
                lemma_pack_inner_field(p, l, w as u64, a, sh as u64);
                assert(d[i] == vs[i]);
            }
        }
    }
}

/// The nibbles of a single word.
pub proof fn lemma_words_nibbles_one(a: HalfWord)
    ensures
        words_nibbles(seq![a]) == word_nibbles(a),
{
    assert(seq![a].drop_last() =~= Seq::<HalfWord>::empty());
    assert(seq![a].last() == a);
    assert(words_nibbles(Seq::<HalfWord>::empty()) == Seq::<u8>::empty());
    assert(words_nibbles(seq![a]) == words_nibbles(seq![a].drop_last()) + word_nibbles(a));
    assert(Seq::<u8>::empty() + word_nibbles(a) =~= word_nibbles(a));
}

/// The deltas that codes stand for.
pub open spec fn unzigzag_codes(vs: Seq<u64>) -> Seq<int> {
    vs.map_values(|c: u64| unzigzag(c as int))
}

/// A code with at most `w` significant bits is below `2^w`.
pub(crate) proof fn lemma_bit_len_bound(v: u64, w: nat)
    requires
        bit_len(v) <= w <= 64,
    ensures
        w < 64 ==> v >> (w as u64) == 0,
{
    vstd::std_specs::bits::axiom_u64_leading_zeros(v);
    let b = (64 - vstd::std_specs::bits::u64_leading_zeros(v)) as u64;
    let ww = w as u64;
    assert(v >> b == 0);
    assert(v >> b == 0 && b <= ww && ww < 64 ==> v >> ww == 0) by (bit_vector);
}

/// A block that the column writer emits is read back as the deltas of its
/// codes, followed by whatever the nibbles after it hold.
pub proof fn lemma_block_read(count: nat, vs: Seq<u64>, rest: Seq<u8>, k: nat)
    requires
        k == 8 || k == 16 || k == 32 || k == 64,
        count == 1 || count == 2 || count == 3 || count == 4 || count == 5 || count == 10,
        count <= vs.len(),
        codes_fit(count, vs),
        forall|i: int| 0 <= i < count ==> in_signed(#[trigger] vs[i] as int, 2 * k),
        count == 1 && vs[0] > u32::MAX ==> k >= 32,
    ensures
        block_deltas(words_nibbles(block_words(count, vs)) + rest, k) == (
            unzigzag_codes(vs.take(count as int)) + block_deltas(rest, k).0,
            end_after(block_deltas(rest, k).1, words_nibbles(block_words(count, vs)).len()),
        ),
{
    let ws = block_words(count, vs);
    let nibs = words_nibbles(ws);
    let s = nibs + rest;
    let tag: u8 = ws[0]->Half_0;
    assert(tag & 0x0f == tag) by (bit_vector)
        requires
            tag < 16,
    ;
    if count >= 2 {
        let width = block_bits(count);
        let taken = vs.take(count as int);
        assert forall|i: int| 0 <= i < taken.len() implies #[trigger] (taken[i] >> (width as u64))
            == 0 by {
            assert(taken[i] == vs[i]);
            lemma_bit_len_bound(vs[i], width);
        }
        lemma_pack_word_fields(taken, width);
        let pw = pack_word(taken, width);
        let x = pw as u32;
        let cw = (count * width) as u64;
        assert(pw >> cw == 0 && cw <= 32 ==> (pw as u32) as u128 == pw as u128) by (bit_vector);
        assert(ws =~= seq![HalfWord::Half(tag)] + seq![HalfWord::Full(x)]);
        lemma_words_nibbles_add(seq![HalfWord::Half(tag)], seq![HalfWord::Full(x)]);
        lemma_words_nibbles_one(HalfWord::Half(tag));
        lemma_words_nibbles_one(HalfWord::Full(x));
        assert(word_nibbles(HalfWord::Half(tag)) =~= seq![tag]);
        lemma_nib_word_full(x);
        assert(s.subrange(1, 9) =~= word_nibbles(HalfWord::Full(x)));
        assert(s.skip(9) =~= rest);
        let shift = (width * (count - 1)) as nat;
        assert(tag_block(tag, k) == Some((count, width, shift, 8nat)));
        let word = nib_word(s.subrange(1, 9));
        assert(word == pw as u128);
        let ds = Seq::new(
            count,
            |i: int| unzigzag(as_signed(block_field(word, width, shift, i as nat), 2 * k)),
        );
        assert forall|i: int| 0 <= i < count implies #[trigger] ds[i] == unzigzag_codes(taken)[i] by {
            assert(shift - width * i == width * (count - 1 - i)) by (nonlinear_arith)
                requires
                    shift == width * (count - 1),
            ;
            assert(block_field(word, width, shift, i as nat) == taken[i] as u128);
            assert(taken[i] == vs[i]);
            assert(in_signed(vs[i] as int, 2 * k));
        }
        assert(ds =~= unzigzag_codes(taken));
    } else if vs[0] <= u32::MAX {
        let x = vs[0] as u32;
        assert(ws =~= seq![HalfWord::Half(tag)] + seq![HalfWord::Full(x)]);
        lemma_words_nibbles_add(seq![HalfWord::Half(tag)], seq![HalfWord::Full(x)]);
        lemma_words_nibbles_one(HalfWord::Half(tag));
        lemma_words_nibbles_one(HalfWord::Full(x));
        assert(word_nibbles(HalfWord::Half(tag)) =~= seq![tag]);
        lemma_nib_word_full(x);
        assert(s.subrange(1, 9) =~= word_nibbles(HalfWord::Full(x)));
        assert(s.skip(9) =~= rest);
        let ds = Seq::new(
            1,
            |i: int|
                unzigzag(
                    as_signed(block_field(nib_word(s.subrange(1, 9)), 32, 0, i as nat), 2 * k),
                ),
        );
        assert(ds =~= unzigzag_codes(vs.take(1)));
    } else {
        let v = vs[0];
        let hi = (v >> 32u64) as u32;
        let lo = v as u32;
        assert(ws =~= seq![HalfWord::Half(tag)] + seq![HalfWord::Full(hi), HalfWord::Full(lo)]);
        assert(seq![HalfWord::Full(hi), HalfWord::Full(lo)] =~= seq![HalfWord::Full(hi)] + seq![
            HalfWord::Full(lo),
        ]);
        lemma_words_nibbles_add(
            seq![HalfWord::Half(tag)],
            seq![HalfWord::Full(hi), HalfWord::Full(lo)],
        );
        lemma_words_nibbles_add(seq![HalfWord::Full(hi)], seq![HalfWord::Full(lo)]);
        lemma_words_nibbles_one(HalfWord::Half(tag));
        lemma_words_nibbles_one(HalfWord::Full(hi));
        lemma_words_nibbles_one(HalfWord::Full(lo));
        assert(word_nibbles(HalfWord::Half(tag)) =~= seq![tag]);
        lemma_nib_word_full(hi);
        lemma_nib_word_full(lo);
        lemma_nib_word_concat(word_nibbles(HalfWord::Full(hi)), word_nibbles(HalfWord::Full(lo)));
        assert(s.subrange(1, 17) =~= word_nibbles(HalfWord::Full(hi)) + word_nibbles(
            HalfWord::Full(lo),
        ));
        assert((((v >> 32u64) as u32) as u128) << 32u128 | ((v as u32) as u128) == v as u128)
            by (bit_vector);
        assert(s.skip(17) =~= rest);
        let ds = Seq::new(
            1,
            |i: int|
                unzigzag(
                    as_signed(block_field(nib_word(s.subrange(1, 17)), 64, 0, i as nat), 2 * k),
                ),
        );
        assert(ds =~= unzigzag_codes(vs.take(1)));
    }
}

/// The words of consecutive blocks: `counts[0]` codes, then `counts[1]`, and so on.
pub open spec fn blocks_words(counts: Seq<nat>, vs: Seq<u64>) -> Seq<HalfWord>
    decreases counts.len(),
{
    if counts.len() == 0 {
        Seq::empty()
    } else {
        block_words(counts[0], vs) + blocks_words(counts.drop_first(), vs.skip(counts[0] as int))
    }
}

/// Block sizes that split the codes as the column writer does: each block of
/// a size that it emits, its codes within the block's bits, a single code
/// above 32 bits only in a column of 32 or 64 bits, and all codes used.
pub open spec fn blocks_valid(counts: Seq<nat>, vs: Seq<u64>, k: nat) -> bool
    decreases counts.len(),
{
    if counts.len() == 0 {
        vs.len() == 0
    } else {
        let c = counts[0];
        &&& (c == 1 || c == 2 || c == 3 || c == 4 || c == 5 || c == 10)
        &&& c <= vs.len()
        &&& codes_fit(c, vs)
        &&& (c == 1 && vs[0] > u32::MAX ==> k >= 32)
        &&& blocks_valid(counts.drop_first(), vs.skip(c as int), k)
    }
}

/// The same end, moved twice.
proof fn lemma_end_after_twice(e: ColumnEnd, a: nat, b: nat)
    ensures
        end_after(end_after(e, a), b) == end_after(e, a + b),
        end_after(e, 0) == e,
{
}

/// Consecutive blocks that the column writer emits are read back as the
/// deltas of all their codes, followed by whatever the nibbles after them hold.
pub proof fn lemma_blocks_read(counts: Seq<nat>, vs: Seq<u64>, rest: Seq<u8>, k: nat)
    requires
        k == 8 || k == 16 || k == 32 || k == 64,
        blocks_valid(counts, vs, k),
        forall|i: int| 0 <= i < vs.len() ==> in_signed(#[trigger] vs[i] as int, 2 * k),
    ensures
        block_deltas(words_nibbles(blocks_words(counts, vs)) + rest, k) == (
            unzigzag_codes(vs) + block_deltas(rest, k).0,
            end_after(block_deltas(rest, k).1, words_nibbles(blocks_words(counts, vs)).len()),
        ),
    decreases counts.len(),
{
    if counts.len() == 0 {
        assert(words_nibbles(Seq::<HalfWord>::empty()) == Seq::<u8>::empty());
        assert(Seq::<u8>::empty() + rest =~= rest);
        assert(unzigzag_codes(vs) + block_deltas(rest, k).0 =~= block_deltas(rest, k).0);
        lemma_end_after_twice(block_deltas(rest, k).1, 0, 0);
    } else {
        let c = counts[0];
        let w = block_words(c, vs);
        let tail = vs.skip(c as int);
        let r = blocks_words(counts.drop_first(), tail);
        assert forall|i: int| 0 <= i < tail.len() implies in_signed(#[trigger] tail[i] as int, 2 * k) by {
            assert(tail[i] == vs[i + c]);
        }
        lemma_blocks_read(counts.drop_first(), tail, rest, k);
        lemma_words_nibbles_add(w, r);
        let after = words_nibbles(r) + rest;
        assert(words_nibbles(w + r) + rest =~= words_nibbles(w) + after);
        lemma_block_read(c, vs, after, k);
        assert(unzigzag_codes(vs.take(c as int)) + unzigzag_codes(tail) =~= unzigzag_codes(vs));
        assert(unzigzag_codes(vs.take(c as int)) + (unzigzag_codes(tail) + block_deltas(rest, k).0)
            =~= unzigzag_codes(vs) + block_deltas(rest, k).0);
        lemma_end_after_twice(
            block_deltas(rest, k).1,
            words_nibbles(r).len(),
            words_nibbles(w).len(),
        );
    }
}

/// The words that `write_i8_bits`, `write_i16_bits`, `write_i32_bits`,
/// `write_i64_bits` and `write_i128_bits` write for a `k`-bit value.
pub open spec fn full_words(v: int, k: nat) -> Seq<HalfWord> {
    if k == 8 {
        seq![HalfWord::Byte((v as i8) as u8)]
    } else if k == 16 {
        let u = (v as i16) as u16;
        seq![HalfWord::Byte((u >> 8u16) as u8), HalfWord::Byte(u as u8)]
    } else if k == 32 {
        seq![HalfWord::Full((v as i32) as u32)]
    } else if k == 64 {
        let u = (v as i64) as u64;
        seq![HalfWord::Full((u >> 32u64) as u32), HalfWord::Full(u as u32)]
    } else {
        let u = (v as i128) as u128;
        seq![
            HalfWord::Full((u >> 96u128) as u32),
            HalfWord::Full((u >> 64u128) as u32),
            HalfWord::Full((u >> 32u128) as u32),
            HalfWord::Full(u as u32),
        ]
    }
}

/// The value lies in the range of a signed type of `k` bits (8 to 128).
pub open spec fn in_width(x: int, k: nat) -> bool {
    if k == 8 {
        i8::MIN <= x <= i8::MAX
    } else if k == 16 {
        i16::MIN <= x <= i16::MAX
    } else if k == 32 {
        i32::MIN <= x <= i32::MAX
    } else if k == 64 {
        i64::MIN <= x <= i64::MAX
    } else {
        i128::MIN <= x <= i128::MAX
    }
}

/// The nibbles of a list of 32-bit words.
proof fn lemma_fulls_nibbles(a: u32, b: u32)
    ensures
        words_nibbles(seq![HalfWord::Full(a), HalfWord::Full(b)]) == word_nibbles(
            HalfWord::Full(a),
        ) + word_nibbles(HalfWord::Full(b)),
{
    assert(seq![HalfWord::Full(a), HalfWord::Full(b)] =~= seq![HalfWord::Full(a)] + seq![
        HalfWord::Full(b),
    ]);
    lemma_words_nibbles_add(seq![HalfWord::Full(a)], seq![HalfWord::Full(b)]);
    lemma_words_nibbles_one(HalfWord::Full(a));
    lemma_words_nibbles_one(HalfWord::Full(b));
}

/// A value written in full is read back: its `k / 4` nibbles, as a signed
/// `k`-bit integer, are the value.
pub proof fn lemma_full_words_read(v: int, k: nat)
    requires
        k == 8 || k == 16 || k == 32 || k == 64 || k == 128,
        in_width(v, k),
    ensures
        words_nibbles(full_words(v, k)).len() == k / 4,
        as_signed(nib_word(words_nibbles(full_words(v, k))), k) == v,
{
    let ws = full_words(v, k);
    if k == 8 {
        let x = v as i8;
        lemma_words_nibbles_one(HalfWord::Byte(x as u8));
        lemma_nib_word_byte(x as u8);
        assert((((x as u8) as u128) as i8) == x) by (bit_vector);
    } else if k == 16 {
        let x = v as i16;
        let u = x as u16;
        let hi = (u >> 8u16) as u8;
        let lo = u as u8;
        assert(ws =~= seq![HalfWord::Byte(hi)] + seq![HalfWord::Byte(lo)]);
        lemma_words_nibbles_add(seq![HalfWord::Byte(hi)], seq![HalfWord::Byte(lo)]);
        lemma_words_nibbles_one(HalfWord::Byte(hi));
        lemma_words_nibbles_one(HalfWord::Byte(lo));
        lemma_nib_word_byte(hi);
        lemma_nib_word_byte(lo);
        lemma_nib_word_concat(word_nibbles(HalfWord::Byte(hi)), word_nibbles(HalfWord::Byte(lo)));
        assert((((((((x as u16) >> 8u16) as u8) as u128) << 8u128) | (((x as u16) as u8) as u128))
            as i16) == x) by (bit_vector);
    } else if k == 32 {
        let x = v as i32;
        lemma_words_nibbles_one(HalfWord::Full(x as u32));
        lemma_nib_word_full(x as u32);
        assert((((x as u32) as u128) as i32) == x) by (bit_vector);
    } else if k == 64 {
        let x = v as i64;
        let u = x as u64;
        let hi = (u >> 32u64) as u32;
        let lo = u as u32;
        lemma_fulls_nibbles(hi, lo);
        lemma_nib_word_full(hi);
        lemma_nib_word_full(lo);
        lemma_nib_word_concat(word_nibbles(HalfWord::Full(hi)), word_nibbles(HalfWord::Full(lo)));
        assert((((((((x as u64) >> 32u64) as u32) as u128) << 32u128) | (((x as u64) as u32)
            as u128)) as i64) == x) by (bit_vector);
    } else {
        let x = v as i128;
        let u = x as u128;
        let a = (u >> 96u128) as u32;
        let b = (u >> 64u128) as u32;
        let c = (u >> 32u128) as u32;
        let d = u as u32;
        let na = word_nibbles(HalfWord::Full(a));
        let nb = word_nibbles(HalfWord::Full(b));
        let nc = word_nibbles(HalfWord::Full(c));
        let nd = word_nibbles(HalfWord::Full(d));
        lemma_fulls_nibbles(a, b);
        lemma_fulls_nibbles(c, d);
        assert(ws =~= seq![HalfWord::Full(a), HalfWord::Full(b)] + seq![
            HalfWord::Full(c),
            HalfWord::Full(d),
        ]);
        lemma_words_nibbles_add(
            seq![HalfWord::Full(a), HalfWord::Full(b)],
            seq![HalfWord::Full(c), HalfWord::Full(d)],
        );
        assert(words_nibbles(ws) =~= ((na + nb) + nc) + nd);
        lemma_nib_word_full(a);
        lemma_nib_word_full(b);
        lemma_nib_word_full(c);
        lemma_nib_word_full(d);
        lemma_nib_word_concat(na, nb);
        lemma_nib_word_concat(na + nb, nc);
        lemma_nib_word_concat((na + nb) + nc, nd);
        assert((((((((u >> 96u128) as u32) as u128) << 32u128) | (((u >> 64u128) as u32)
            as u128)) << 32u128 | (((u >> 32u128) as u32) as u128)) << 32u128 | ((u as u32)
            as u128)) == u && ((x as u128) as i128) == x) by (bit_vector);
        assert(nib_word(words_nibbles(ws)) == u);
    }
}

/// The nibbles of a non-empty word list: the first word's, then the rest's.
proof fn lemma_words_nibbles_first(ws: Seq<HalfWord>)
    requires
        ws.len() > 0,
    ensures
        words_nibbles(ws) == word_nibbles(ws[0]) + words_nibbles(ws.skip(1)),
{
    assert(ws =~= seq![ws[0]] + ws.skip(1));
    lemma_words_nibbles_add(seq![ws[0]], ws.skip(1));
    lemma_words_nibbles_one(ws[0]);
}

/// The difference of two `k`-bit values, written in full at twice the width,
/// starts with a nibble of 0 or 15, never with `START_OF_COLUMN`.
proof fn lemma_delta_first_nibble(a: int, b: int, k: nat)
    requires
        k == 8 || k == 16 || k == 32 || k == 64,
        in_width(a, k),
        in_width(b, k),
    ensures
        in_width(b - a, 2 * k),
        words_nibbles(full_words(b - a, 2 * k)).len() > 0,
        words_nibbles(full_words(b - a, 2 * k))[0] != START_OF_COLUMN,
{
    let d = b - a;
    let ws = full_words(d, 2 * k);
    lemma_full_words_read(d, 2 * k);
    lemma_words_nibbles_first(ws);
    if k == 8 {
        let x = d as i16;
        assert(-256 < x < 256);
        assert(-256 < x < 256 ==> ((((x as u16) >> 8u16) as u8) >> 4u8 == 0 || (((x as u16)
            >> 8u16) as u8) >> 4u8 == 15)) by (bit_vector);
    } else if k == 16 {
        let x = d as i32;
        assert(-65536 < x < 65536);
        assert(-65536 < x < 65536 ==> ((((x as u32) >> 28u32) & 0x0f) as u8 == 0 || (((x as u32)
            >> 28u32) & 0x0f) as u8 == 15)) by (bit_vector);
        assert(word_nibbles(ws[0])[0] == full_nibble(x as u32, 0));
    } else if k == 32 {
        let x = d as i64;
        assert(-0x1_0000_0000 < x < 0x1_0000_0000);
        let hi = ((x as u64) >> 32u64) as u32;
        assert(-0x1_0000_0000 < x < 0x1_0000_0000 ==> (((((x as u64) >> 32u64) as u32) >> 28u32)
            & 0x0f) as u8 == 0 || (((((x as u64) >> 32u64) as u32) >> 28u32) & 0x0f) as u8 == 15)
            by (bit_vector);
        assert(word_nibbles(ws[0])[0] == full_nibble(hi, 0));
    } else {
        let x = d as i128;
        assert(-0x1_0000_0000_0000_0000 < x < 0x1_0000_0000_0000_0000);
        let hi = ((x as u128) >> 96u128) as u32;
        assert(-0x1_0000_0000_0000_0000 < x < 0x1_0000_0000_0000_0000 ==> (((((x as u128)
            >> 96u128) as u32) >> 28u32) & 0x0f) as u8 == 0 || (((((x as u128) >> 96u128) as u32)
            >> 28u32) & 0x0f) as u8 == 15) by (bit_vector);
        assert(word_nibbles(ws[0])[0] == full_nibble(hi, 0));
    }
}

/// The differences of consecutive values.
pub open spec fn diffs(xs: Seq<int>) -> Seq<int> {
    Seq::new((xs.len() - 1) as nat, |i: int| xs[i + 1] - xs[i])
}

/// Adding the differences one by one to the first value gives the values
/// back, each sum within twice the width.
proof fn lemma_scan_diffs(xs: Seq<int>, k: nat)
    requires
        k == 8 || k == 16 || k == 32 || k == 64,
        xs.len() >= 1,
        forall|i: int| 0 <= i < xs.len() ==> in_width(#[trigger] xs[i], k),
    ensures
        scan(xs[0], diffs(xs), k) == xs.skip(1),
        scan_ok(xs[0], diffs(xs), k),
    decreases xs.len(),
{
    if xs.len() == 1 {
        assert(diffs(xs) =~= Seq::<int>::empty());
        assert(xs.skip(1) =~= Seq::<int>::empty());
    } else {
        let p = xs.drop_last();
        assert forall|i: int| 0 <= i < p.len() implies in_width(#[trigger] p[i], k) by {
            assert(p[i] == xs[i]);
        }
        lemma_scan_diffs(p, k);
        assert(diffs(xs).drop_last() =~= diffs(p));
        assert(p.skip(1) =~= xs.skip(1).drop_last());
        let n = xs.len();
        assert(scan_last(xs[0], scan(xs[0], diffs(p), k)) == xs[n - 2]);
        assert(in_width(xs[n - 1], k));
        assert(in_width(xs[n - 2], k));
        assert(wrap_signed(xs[n - 1], k) == xs[n - 1]);
        assert(scan(xs[0], diffs(xs), k) =~= xs.skip(1));
    }
}

/// The head of a column read: the first value from `k / 4` nibbles, the first
/// delta from the next `k / 2`, then the blocks.
proof fn lemma_column_read_head(n1: Seq<u8>, n2: Seq<u8>, rest: Seq<u8>, k: nat)
    requires
        k == 8 || k == 16 || k == 32 || k == 64,
        n1.len() == k / 4,
        n2.len() == k / 2,
        n1[0] != START_OF_COLUMN,
        n2[0] != START_OF_COLUMN,
    ensures
        column_read(n1 + n2 + rest, k) == (
            seq![as_signed(nib_word(n1), k)],
            seq![as_signed(nib_word(n2), 2 * k)] + block_deltas(rest, k).0,
            end_after(block_deltas(rest, k).1, 3 * (k / 4)),
        ),
{
    let s = n1 + n2 + rest;
    let f = k / 4;
    assert(s.take(f as int) =~= n1);
    assert(s[f as int] == n2[0]);
    assert(s.subrange(f as int, 3 * f as int) =~= n2);
    assert(s.skip(3 * f as int) =~= rest);
}

/// The codes of the deltas from the third value on.
pub open spec fn delta_codes(xs: Seq<int>) -> Seq<u64> {
    if xs.len() < 2 {
        Seq::empty()
    } else {
        Seq::new((xs.len() - 2) as nat, |i: int| zigzag(xs[i + 2] - xs[i + 1]) as u64)
    }
}

/// The words of a column of `k`-bit values as the column writer emits them:
/// the first value in full, the first delta in full at twice the width,
/// then the codes of the other deltas in blocks of `counts[0]`, `counts[1]`, ...
pub open spec fn column_words(xs: Seq<int>, counts: Seq<nat>, k: nat) -> Seq<HalfWord> {
    if xs.len() == 0 {
        Seq::empty()
    } else if xs.len() == 1 {
        full_words(xs[0], k)
    } else {
        full_words(xs[0], k) + full_words(xs[1] - xs[0], 2 * k) + blocks_words(
            counts,
            delta_codes(xs),
        )
    }
}

/// The deltas' codes fit the signed width at which the reader takes them.
proof fn lemma_codes_in_signed(xs: Seq<int>, k: nat)
    requires
        k == 8 || k == 16 || k == 32 || k == 64,
        xs.len() >= 2,
        forall|i: int| 0 <= i < xs.len() ==> in_width(#[trigger] xs[i], k),
        forall|i: int| #![trigger xs[i]] 2 <= i < xs.len() ==> in_width(xs[i] - xs[i - 1], 64),
    ensures
        forall|i: int|
            0 <= i < delta_codes(xs).len() ==> in_signed(#[trigger] delta_codes(xs)[i] as int, 2 * k),
        unzigzag_codes(delta_codes(xs)) == diffs(xs).skip(1),
{
    let cs = delta_codes(xs);
    assert forall|i: int| 0 <= i < cs.len() implies in_signed(#[trigger] cs[i] as int, 2 * k)
        && unzigzag(cs[i] as int) == xs[i + 2] - xs[i + 1] by {
        let d = xs[i + 2] - xs[i + 1];
        assert(in_width(xs[i + 2], k) && in_width(xs[i + 1], k));
        assert(in_width(d, 64));
        lemma_unzigzag_zigzag(d);
        assert(0 <= zigzag(d) <= u64::MAX);
        assert(cs[i] as int == zigzag(d));
    }
    assert(unzigzag_codes(cs) =~= diffs(xs).skip(1));
}

/// A column of at least two values, read back.
#[verifier::rlimit(80)]
proof fn lemma_column_roundtrip_long(xs: Seq<int>, counts: Seq<nat>, k: nat, tail: Seq<u8>)
    requires
        k == 8 || k == 16 || k == 32 || k == 64,
        xs.len() >= 2,
        forall|i: int| 0 <= i < xs.len() ==> in_width(#[trigger] xs[i], k),
        forall|i: int| #![trigger xs[i]] 2 <= i < xs.len() ==> in_width(xs[i] - xs[i - 1], 64),
        blocks_valid(counts, delta_codes(xs), k),
        words_nibbles(full_words(xs[0], k))[0] != START_OF_COLUMN,
        tail.len() == 0 || tail[0] == START_OF_COLUMN,
    ensures
        column_read(words_nibbles(column_words(xs, counts, k)) + tail, k) == (
            seq![xs[0]],
            diffs(xs),
            ColumnEnd::Done(
                words_nibbles(column_words(xs, counts, k)).len() + if tail.len() == 0 {
                    0nat
                } else {
                    1nat
                },
            ),
        ),
        scan(xs[0], diffs(xs), k) == xs.skip(1),
        scan_ok(xs[0], diffs(xs), k),
{
    let ws = column_words(xs, counts, k);
    let s = words_nibbles(ws) + tail;
    let e: nat = if tail.len() == 0 {
        0
    } else {
        1
    };
    assert(block_deltas(tail, k) == (Seq::<int>::empty(), ColumnEnd::Done(e)));
    let d1 = xs[1] - xs[0];
    let cs = delta_codes(xs);
    let w1 = full_words(xs[0], k);
    let w2 = full_words(d1, 2 * k);
    let wb = blocks_words(counts, cs);
    let n1 = words_nibbles(w1);
    let n2 = words_nibbles(w2);
    let nb = words_nibbles(wb);
    lemma_words_nibbles_add(w1 + w2, wb);
    lemma_words_nibbles_add(w1, w2);
    assert(s =~= n1 + n2 + (nb + tail));
    lemma_full_words_read(xs[0], k);
    lemma_delta_first_nibble(xs[0], xs[1], k);
    lemma_full_words_read(d1, 2 * k);
    lemma_column_read_head(n1, n2, nb + tail, k);
    lemma_codes_in_signed(xs, k);
    lemma_blocks_read(counts, cs, tail, k);
    assert(seq![d1] + (unzigzag_codes(cs) + Seq::<int>::empty()) =~= diffs(xs));
    lemma_scan_diffs(xs, k);
}

/// A column that the column writer emits is read back whole: its values,
/// ended by the end of the nibbles or by the next column's tag. It fails only
/// where the first value's top nibble is `START_OF_COLUMN`, which the reader
/// takes for the next column, and, in a 64-bit column, where a delta after
/// the first leaves the 64-bit range of the queued codes.
pub proof fn lemma_column_roundtrip(xs: Seq<int>, counts: Seq<nat>, k: nat, tail: Seq<u8>)
    requires
        k == 8 || k == 16 || k == 32 || k == 64,
        forall|i: int| 0 <= i < xs.len() ==> in_width(#[trigger] xs[i], k),
        forall|i: int| #![trigger xs[i]] 2 <= i < xs.len() ==> in_width(xs[i] - xs[i - 1], 64),
        xs.len() >= 2 ==> blocks_valid(counts, delta_codes(xs), k),
        xs.len() > 0 ==> words_nibbles(full_words(xs[0], k))[0] != START_OF_COLUMN,
        tail.len() == 0 || tail[0] == START_OF_COLUMN,
    ensures
        ({
            let s = words_nibbles(column_words(xs, counts, k)) + tail;
            &&& column_decodable(s, k)
            &&& column_values(s, k) == xs
            &&& column_end(s, k) == ColumnEnd::Done(
                words_nibbles(column_words(xs, counts, k)).len() + if tail.len() == 0 {
                    0nat
                } else {
                    1nat
                },
            )
        }),
{
    let ws = column_words(xs, counts, k);
    let s = words_nibbles(ws) + tail;
    let f = k / 4;
    if xs.len() == 0 {
        assert(words_nibbles(Seq::<HalfWord>::empty()) == Seq::<u8>::empty());
        assert(s =~= tail);
    } else if xs.len() == 1 {
        lemma_full_words_read(xs[0], k);
        let n1 = words_nibbles(full_words(xs[0], k));
        assert(s.take(f as int) =~= n1);
        assert(s.len() > f ==> s[f as int] == tail[0]);
        assert(xs =~= seq![xs[0]]);
    } else {
        lemma_column_roundtrip_long(xs, counts, k, tail);
        assert(seq![xs[0]] + xs.skip(1) =~= xs);
    }
}

} // verus!
