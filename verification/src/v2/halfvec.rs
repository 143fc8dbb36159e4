//! A growable sequence of nibbles, held as half-bytes, bytes and 32-bit words.

use vstd::prelude::*;
use crate::v2::consts::headers::START_OF_COLUMN;

verus! {

/// Bits collected into one word: a nibble, a byte, or 32 bits.
#[derive(Debug, PartialEq)]
pub enum HalfWord {
    /// The low four bits are used.
    Half(u8),
    /// All eight bits are used.
    Byte(u8),
    /// All thirty-two bits are used.
    Full(u32),
}

/// The nibbles of a word, most significant first.
pub open spec fn word_nibbles(w: HalfWord) -> Seq<u8> {
    match w {
        HalfWord::Half(v) => seq![v & 0x0f],
        HalfWord::Byte(v) => seq![v >> 4u8, v & 0x0f],
        HalfWord::Full(v) => Seq::new(8, |i: int| full_nibble(v, i)),
    }
}

/// Nibble `i` of `v`, counting from the most significant.
pub open spec fn full_nibble(v: u32, i: int) -> u8 {
    ((v >> ((28 - 4 * i) as u32)) & 0x0f) as u8
}

/// The nibbles of the words, in order.
pub open spec fn words_nibbles(ws: Seq<HalfWord>) -> Seq<u8>
    decreases ws.len(),
{
    if ws.len() == 0 {
        Seq::empty()
    } else {
        words_nibbles(ws.drop_last()) + word_nibbles(ws.last())
    }
}

impl HalfWord {
    /// The number of nibbles in the word.
    pub fn len(&self) -> (r: usize)
        ensures
            r == word_nibbles(*self).len(),
    {
        match self {
            HalfWord::Half(_) => 1,
            HalfWord::Byte(_) => 2,
            HalfWord::Full(_) => 8,
        }
    }
}

/// A dynamic vector of nibbles. Pushing is cheap; all nibbles are packed into
/// bytes together by `finish`.
#[derive(Debug, PartialEq)]
pub struct HalfVec {
    words: Vec<HalfWord>,
    len: usize,
}

impl View for HalfVec {
    type V = Seq<HalfWord>;

    closed spec fn view(&self) -> Seq<HalfWord> {
        self.words@
    }
}

impl HalfVec {
    #[verifier::type_invariant]
    spec fn len_counts_nibbles(self) -> bool {
        self.len == words_nibbles(self.words@).len()
    }

    /// The nibbles held, in order.
    pub open spec fn nibbles(&self) -> Seq<u8> {
        words_nibbles(self@)
    }

    /// An empty vector with room for `capacity` words.
    pub fn new(capacity: usize) -> (r: Self)
        ensures
            r@ == Seq::<HalfWord>::empty(),
    {
        HalfVec { words: Vec::with_capacity(capacity), len: 0 }
    }

    /// The number of nibbles held.
    pub fn len(&self) -> (r: usize)
        ensures
            r == self.nibbles().len(),
    {
        proof {
            use_type_invariant(self);
        }
        self.len
    }

    /// True when no nibble is held.
    pub fn is_empty(&self) -> (r: bool)
        ensures
            r == (self.nibbles().len() == 0),
    {
        proof {
            use_type_invariant(self);
        }
        self.len == 0
    }

    /// Removes every word; the capacity may stay.
    pub fn clear(&mut self)
        ensures
            final(self)@ == Seq::<HalfWord>::empty(),
    {
        *self = HalfVec { words: Vec::new(), len: 0 };
    }

    /// Appends a word.
    pub fn push(&mut self, value: HalfWord)
        requires
            old(self).nibbles().len() + 8 <= usize::MAX,
        ensures
            final(self)@ == old(self)@.push(value),
            final(self).nibbles() == old(self).nibbles() + word_nibbles(value),
    {
        proof {
            use_type_invariant(&*self);
        }
        let n = value.len();
        let mut taken = HalfVec { words: Vec::new(), len: 0 };
        std::mem::swap(self, &mut taken);
        proof {
            use_type_invariant(&taken);
        }
        let HalfVec { mut words, len } = taken;
        let ghost ws = words@;
        words.push(value);
        proof {
            assert(words@.drop_last() =~= ws);
        }
        *self = HalfVec { words, len: len + n };
        proof {
            assert(self@.drop_last() =~= old(self)@);
        }
    }
}


/// The nibbles of each list's words, list after list.
pub open spec fn lists_nibbles(ls: Seq<&HalfVec>) -> Seq<u8>
    decreases ls.len(),
{
    if ls.len() == 0 {
        Seq::empty()
    } else {
        lists_nibbles(ls.drop_last()) + ls.last().nibbles()
    }
}

/// Bytes from nibbles, two per byte and high nibble first; an odd last
/// nibble is paired with `START_OF_COLUMN`.
pub open spec fn pack_nibbles(n: Seq<u8>) -> Seq<u8> {
    Seq::new(
        ((n.len() + 1) / 2) as nat,
        |i: int|
            (n[2 * i] << 4u8) | (if 2 * i + 1 < n.len() {
                n[2 * i + 1]
            } else {
                START_OF_COLUMN
            }),
    )
}

/// Every nibble is below 16.
pub open spec fn all_nibbles(n: Seq<u8>) -> bool {
    forall|i: int| 0 <= i < n.len() ==> #[trigger] n[i] < 16
}

pub proof fn lemma_word_nibbles_small(w: HalfWord)
    ensures
        all_nibbles(word_nibbles(w)),
{
    match w {
        HalfWord::Half(v) => {
            assert(v & 0x0f < 16) by (bit_vector);
        },
        HalfWord::Byte(v) => {
            assert(v >> 4u8 < 16 && v & 0x0f < 16) by (bit_vector);
        },
        HalfWord::Full(v) => {
            assert forall|i: int| 0 <= i < 8 implies #[trigger] full_nibble(v, i) < 16 by {
                let k = (28 - 4 * i) as u32;
                assert(((v >> k) & 0x0f) < 16) by (bit_vector);
            }
        },
    }
}

proof fn lemma_pack_push_pair(d: Seq<u8>, a: u8, b: u8)
    requires
        d.len() % 2 == 0,
    ensures
        pack_nibbles(d.push(a).push(b)) == pack_nibbles(d).push((a << 4u8) | b),
{
    assert(pack_nibbles(d.push(a).push(b)) =~= pack_nibbles(d).push((a << 4u8) | b));
}

proof fn lemma_pack_push_last(d: Seq<u8>, a: u8)
    requires
        d.len() % 2 == 0,
    ensures
        pack_nibbles(d.push(a)) == pack_nibbles(d).push((a << 4u8) | START_OF_COLUMN),
{
    assert(pack_nibbles(d.push(a)) =~= pack_nibbles(d).push((a << 4u8) | START_OF_COLUMN));
}

/// Packing state: nibbles consumed so far, and the high nibble waiting for its pair.
struct Packer {
    upper: bool,
    byte: u8,
}

impl Packer {
    spec fn holds(&self, done: Seq<u8>, start: Seq<u8>, out: Seq<u8>) -> bool {
        &&& all_nibbles(done)
        &&& self.upper <==> done.len() % 2 == 0
        &&& self.upper ==> out == start + pack_nibbles(done)
        &&& !self.upper ==> out == start + pack_nibbles(done.drop_last()) && self.byte == done.last()
            << 4u8
    }

    fn feed(&mut self, out: &mut Vec<u8>, nib: u8, Ghost(done): Ghost<Seq<u8>>, Ghost(start): Ghost<Seq<u8>>)
        requires
            old(self).holds(done, start, old(out)@),
            nib < 16,
        ensures
            final(self).holds(done.push(nib), start, final(out)@),
    {
        if self.upper {
            self.byte = nib << 4;
            self.upper = false;
            assert(done.push(nib).drop_last() =~= done);
        } else {
            let b = self.byte | nib;
            out.push(b);
            self.upper = true;
            proof {
                lemma_pack_push_pair(done.drop_last(), done.last(), nib);
                assert(done.drop_last().push(done.last()).push(nib) =~= done.push(nib));
            }
        }
    }
}

impl HalfVec {
    /// Packs the nibbles of all the lists, in order, into bytes appended to `out`.
    pub fn finish(out: &mut Vec<u8>, word_lists: &[&HalfVec])
        ensures
            final(out)@ == old(out)@ + pack_nibbles(lists_nibbles(word_lists@)),
    {
        let ghost start = out@;
        let mut p = Packer { upper: true, byte: 0 };
        let ghost mut done: Seq<u8> = Seq::empty();
        assert(pack_nibbles(done) =~= Seq::<u8>::empty());
        let mut l: usize = 0;
        while l < word_lists.len()
            invariant
                l <= word_lists@.len(),
                done == lists_nibbles(word_lists@.take(l as int)),
                p.holds(done, start, out@),
            decreases word_lists.len() - l,
        {
            let list = word_lists[l];
            let ghost before = done;
            let mut j: usize = 0;
            while j < list.words.len()
                invariant
                    j <= list.words@.len(),
                    done == before + words_nibbles(list.words@.take(j as int)),
                    p.holds(done, start, out@),
                decreases list.words.len() - j,
            {
                let ghost mid = done;
                let w = &list.words[j];
                proof {
                    lemma_word_nibbles_small(*w);
                }
                match w {
                    HalfWord::Half(v) => {
                        assert(word_nibbles(*w)[0] == *v & 0x0f);
                        p.feed(out, *v & 0x0f, Ghost(done), Ghost(start));
                        proof {
                            done = done.push(*v & 0x0f);
                        }
                    },
                    HalfWord::Byte(v) => {
                        assert(word_nibbles(*w)[0] == *v >> 4u8);
                        assert(word_nibbles(*w)[1] == *v & 0x0f);
                        p.feed(out, *v >> 4, Ghost(done), Ghost(start));
                        proof {
                            done = done.push(*v >> 4u8);
                        }
                        p.feed(out, *v & 0x0f, Ghost(done), Ghost(start));
                        proof {
                            done = done.push(*v & 0x0f);
                        }
                    },
                    HalfWord::Full(v) => {
                        let mut i: u32 = 0;
                        while i < 8
                            invariant
                                i <= 8,
                                done == mid + Seq::new(i as nat, |k: int| full_nibble(*v, k)),
                                p.holds(done, start, out@),
                                all_nibbles(word_nibbles(HalfWord::Full(*v))),
                            decreases 8 - i,
                        {
                            let nib = ((*v >> (28 - 4 * i)) & 0x0f) as u8;
                            assert(nib == full_nibble(*v, i as int));
                            assert(word_nibbles(HalfWord::Full(*v))[i as int] == nib);
                            p.feed(out, nib, Ghost(done), Ghost(start));
                            proof {
                                done = done.push(nib);
                                assert(done =~= mid + Seq::new((i + 1) as nat, |k: int| full_nibble(*v, k)));
                            }
                            i += 1;
                        }
                    },
                }
                proof {
                    assert(list.words@.take(j + 1).drop_last() =~= list.words@.take(j as int));
                    assert(done =~= before + words_nibbles(list.words@.take(j + 1)));
                }
                j += 1;
            }
            proof {
                assert(list.words@.take(j as int) =~= list.words@);
                assert(word_lists@.take(l + 1).drop_last() =~= word_lists@.take(l as int));
            }
            l += 1;
        }
        proof {
            assert(word_lists@.take(l as int) =~= word_lists@);
        }
        if !p.upper {
            out.push(p.byte | START_OF_COLUMN);
            proof {
                lemma_pack_push_last(done.drop_last(), done.last());
                assert(done.drop_last().push(done.last()) =~= done);
            }
        }
    }
}

} // verus!
