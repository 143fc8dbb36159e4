//! A fixed ring buffer of zigzag codes, each with its bit count, used while
//! compressing one column.

use vstd::prelude::*;
use crate::delta_zigzag::zigzag;
use crate::v2::encode::{Bits, bit_len};

verus! {

/// A ring buffer of at most 16 zigzag codes; `N` is the length at which it
/// counts as full.
#[derive(Debug)]
pub struct CompressionQueue<const N: usize> {
    zigzag: [u64; 16],
    bitcount: [usize; 16],
    front: usize,
    len: usize,
}

impl<const N: usize> CompressionQueue<N> {
    /// The stored codes, slot by slot (not only the live ones).
    pub closed spec fn slots(&self) -> Seq<u64> {
        self.zigzag@
    }

    /// The stored bit counts, slot by slot.
    pub closed spec fn counts(&self) -> Seq<usize> {
        self.bitcount@
    }

    /// The slot of the oldest code.
    pub closed spec fn front(&self) -> nat {
        self.front as nat
    }

    /// The number of live codes.
    pub closed spec fn size(&self) -> nat {
        self.len as nat
    }

    /// Well-formed: front and length in range, and each slot's count is the
    /// bit length of its code.
    pub closed spec fn wf(&self) -> bool {
        &&& self.front < 16
        &&& self.len <= 16
        &&& forall|j: int| 0 <= j < 16 ==> #[trigger] self.bitcount@[j] as int == bit_len(
            self.zigzag@[j],
        )
    }

    /// The live codes, oldest first.
    pub open spec fn live(&self) -> Seq<u64> {
        Seq::new(self.size(), |i: int| self.slots()[(self.front() + i) % 16])
    }

    /// The counts of the `m` slots from the front on, live or stale.
    pub open spec fn peek_counts(&self, m: nat) -> Seq<usize> {
        Seq::new(m, |i: int| self.counts()[(self.front() + i) % 16])
    }

    /// The count of a live code, seen from the front, is the code's bit length.
    pub proof fn lemma_live_count(&self, m: nat, i: int)
        requires
            self.wf(),
            0 <= i < m,
            i < self.size(),
        ensures
            self.peek_counts(m)[i] as int == bit_len(self.live()[i]),
    {
        let j = (self.front() + i) % 16;
        assert(0 <= j < 16);
        assert(self.bitcount@[j] as int == bit_len(self.zigzag@[j]));
    }

    /// Creates an empty queue.
    pub fn new() -> (r: Self)
        requires
            N <= 16,
        ensures
            r.wf(),
            r.size() == 0,
            r.front() == 0,
            r.slots() == Seq::new(16, |i: int| 0u64),
            r.counts() == Seq::new(16, |i: int| 0usize),
    {
        let zeros: [u64; 16] = [0; 16];
        let counts: [usize; 16] = [0; 16];
        proof {
            vstd::array::axiom_spec_array_fill_for_copy_type::<u64, 16>(0u64);
            vstd::array::axiom_spec_array_fill_for_copy_type::<usize, 16>(0usize);
        }
        let r = CompressionQueue { zigzag: zeros, bitcount: counts, front: 0, len: 0 };
        proof {
            vstd::std_specs::bits::axiom_u64_leading_zeros(0);
            assert(r.zigzag@ =~= Seq::new(16, |i: int| 0u64));
            assert(r.bitcount@ =~= Seq::new(16, |i: int| 0usize));
        }
        r
    }

    /// The number of live codes.
    pub fn len(&self) -> (r: usize)
        ensures
            r == self.size(),
    {
        self.len
    }

    /// True when pushing would go past `N` codes.
    pub fn is_full(&self) -> (r: bool)
        ensures
            r == (self.size() >= N),
    {
        self.len >= N
    }

    /// True when no code is live.
    pub fn is_empty(&self) -> (r: bool)
        ensures
            r == (self.size() == 0),
    {
        self.len == 0
    }

    /// Pushes the zigzag code of `value`, overwriting the oldest code when
    /// all 16 slots are live.
    pub fn push<T: Bits>(&mut self, value: T)
        requires
            old(self).wf(),
        ensures
            final(self).wf(),
            final(self).live() == if old(self).size() < 16 {
                old(self).live().push(zigzag(value.int_value()) as u64)
            } else {
                old(self).live().drop_first().push(zigzag(value.int_value()) as u64)
            },
    {
        let index = (self.front + self.len) % 16;
        self.write(index, value);
        if self.len < 16 {
            self.len += 1;
        } else {
            self.front = (self.front + 1) % 16;
        }
        proof {
            assert(self.live() =~= if old(self).size() < 16 {
                old(self).live().push(zigzag(value.int_value()) as u64)
            } else {
                old(self).live().drop_first().push(zigzag(value.int_value()) as u64)
            });
        }
    }

    /// Pops the oldest code, or `None` when the queue is empty.
    pub fn pop(&mut self) -> (r: Option<u64>)
        requires
            old(self).wf(),
        ensures
            final(self).wf(),
            old(self).size() == 0 ==> r is None && *final(self) == *old(self),
            old(self).size() > 0 ==> r == Some(old(self).live()[0]) && final(self).live() == old(
                self,
            ).live().drop_first(),
            final(self).slots() == old(self).slots(),
            final(self).counts() == old(self).counts(),
    {
        if self.is_empty() {
            return None;
        }
        let value = self.value_at(self.front);
        self.front = (self.front + 1) % 16;
        self.len -= 1;
        proof {
            assert(self.live() =~= old(self).live().drop_first());
        }
        Some(value)
    }

    /// Pops the `m` oldest codes at once.
    pub fn pop_n(&mut self, m: usize) -> (r: Vec<u64>)
        requires
            old(self).wf(),
            m <= old(self).size(),
        ensures
            final(self).wf(),
            r@ == old(self).live().take(m as int),
            final(self).live() == old(self).live().skip(m as int),
            final(self).slots() == old(self).slots(),
            final(self).counts() == old(self).counts(),
    {
        let mut values: Vec<u64> = Vec::new();
        let mut i: usize = 0;
        while i < m
            invariant
                i <= m,
                m <= self.len,
                self.len <= 16,
                self.front < 16,
                self.front == old(self).front,
                self.len == old(self).len,
                self.zigzag == old(self).zigzag,
                values@ == old(self).live().take(i as int),
            decreases m - i,
        {
            let index = (self.front + i) % 16;
            values.push(self.value_at(index));
            proof {
                assert(old(self).live().take(i + 1) =~= old(self).live().take(i as int).push(
                    old(self).live()[i as int],
                ));
            }
            i += 1;
        }
        let ghost f0 = self.front as int;
        self.front = (self.front + m) % 16;
        self.len -= m;
        proof {
            assert forall|i: int| 0 <= i < self.len implies #[trigger] self.zigzag@[(self.front + i)
                % 16] == old(self).zigzag@[(f0 + m + i) % 16] by {
                vstd::arithmetic::div_mod::lemma_add_mod_noop_right(i, f0 + m, 16);
            }
            assert(self.live() =~= old(self).live().skip(m as int));
        }
        values
    }

    /// The counts of the `m` slots from the front on; past the live codes
    /// they are whatever the slots last held.
    pub fn peak_bitcounts(&self, m: usize) -> (r: Vec<usize>)
        requires
            self.wf(),
        ensures
            r@ == self.peek_counts(m as nat),
    {
        let mut values: Vec<usize> = Vec::new();
        let mut i: usize = 0;
        while i < m
            invariant
                i <= m,
                self.front < 16,
                values@ == self.peek_counts(i as nat),
            decreases m - i,
        {
            let index = ((self.front % 16) + (i % 16)) % 16;
            proof {
                assert(index == (self.front + i) % 16) by (nonlinear_arith)
                    requires
                        index == ((self.front % 16) + (i % 16)) % 16,
                ;
            }
            values.push(self.count_at(index));
            proof {
                assert(self.peek_counts((i + 1) as nat) =~= self.peek_counts(i as nat).push(
                    self.counts()[(self.front() + i) % 16],
                ));
            }
            i += 1;
        }
        values
    }

    /// The code in slot `index`.
    fn value_at(&self, index: usize) -> (r: u64)
        requires
            index < 16,
        ensures
            r == self.slots()[index as int],
    {
        self.zigzag[index]
    }

    /// The bit count in slot `index`.
    fn count_at(&self, index: usize) -> (r: usize)
        requires
            index < 16,
        ensures
            r == self.counts()[index as int],
    {
        self.bitcount[index]
    }

    /// Stores the zigzag code of `t` and its bit count in slot `index`.
    fn write<T: Bits>(&mut self, index: usize, t: T)
        requires
            old(self).wf(),
            index < 16,
        ensures
            final(self).wf(),
            final(self).front() == old(self).front(),
            final(self).size() == old(self).size(),
            final(self).slots() == old(self).slots().update(
                index as int,
                zigzag(t.int_value()) as u64,
            ),
    {
        let (zbits, zcount) = t.zigzag_bits();
        self.zigzag[index] = zbits;
        self.bitcount[index] = zcount;
    }
}

} // verus!
