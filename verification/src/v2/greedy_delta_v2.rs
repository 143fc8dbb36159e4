//! A first-in, first-out queue of column values, full at `N` values.

use vstd::prelude::*;
use std::collections::VecDeque;

verus! {

/// A first-in, first-out queue that counts as full once it holds `N` values.
pub struct Queue<T, const N: usize> {
    pub(crate) data: VecDeque<T>,
}

impl<T, const N: usize> View for Queue<T, N> {
    type V = Seq<T>;

    /// The values held, oldest first.
    closed spec fn view(&self) -> Seq<T> {
        self.data@
    }
}

impl<T, const N: usize> Queue<T, N> {
    /// An empty queue, with room for `N` values.
    pub fn new() -> (r: Self)
        ensures
            r@ == Seq::<T>::empty(),
    {
        Queue { data: VecDeque::with_capacity(N) }
    }

    /// True when the queue holds `N` values or more.
    pub fn is_full(&mut self) -> (r: bool)
        ensures
            r == (old(self)@.len() >= N),
            final(self)@ == old(self)@,
    {
        if self.data.len() >= N {
            return true;
        }
        return false;
    }

    /// Appends a value after the others.
    pub fn push(&mut self, value: T)
        ensures
            final(self)@ == old(self)@.push(value),
    {
        self.data.push_back(value);
    }

    /// Takes the oldest value, or `None` when the queue is empty.
    pub fn pop(&mut self) -> (r: Option<T>)
        ensures
            old(self)@.len() == 0 ==> r is None && final(self)@ == old(self)@,
            old(self)@.len() > 0 ==> r == Some(old(self)@[0]) && final(self)@ == old(
                self,
            )@.drop_first(),
    {
        let r = self.data.pop_front();
        proof {
            if old(self)@.len() > 0 {
                assert(old(self)@.subrange(1, old(self)@.len() as int) =~= old(self)@.drop_first());
            }
        }
        r
    }
}

/// What goes in first comes out first: values pushed onto an empty queue are
/// popped in the order they were pushed.
pub proof fn lemma_queue_fifo<T>(held: Seq<T>, value: T)
    ensures
        held.len() > 0 ==> held.push(value)[0] == held[0] && held.push(value).drop_first()
            == held.drop_first().push(value),
        held.len() == 0 ==> held.push(value)[0] == value && held.push(value).drop_first()
            == held,
{
    if held.len() > 0 {
        assert(held.push(value).drop_first() =~= held.drop_first().push(value));
    } else {
        assert(held.push(value).drop_first() =~= held);
    }
}

} // verus!
