//! The volatile queue backend.

use std::collections::VecDeque;
use vstd::prelude::*;

use crate::codec::views;

verus! {

/// A queue backed by an in-memory deque: the simplest and fastest strategy,
/// with no persistence — its contents are lost when the process exits.
pub struct InMemoryQueue<T: View> {
    items: VecDeque<T>,
}

impl<T: View> View for InMemoryQueue<T> {
    type V = Seq<T::V>;

    closed spec fn view(&self) -> Seq<T::V> {
        views(self.items@)
    }
}

impl<T: View> InMemoryQueue<T> {
    /// Creates a new, empty queue.
    pub fn new() -> (r: Self)
        ensures
            r@ == Seq::<T::V>::empty(),
    {
        let q = InMemoryQueue { items: VecDeque::new() };
        proof {
            assert(q@ =~= Seq::<T::V>::empty());
        }
        q
    }

    /// Removes and returns the first element of the queue, if there is one.
    pub fn dequeue(&mut self) -> (r: Option<T>)
        ensures
            match r {
                Some(t) => old(self)@.len() > 0 && t@ == old(self)@[0] && final(self)@ == old(
                    self,
                )@.drop_first(),
                None => old(self)@.len() == 0 && final(self)@ == old(self)@,
            },
    {
        let r = self.items.pop_front();
        proof {
            if old(self).items@.len() > 0 {
                assert(self@ =~= old(self)@.drop_first());
            }
        }
        r
    }

    /// Appends an element at the tail and returns the new queue length.
    pub fn enqueue(&mut self, item: T) -> (n: usize)
        ensures
            final(self)@ == old(self)@.push(item@),
            n == final(self)@.len(),
    {
        self.items.push_back(item);
        proof {
            assert(self@ =~= old(self)@.push(item@));
        }
        self.items.len()
    }
}

} // verus!
