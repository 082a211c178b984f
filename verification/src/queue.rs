//! The queue facade: a uniform FIFO interface over three interchangeable
//! storage strategies, chosen once per logical queue at startup.

mod in_memory;
mod json_file;

pub use in_memory::InMemoryQueue;
pub use json_file::CachedJsonFileQueue;
pub use json_file::JsonFileQueue;

use vstd::prelude::*;

use crate::codec::{copy_bytes, loaded, Record};

verus! {

/// A FIFO queue backed by one of the available strategies.  All three behave
/// identically up to durability: elements join at the tail and leave at the
/// head, oldest first.
pub enum Queue<T: Record> {
    InMemory(InMemoryQueue<T>),
    JsonFile(JsonFileQueue<T>),
    CachedJsonFile(CachedJsonFileQueue<T>),
}

impl<T: Record> View for Queue<T> {
    type V = Seq<T::V>;

    open spec fn view(&self) -> Seq<T::V> {
        match self {
            Queue::InMemory(q) => q@,
            Queue::JsonFile(q) => q@,
            Queue::CachedJsonFile(q) => q@,
        }
    }
}

impl<T: Record> Queue<T> {
    /// Removes and returns the first element of the queue, if there is one.
    pub fn dequeue(&mut self) -> (r: Option<T>)
        ensures
            match r {
                Some(t) => old(self)@.len() > 0 && t@ == old(self)@[0] && final(self)@ == old(
                    self,
                )@.drop_first(),
                None => old(self)@.len() == 0 && final(self)@ == old(self)@,
            },
    {
        match self {
            Queue::InMemory(q) => q.dequeue(),
            Queue::JsonFile(q) => q.dequeue(),
            Queue::CachedJsonFile(q) => q.dequeue(),
        }
    }

    /// Appends an element at the tail of the queue and returns the new queue
    /// length; the element's one-based queue position equals that length.
    pub fn enqueue(&mut self, item: T) -> (n: usize)
        ensures
            final(self)@ == old(self)@.push(item@),
            n == final(self)@.len(),
    {
        match self {
            Queue::InMemory(q) => q.enqueue(item),
            Queue::JsonFile(q) => q.enqueue(item),
            Queue::CachedJsonFile(q) => q.enqueue(item),
        }
    }

    /// The file contents to persist after a mutation: `None` for the
    /// in-memory strategy, otherwise bytes that load back to the queue's
    /// current state.
    pub fn file_image(&self) -> (r: Option<Vec<u8>>)
        ensures
            match r {
                Some(img) => loaded::<T>(img@) == self@,
                None => self is InMemory,
            },
    {
        match self {
            Queue::InMemory(_) => None,
            Queue::JsonFile(q) => Some(copy_bytes(q.file_image())),
            Queue::CachedJsonFile(q) => Some(q.file_image()),
        }
    }
}

/// FIFO order: an element enqueued earlier leaves earlier.  After
/// `enqueue(a)` then `enqueue(b)` on a queue holding `q`, `a` sits in front
/// of `b`, and `dequeue` (which always returns the head and drops it) yields
/// `a` strictly before `b`; from an empty queue, the first two dequeues
/// return exactly `a` then `b`.
pub proof fn lemma_fifo_order<T>(q: Seq<T>, a: T, b: T)
    ensures
        q.push(a).push(b)[q.len() as int] == a,
        q.push(a).push(b)[q.len() as int + 1] == b,
        q.len() == 0 ==> q.push(a).push(b)[0] == a && q.push(a).push(b).drop_first()[0] == b
            && q.push(a).push(b).drop_first().drop_first() =~= Seq::<T>::empty(),
{
}

} // verus!
