//! The two file-backed queue backends.
//!
//! Reading and writing the backing file is the caller's part: a queue is
//! constructed from the bytes read at startup (an unreadable file counts as
//! empty), and after every mutation the caller persists `file_image`, whose
//! contents always load back to the queue's current state.  A failed write is
//! the caller's to log and ignore: the in-memory state stays authoritative.

use vstd::prelude::*;

use crate::codec::{
    lemma_load_save_round_trip, load_records, loaded, save_records, views, Record,
};

verus! {

/// A queue that re-reads its whole record array on every operation and
/// rewrites it afterwards; nothing is cached between operations.
pub struct JsonFileQueue<T: Record> {
    /// The path of the backing file, for the caller's reads and writes.
    pub path: String,
    disk: Vec<u8>,
    marker: core::marker::PhantomData<T>,
}

impl<T: Record> View for JsonFileQueue<T> {
    type V = Seq<T::V>;

    closed spec fn view(&self) -> Seq<T::V> {
        loaded::<T>(self.disk@)
    }
}

impl<T: Record> JsonFileQueue<T> {
    /// Creates a queue over the given file contents.
    pub fn new(path: String, contents: Vec<u8>) -> (r: Self)
        ensures
            r@ == loaded::<T>(contents@),
    {
        JsonFileQueue { path, disk: contents, marker: core::marker::PhantomData }
    }

    /// The bytes to persist: they always load back to the current state.
    pub fn file_image(&self) -> (r: &Vec<u8>)
        ensures
            loaded::<T>(r@) == self@,
    {
        &self.disk
    }

    /// Removes and returns the first element: the whole array is loaded,
    /// the head record dropped, and the rest serialized again.
    pub fn dequeue(&mut self) -> (r: Option<T>)
        ensures
            match r {
                Some(t) => old(self)@.len() > 0 && t@ == old(self)@[0] && final(self)@ == old(
                    self,
                )@.drop_first(),
                None => old(self)@.len() == 0 && final(self)@ == old(self)@,
            },
    {
        let mut q: Vec<T> = load_records(&self.disk);
        let r = if q.len() == 0 {
            None
        } else {
            Some(q.remove(0))
        };
        proof {
            if old(self)@.len() > 0 {
                assert(views(q@) =~= old(self)@.drop_first());
            } else {
                assert(views(q@) =~= old(self)@);
            }
        }
        self.disk = save_records(&q);
        proof {
            lemma_load_save_round_trip::<T>(views(q@));
        }
        r
    }

    /// Appends an element and returns the new queue length: the whole array
    /// is loaded, extended, and serialized again.
    pub fn enqueue(&mut self, item: T) -> (n: usize)
        ensures
            final(self)@ == old(self)@.push(item@),
            n == final(self)@.len(),
    {
        let ghost iv = item@;
        let mut q: Vec<T> = load_records(&self.disk);
        q.push(item);
        let n = q.len();
        proof {
            assert(views(q@) =~= old(self)@.push(iv));
        }
        self.disk = save_records(&q);
        proof {
            lemma_load_save_round_trip::<T>(views(q@));
        }
        n
    }
}

/// A queue that keeps the whole record array in memory, loaded once at
/// construction; the cache is the source of truth and the file mirrors it.
pub struct CachedJsonFileQueue<T: Record> {
    /// The path of the backing file, for the caller's reads and writes.
    pub path: String,
    cache: Vec<T>,
}

impl<T: Record> View for CachedJsonFileQueue<T> {
    type V = Seq<T::V>;

    closed spec fn view(&self) -> Seq<T::V> {
        views(self.cache@)
    }
}

impl<T: Record> CachedJsonFileQueue<T> {
    /// Creates a queue over the given file contents, loading them once.
    pub fn new(path: String, contents: Vec<u8>) -> (r: Self)
        ensures
            r@ == loaded::<T>(contents@),
    {
        let cache = load_records(&contents);
        CachedJsonFileQueue { path, cache }
    }

    /// The bytes to persist: they always load back to the current state.
    pub fn file_image(&self) -> (r: Vec<u8>)
        ensures
            loaded::<T>(r@) == self@,
    {
        let img = save_records(&self.cache);
        proof {
            lemma_load_save_round_trip::<T>(views(self.cache@));
        }
        img
    }

    /// Removes and returns the first element of the cached array.
    pub fn dequeue(&mut self) -> (r: Option<T>)
        ensures
            match r {
                Some(t) => old(self)@.len() > 0 && t@ == old(self)@[0] && final(self)@ == old(
                    self,
                )@.drop_first(),
                None => old(self)@.len() == 0 && final(self)@ == old(self)@,
            },
    {
        if self.cache.len() == 0 {
            None
        } else {
            let t = self.cache.remove(0);
            proof {
                assert(self@ =~= old(self)@.drop_first());
            }
            Some(t)
        }
    }

    /// Appends an element to the cached array and returns the new length.
    pub fn enqueue(&mut self, item: T) -> (n: usize)
        ensures
            final(self)@ == old(self)@.push(item@),
            n == final(self)@.len(),
    {
        let ghost iv = item@;
        self.cache.push(item);
        proof {
            assert(self@ =~= old(self)@.push(iv));
        }
        self.cache.len()
    }
}

} // verus!
