//! The queue: the FIFO collection with an `Option`-shaped face.
//!
//! Enqueue appends at the tail; dequeue removes at the head and returns
//! `None` exactly when the queue holds nothing; emptiness is decided by
//! looking at the sentinel's successor, the same check a dequeue makes.

use crate::fifo::{Fifo, FifoIter};
use vstd::prelude::*;

verus! {

pub struct LockFreeQueue<T> {
    fifo: Fifo<T>,
}

impl<T> View for LockFreeQueue<T> {
    type V = Seq<T>;

    /// The elements held, oldest first.
    closed spec fn view(&self) -> Seq<T> {
        self.fifo.contents()
    }
}

impl<T> LockFreeQueue<T> {
    pub closed spec fn wf(&self) -> bool {
        self.fifo.wf()
    }

    pub fn new() -> (q: LockFreeQueue<T>)
        ensures
            q.wf(),
            q@ == Seq::<T>::empty(),
    {
        LockFreeQueue { fifo: Fifo::new() }
    }

    /// Append `value` at the tail; never blocks, never fails.
    pub fn enqueue(&mut self, value: T)
        requires
            old(self).wf(),
        ensures
            final(self).wf(),
            final(self)@ == old(self)@.push(value),
    {
        self.fifo.push(value);
    }

    /// Remove the oldest element, `None` exactly when the queue holds
    /// nothing.
    pub fn dequeue(&mut self) -> (r: Option<T>)
        requires
            old(self).wf(),
        ensures
            final(self).wf(),
            match r {
                Some(v) => {
                    &&& old(self)@.len() > 0
                    &&& v == old(self)@[0]
                    &&& final(self)@ == old(self)@.drop_first()
                },
                None => {
                    &&& old(self)@.len() == 0
                    &&& final(self)@ == old(self)@
                },
            },
    {
        self.fifo.pop()
    }

    /// Emptiness, decided exactly as a dequeue decides it.
    pub fn is_empty(&self) -> (b: bool)
        requires
            self.wf(),
        ensures
            b <==> self@.len() == 0,
    {
        self.fifo.is_empty()
    }

    /// Borrow the oldest element without removing it; not a stable snapshot.
    pub fn peek(&self) -> (r: Option<&T>)
        requires
            self.wf(),
        ensures
            match r {
                Some(v) => self@.len() > 0 && *v == self@[0],
                None => self@.len() == 0,
            },
    {
        self.fifo.peek()
    }

    /// A copy of the whole queue: a fresh chain holding a clone of each
    /// element, in the same delivery order; the source is untouched.
    pub fn duplicate(&self) -> (q: Self) where T: Clone
        requires
            self.wf(),
        ensures
            q.wf(),
            q@.len() == self@.len(),
            forall|k: int| 0 <= k < self@.len() ==> cloned::<T>(self@[k], #[trigger] q@[k]),
    {
        LockFreeQueue { fifo: self.fifo.duplicate() }
    }

    /// Start a read-only walk over the chain, oldest element first.
    pub fn iter<'a>(&'a self) -> (it: Iter<'a, T>)
        requires
            self.wf(),
        ensures
            it.wf(),
            it.elements() == self@,
            it.pos() == 0,
    {
        Iter { inner: self.fifo.iter() }
    }
}

impl<T> Default for LockFreeQueue<T> {
    /// A fresh, empty queue.
    fn default() -> (q: Self)
        ensures
            q.wf(),
            q@ == Seq::<T>::empty(),
    {
        LockFreeQueue::new()
    }
}

/// A read-only walk over the queue's chain, oldest element first; it stops
/// cleanly at the chain's terminator. Valid only while no removal runs on
/// the queue.
pub struct Iter<'a, T> {
    inner: FifoIter<'a, T>,
}

impl<'a, T> Iter<'a, T> {
    /// The elements the walk ranges over.
    pub closed spec fn elements(&self) -> Seq<T> {
        self.inner.src().contents()
    }

    /// How many elements the walk has yielded.
    pub closed spec fn pos(&self) -> int {
        self.inner.pos()
    }

    pub closed spec fn wf(&self) -> bool {
        self.inner.wf()
    }

    /// Yield a reference to the element at the walk's position and advance.
    pub fn next(&mut self) -> (r: Option<&'a T>)
        requires
            old(self).wf(),
        ensures
            final(self).wf(),
            final(self).elements() == old(self).elements(),
            match r {
                Some(v) => {
                    &&& old(self).pos() < old(self).elements().len()
                    &&& *v == old(self).elements()[old(self).pos()]
                    &&& final(self).pos() == old(self).pos() + 1
                },
                None => {
                    &&& old(self).pos() == old(self).elements().len()
                    &&& final(self).pos() == old(self).pos()
                },
            },
    {
        self.inner.next()
    }
}

} // verus!
