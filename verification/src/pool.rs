//! The pool: a FIFO collection with a `Result`-shaped face and a best-effort
//! element counter.
//!
//! Insertion appends at the tail and never fails; removal detaches at the
//! head and reports `PoolError::Empty` exactly when the pool holds nothing.
//! The batch operations amortise the per-element commit cost; a drain hands
//! the whole contents out, oldest first.

use crate::fifo::{Fifo, FifoIter};
use vstd::prelude::*;

verus! {

/// The only failure a removal can report: the pool was observed empty.
#[derive(Clone, Copy, Debug, PartialEq, Eq, Structural)]
pub enum PoolError {
    Empty,
}

pub struct ConcurrentPool<T> {
    fifo: Fifo<T>,
}

impl<T> View for ConcurrentPool<T> {
    type V = Seq<T>;

    /// The elements held, oldest first.
    closed spec fn view(&self) -> Seq<T> {
        self.fifo.contents()
    }
}

impl<T> ConcurrentPool<T> {
    pub closed spec fn wf(&self) -> bool {
        self.fifo.wf()
    }

    pub fn new() -> (p: ConcurrentPool<T>)
        ensures
            p.wf(),
            p@ == Seq::<T>::empty(),
    {
        ConcurrentPool { fifo: Fifo::new() }
    }

    /// Append `val`; insertion never fails (allocation exhaustion aborts).
    pub fn push(&mut self, val: T) -> (r: Result<(), T>)
        requires
            old(self).wf(),
        ensures
            final(self).wf(),
            r is Ok,
            final(self)@ == old(self)@.push(val),
    {
        self.fifo.push(val);
        Ok(())
    }

    /// Remove the oldest element; `PoolError::Empty` exactly when the pool
    /// holds nothing.
    pub fn pop(&mut self) -> (r: Result<T, PoolError>)
        requires
            old(self).wf(),
        ensures
            final(self).wf(),
            match r {
                Ok(v) => {
                    &&& old(self)@.len() > 0
                    &&& v == old(self)@[0]
                    &&& final(self)@ == old(self)@.drop_first()
                },
                Err(e) => {
                    &&& old(self)@.len() == 0
                    &&& final(self)@ == old(self)@
                    &&& e == PoolError::Empty
                },
            },
    {
        match self.fifo.pop() {
            Some(v) => Ok(v),
            None => Err(PoolError::Empty),
        }
    }

    /// Borrow the oldest element without removing it; not a stable snapshot.
    pub fn peek(&self) -> (r: Option<&T>)
        requires
            self.wf(),
        ensures
            match r {
                Some(v) => self@.len() > 0 && *v == self@[0],
                None => self@.len() == 0,
            },
    {
        self.fifo.peek()
    }

    /// Drain by repeated removal; not atomic as a whole.
    pub fn clear(&mut self)
        requires
            old(self).wf(),
        ensures
            final(self).wf(),
            final(self)@ == Seq::<T>::empty(),
    {
        loop
            invariant
                self.wf(),
            decreases self@.len(),
        {
            match self.pop() {
                Ok(_) => {},
                Err(_) => {
                    proof {
                        assert(self@ =~= Seq::<T>::empty());
                    }
                    return ;
                },
            }
        }
    }

    /// Emptiness, read off the element counter.
    pub fn is_empty(&self) -> (b: bool)
        requires
            self.wf(),
        ensures
            b <==> self@.len() == 0,
    {
        self.len() == 0
    }

    /// The element count, adjusted on every successful insert and remove.
    pub fn len(&self) -> (n: usize)
        requires
            self.wf(),
        ensures
            n == self@.len(),
    {
        self.fifo.length()
    }

    /// Remove the oldest element, `None` when the pool holds nothing.
    pub fn try_pop(&mut self) -> (r: Option<T>)
        requires
            old(self).wf(),
        ensures
            final(self).wf(),
            match r {
                Some(v) => {
                    &&& old(self)@.len() > 0
                    &&& v == old(self)@[0]
                    &&& final(self)@ == old(self)@.drop_first()
                },
                None => {
                    &&& old(self)@.len() == 0
                    &&& final(self)@ == old(self)@
                },
            },
    {
        self.pop().ok()
    }

    /// Append every element of `items`, in order; reports how many were
    /// inserted, which is all of them.
    pub fn push_range(&mut self, items: Vec<T>) -> (count: usize)
        requires
            old(self).wf(),
        ensures
            final(self).wf(),
            count == items@.len(),
            final(self)@ == old(self)@ + items@,
    {
        let ghost orig: Seq<T> = items@;
        let n = items.len();
        let mut items = items;
        let mut pushed: usize = 0;
        proof {
            assert(self@ =~= old(self)@ + orig.take(0));
        }
        while items.len() > 0
            invariant
                self.wf(),
                pushed + items@.len() == orig.len(),
                items@ == orig.skip(pushed as int),
                self@ == old(self)@ + orig.take(pushed as int),
                n == orig.len(),
            decreases items@.len(),
        {
            let v = items.remove(0);
            let ghost p = pushed as int;
            let _ = self.push(v);
            pushed = pushed + 1;
            proof {
                assert(v == orig[p]);
                assert(items@ =~= orig.skip(p + 1));
                assert(self@ =~= old(self)@ + orig.take(p + 1));
            }
        }
        proof {
            assert(orig.take(orig.len() as int) =~= orig);
        }
        pushed
    }

    /// Remove up to `n` of the oldest elements, in delivery order; fewer if
    /// the pool runs out first.
    pub fn pop_range(&mut self, n: usize) -> (r: Vec<T>)
        requires
            old(self).wf(),
        ensures
            final(self).wf(),
            r@ == old(self)@.take(vstd::math::min(n as int, old(self)@.len() as int)),
            final(self)@ == old(self)@.skip(vstd::math::min(n as int, old(self)@.len() as int)),
    {
        let mut result: Vec<T> = Vec::new();
        let mut i: usize = 0;
        let mut stopped = false;
        proof {
            assert(result@ =~= old(self)@.take(0));
            assert(self@ =~= old(self)@.skip(0));
        }
        while i < n && !stopped
            invariant
                self.wf(),
                i <= n,
                i <= old(self)@.len(),
                result@ == old(self)@.take(i as int),
                self@ == old(self)@.skip(i as int),
                stopped ==> old(self)@.len() == i,
            decreases n - i + (if stopped {
                0int
            } else {
                1
            }),
        {
            let ghost p = i as int;
            match self.pop() {
                Ok(v) => {
                    result.push(v);
                    i = i + 1;
                    proof {
                        assert(v == old(self)@[p]);
                        assert(result@ =~= old(self)@.take(p + 1));
                        assert(self@ =~= old(self)@.skip(p + 1));
                    }
                },
                Err(_) => {
                    stopped = true;
                },
            }
        }
        result
    }

    /// Hand the whole contents out, oldest first, leaving the pool empty.
    pub fn drain(&mut self) -> (d: Drain<T>)
        requires
            old(self).wf(),
        ensures
            final(self).wf(),
            final(self)@ == Seq::<T>::empty(),
            d.remaining() == old(self)@,
    {
        let n = self.len();
        let items = self.pop_range(n);
        proof {
            assert(items@ =~= old(self)@);
            assert(self@ =~= Seq::<T>::empty());
        }
        Drain { items }
    }

    /// Start a read-only walk over the chain, oldest element first.
    pub fn iter<'a>(&'a self) -> (it: Iter<'a, T>)
        requires
            self.wf(),
        ensures
            it.wf(),
            it.elements() == self@,
            it.pos() == 0,
    {
        Iter { inner: self.fifo.iter() }
    }
}

/// Elements removed from a pool, yielded one at a time in delivery order.
pub struct Drain<T> {
    items: Vec<T>,
}

impl<T> Drain<T> {
    /// The elements not yet yielded.
    pub closed spec fn remaining(&self) -> Seq<T> {
        self.items@
    }

    /// Yield the next element, oldest first.
    pub fn next(&mut self) -> (r: Option<T>)
        ensures
            match r {
                Some(v) => {
                    &&& old(self).remaining().len() > 0
                    &&& v == old(self).remaining()[0]
                    &&& final(self).remaining() == old(self).remaining().drop_first()
                },
                None => {
                    &&& old(self).remaining().len() == 0
                    &&& final(self).remaining() == old(self).remaining()
                },
            },
    {
        if self.items.len() > 0 {
            let v = self.items.remove(0);
            proof {
                assert(self.items@ =~= old(self).items@.drop_first());
            }
            Some(v)
        } else {
            None
        }
    }
}

/// A read-only walk over a pool's chain, oldest element first; it stops
/// cleanly at the chain's terminator. Valid only while no removal runs on
/// the pool.
pub struct Iter<'a, T> {
    inner: FifoIter<'a, T>,
}

impl<'a, T> Iter<'a, T> {
    /// The elements the walk ranges over.
    pub closed spec fn elements(&self) -> Seq<T> {
        self.inner.src().contents()
    }

    /// How many elements the walk has yielded.
    pub closed spec fn pos(&self) -> int {
        self.inner.pos()
    }

    pub closed spec fn wf(&self) -> bool {
        self.inner.wf()
    }

    /// Yield a reference to the element at the walk's position and advance.
    pub fn next(&mut self) -> (r: Option<&'a T>)
        requires
            old(self).wf(),
        ensures
            final(self).wf(),
            final(self).elements() == old(self).elements(),
            match r {
                Some(v) => {
                    &&& old(self).pos() < old(self).elements().len()
                    &&& *v == old(self).elements()[old(self).pos()]
                    &&& final(self).pos() == old(self).pos() + 1
                },
                None => {
                    &&& old(self).pos() == old(self).elements().len()
                    &&& final(self).pos() == old(self).pos()
                },
            },
    {
        self.inner.next()
    }
}

} // verus!
