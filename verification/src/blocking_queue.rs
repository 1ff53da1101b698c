//! The blocking FIFO companion: a plain double-ended buffer behind exclusive
//! access.
//!
//! In concurrent use the original design guards the buffer with a lock and
//! parks a consumer until an element arrives. Verified here is the data
//! structure itself, under exclusive access: `pop` demands an element (a
//! caller holding exclusive access would otherwise wait forever), `try_pop`
//! reports emptiness as a value.

use std::collections::VecDeque;
use vstd::prelude::*;
use vstd::std_specs::cmp::PartialEqSpec;

verus! {

pub struct BlockingQueue<T> {
    items: VecDeque<T>,
}

impl<T> View for BlockingQueue<T> {
    type V = Seq<T>;

    /// The elements held, oldest first.
    closed spec fn view(&self) -> Seq<T> {
        self.items@
    }
}

impl<T> BlockingQueue<T> {
    pub fn new() -> (q: BlockingQueue<T>)
        ensures
            q@ == Seq::<T>::empty(),
    {
        BlockingQueue { items: VecDeque::new() }
    }

    /// An empty queue whose buffer is sized for `capacity` elements up
    /// front; the reservation is an allocation hint, not part of the model.
    pub fn _with_capacity(capacity: usize) -> (q: BlockingQueue<T>)
        ensures
            q@ == Seq::<T>::empty(),
    {
        BlockingQueue { items: VecDeque::with_capacity(capacity) }
    }

    /// Append `item` at the back.
    pub fn push(&mut self, item: T)
        ensures
            final(self)@ == old(self)@.push(item),
    {
        self.items.push_back(item);
    }

    /// Remove the oldest element. The concurrent face waits for one; under
    /// exclusive access an element must already be there.
    pub fn pop(&mut self) -> (v: T)
        requires
            old(self)@.len() > 0,
        ensures
            v == old(self)@[0],
            final(self)@ == old(self)@.drop_first(),
    {
        let r = self.items.pop_front();
        proof {
            assert(self.items@ =~= old(self)@.drop_first());
        }
        match r {
            Some(v) => v,
            None => {
                proof {
                    assert(false);
                }
                unreached()
            },
        }
    }

    /// Remove the oldest element, `None` exactly when the queue is empty.
    pub fn try_pop(&mut self) -> (r: Option<T>)
        ensures
            match r {
                Some(v) => {
                    &&& old(self)@.len() > 0
                    &&& v == old(self)@[0]
                    &&& final(self)@ == old(self)@.drop_first()
                },
                None => {
                    &&& old(self)@.len() == 0
                    &&& final(self)@ == old(self)@
                },
            },
    {
        let r = self.items.pop_front();
        proof {
            if old(self)@.len() > 0 {
                assert(self.items@ =~= old(self)@.drop_first());
            }
        }
        r
    }

    pub fn is_empty(&self) -> (b: bool)
        ensures
            b <==> self@.len() == 0,
    {
        self.items.len() == 0
    }

    pub fn len(&self) -> (n: usize)
        ensures
            n == self@.len(),
    {
        self.items.len()
    }

    /// Borrow the oldest element without removing it.
    pub fn peek(&self) -> (r: Option<&T>)
        ensures
            match r {
                Some(v) => self@.len() > 0 && *v == self@[0],
                None => self@.len() == 0,
            },
    {
        if self.items.len() > 0 {
            Some(&self.items[0])
        } else {
            None
        }
    }

    pub fn clear(&mut self)
        ensures
            final(self)@ == Seq::<T>::empty(),
    {
        self.items.clear();
    }

    /// Move the whole contents out, oldest first.
    pub fn drain(&mut self) -> (r: Vec<T>)
        ensures
            r@ == old(self)@,
            final(self)@ == Seq::<T>::empty(),
    {
        let mut result: Vec<T> = Vec::new();
        proof {
            assert(result@ + self.items@ =~= old(self)@);
        }
        loop
            invariant
                result@ + self.items@ == old(self)@,
            decreases self.items@.len(),
        {
            match self.items.pop_front() {
                Some(v) => {
                    result.push(v);
                    proof {
                        assert(result@ + self.items@ =~= old(self)@);
                    }
                },
                None => {
                    proof {
                        assert(result@ =~= old(self)@);
                    }
                    return result;
                },
            }
        }
    }

    /// How many elements the buffer can hold without reallocating; never
    /// below the current count.
    pub fn capacity(&self) -> (n: usize)
        ensures
            n >= self@.len(),
    {
        crate::buffer::deque_capacity(&self.items)
    }

    /// Whether some held element compares equal to `item`.
    pub fn contains(&self, item: &T) -> (r: bool) where T: PartialEq
        ensures
            T::obeys_eq_spec() ==> (r <==> exists|k: int|
                0 <= k < self@.len() && (#[trigger] self@[k].eq_spec(item))),
    {
        let n = self.items.len();
        let mut k: usize = 0;
        let mut found = false;
        while k < n && !found
            invariant
                n == self@.len(),
                k <= n,
                T::obeys_eq_spec() ==> (found <==> exists|j: int|
                    0 <= j < k && (#[trigger] self@[j].eq_spec(item))),
            decreases n - k + (if found {
                0int
            } else {
                1
            }),
        {
            let x = &self.items[k];
            if x.eq(item) {
                found = true;
                proof {
                    if T::obeys_eq_spec() {
                        assert(self@[k as int].eq_spec(item));
                    }
                }
            }
            k = k + 1;
        }
        found
    }

    /// A copy of the contents in reverse order: entry `j` of the result is a
    /// clone of the element at distance `j` from the back.
    pub fn reverse(&self) -> (r: VecDeque<T>) where T: Clone
        ensures
            r@.len() == self@.len(),
            forall|j: int|
                0 <= j < self@.len() ==> cloned::<T>(self@[self@.len() - 1 - j], #[trigger] r@[j]),
    {
        let n = self.items.len();
        let mut r: VecDeque<T> = VecDeque::new();
        let mut k: usize = n;
        while k > 0
            invariant
                n == self@.len(),
                k <= n,
                r@.len() == n - k,
                forall|j: int|
                    0 <= j < n - k ==> cloned::<T>(self@[n - 1 - j], #[trigger] r@[j]),
            decreases k,
        {
            k = k - 1;
            let c = self.items[k].clone();
            r.push_back(c);
        }
        r
    }
}

impl<T> Default for BlockingQueue<T> {
    /// A fresh, empty queue.
    fn default() -> (q: Self)
        ensures
            q@ == Seq::<T>::empty(),
    {
        BlockingQueue::new()
    }
}

impl<T> vstd::std_specs::convert::FromSpecImpl<Vec<T>> for BlockingQueue<T> {
    // the buffer built from a vector cannot be pinned down as a spec-level
    // value (the buffer type is opaque), so the conversion's contract is
    // carried by the ensures on `from` below instead
    open spec fn obeys_from_spec() -> bool {
        false
    }

    open spec fn from_spec(v: Vec<T>) -> Self {
        arbitrary()
    }
}

impl<T> From<Vec<T>> for BlockingQueue<T> {
    /// A queue holding the vector's elements, front of the vector first.
    fn from(v: Vec<T>) -> (q: Self)
        ensures
            q@ == v@,
    {
        let ghost orig: Seq<T> = v@;
        let mut v = v;
        let mut items: VecDeque<T> = VecDeque::new();
        proof {
            assert(items@ + v@ =~= orig);
        }
        while v.len() > 0
            invariant
                items@ + v@ == orig,
            decreases v@.len(),
        {
            let x = v.remove(0);
            items.push_back(x);
            proof {
                assert(items@ + v@ =~= orig);
            }
        }
        proof {
            assert(items@ =~= orig);
        }
        BlockingQueue { items }
    }
}

} // verus!
