//! The blocking LIFO companion: a plain double-ended buffer behind exclusive
//! access, pushed and popped at the back.
//!
//! In concurrent use the original design guards the buffer with a lock and
//! parks a consumer until an element arrives. Verified here is the data
//! structure itself, under exclusive access: `pop` demands an element (a
//! caller holding exclusive access would otherwise wait forever), `try_pop`
//! reports emptiness as a value.

use std::collections::VecDeque;
use vstd::prelude::*;
use vstd::std_specs::cmp::PartialEqSpec;

verus! {

pub struct BlockingStack<T> {
    items: VecDeque<T>,
}

impl<T> View for BlockingStack<T> {
    type V = Seq<T>;

    /// The elements held, in insertion order; the top is the last entry.
    closed spec fn view(&self) -> Seq<T> {
        self.items@
    }
}

impl<T> BlockingStack<T> {
    pub fn new() -> (s: BlockingStack<T>)
        ensures
            s@ == Seq::<T>::empty(),
    {
        BlockingStack { items: VecDeque::new() }
    }

    /// An empty stack whose buffer is sized for `capacity` elements up
    /// front; the reservation is an allocation hint, not part of the model.
    pub fn _with_capacity(capacity: usize) -> (s: BlockingStack<T>)
        ensures
            s@ == Seq::<T>::empty(),
    {
        BlockingStack { items: VecDeque::with_capacity(capacity) }
    }

    /// Push `item` on top.
    pub fn push(&mut self, item: T)
        ensures
            final(self)@ == old(self)@.push(item),
    {
        self.items.push_back(item);
    }

    /// Pop the top element. The concurrent face waits for one; under
    /// exclusive access an element must already be there.
    pub fn pop(&mut self) -> (v: T)
        requires
            old(self)@.len() > 0,
        ensures
            v == old(self)@.last(),
            final(self)@ == old(self)@.drop_last(),
    {
        let r = self.items.pop_back();
        proof {
            assert(self.items@ =~= old(self)@.drop_last());
        }
        match r {
            Some(v) => v,
            None => {
                proof {
                    assert(false);
                }
                unreached()
            },
        }
    }

    /// Pop the top element, `None` exactly when the stack is empty.
    pub fn try_pop(&mut self) -> (r: Option<T>)
        ensures
            match r {
                Some(v) => {
                    &&& old(self)@.len() > 0
                    &&& v == old(self)@.last()
                    &&& final(self)@ == old(self)@.drop_last()
                },
                None => {
                    &&& old(self)@.len() == 0
                    &&& final(self)@ == old(self)@
                },
            },
    {
        let r = self.items.pop_back();
        proof {
            if old(self)@.len() > 0 {
                assert(self.items@ =~= old(self)@.drop_last());
            }
        }
        r
    }

    pub fn is_empty(&self) -> (b: bool)
        ensures
            b <==> self@.len() == 0,
    {
        self.items.len() == 0
    }

    pub fn len(&self) -> (n: usize)
        ensures
            n == self@.len(),
    {
        self.items.len()
    }

    /// Borrow the top element without removing it.
    pub fn peek(&self) -> (r: Option<&T>)
        ensures
            match r {
                Some(v) => self@.len() > 0 && *v == self@.last(),
                None => self@.len() == 0,
            },
    {
        let n = self.items.len();
        if n > 0 {
            Some(&self.items[n - 1])
        } else {
            None
        }
    }

    pub fn clear(&mut self)
        ensures
            final(self)@ == Seq::<T>::empty(),
    {
        self.items.clear();
    }

    /// Move the whole contents out, in insertion order.
    pub fn drain(&mut self) -> (r: Vec<T>)
        ensures
            r@ == old(self)@,
            final(self)@ == Seq::<T>::empty(),
    {
        let mut result: Vec<T> = Vec::new();
        proof {
            assert(result@ + self.items@ =~= old(self)@);
        }
        loop
            invariant
                result@ + self.items@ == old(self)@,
            decreases self.items@.len(),
        {
            match self.items.pop_front() {
                Some(v) => {
                    result.push(v);
                    proof {
                        assert(result@ + self.items@ =~= old(self)@);
                    }
                },
                None => {
                    proof {
                        assert(result@ =~= old(self)@);
                    }
                    return result;
                },
            }
        }
    }

    /// How many elements the buffer can hold without reallocating; never
    /// below the current count.
    pub fn capacity(&self) -> (n: usize)
        ensures
            n >= self@.len(),
    {
        crate::buffer::deque_capacity(&self.items)
    }

    /// Whether some held element compares equal to `item`.
    pub fn contains(&self, item: &T) -> (r: bool) where T: PartialEq
        ensures
            T::obeys_eq_spec() ==> (r <==> exists|k: int|
                0 <= k < self@.len() && (#[trigger] self@[k].eq_spec(item))),
    {
        let n = self.items.len();
        let mut k: usize = 0;
        let mut found = false;
        while k < n && !found
            invariant
                n == self@.len(),
                k <= n,
                T::obeys_eq_spec() ==> (found <==> exists|j: int|
                    0 <= j < k && (#[trigger] self@[j].eq_spec(item))),
            decreases n - k + (if found {
                0int
            } else {
                1
            }),
        {
            let x = &self.items[k];
            if x.eq(item) {
                found = true;
                proof {
                    if T::obeys_eq_spec() {
                        assert(self@[k as int].eq_spec(item));
                    }
                }
            }
            k = k + 1;
        }
        found
    }

    /// A copy of the contents in reverse order: entry `j` of the result is a
    /// clone of the element at distance `j` from the top.
    pub fn reverse(&self) -> (r: VecDeque<T>) where T: Clone
        ensures
            r@.len() == self@.len(),
            forall|j: int|
                0 <= j < self@.len() ==> cloned::<T>(self@[self@.len() - 1 - j], #[trigger] r@[j]),
    {
        let n = self.items.len();
        let mut r: VecDeque<T> = VecDeque::new();
        let mut k: usize = n;
        while k > 0
            invariant
                n == self@.len(),
                k <= n,
                r@.len() == n - k,
                forall|j: int|
                    0 <= j < n - k ==> cloned::<T>(self@[n - 1 - j], #[trigger] r@[j]),
            decreases k,
        {
            k = k - 1;
            let c = self.items[k].clone();
            r.push_back(c);
        }
        r
    }
}

impl<T> Default for BlockingStack<T> {
    /// A fresh, empty stack.
    fn default() -> (s: Self)
        ensures
            s@ == Seq::<T>::empty(),
    {
        BlockingStack::new()
    }
}

impl<T> vstd::std_specs::convert::FromSpecImpl<Vec<T>> for BlockingStack<T> {
    // the buffer built from a vector cannot be pinned down as a spec-level
    // value (the buffer type is opaque), so the conversion's contract is
    // carried by the ensures on `from` below instead
    open spec fn obeys_from_spec() -> bool {
        false
    }

    open spec fn from_spec(v: Vec<T>) -> Self {
        arbitrary()
    }
}

impl<T> From<Vec<T>> for BlockingStack<T> {
    /// A stack holding the vector's elements in insertion order: the
    /// vector's last element is on top.
    fn from(v: Vec<T>) -> (s: Self)
        ensures
            s@ == v@,
    {
        let ghost orig: Seq<T> = v@;
        let mut v = v;
        let mut items: VecDeque<T> = VecDeque::new();
        proof {
            assert(items@ + v@ =~= orig);
        }
        while v.len() > 0
            invariant
                items@ + v@ == orig,
            decreases v@.len(),
        {
            let x = v.remove(0);
            items.push_back(x);
            proof {
                assert(items@ + v@ =~= orig);
            }
        }
        proof {
            assert(items@ =~= orig);
        }
        BlockingStack { items }
    }
}

} // verus!
