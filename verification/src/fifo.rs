//! The FIFO core shared by the queue-flavoured collections.
//!
//! A `Fifo` keeps two indices into the arena: `head` names a sentinel node
//! whose element has already been consumed, and `tail` names the last node of
//! the chain. The first logical element lives in the node after `head`, so
//! emptiness is exactly "the head node has no successor". An insertion links
//! a fresh node after `tail` and advances `tail`; a removal moves the element
//! out of the node after `head`, advances `head` onto that node (which
//! becomes the new sentinel), and reclaims the vacated old head slot.
//!
//! The ghost `chain` records the slot indices from the sentinel to the tail;
//! the abstract contents are the elements stored along `chain` after the
//! sentinel.

use crate::arena::{elems, linked, Arena};
use vstd::prelude::*;

verus! {

pub struct Fifo<T> {
    pub arena: Arena<T>,
    pub head: usize,
    pub tail: usize,
    pub size: usize,
    pub chain: Ghost<Seq<usize>>,
}

impl<T> Fifo<T> {
    /// The sentinel invariant: `chain` starts at `head`, ends at `tail`, is
    /// linked through the arena without revisiting a slot, the sentinel's
    /// element is consumed while every later node still holds one, no chain
    /// slot sits on the free list, the element count matches, and every arena
    /// slot is either on the chain or on the free list.
    pub open spec fn wf(&self) -> bool {
        &&& self.arena.wf()
        &&& self.chain@.len() >= 1
        &&& self.chain@[0] == self.head
        &&& self.chain@.last() == self.tail
        &&& linked(self.arena.nodes@, self.chain@)
        &&& self.chain@.no_duplicates()
        &&& self.arena.nodes@[self.head as int].value is None
        &&& forall|k: int|
            1 <= k < self.chain@.len() ==> self.arena.nodes@[#[trigger] self.chain@[k] as int].value is Some
        &&& forall|k: int|
            0 <= k < self.chain@.len() ==> !self.arena.free@.contains(#[trigger] self.chain@[k])
        &&& self.size == self.chain@.len() - 1
        &&& self.chain@.len() + self.arena.free@.len() == self.arena.nodes@.len()
    }

    /// The elements held, oldest first.
    pub open spec fn contents(&self) -> Seq<T> {
        elems(self.arena.nodes@, self.chain@.drop_first())
    }

    /// A fresh, empty chain: one sentinel node, head and tail both on it.
    pub fn new() -> (q: Fifo<T>)
        ensures
            q.wf(),
            q.contents() == Seq::<T>::empty(),
    {
        let mut arena = Arena::new();
        let s = arena.allocate(None, None);
        let ghost c: Seq<usize> = seq![s];
        let q = Fifo { arena, head: s, tail: s, size: 0, chain: Ghost(c) };
        proof {
            assert(q.contents() =~= Seq::<T>::empty());
        }
        q
    }

    /// Append `value` at the tail: link a fresh node after the current tail
    /// and advance `tail` onto it.
    pub fn push(&mut self, value: T)
        requires
            old(self).wf(),
        ensures
            final(self).wf(),
            final(self).contents() == old(self).contents().push(value),
    {
        let ghost oc = old(self).chain@;
        let i = self.arena.allocate(Some(value), None);
        proof {
            // the fresh slot is not on the chain: it was either recycled off
            // the free list (disjoint from the chain) or lies past every
            // existing slot
            if old(self).arena.free@.len() > 0 {
                assert(old(self).arena.free@.contains(i));
                assert forall|k: int| 0 <= k < oc.len() implies oc[k] != i by {
                    assert(!old(self).arena.free@.contains(oc[k]));
                }
            } else {
                assert forall|k: int| 0 <= k < oc.len() implies oc[k] != i by {
                    assert(oc[k] < old(self).arena.nodes@.len());
                }
            }
        }
        let t = self.tail;
        self.arena.set_next(t, Some(i));
        self.tail = i;
        self.size = self.size + 1;
        proof {
            self.chain@ = oc.push(i);
            let nc = self.chain@;
            let slots = self.arena.nodes@;
            // the new chain is linked: old links are untouched (their slots
            // differ from both the fresh slot and the old tail), the old tail
            // now points at the fresh slot, which terminates the chain
            assert forall|k: int| 0 <= k < nc.len() - 1 implies slots[#[trigger] nc[k] as int].next
                == Some(nc[k + 1]) by {
                if k < oc.len() - 1 {
                    assert(oc[k] != oc[oc.len() - 1]);
                }
            }
            assert(nc.no_duplicates());
            assert forall|k: int| 0 <= k < nc.len() implies !self.arena.free@.contains(
                #[trigger] nc[k],
            ) by {
                if old(self).arena.free@.len() > 0 {
                    let f = old(self).arena.free@;
                    if k < oc.len() {
                        if self.arena.free@.contains(oc[k]) {
                            let m = choose|m: int|
                                0 <= m < f.drop_last().len() && f.drop_last()[m] == oc[k];
                            assert(f[m] == oc[k]);
                        }
                    } else {
                        if self.arena.free@.contains(i) {
                            let m = choose|m: int|
                                0 <= m < f.drop_last().len() && f.drop_last()[m] == i;
                            assert(f[m] == i && f[f.len() - 1] == i);
                        }
                    }
                }
            }
            assert(self.wf());
            assert(self.contents() =~= old(self).contents().push(value));
        }
    }

    /// Remove the oldest element, or report emptiness. The element is read
    /// out of the node after the sentinel; that node becomes the new
    /// sentinel, and the vacated old sentinel slot is reclaimed.
    pub fn pop(&mut self) -> (r: Option<T>)
        requires
            old(self).wf(),
        ensures
            final(self).wf(),
            match r {
                Some(v) => {
                    &&& old(self).contents().len() > 0
                    &&& v == old(self).contents()[0]
                    &&& final(self).contents() == old(self).contents().drop_first()
                },
                None => {
                    &&& old(self).contents().len() == 0
                    &&& final(self).contents() == old(self).contents()
                },
            },
    {
        let ghost oc = old(self).chain@;
        let h = self.head;
        match self.arena.next_of(h) {
            None => {
                proof {
                    // a successor would exist if the chain held an element
                    if oc.len() > 1 {
                        assert(self.arena.nodes@[oc[0] as int].next == Some(oc[1]));
                    }
                    assert(self.contents() =~= old(self).contents());
                }
                None
            },
            Some(n) => {
                proof {
                    if oc.len() == 1 {
                        assert(self.arena.nodes@[oc.last() as int].next is None);
                    }
                    assert(oc.len() >= 2);
                    assert(n == oc[1]);
                }
                let v = self.arena.take_value(n);
                self.head = n;
                self.size = self.size - 1;
                proof {
                    assert(oc[0] != oc[1]);
                    assert(!self.arena.free@.contains(h));
                }
                self.arena.reclaim(h);
                proof {
                    self.chain@ = oc.drop_first();
                    let nc = self.chain@;
                    let slots = self.arena.nodes@;
                    assert(nc.no_duplicates());
                    assert(nc.last() == oc.last());
                    assert forall|k: int| 0 <= k < nc.len() implies (#[trigger] nc[k]) == oc[k + 1]
                        && nc[k] != h by {}
                    assert forall|k: int| 0 <= k < nc.len() - 1 implies slots[(#[trigger] nc[k]) as int].next
                        == Some(nc[k + 1]) by {
                        assert(old(self).arena.nodes@[oc[k + 1] as int].next == Some(oc[k + 2]));
                    }
                    assert forall|k: int| 0 <= k < nc.len() implies !self.arena.free@.contains(
                        #[trigger] nc[k],
                    ) by {
                        let f = self.arena.free@;
                        if f.contains(nc[k]) {
                            let m = choose|m: int| 0 <= m < f.len() && f[m] == nc[k];
                            if m < f.len() - 1 {
                                assert(old(self).arena.free@[m] == nc[k]);
                                assert(!old(self).arena.free@.contains(oc[k + 1]));
                            } else {
                                assert(f[m] == h);
                            }
                        }
                    }
                    assert(self.wf());
                    assert(v == old(self).contents()[0]);
                    assert(self.contents() =~= old(self).contents().drop_first());
                }
                Some(v)
            },
        }
    }

    /// Borrow the oldest element without removing it.
    pub fn peek(&self) -> (r: Option<&T>)
        requires
            self.wf(),
        ensures
            match r {
                Some(v) => self.contents().len() > 0 && *v == self.contents()[0],
                None => self.contents().len() == 0,
            },
    {
        match self.arena.next_of(self.head) {
            None => {
                proof {
                    if self.chain@.len() > 1 {
                        assert(self.arena.nodes@[self.chain@[0] as int].next == Some(
                            self.chain@[1],
                        ));
                    }
                }
                None
            },
            Some(n) => {
                proof {
                    if self.chain@.len() == 1 {
                        assert(self.arena.nodes@[self.chain@.last() as int].next is None);
                    }
                    assert(n == self.chain@[1]);
                }
                Some(self.arena.value_ref(n))
            },
        }
    }

    /// The element count, maintained on every insert and remove.
    pub fn length(&self) -> (n: usize)
        requires
            self.wf(),
        ensures
            n == self.contents().len(),
    {
        self.size
    }

    /// Emptiness, decided exactly as a removal decides it: the sentinel has
    /// no successor.
    pub fn is_empty(&self) -> (b: bool)
        requires
            self.wf(),
        ensures
            b <==> self.contents().len() == 0,
    {
        match self.arena.next_of(self.head) {
            None => {
                proof {
                    if self.chain@.len() > 1 {
                        assert(self.arena.nodes@[self.chain@[0] as int].next == Some(
                            self.chain@[1],
                        ));
                    }
                }
                true
            },
            Some(_) => {
                proof {
                    if self.chain@.len() == 1 {
                        assert(self.arena.nodes@[self.chain@.last() as int].next is None);
                    }
                }
                false
            },
        }
    }

    /// Copy the chain into a fresh `Fifo`, cloning each element in delivery
    /// order; the source is untouched.
    pub fn duplicate(&self) -> (r: Fifo<T>) where T: Clone
        requires
            self.wf(),
        ensures
            r.wf(),
            r.contents().len() == self.contents().len(),
            forall|k: int|
                0 <= k < self.contents().len() ==> cloned::<T>(
                    self.contents()[k],
                    #[trigger] r.contents()[k],
                ),
    {
        let mut r = Fifo::new();
        let mut cur = self.arena.next_of(self.head);
        proof {
            if self.chain@.len() > 1 {
                assert(self.arena.nodes@[self.chain@[0] as int].next == Some(self.chain@[1]));
            } else {
                assert(self.arena.nodes@[self.chain@.last() as int].next is None);
            }
        }
        let ghost mut j: int = 0;
        while cur.is_some()
            invariant
                self.wf(),
                r.wf(),
                0 <= j <= self.contents().len(),
                cur == (if j < self.contents().len() {
                    Some(self.chain@[j + 1])
                } else {
                    Option::<usize>::None
                }),
                r.contents().len() == j,
                forall|k: int|
                    0 <= k < j ==> cloned::<T>(self.contents()[k], #[trigger] r.contents()[k]),
            decreases self.contents().len() - j,
        {
            let i = match cur {
                Some(i) => i,
                None => {
                    proof {
                        assert(false);
                    }
                    0
                },
            };
            let v = self.arena.value_ref(i);
            let c = v.clone();
            r.push(c);
            cur = self.arena.next_of(i);
            proof {
                if j + 1 < self.contents().len() {
                    assert(self.arena.nodes@[self.chain@[j + 1] as int].next == Some(
                        self.chain@[j + 2],
                    ));
                } else {
                    assert(self.chain@[j + 1] == self.chain@.last());
                    assert(self.arena.nodes@[self.chain@.last() as int].next is None);
                }
                j = j + 1;
            }
        }
        r
    }

    /// Start a read-only walk at the first live node.
    pub fn iter<'a>(&'a self) -> (it: FifoIter<'a, T>)
        requires
            self.wf(),
        ensures
            it.wf(),
            it.src() == self,
            it.pos() == 0,
    {
        let cursor = self.arena.next_of(self.head);
        proof {
            if self.chain@.len() > 1 {
                assert(self.arena.nodes@[self.chain@[0] as int].next == Some(self.chain@[1]));
            } else {
                assert(self.arena.nodes@[self.chain@.last() as int].next is None);
            }
        }
        FifoIter { fifo: self, cursor, pos: Ghost(0) }
    }
}

/// A read-only walk along the chain, following next-references from the first
/// live node; it stops cleanly at the chain's terminator.
pub struct FifoIter<'a, T> {
    pub fifo: &'a Fifo<T>,
    pub cursor: Option<usize>,
    pub pos: Ghost<int>,
}

impl<'a, T> FifoIter<'a, T> {
    pub open spec fn src(&self) -> &'a Fifo<T> {
        self.fifo
    }

    pub open spec fn pos(&self) -> int {
        self.pos@
    }

    pub open spec fn wf(&self) -> bool {
        &&& self.fifo.wf()
        &&& 0 <= self.pos@ <= self.fifo.contents().len()
        &&& self.cursor == (if self.pos@ < self.fifo.contents().len() {
            Some(self.fifo.chain@[self.pos@ + 1])
        } else {
            Option::<usize>::None
        })
    }

    /// Yield a reference to the element at the walk's position and advance.
    pub fn next(&mut self) -> (r: Option<&'a T>)
        requires
            old(self).wf(),
        ensures
            final(self).wf(),
            final(self).src() == old(self).src(),
            match r {
                Some(v) => {
                    &&& old(self).pos() < old(self).src().contents().len()
                    &&& *v == old(self).src().contents()[old(self).pos()]
                    &&& final(self).pos() == old(self).pos() + 1
                },
                None => {
                    &&& old(self).pos() == old(self).src().contents().len()
                    &&& final(self).pos() == old(self).pos()
                },
            },
    {
        match self.cursor {
            None => None,
            Some(i) => {
                let ghost c = self.fifo.chain@;
                let ghost p = self.pos@;
                let v = self.fifo.arena.value_ref(i);
                self.cursor = self.fifo.arena.next_of(i);
                proof {
                    self.pos@ = p + 1;
                    if p + 1 < self.fifo.contents().len() {
                        assert(self.fifo.arena.nodes@[c[p + 1] as int].next == Some(c[p + 2]));
                    } else {
                        assert(c[p + 1] == c.last());
                        assert(self.fifo.arena.nodes@[c.last() as int].next is None);
                    }
                }
                Some(v)
            },
        }
    }
}

} // verus!
