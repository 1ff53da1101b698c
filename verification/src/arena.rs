//! The linked node arena: the unit of storage shared by the FIFO and LIFO
//! collections.
//!
//! A node holds one element (`None` once consumed, or for a sentinel) and the
//! index of the next node in its chain, if any. Nodes live in a slab with
//! stable indices; a removal returns the detached node's slot to a free list,
//! and an insertion reuses a free slot before growing the slab. Collections
//! lay chains over the slab and keep, as ghost state, the sequence of slot
//! indices their chain visits.

use vstd::prelude::*;

verus! {

/// One slot of the arena: an element and the index of the successor node.
pub struct Node<T> {
    pub value: Option<T>,
    pub next: Option<usize>,
}

/// A slab of nodes plus the free list used to recycle detached slots.
pub struct Arena<T> {
    pub nodes: Vec<Node<T>>,
    pub free: Vec<usize>,
}

/// The indices of `chain` walk existing slots, each linked to the next by its
/// `next` slot, and the last node terminates the chain.
pub open spec fn linked<T>(slots: Seq<Node<T>>, chain: Seq<usize>) -> bool {
    &&& forall|k: int| 0 <= k < chain.len() ==> (#[trigger] chain[k]) < slots.len()
    &&& forall|k: int|
        0 <= k < chain.len() - 1 ==> slots[#[trigger] chain[k] as int].next == Some(chain[k + 1])
    &&& chain.len() > 0 ==> slots[chain.last() as int].next is None
}

/// The elements stored along `chain`, in chain order.
pub open spec fn elems<T>(slots: Seq<Node<T>>, chain: Seq<usize>) -> Seq<T> {
    Seq::new(chain.len(), |k: int| slots[chain[k] as int].value.unwrap())
}

impl<T> Arena<T> {
    /// Every free-list entry names an existing slot, no slot twice, and the
    /// slab's length is within the machine's address range.
    pub open spec fn wf(&self) -> bool {
        &&& self.free@.no_duplicates()
        &&& forall|k: int| 0 <= k < self.free@.len() ==> (#[trigger] self.free@[k]) < self.nodes@.len()
        &&& self.nodes@.len() <= usize::MAX
    }

    pub fn new() -> (a: Arena<T>)
        ensures
            a.wf(),
            a.nodes@.len() == 0,
            a.free@.len() == 0,
    {
        Arena { nodes: Vec::new(), free: Vec::new() }
    }

    /// Place a node, either in a recycled slot or in a fresh one.
    pub fn allocate(&mut self, value: Option<T>, next: Option<usize>) -> (i: usize)
        requires
            old(self).wf(),
        ensures
            final(self).wf(),
            i < final(self).nodes@.len(),
            final(self).nodes@[i as int] == (Node { value, next }),
            forall|j: int|
                0 <= j < old(self).nodes@.len() && j != i ==> final(self).nodes@[j] == old(
                    self,
                ).nodes@[j],
            if old(self).free@.len() > 0 {
                &&& i == old(self).free@.last()
                &&& final(self).free@ == old(self).free@.drop_last()
                &&& final(self).nodes@.len() == old(self).nodes@.len()
            } else {
                &&& i == old(self).nodes@.len()
                &&& final(self).free@ == old(self).free@
                &&& final(self).nodes@.len() == old(self).nodes@.len() + 1
            },
    {
        match self.free.pop() {
            Some(i) => {
                self.nodes[i] = Node { value, next };
                i
            },
            None => {
                let i = self.nodes.len();
                self.nodes.push(Node { value, next });
                // reading the length back shows the grown slab still fits
                // the machine's address range
                let n = self.nodes.len();
                assert(self.nodes@.len() == n);
                i
            },
        }
    }

    /// Return slot `i` to the free list, scrubbing it.
    pub fn reclaim(&mut self, i: usize)
        requires
            old(self).wf(),
            i < old(self).nodes@.len(),
            !old(self).free@.contains(i),
        ensures
            final(self).wf(),
            final(self).nodes@.len() == old(self).nodes@.len(),
            final(self).nodes@[i as int].value is None,
            final(self).nodes@[i as int].next is None,
            forall|j: int|
                0 <= j < old(self).nodes@.len() && j != i ==> final(self).nodes@[j] == old(
                    self,
                ).nodes@[j],
            final(self).free@ == old(self).free@.push(i),
    {
        self.nodes[i] = Node { value: None, next: None };
        self.free.push(i);
        proof {
            let f = self.free@;
            assert forall|p: int, q: int|
                0 <= p < f.len() && 0 <= q < f.len() && p != q implies f[p] != f[q] by {
                if p < f.len() - 1 && q < f.len() - 1 {
                    assert(old(self).free@.no_duplicates());
                } else if p == f.len() - 1 {
                    assert(old(self).free@[q] != i);
                } else {
                    assert(old(self).free@[p] != i);
                }
            }
        }
    }

    /// Point slot `i`'s next-reference at `next`.
    pub fn set_next(&mut self, i: usize, next: Option<usize>)
        requires
            old(self).wf(),
            i < old(self).nodes@.len(),
        ensures
            final(self).wf(),
            final(self).nodes@.len() == old(self).nodes@.len(),
            final(self).free@ == old(self).free@,
            final(self).nodes@[i as int].value == old(self).nodes@[i as int].value,
            final(self).nodes@[i as int].next == next,
            forall|j: int|
                0 <= j < old(self).nodes@.len() && j != i ==> final(self).nodes@[j] == old(
                    self,
                ).nodes@[j],
    {
        let slot = &mut self.nodes[i];
        slot.next = next;
    }

    /// Read slot `i`'s next-reference.
    pub fn next_of(&self, i: usize) -> (r: Option<usize>)
        requires
            i < self.nodes@.len(),
        ensures
            r == self.nodes@[i as int].next,
    {
        self.nodes[i].next
    }

    /// Move the element out of slot `i`; the slot stays linked but empty.
    pub fn take_value(&mut self, i: usize) -> (v: T)
        requires
            old(self).wf(),
            i < old(self).nodes@.len(),
            old(self).nodes@[i as int].value is Some,
        ensures
            final(self).wf(),
            final(self).nodes@.len() == old(self).nodes@.len(),
            final(self).free@ == old(self).free@,
            final(self).nodes@[i as int].value is None,
            final(self).nodes@[i as int].next == old(self).nodes@[i as int].next,
            v == old(self).nodes@[i as int].value.unwrap(),
            forall|j: int|
                0 <= j < old(self).nodes@.len() && j != i ==> final(self).nodes@[j] == old(
                    self,
                ).nodes@[j],
    {
        let slot = &mut self.nodes[i];
        slot.value.take().unwrap()
    }

    /// Borrow the element in slot `i`.
    pub fn value_ref(&self, i: usize) -> (r: &T)
        requires
            i < self.nodes@.len(),
            self.nodes@[i as int].value is Some,
        ensures
            *r == self.nodes@[i as int].value.unwrap(),
    {
        self.nodes[i].value.as_ref().unwrap()
    }
}

} // verus!
