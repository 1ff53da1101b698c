//! The LIFO collection: a single head index into the arena; insertion and
//! removal both act at the head.
//!
//! A push links a fresh node whose successor is the current head and swings
//! the head onto it; a pop detaches the head node, moves its element out and
//! reclaims the slot. The batch variants build or walk a whole sub-chain
//! first and then commit with a single head swing, which is what
//! distinguishes them from a loop of single-element calls.

use crate::arena::{elems, linked, Arena};
use vstd::prelude::*;

verus! {

pub struct LockFreeStack<T> {
    arena: Arena<T>,
    head: Option<usize>,
    chain: Ghost<Seq<usize>>,
}

impl<T> View for LockFreeStack<T> {
    type V = Seq<T>;

    /// The elements held, most recently pushed first.
    closed spec fn view(&self) -> Seq<T> {
        elems(self.arena.nodes@, self.chain@)
    }
}

impl<T> LockFreeStack<T> {
    /// `chain` runs from the head node downwards, linked through the arena
    /// without revisiting a slot; every chain node holds an element and no
    /// chain slot sits on the free list.
    pub closed spec fn wf(&self) -> bool {
        &&& self.arena.wf()
        &&& linked(self.arena.nodes@, self.chain@)
        &&& self.chain@.no_duplicates()
        &&& self.head == (if self.chain@.len() > 0 {
            Some(self.chain@[0])
        } else {
            Option::<usize>::None
        })
        &&& forall|k: int|
            0 <= k < self.chain@.len() ==> self.arena.nodes@[#[trigger] self.chain@[k] as int].value is Some
        &&& forall|k: int|
            0 <= k < self.chain@.len() ==> !self.arena.free@.contains(#[trigger] self.chain@[k])
    }

    pub fn new() -> (s: LockFreeStack<T>)
        ensures
            s.wf(),
            s@ == Seq::<T>::empty(),
    {
        let ghost c: Seq<usize> = Seq::empty();
        let s = LockFreeStack { arena: Arena::new(), head: None, chain: Ghost(c) };
        proof {
            assert(s@ =~= Seq::<T>::empty());
        }
        s
    }

    /// Push `value`: link a fresh node above the current head and swing the
    /// head onto it.
    pub fn push(&mut self, value: T)
        requires
            old(self).wf(),
        ensures
            final(self).wf(),
            final(self)@ == seq![value] + old(self)@,
    {
        let ghost oc = old(self).chain@;
        let i = self.arena.allocate(Some(value), self.head);
        proof {
            if old(self).arena.free@.len() > 0 {
                assert(old(self).arena.free@.contains(i));
                assert forall|k: int| 0 <= k < oc.len() implies oc[k] != i by {
                    assert(!old(self).arena.free@.contains(oc[k]));
                }
            } else {
                assert forall|k: int| 0 <= k < oc.len() implies oc[k] != i by {
                    assert(oc[k] < old(self).arena.nodes@.len());
                }
            }
        }
        self.head = Some(i);
        proof {
            self.chain@ = seq![i] + oc;
            let nc = self.chain@;
            let slots = self.arena.nodes@;
            assert forall|k: int| 0 <= k < nc.len() - 1 implies slots[(#[trigger] nc[k]) as int].next
                == Some(nc[k + 1]) by {}
            assert(nc.no_duplicates());
            assert forall|k: int| 0 <= k < nc.len() implies !self.arena.free@.contains(
                #[trigger] nc[k],
            ) by {
                let f = old(self).arena.free@;
                if f.len() > 0 && self.arena.free@.contains(nc[k]) {
                    let m = choose|m: int|
                        0 <= m < f.drop_last().len() && f.drop_last()[m] == nc[k];
                    assert(f[m] == nc[k]);
                    if k == 0 {
                        assert(f[f.len() - 1] == i);
                    } else {
                        assert(!f.contains(oc[k - 1]));
                    }
                }
            }
            assert(self.wf());
            assert(self@ =~= seq![value] + old(self)@);
        }
    }

    /// Pop the most recently pushed element, or report emptiness: detach the
    /// head node, move its element out, reclaim its slot.
    pub fn try_pop(&mut self) -> (r: Option<T>)
        requires
            old(self).wf(),
        ensures
            final(self).wf(),
            match r {
                Some(v) => {
                    &&& old(self)@.len() > 0
                    &&& v == old(self)@[0]
                    &&& final(self)@ == old(self)@.drop_first()
                },
                None => {
                    &&& old(self)@.len() == 0
                    &&& final(self)@ == old(self)@
                },
            },
    {
        let ghost oc = old(self).chain@;
        match self.head {
            None => None,
            Some(i) => {
                let nx = self.arena.next_of(i);
                proof {
                    if oc.len() > 1 {
                        assert(self.arena.nodes@[oc[0] as int].next == Some(oc[1]));
                    } else {
                        assert(self.arena.nodes@[oc.last() as int].next is None);
                    }
                }
                let v = self.arena.take_value(i);
                self.head = nx;
                self.arena.reclaim(i);
                proof {
                    self.chain@ = oc.drop_first();
                    let nc = self.chain@;
                    let slots = self.arena.nodes@;
                    assert forall|k: int| 0 <= k < nc.len() implies (#[trigger] nc[k]) == oc[k + 1]
                        && nc[k] != i by {}
                    assert(nc.no_duplicates());
                    assert forall|k: int| 0 <= k < nc.len() - 1 implies slots[(#[trigger] nc[k]) as int].next
                        == Some(nc[k + 1]) by {
                        assert(old(self).arena.nodes@[oc[k + 1] as int].next == Some(oc[k + 2]));
                    }
                    if nc.len() > 0 {
                        assert(nc.last() == oc.last());
                    }
                    assert forall|k: int| 0 <= k < nc.len() implies !self.arena.free@.contains(
                        #[trigger] nc[k],
                    ) by {
                        let f = self.arena.free@;
                        if f.contains(nc[k]) {
                            let m = choose|m: int| 0 <= m < f.len() && f[m] == nc[k];
                            if m < f.len() - 1 {
                                assert(old(self).arena.free@[m] == nc[k]);
                                assert(!old(self).arena.free@.contains(oc[k + 1]));
                            } else {
                                assert(f[m] == i);
                            }
                        }
                    }
                    assert(self.wf());
                    assert(self@ =~= old(self)@.drop_first());
                }
                Some(v)
            },
        }
    }

    /// Push a whole batch: build the sub-chain locally, newest element on
    /// top, then commit it with a single swing of the head. Equivalent to
    /// pushing the elements of `items` one by one, in order.
    pub fn push_range(&mut self, items: Vec<T>)
        requires
            old(self).wf(),
        ensures
            final(self).wf(),
            final(self)@ == items@.reverse() + old(self)@,
    {
        let ghost orig: Seq<T> = items@;
        let ghost oc = old(self).chain@;
        let mut items = items;
        if items.len() == 0 {
            proof {
                assert(items@.reverse() =~= Seq::<T>::empty());
                assert(self@ =~= items@.reverse() + old(self)@);
            }
            return ;
        }
        // the batch's bottom node; its successor is linked only at commit time
        let first = items.remove(0);
        let bottom = self.arena.allocate(Some(first), None);
        let mut top = bottom;
        let ghost mut local: Seq<usize> = seq![bottom];
        let ghost mut done: int = 1;
        proof {
            assert(items@ =~= orig.skip(1));
            if old(self).arena.free@.len() > 0 {
                assert(old(self).arena.free@.contains(bottom));
                assert forall|k: int| 0 <= k < oc.len() implies oc[k] != bottom by {
                    assert(!old(self).arena.free@.contains(oc[k]));
                }
            } else {
                assert forall|k: int| 0 <= k < oc.len() implies oc[k] != bottom by {
                    assert(oc[k] < old(self).arena.nodes@.len());
                }
            }
            if old(self).arena.free@.len() > 0 {
                let f = old(self).arena.free@;
                if self.arena.free@.contains(bottom) {
                    let m = choose|m: int|
                        0 <= m < f.drop_last().len() && f.drop_last()[m] == bottom;
                    assert(f[m] == bottom && f[f.len() - 1] == bottom);
                }
            }
            assert(elems(self.arena.nodes@, local) =~= orig.take(1).reverse());
        }
        while items.len() > 0
            invariant
                self.head == old(self).head,
                self.chain == old(self).chain,
                self.chain@ == oc,
                old(self).wf(),
                self.arena.wf(),
                1 <= done <= orig.len(),
                items@ == orig.skip(done),
                local.len() == done,
                local.no_duplicates(),
                linked(self.arena.nodes@, local),
                local[0] == top,
                local.last() == bottom,
                elems(self.arena.nodes@, local) == orig.take(done).reverse(),
                self.arena.nodes@.len() >= old(self).arena.nodes@.len(),
                forall|k: int|
                    0 <= k < local.len() ==> (#[trigger] local[k]) < self.arena.nodes@.len(),
                forall|k: int| 0 <= k < local.len() ==> !oc.contains(#[trigger] local[k]),
                forall|k: int|
                    0 <= k < local.len() ==> !self.arena.free@.contains(#[trigger] local[k]),
                forall|j: int|
                    0 <= j < self.arena.free@.len() ==> old(self).arena.free@.contains(
                        #[trigger] self.arena.free@[j],
                    ),
                forall|k: int|
                    0 <= k < local.len() ==> self.arena.nodes@[(#[trigger] local[k]) as int].value is Some,
                forall|j: usize|
                    j < old(self).arena.nodes@.len() && !local.contains(j)
                        ==> self.arena.nodes@[j as int] == old(self).arena.nodes@[j as int],
            decreases items@.len(),
        {
            let v = items.remove(0);
            let ghost pre = self.arena;
            let i = self.arena.allocate(Some(v), Some(top));
            proof {
                let ghost plocal = local;
                let ghost pdone = done;
                assert(v == orig[pdone]);
                assert forall|k: int| 0 <= k < plocal.len() implies plocal[k] != i by {
                    if pre.free@.len() > 0 {
                        assert(pre.free@.contains(i));
                    } else {
                        assert(plocal[k] < pre.nodes@.len());
                    }
                }
                if pre.free@.len() > 0 {
                    assert(old(self).arena.free@.contains(i));
                    assert(!oc.contains(i));
                } else {
                    assert(i >= old(self).arena.nodes@.len());
                    assert forall|k: int| 0 <= k < oc.len() implies oc[k] != i by {
                        assert(oc[k] < old(self).arena.nodes@.len());
                    }
                }
                local = seq![i] + plocal;
                done = pdone + 1;
                assert(items@ =~= orig.skip(done));
                // the previous sub-chain's slots are untouched by the allocation
                assert forall|k: int| 0 <= k < plocal.len() implies self.arena.nodes@[(
                #[trigger] plocal[k]) as int] == pre.nodes@[plocal[k] as int] by {
                    assert(plocal[k] != i);
                }
                assert forall|k: int| 0 <= k < local.len() - 1 implies self.arena.nodes@[(
                #[trigger] local[k]) as int].next == Some(local[k + 1]) by {
                    if k > 0 {
                        assert(local[k] == plocal[k - 1]);
                    }
                }
                assert(local.no_duplicates());
                assert forall|k: int| 0 <= k < local.len() implies self.arena.nodes@[(
                #[trigger] local[k]) as int].value is Some by {
                    if k > 0 {
                        assert(local[k] == plocal[k - 1]);
                    }
                }
                assert forall|k: int| 0 <= k < local.len() implies !self.arena.free@.contains(
                    #[trigger] local[k],
                ) by {
                    let f = pre.free@;
                    if f.len() > 0 && self.arena.free@.contains(local[k]) {
                        let m = choose|m: int|
                            0 <= m < f.drop_last().len() && f.drop_last()[m] == local[k];
                        assert(f[m] == local[k]);
                        if k == 0 {
                            assert(f[f.len() - 1] == i);
                        } else {
                            assert(!f.contains(plocal[k - 1]));
                        }
                    }
                }
                assert forall|j: usize|
                    j < old(self).arena.nodes@.len() && !local.contains(j) implies self.arena.nodes@[j as int]
                    == old(self).arena.nodes@[j as int] by {
                    assert(local[0] == i);
                    if plocal.contains(j) {
                        let w = choose|w: int| 0 <= w < plocal.len() && plocal[w] == j;
                        assert(local[w + 1] == j);
                    }
                    assert(j != i);
                    assert(self.arena.nodes@[j as int] == pre.nodes@[j as int]);
                }
                assert forall|k: int| 0 <= k < local.len() implies elems(self.arena.nodes@, local)[k]
                    == orig.take(done).reverse()[k] by {
                    if k == 0 {
                        assert(elems(self.arena.nodes@, local)[0] == orig[pdone]);
                        assert(orig.take(done).reverse()[0] == orig.take(done)[done - 1]);
                    } else {
                        assert(local[k] == plocal[k - 1]);
                        assert(elems(self.arena.nodes@, local)[k] == elems(pre.nodes@, plocal)[k
                            - 1]);
                        assert(elems(pre.nodes@, plocal)[k - 1] == orig.take(pdone).reverse()[k
                            - 1]);
                        assert(orig.take(pdone).reverse()[k - 1] == orig.take(pdone)[pdone - k]);
                        assert(orig.take(done).reverse()[k] == orig.take(done)[done - 1 - k]);
                    }
                }
                assert(elems(self.arena.nodes@, local) =~= orig.take(done).reverse());
            }
            top = i;
        }
        // single commit: hook the batch's bottom onto the old head and swing
        // the head to the batch's top
        let ghost pre = self.arena;
        proof {
            if oc.len() > 0 {
                assert(!local.contains(oc[0]));
            }
        }
        let commit_next = self.head;
        self.arena.set_next(bottom, commit_next);
        self.head = Some(top);
        proof {
            self.chain@ = local + oc;
            let nc = self.chain@;
            let slots = self.arena.nodes@;
            assert(done == orig.len());
            assert(orig.take(done) =~= orig);
            assert forall|k: int| 0 <= k < nc.len() implies (#[trigger] nc[k]) < slots.len() by {
                if k >= local.len() {
                    assert(oc[k - local.len()] < old(self).arena.nodes@.len());
                }
            }
            assert forall|k: int| 0 <= k < nc.len() - 1 implies slots[(#[trigger] nc[k]) as int].next
                == Some(nc[k + 1]) by {
                if k < local.len() - 1 {
                    assert(local[k] != bottom);
                    assert(pre.nodes@[local[k] as int].next == Some(local[k + 1]));
                } else if k == local.len() - 1 {
                    assert(nc[k] == bottom);
                    assert(oc.len() > 0 && nc[k + 1] == oc[0]);
                } else {
                    assert(nc[k] == oc[k - local.len()]);
                    assert(!local.contains(oc[k - local.len()]));
                    assert(oc[k - local.len()] != bottom);
                    assert(old(self).arena.nodes@[oc[k - local.len()] as int].next == Some(
                        oc[k - local.len() + 1],
                    ));
                }
            }
            if nc.len() > 0 {
                if oc.len() > 0 {
                    assert(nc.last() == oc.last());
                    assert(!local.contains(oc.last()));
                    assert(oc.last() != bottom);
                } else {
                    assert(nc.last() == bottom);
                }
            }
            assert forall|p: int, q: int|
                0 <= p < nc.len() && 0 <= q < nc.len() && p != q implies nc[p] != nc[q] by {
                if p < local.len() && q >= local.len() {
                    assert(!oc.contains(local[p]));
                    assert(oc[q - local.len()] == nc[q]);
                } else if q < local.len() && p >= local.len() {
                    assert(!oc.contains(local[q]));
                    assert(oc[p - local.len()] == nc[p]);
                }
            }
            assert forall|k: int| 0 <= k < nc.len() implies slots[(#[trigger] nc[k]) as int].value is Some by {
                if k >= local.len() {
                    assert(!local.contains(oc[k - local.len()]));
                    assert(oc[k - local.len()] != bottom);
                }
            }
            assert forall|k: int| 0 <= k < nc.len() implies !self.arena.free@.contains(
                #[trigger] nc[k],
            ) by {
                if k >= local.len() {
                    assert(!old(self).arena.free@.contains(oc[k - local.len()]));
                }
            }
            assert(self.wf());
            assert forall|k: int| 0 <= k < local.len() implies slots[(#[trigger] local[k]) as int].value
                == pre.nodes@[local[k] as int].value by {}
            assert forall|k: int| 0 <= k < nc.len() implies self@[k] == (orig.reverse() + old(
                self,
            )@)[k] by {
                if k < local.len() {
                    assert(self@[k] == slots[local[k] as int].value.unwrap());
                    assert(slots[local[k] as int].value == pre.nodes@[local[k] as int].value);
                    assert(elems(pre.nodes@, local)[k] == orig.take(done).reverse()[k]);
                    assert(orig.take(done).reverse()[k] == orig.reverse()[k]);
                } else {
                    assert(!local.contains(oc[k - local.len()]));
                    assert(oc[k - local.len()] != bottom);
                    assert(old(self)@[k - local.len()] == old(self).arena.nodes@[oc[k
                        - local.len()] as int].value.unwrap());
                }
            }
            assert(self@ =~= orig.reverse() + old(self)@);
        }
    }

    /// Pop up to `count` elements: walk the chain to the cut point, commit
    /// with a single swing of the head past the batch, then move the detached
    /// elements out and reclaim their slots. Yields the same elements, in the
    /// same order, as that many single pops.
    pub fn try_pop_range(&mut self, count: usize) -> (r: Vec<T>)
        requires
            old(self).wf(),
        ensures
            final(self).wf(),
            r@ == old(self)@.take(vstd::math::min(count as int, old(self)@.len() as int)),
            final(self)@ == old(self)@.skip(vstd::math::min(count as int, old(self)@.len() as int)),
    {
        let ghost oc = old(self).chain@;
        let mut result: Vec<T> = Vec::new();
        // walk to the node just past the batch
        let mut cut: Option<usize> = self.head;
        let mut m: usize = 0;
        while m < count && cut.is_some()
            invariant
                *self == *old(self),
                old(self).wf(),
                oc == old(self).chain@,
                0 <= m <= count,
                m <= oc.len(),
                cut == (if m < oc.len() {
                    Some(oc[m as int])
                } else {
                    Option::<usize>::None
                }),
            decreases count - m,
        {
            let i = match cut {
                Some(i) => i,
                None => {
                    proof {
                        assert(false);
                    }
                    0
                },
            };
            proof {
                assert(i == oc[m as int]);
                assert(oc[m as int] < self.arena.nodes@.len());
            }
            cut = self.arena.next_of(i);
            proof {
                if m + 1 < oc.len() {
                    assert(self.arena.nodes@[oc[m as int] as int].next == Some(oc[m + 1]));
                } else {
                    assert(oc[m as int] == oc.last());
                    assert(self.arena.nodes@[oc.last() as int].next is None);
                }
            }
            m = m + 1;
        }
        let ghost mm = m as int;
        proof {
            assert(mm == vstd::math::min(count as int, oc.len() as int));
        }
        // single commit: the head swings past the whole batch
        let start = self.head;
        self.head = cut;
        proof {
            self.chain@ = oc.skip(mm);
        }
        // the batch is now exclusively owned: move its elements out and
        // reclaim its slots
        let mut cur = start;
        let mut j: usize = 0;
        proof {
            assert(result@ =~= old(self)@.take(0));
            assert(self.arena.free@ =~= old(self).arena.free@ + oc.take(0));
        }
        while j < m
            invariant
                old(self).wf(),
                oc == old(self).chain@,
                self.head == (if mm < oc.len() {
                    Some(oc[mm])
                } else {
                    Option::<usize>::None
                }),
                self.chain@ == oc.skip(mm),
                0 <= j <= m,
                mm == m as int,
                mm <= oc.len(),
                mm == vstd::math::min(count as int, oc.len() as int),
                self.arena.wf(),
                self.arena.nodes@.len() == old(self).arena.nodes@.len(),
                cur == (if (j as int) < oc.len() {
                    Some(oc[j as int])
                } else {
                    Option::<usize>::None
                }),
                result@ == old(self)@.take(j as int),
                self.arena.free@ == old(self).arena.free@ + oc.take(j as int),
                forall|k: int|
                    j <= k < oc.len() ==> self.arena.nodes@[(#[trigger] oc[k]) as int] == old(
                        self,
                    ).arena.nodes@[oc[k] as int],
            decreases m - j,
        {
            let i = match cur {
                Some(i) => i,
                None => {
                    proof {
                        assert(false);
                    }
                    0
                },
            };
            let ghost pre = self.arena;
            proof {
                assert(i == oc[j as int]);
                assert(pre.nodes@[i as int] == old(self).arena.nodes@[i as int]);
                if j + 1 < oc.len() {
                    assert(old(self).arena.nodes@[i as int].next == Some(oc[j + 1]));
                } else {
                    assert(i == oc.last());
                    assert(old(self).arena.nodes@[i as int].next is None);
                }
                // the slot is not yet on the free list: not originally free,
                // and not among the already-reclaimed prefix
                if self.arena.free@.contains(i) {
                    let w = choose|w: int|
                        0 <= w < self.arena.free@.len() && self.arena.free@[w] == i;
                    if w < old(self).arena.free@.len() {
                        assert(old(self).arena.free@[w] == i);
                        assert(!old(self).arena.free@.contains(oc[j as int]));
                    } else {
                        assert(oc.take(j as int)[w - old(self).arena.free@.len()] == i);
                        assert(oc[w - old(self).arena.free@.len()] == oc[j as int]);
                    }
                    assert(false);
                }
            }
            cur = self.arena.next_of(i);
            let v = self.arena.take_value(i);
            self.arena.reclaim(i);
            result.push(v);
            proof {
                assert(v == old(self)@[j as int]);
                assert(result@ =~= old(self)@.take(j + 1));
                assert(self.arena.free@ =~= old(self).arena.free@ + oc.take(j + 1));
                assert forall|k: int| j + 1 <= k < oc.len() implies self.arena.nodes@[(
                #[trigger] oc[k]) as int] == old(self).arena.nodes@[oc[k] as int] by {
                    assert(oc[k] != oc[j as int]);
                }
            }
            j = j + 1;
        }
        proof {
            let nc = self.chain@;
            assert forall|k: int| 0 <= k < nc.len() implies (#[trigger] nc[k]) == oc[k + mm] by {}
            assert forall|k: int| 0 <= k < nc.len() implies self.arena.nodes@[(#[trigger] nc[k]) as int]
                == old(self).arena.nodes@[nc[k] as int] by {
                assert(nc[k] == oc[k + mm]);
            }
            assert(nc.no_duplicates());
            assert forall|k: int| 0 <= k < nc.len() - 1 implies self.arena.nodes@[(
            #[trigger] nc[k]) as int].next == Some(nc[k + 1]) by {
                assert(old(self).arena.nodes@[oc[k + mm] as int].next == Some(oc[k + mm + 1]));
            }
            if nc.len() > 0 {
                assert(nc.last() == oc.last());
            }
            assert forall|k: int| 0 <= k < nc.len() implies !self.arena.free@.contains(
                #[trigger] nc[k],
            ) by {
                let f = self.arena.free@;
                if f.contains(nc[k]) {
                    let w = choose|w: int| 0 <= w < f.len() && f[w] == nc[k];
                    if w < old(self).arena.free@.len() {
                        assert(old(self).arena.free@[w] == nc[k]);
                        assert(!old(self).arena.free@.contains(oc[k + mm]));
                    } else {
                        assert(oc.take(mm)[w - old(self).arena.free@.len()] == nc[k]);
                        assert(oc[w - old(self).arena.free@.len()] == oc[k + mm]);
                    }
                }
            }
            assert(self.wf());
            assert(result@ == old(self)@.take(mm));
            assert(self@ =~= old(self)@.skip(mm));
        }
        result
    }

    /// Borrow the most recently pushed element without removing it.
    pub fn try_peek(&self) -> (r: Option<&T>)
        requires
            self.wf(),
        ensures
            match r {
                Some(v) => self@.len() > 0 && *v == self@[0],
                None => self@.len() == 0,
            },
    {
        match self.head {
            None => None,
            Some(i) => Some(self.arena.value_ref(i)),
        }
    }

    /// Emptiness, decided exactly as a pop decides it: no head node.
    pub fn is_empty(&self) -> (b: bool)
        requires
            self.wf(),
        ensures
            b <==> self@.len() == 0,
    {
        self.head.is_none()
    }

    /// Clone the elements into a vector, top first, by walking the chain.
    /// Each entry of the result is a clone of the element at its position.
    pub fn to_vec(&self) -> (r: Vec<T>) where T: Clone
        requires
            self.wf(),
        ensures
            r@.len() == self@.len(),
            forall|k: int| 0 <= k < self@.len() ==> cloned::<T>(self@[k], #[trigger] r@[k]),
    {
        let mut result: Vec<T> = Vec::new();
        let mut cur = self.head;
        let ghost mut j: int = 0;
        while cur.is_some()
            invariant
                self.wf(),
                0 <= j <= self@.len(),
                cur == (if j < self.chain@.len() {
                    Some(self.chain@[j])
                } else {
                    Option::<usize>::None
                }),
                result@.len() == j,
                forall|k: int| 0 <= k < j ==> cloned::<T>(self@[k], #[trigger] result@[k]),
            decreases self@.len() - j,
        {
            let i = match cur {
                Some(i) => i,
                None => {
                    proof {
                        assert(false);
                    }
                    0
                },
            };
            let v = self.arena.value_ref(i);
            let c = v.clone();
            result.push(c);
            cur = self.arena.next_of(i);
            proof {
                if j + 1 < self.chain@.len() {
                    assert(self.arena.nodes@[self.chain@[j] as int].next == Some(
                        self.chain@[j + 1],
                    ));
                } else {
                    assert(self.chain@[j] == self.chain@.last());
                    assert(self.arena.nodes@[self.chain@.last() as int].next is None);
                }
                j = j + 1;
            }
        }
        result
    }

    /// Start a read-only walk at the head node.
    pub fn iter<'a>(&'a self) -> (it: Iter<'a, T>)
        requires
            self.wf(),
        ensures
            it.wf(),
            it.src() == self,
            it.pos() == 0,
    {
        Iter { stack: self, cursor: self.head, pos: Ghost(0) }
    }

    /// Drain by repeated pops; not atomic as a whole.
    pub fn clear(&mut self)
        requires
            old(self).wf(),
        ensures
            final(self).wf(),
            final(self)@ == Seq::<T>::empty(),
    {
        loop
            invariant
                self.wf(),
            decreases self@.len(),
        {
            match self.try_pop() {
                Some(_) => {},
                None => {
                    proof {
                        assert(self@ =~= Seq::<T>::empty());
                    }
                    return ;
                },
            }
        }
    }
}

/// A read-only walk down the chain from the head node; it stops cleanly at
/// the chain's terminator. Valid only while no removal runs on the stack.
pub struct Iter<'a, T> {
    stack: &'a LockFreeStack<T>,
    cursor: Option<usize>,
    pos: Ghost<int>,
}

impl<'a, T> Iter<'a, T> {
    /// The stack being walked.
    pub closed spec fn src(&self) -> &'a LockFreeStack<T> {
        self.stack
    }

    /// How many elements the walk has yielded.
    pub closed spec fn pos(&self) -> int {
        self.pos@
    }

    pub closed spec fn wf(&self) -> bool {
        &&& self.stack.wf()
        &&& 0 <= self.pos@ <= self.stack@.len()
        &&& self.cursor == (if self.pos@ < self.stack@.len() {
            Some(self.stack.chain@[self.pos@])
        } else {
            Option::<usize>::None
        })
    }

    /// Yield a reference to the element at the walk's position and advance.
    pub fn next(&mut self) -> (r: Option<&'a T>)
        requires
            old(self).wf(),
        ensures
            final(self).wf(),
            final(self).src() == old(self).src(),
            match r {
                Some(v) => {
                    &&& old(self).pos() < old(self).src()@.len()
                    &&& *v == old(self).src()@[old(self).pos()]
                    &&& final(self).pos() == old(self).pos() + 1
                },
                None => {
                    &&& old(self).pos() == old(self).src()@.len()
                    &&& final(self).pos() == old(self).pos()
                },
            },
    {
        match self.cursor {
            None => None,
            Some(i) => {
                let ghost c = self.stack.chain@;
                let ghost p = self.pos@;
                let v = self.stack.arena.value_ref(i);
                self.cursor = self.stack.arena.next_of(i);
                proof {
                    self.pos@ = p + 1;
                    if p + 1 < c.len() {
                        assert(self.stack.arena.nodes@[c[p] as int].next == Some(c[p + 1]));
                    } else {
                        assert(c[p] == c.last());
                        assert(self.stack.arena.nodes@[c.last() as int].next is None);
                    }
                }
                Some(v)
            },
        }
    }
}

} // verus!
