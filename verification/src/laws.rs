//! The ordering and conservation laws of the collections, stated over the
//! abstract views that the operations' contracts use.
//!
//! A FIFO insertion appends at the back of the view and a LIFO insertion
//! joins at the front (`push` of the queue-shaped types and of the stack
//! state exactly these effects); a removal always yields the front and drops
//! it (`pop`, `dequeue`, `try_pop`). The functions below fold those single
//! steps over whole sequences of operations, and the lemmas relate the folds
//! to the batch contracts and to each other.

use vstd::multiset::Multiset;
use vstd::prelude::*;
use vstd::seq_lib::lemma_multiset_commutative;

verus! {

/// The view after one FIFO insertion: the element joins at the back.
pub open spec fn fifo_insert<T>(view: Seq<T>, v: T) -> Seq<T> {
    view.push(v)
}

/// The view after one LIFO insertion: the element joins at the front.
pub open spec fn lifo_insert<T>(view: Seq<T>, v: T) -> Seq<T> {
    seq![v] + view
}

/// The element one removal yields: the front of the view.
pub open spec fn removed_elem<T>(view: Seq<T>) -> T
    recommends
        view.len() > 0,
{
    view[0]
}

/// The view one removal leaves behind.
pub open spec fn remove_step<T>(view: Seq<T>) -> Seq<T> {
    view.drop_first()
}

/// The view after inserting every element of `vs`, in order, FIFO style.
pub open spec fn fifo_insert_all<T>(view: Seq<T>, vs: Seq<T>) -> Seq<T>
    decreases vs.len(),
{
    if vs.len() == 0 {
        view
    } else {
        fifo_insert_all(fifo_insert(view, vs[0]), vs.drop_first())
    }
}

/// The view after inserting every element of `vs`, in order, LIFO style.
pub open spec fn lifo_insert_all<T>(view: Seq<T>, vs: Seq<T>) -> Seq<T>
    decreases vs.len(),
{
    if vs.len() == 0 {
        view
    } else {
        lifo_insert_all(lifo_insert(view, vs[0]), vs.drop_first())
    }
}

/// The elements `n` successive removals yield, in delivery order; fewer if
/// the view runs out first.
pub open spec fn removed_seq<T>(view: Seq<T>, n: nat) -> Seq<T>
    decreases n,
{
    if n == 0 || view.len() == 0 {
        Seq::empty()
    } else {
        seq![removed_elem(view)] + removed_seq(remove_step(view), (n - 1) as nat)
    }
}

/// The view `n` successive removals leave behind.
pub open spec fn remaining_seq<T>(view: Seq<T>, n: nat) -> Seq<T>
    decreases n,
{
    if n == 0 || view.len() == 0 {
        view
    } else {
        remaining_seq(remove_step(view), (n - 1) as nat)
    }
}

/// Batch law, FIFO side: inserting the elements of `vs` one by one, in
/// order, yields the same view as one batch append, `view + vs`; this is the
/// view the batch insertion's contract promises.
pub proof fn lemma_fifo_insert_all<T>(view: Seq<T>, vs: Seq<T>)
    ensures
        fifo_insert_all(view, vs) == view + vs,
    decreases vs.len(),
{
    if vs.len() == 0 {
        assert(view + vs =~= view);
    } else {
        lemma_fifo_insert_all(view.push(vs[0]), vs.drop_first());
        assert(view.push(vs[0]) + vs.drop_first() =~= view + vs);
    }
}

/// Batch law, LIFO side: inserting the elements of `vs` one by one, in
/// order, yields the same view as one batch commit, `vs.reverse() + view`;
/// this is the view the batch push's contract promises.
pub proof fn lemma_lifo_insert_all<T>(view: Seq<T>, vs: Seq<T>)
    ensures
        lifo_insert_all(view, vs) == vs.reverse() + view,
    decreases vs.len(),
{
    if vs.len() == 0 {
        assert(vs.reverse() + view =~= view);
    } else {
        lemma_lifo_insert_all(seq![vs[0]] + view, vs.drop_first());
        assert(vs.drop_first().reverse() + (seq![vs[0]] + view) =~= vs.reverse() + view);
    }
}

/// Removals deliver a prefix: `n` removals yield the first `n` elements of
/// the view, in order, and leave the rest.
pub proof fn lemma_removed_seq<T>(view: Seq<T>, n: nat)
    requires
        n <= view.len(),
    ensures
        removed_seq(view, n) == view.take(n as int),
        remaining_seq(view, n) == view.skip(n as int),
    decreases n,
{
    if n == 0 || view.len() == 0 {
        assert(removed_seq(view, n) =~= view.take(n as int));
        assert(remaining_seq(view, n) =~= view.skip(n as int));
    } else {
        lemma_removed_seq(view.drop_first(), (n - 1) as nat);
        assert(seq![view[0]] + view.drop_first().take(n - 1) =~= view.take(n as int));
        assert(view.drop_first().skip(n - 1) =~= view.skip(n as int));
    }
}

/// FIFO delivery: inserting the elements of `vs` in order into an empty
/// collection and then removing them all yields exactly `vs`, in insertion
/// order.
pub proof fn lemma_fifo_order<T>(vs: Seq<T>)
    ensures
        removed_seq(fifo_insert_all(Seq::<T>::empty(), vs), vs.len()) == vs,
        remaining_seq(fifo_insert_all(Seq::<T>::empty(), vs), vs.len()) == Seq::<T>::empty(),
{
    lemma_fifo_insert_all(Seq::<T>::empty(), vs);
    assert(Seq::<T>::empty() + vs =~= vs);
    lemma_removed_seq(vs, vs.len());
    assert(vs.take(vs.len() as int) =~= vs);
    assert(vs.skip(vs.len() as int) =~= Seq::<T>::empty());
}

/// LIFO delivery: pushing the elements of `vs` in order onto an empty stack
/// and then popping them all yields exactly `vs` reversed.
pub proof fn lemma_lifo_order<T>(vs: Seq<T>)
    ensures
        removed_seq(lifo_insert_all(Seq::<T>::empty(), vs), vs.len()) == vs.reverse(),
        remaining_seq(lifo_insert_all(Seq::<T>::empty(), vs), vs.len()) == Seq::<T>::empty(),
{
    lemma_lifo_insert_all(Seq::<T>::empty(), vs);
    assert(vs.reverse() + Seq::<T>::empty() =~= vs.reverse());
    lemma_removed_seq(vs.reverse(), vs.len());
    assert(vs.reverse().take(vs.len() as int) =~= vs.reverse());
    assert(vs.reverse().skip(vs.len() as int) =~= Seq::<T>::empty());
}

/// Conservation under insertion: a batch of insertions adds exactly the
/// inserted elements to the collection's multiset, FIFO or LIFO alike — no
/// element is lost or duplicated on the way in.
pub proof fn lemma_insert_conserves_multiset<T>(view: Seq<T>, vs: Seq<T>)
    ensures
        fifo_insert_all(view, vs).to_multiset() == view.to_multiset().add(vs.to_multiset()),
        lifo_insert_all(view, vs).to_multiset() == view.to_multiset().add(vs.to_multiset()),
{
    lemma_fifo_insert_all(view, vs);
    lemma_multiset_commutative(view, vs);
    lemma_lifo_insert_all(view, vs);
    lemma_multiset_commutative(vs.reverse(), view);
    vs.lemma_reverse_to_multiset();
    assert(vs.reverse().to_multiset().add(view.to_multiset()) =~= view.to_multiset().add(
        vs.to_multiset(),
    ));
}

/// Conservation under removal: what `n` removals deliver, together with what
/// they leave behind, is exactly the original multiset — no element is lost
/// or duplicated on the way out.
pub proof fn lemma_remove_conserves_multiset<T>(view: Seq<T>, n: nat)
    requires
        n <= view.len(),
    ensures
        removed_seq(view, n).to_multiset().add(remaining_seq(view, n).to_multiset())
            == view.to_multiset(),
{
    lemma_removed_seq(view, n);
    lemma_multiset_commutative(view.take(n as int), view.skip(n as int));
    assert(view.take(n as int) + view.skip(n as int) =~= view);
}

/// Conservation end to end: insert the elements of `vs` (in any of the two
/// disciplines) into a collection holding `view`, then remove everything;
/// the delivered multiset is exactly the initial contents plus `vs`.
pub proof fn lemma_no_loss_no_duplication<T>(view: Seq<T>, vs: Seq<T>)
    ensures
        removed_seq(fifo_insert_all(view, vs), (view.len() + vs.len()) as nat).to_multiset()
            == view.to_multiset().add(vs.to_multiset()),
        removed_seq(lifo_insert_all(view, vs), (view.len() + vs.len()) as nat).to_multiset()
            == view.to_multiset().add(vs.to_multiset()),
{
    broadcast use vstd::seq_lib::group_to_multiset_ensures;
    broadcast use vstd::multiset::group_multiset_axioms;

    let n = (view.len() + vs.len()) as nat;
    lemma_fifo_insert_all(view, vs);
    lemma_lifo_insert_all(view, vs);
    lemma_insert_conserves_multiset(view, vs);
    lemma_remove_conserves_multiset(fifo_insert_all(view, vs), n);
    lemma_remove_conserves_multiset(lifo_insert_all(view, vs), n);
    lemma_removed_seq(fifo_insert_all(view, vs), n);
    lemma_removed_seq(lifo_insert_all(view, vs), n);
    assert(remaining_seq(fifo_insert_all(view, vs), n) =~= Seq::<T>::empty());
    assert(remaining_seq(lifo_insert_all(view, vs), n) =~= Seq::<T>::empty());
    assert(Seq::<T>::empty().to_multiset() =~= Multiset::<T>::empty());
    assert(removed_seq(fifo_insert_all(view, vs), n).to_multiset().add(Multiset::<T>::empty())
        =~= removed_seq(fifo_insert_all(view, vs), n).to_multiset());
    assert(removed_seq(lifo_insert_all(view, vs), n).to_multiset().add(Multiset::<T>::empty())
        =~= removed_seq(lifo_insert_all(view, vs), n).to_multiset());
}

} // verus!
