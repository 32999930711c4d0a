//! General laws of the pairing heap, stated over the model and proved once
//! and for all.

use vstd::prelude::*;

verus! {

use core::cmp::Ordering;
use crate::heap::PairingHeap;
use crate::model::{
    drain,
    lemma_ord_total_basics, lemma_pop_props, ord_le, ord_total, seq_elems, HeapModel,
};
use vstd::multiset::Multiset;
use vstd::std_specs::cmp::PartialOrdSpec;

/// Heap-sort law: under a total order, extracting twice from a
/// well-formed heap yields elements in non-decreasing order, and the
/// remainder stays well-formed — so repeated extraction drains any heap in
/// non-decreasing order.
pub proof fn lemma_pop_min_nondecreasing<T: PartialOrd>(m: HeapModel<T>)
    requires
        ord_total::<T>(),
        m.wf(),
        m is Tree,
        m.pop().1 is Tree,
    ensures
        ord_le(m.pop().0, m.pop().1.pop().0),
        m.pop().1.wf(),
{
    lemma_pop_props(m);
    let m1 = m.pop().1;
    assert(m1.elems().count(m1.root()) > 0) by {
        assert(m1.elems() == seq_elems(m1.kids()).insert(m1.root()));
    }
}

/// Heap-sort law, in full: draining a well-formed heap by repeated
/// extract-min yields exactly its elements, in non-decreasing order.
pub proof fn lemma_drain_sorted<T: PartialOrd>(m: HeapModel<T>)
    requires
        ord_total::<T>(),
        m.wf(),
    ensures
        drain(m).to_multiset() == m.elems(),
        forall|i: int, j: int|
            0 <= i <= j < drain(m).len() ==> ord_le(drain(m)[i], drain(m)[j]),
    decreases m.elems().len(),
{
    broadcast use vstd::seq_lib::group_to_multiset_ensures;

    lemma_ord_total_basics::<T>();
    if m is Tree {
        lemma_pop_props(m);
        let m1 = m.pop().1;
        lemma_drain_sorted(m1);
        let d = drain(m);
        let d1 = drain(m1);
        assert(d == seq![m.root()] + d1);
        assert(d =~= d1.insert(0, m.root()));
        vstd::seq_lib::to_multiset_insert(d1, 0, m.root());
        assert(d.to_multiset() =~= m.elems());
        assert forall|i: int, j: int| 0 <= i <= j < d.len() implies ord_le(d[i], d[j]) by {
            if j > 0 {
                assert(d[j] == d1[j - 1]);
                assert(d1.to_multiset().count(d1[j - 1]) > 0) by {
                    assert(d1.contains(d1[j - 1]));
                }
                assert(ord_le(m.root(), d[j]));
            }
            if i > 0 {
                assert(d[i] == d1[i - 1]);
            }
        }
    } else {
        assert(m.elems() =~= Multiset::<T>::empty());
        assert forall|x: T| !(#[trigger] drain(m).contains(x)) by {}
        assert(drain(m).to_multiset() =~= Multiset::<T>::empty());
    }
}

/// Identity law: merging with the empty heap, on either side, returns the
/// other operand unchanged.
pub proof fn lemma_merge_identity<T: PartialOrd>(m: HeapModel<T>)
    ensures
        m.merge(HeapModel::<T>::Empty) == m,
        HeapModel::<T>::Empty.merge(m) == m,
{
}

/// Merge is commutative with respect to the minimum: the root of a merge
/// of two non-empty heaps is one of the two roots and a lower bound of
/// both, in either merge order — even though the two tree shapes may
/// differ under the tie-break policy.
pub proof fn lemma_merge_min<T: PartialOrd>(a: HeapModel<T>, b: HeapModel<T>)
    requires
        ord_total::<T>(),
        a is Tree,
        b is Tree,
    ensures
        a.merge(b) is Tree,
        a.merge(b).root() == a.root() || a.merge(b).root() == b.root(),
        ord_le(a.merge(b).root(), a.root()),
        ord_le(a.merge(b).root(), b.root()),
        ord_le(a.merge(b).root(), b.merge(a).root()),
        ord_le(b.merge(a).root(), a.merge(b).root()),
{
    lemma_ord_total_basics::<T>();
}

/// Ordering law over heaps: the empty heap is strictly below every
/// non-empty heap, and two non-empty heaps compare exactly as their roots
/// do — in particular `singleton(x) <= singleton(y)` iff `x <= y`.
pub proof fn lemma_heap_order<T: PartialOrd>(hx: PairingHeap<T>, hy: PairingHeap<T>)
    requires
        hx is Tree,
        hy is Tree,
    ensures
        PairingHeap::<T>::Empty.partial_cmp_spec(&hx) == Some(Ordering::Less),
        hx.partial_cmp_spec(&hy) == (hx->elem).partial_cmp_spec(&(hy->elem)),
        (hx.partial_cmp_spec(&hy) matches Some(Ordering::Less | Ordering::Equal)) <==> ord_le(
            hx->elem,
            hy->elem,
        ),
{
}

} // verus!
