//! A persistent-style pairing heap.
//!
//! `PairingHeap` is a min-heap built from one structural primitive, merge;
//! insert, peek-min and extract-min are expressed on top of it. Operations
//! that combine heaps consume their operands and return a new value.

use vstd::prelude::*;

verus! {

use crate::model::{
    build, fold_merge, lemma_merge_wf, lemma_pop_props, lemma_seq_elems_push, lemma_wf_min,
    merge_pairs, ord_le, ord_total, seq_elems, HeapModel,
};
use core::cmp::Ordering;
use vstd::multiset::Multiset;
use vstd::std_specs::cmp::PartialOrdSpecImpl;
use vstd::std_specs::cmp::PartialOrdSpec;

/// A pairing heap over a partially ordered element type: either empty, or
/// a root element with a vector of child heaps in insertion/merge order.
#[derive(Debug, PartialEq)]
pub enum PairingHeap<T: PartialOrd> {
    Empty,
    Tree { elem: T, subheaps: Vec<PairingHeap<T>> },
}

/// The models of a sequence of heaps, element by element.
pub open spec fn views<T: PartialOrd>(s: Seq<PairingHeap<T>>) -> Seq<HeapModel<T>>
    decreases s,
{
    Seq::new(
        s.len(),
        |i: int|
            if 0 <= i < s.len() {
                s[i].model()
            } else {
                HeapModel::Empty
            },
    )
}

impl<T: PartialOrd> View for PairingHeap<T> {
    type V = HeapModel<T>;

    open spec fn view(&self) -> HeapModel<T> {
        self.model()
    }
}

impl<T: PartialOrd> PairingHeap<T> {
    /// The ghost rose tree this heap stands for.
    pub open spec fn model(self) -> HeapModel<T>
        decreases self,
    {
        match self {
            PairingHeap::Empty => HeapModel::Empty,
            PairingHeap::Tree { elem, subheaps } => HeapModel::Tree {
                elem,
                children: views(subheaps@),
            },
        }
    }

    /// Creates an empty heap.
    pub fn new() -> (r: Self)
        ensures
            r == PairingHeap::<T>::Empty,
            r@ == HeapModel::<T>::Empty,
    {
        PairingHeap::Empty
    }

    /// Creates a heap holding exactly `elem`.
    pub fn root(elem: T) -> (r: Self)
        ensures
            r@ == HeapModel::singleton(elem),
            r@.wf(),
    {
        let r = PairingHeap::Tree { elem, subheaps: Vec::new() };
        proof {
            assert(r@.kids() =~= Seq::<HeapModel<T>>::empty());
        }
        r
    }

    /// True iff the heap holds no elements.
    pub fn is_empty(&self) -> (r: bool)
        ensures
            r == (self@ is Empty),
    {
        if let PairingHeap::Empty = self {
            true
        } else {
            false
        }
    }

    /// Merges two heaps, consuming both. An empty operand is the identity;
    /// otherwise the strictly smaller root wins (ties and incomparable
    /// pairs go to the right-hand root) and the losing heap becomes the
    /// winner's last child. The element multiset is preserved whatever the
    /// order does; when the order is total, well-formedness is preserved
    /// and the result is exactly the model-level merge.
    pub fn merge(self, other: Self) -> (r: Self)
        ensures
            self@ is Empty ==> r == other,
            self@ is Tree && other@ is Empty ==> r == self,
            self@ is Tree || other@ is Tree ==> r@ is Tree,
            T::obeys_partial_cmp_spec() ==> r@ == self@.merge(other@),
            r@.elems() == self@.elems().add(other@.elems()),
            ord_total::<T>() && self@.wf() && other@.wf() ==> r@.wf(),
    {
        match (self, other) {
            (PairingHeap::Empty, o) => {
                proof {
                    assert(o@.elems() =~= HeapModel::<T>::Empty.elems().add(o@.elems()));
                }
                o
            },
            (s, PairingHeap::Empty) => {
                proof {
                    assert(s@.elems() =~= s@.elems().add(HeapModel::<T>::Empty.elems()));
                }
                s
            },
            (
                PairingHeap::Tree { elem: e1, subheaps: mut sub1 },
                PairingHeap::Tree { elem: e2, subheaps: sub2 },
            ) => {
                let ghost a = PairingHeap::Tree { elem: e1, subheaps: sub1 }@;
                let ghost b = PairingHeap::Tree { elem: e2, subheaps: sub2 }@;
                if e1.lt(&e2) {
                    let ghost c1 = sub1@;
                    sub1.push(PairingHeap::Tree { elem: e2, subheaps: sub2 });
                    let r = PairingHeap::Tree { elem: e1, subheaps: sub1 };
                    proof {
                        assert(views(sub1@) =~= views(c1).push(b));
                        assert(r@ == (HeapModel::Tree { elem: e1, children: views(c1).push(b) }));
                        lemma_seq_elems_push(views(c1), b);
                        assert(r@.elems() =~= a.elems().add(b.elems()));
                        if ord_total::<T>() && a.wf() && b.wf() {
                            lemma_merge_wf(a, b);
                        }
                    }
                    r
                } else {
                    let mut sub2 = sub2;
                    let ghost c2 = sub2@;
                    sub2.push(PairingHeap::Tree { elem: e1, subheaps: sub1 });
                    let r = PairingHeap::Tree { elem: e2, subheaps: sub2 };
                    proof {
                        assert(views(sub2@) =~= views(c2).push(a));
                        assert(r@ == (HeapModel::Tree { elem: e2, children: views(c2).push(a) }));
                        lemma_seq_elems_push(views(c2), a);
                        assert(r@.elems() =~= a.elems().add(b.elems()));
                        if ord_total::<T>() && a.wf() && b.wf() {
                            lemma_merge_wf(a, b);
                        }
                    }
                    r
                }
            },
        }
    }

    /// Inserts an element, consuming the heap: the result is the merge of
    /// the heap with a fresh singleton on the right.
    pub fn insert(self, elem: T) -> (r: Self)
        ensures
            T::obeys_partial_cmp_spec() ==> r@ == self@.insert(elem),
            r@.elems() == self@.elems().insert(elem),
            ord_total::<T>() && self@.wf() ==> r@.wf(),
    {
        let ghost m0 = self@;
        let temp_heap = Self::root(elem);
        let r = self.merge(temp_heap);
        proof {
            assert(HeapModel::singleton(elem).elems() == seq_elems(
                Seq::<HeapModel<T>>::empty(),
            ).insert(elem));
            assert(seq_elems(Seq::<HeapModel<T>>::empty()) == Multiset::<T>::empty());
            assert(r@.elems() =~= m0.elems().insert(elem));
        }
        r
    }

    /// Removes the minimum element of a non-empty heap and rebalances the
    /// remaining elements by the two-pass pairing strategy: children are
    /// merged in consecutive pairs left to right, then the results are
    /// folded right to left by merging the last two repeatedly. Returns
    /// `None` on the empty heap.
    pub fn pop_min(self) -> (r: Option<(T, Self)>)
        ensures
            self@ is Empty <==> r is None,
            r matches Some((e, h)) ==> {
                &&& self@ is Tree
                &&& e == self@.root()
                &&& (T::obeys_partial_cmp_spec() ==> h@ == self@.pop().1)
                &&& self@.elems() == h@.elems().insert(e)
                &&& (ord_total::<T>() && self@.wf() ==> h@.wf() && (forall|x: T|
                    #[trigger] h@.elems().count(x) > 0 ==> ord_le(e, x)) && (forall|x: T|
                    #[trigger] self@.elems().count(x) > 0 ==> ord_le(e, x)))
            },
    {
        let ghost m0 = self@;
        match self {
            PairingHeap::Empty => None,
            PairingHeap::Tree { elem, subheaps } => {
                let mut subheaps = subheaps;
                let ghost orig = views(subheaps@);
                let mut pair_stack: Vec<PairingHeap<T>> = Vec::new();
                proof {
                    assert(views(pair_stack@) =~= Seq::<HeapModel<T>>::empty());
                    assert(Seq::<HeapModel<T>>::empty() + merge_pairs(orig) =~= merge_pairs(orig));
                    assert(seq_elems(Seq::<HeapModel<T>>::empty()) == Multiset::<T>::empty());
                    assert(seq_elems(views(pair_stack@)).add(seq_elems(views(subheaps@)))
                        =~= seq_elems(orig));
                }
                while subheaps.len() > 0
                    invariant
                        T::obeys_partial_cmp_spec() ==> views(pair_stack@) + merge_pairs(
                            views(subheaps@),
                        ) == merge_pairs(orig),
                        seq_elems(views(pair_stack@)).add(seq_elems(views(subheaps@)))
                            == seq_elems(orig),
                    decreases subheaps.len(),
                {
                    let ghost ps0 = views(pair_stack@);
                    let ghost v = views(subheaps@);
                    let h1 = subheaps.remove(0);
                    let h2 = if subheaps.len() > 0 {
                        subheaps.remove(0)
                    } else {
                        PairingHeap::new()
                    };
                    let merged = h1.merge(h2);
                    pair_stack.push(merged);
                    proof {
                        assert(h1@ == v[0]);
                        assert(views(pair_stack@) =~= ps0.push(merged@));
                        lemma_seq_elems_push(ps0, merged@);
                        assert(seq_elems(v) == v[0].elems().add(seq_elems(v.drop_first())));
                        if v.len() >= 2 {
                            assert(h2@ == v[1]);
                            assert(views(subheaps@) =~= v.skip(2));
                            assert(v.drop_first()[0] == v[1]);
                            assert(v.drop_first().drop_first() =~= v.skip(2));
                            assert(seq_elems(v.drop_first()) == v[1].elems().add(
                                seq_elems(v.skip(2)),
                            ));
                            if T::obeys_partial_cmp_spec() {
                                assert(merged@ == v[0].merge(v[1]));
                                assert(merge_pairs(v) == seq![v[0].merge(v[1])] + merge_pairs(
                                    v.skip(2),
                                ));
                                assert(ps0.push(merged@) + merge_pairs(v.skip(2)) =~= ps0
                                    + merge_pairs(v));
                            }
                            assert(seq_elems(views(pair_stack@)).add(
                                seq_elems(views(subheaps@)),
                            ) =~= seq_elems(orig));
                        } else {
                            assert(h2@ == HeapModel::<T>::Empty);
                            assert(h1@ is Empty ==> h1 == PairingHeap::<T>::Empty);
                            assert(merged == h1);
                            assert(views(subheaps@) =~= Seq::<HeapModel<T>>::empty());
                            assert(v.drop_first() =~= Seq::<HeapModel<T>>::empty());
                            assert(seq_elems(Seq::<HeapModel<T>>::empty())
                                == Multiset::<T>::empty());
                            assert(merge_pairs(v) == v);
                            assert(seq![v[0]] =~= v);
                            if T::obeys_partial_cmp_spec() {
                                assert(merge_pairs(Seq::<HeapModel<T>>::empty())
                                    =~= Seq::<HeapModel<T>>::empty());
                                assert(ps0.push(merged@) + merge_pairs(views(subheaps@))
                                    =~= ps0 + merge_pairs(v));
                            }
                            assert(seq_elems(views(pair_stack@)).add(
                                seq_elems(views(subheaps@)),
                            ) =~= seq_elems(orig));
                        }
                    }
                }
                proof {
                    assert(views(subheaps@) =~= Seq::<HeapModel<T>>::empty());
                    assert(merge_pairs(Seq::<HeapModel<T>>::empty())
                        =~= Seq::<HeapModel<T>>::empty());
                    assert(seq_elems(Seq::<HeapModel<T>>::empty()) == Multiset::<T>::empty());
                    if T::obeys_partial_cmp_spec() {
                        assert(views(pair_stack@) + merge_pairs(views(subheaps@))
                            =~= views(pair_stack@));
                        assert(views(pair_stack@) == merge_pairs(orig));
                    }
                    assert(seq_elems(views(pair_stack@)) =~= seq_elems(orig));
                }
                while pair_stack.len() > 1
                    invariant
                        T::obeys_partial_cmp_spec() ==> fold_merge(views(pair_stack@))
                            == fold_merge(merge_pairs(orig)),
                        seq_elems(views(pair_stack@)) == seq_elems(orig),
                    decreases pair_stack.len(),
                {
                    let ghost v = views(pair_stack@);
                    let h1 = match pair_stack.pop() {
                        Some(h) => h,
                        None => PairingHeap::new(),
                    };
                    let h2 = match pair_stack.pop() {
                        Some(h) => h,
                        None => PairingHeap::new(),
                    };
                    let merged = h1.merge(h2);
                    pair_stack.push(merged);
                    proof {
                        let n: int = v.len() as int;
                        assert(h1@ == v[n - 1]);
                        assert(h2@ == v[n - 2]);
                        assert(views(pair_stack@) =~= v.take(n - 2).push(merged@));
                        assert(v =~= v.take(n - 2).push(v[n - 2]).push(v[n - 1]));
                        lemma_seq_elems_push(v.take(n - 2).push(v[n - 2]), v[n - 1]);
                        lemma_seq_elems_push(v.take(n - 2), v[n - 2]);
                        lemma_seq_elems_push(v.take(n - 2), merged@);
                        assert(seq_elems(views(pair_stack@)) =~= seq_elems(v));
                        if T::obeys_partial_cmp_spec() {
                            assert(merged@ == v[n - 1].merge(v[n - 2]));
                            assert(fold_merge(v) == fold_merge(
                                v.take(n - 2).push(v[n - 1].merge(v[n - 2])),
                            ));
                            assert(fold_merge(views(pair_stack@)) == fold_merge(v));
                        }
                    }
                }
                let ghost fin = views(pair_stack@);
                let rest = match pair_stack.pop() {
                    Some(h) => h,
                    None => PairingHeap::new(),
                };
                proof {
                    assert(seq_elems(Seq::<HeapModel<T>>::empty()) == Multiset::<T>::empty());
                    if fin.len() == 1 {
                        assert(rest@ == fin[0]);
                        assert(fold_merge(fin) == fin[0]);
                        assert(fin.drop_first() =~= Seq::<HeapModel<T>>::empty());
                        assert(seq_elems(fin) == fin[0].elems().add(seq_elems(fin.drop_first())));
                        assert(rest@.elems() =~= seq_elems(orig));
                    } else {
                        assert(fin =~= Seq::<HeapModel<T>>::empty());
                        assert(fold_merge(fin) == HeapModel::<T>::Empty);
                        assert(rest@ == HeapModel::<T>::Empty);
                        assert(rest@.elems() =~= seq_elems(orig));
                    }
                    assert(m0 == (HeapModel::Tree { elem, children: orig }));
                    assert(m0.elems() == seq_elems(orig).insert(elem));
                    assert(m0.elems() =~= rest@.elems().insert(elem));
                    if T::obeys_partial_cmp_spec() {
                        assert(rest@ == fold_merge(merge_pairs(orig)));
                        assert(rest@ == m0.pop().1);
                    }
                    if ord_total::<T>() && m0.wf() {
                        lemma_pop_props(m0);
                        lemma_wf_min(m0);
                    }
                }
                Some((elem, rest))
            },
        }
    }

    /// Builds a heap from a vector of elements by folding `insert` over
    /// it, left to right, starting from the empty heap.
    pub fn from_vec(elems: Vec<T>) -> (r: Self)
        ensures
            T::obeys_partial_cmp_spec() ==> r@ == build(elems@),
            r@.elems() == elems@.to_multiset(),
            ord_total::<T>() ==> r@.wf(),
    {
        broadcast use vstd::seq_lib::group_to_multiset_ensures;

        let ghost all = elems@;
        let mut elems = elems;
        let mut heap = PairingHeap::new();
        let ghost mut done: Seq<T> = Seq::empty();
        proof {
            assert(Seq::<T>::empty().to_multiset() =~= Multiset::<T>::empty());
        }
        while elems.len() > 0
            invariant
                all == done + elems@,
                T::obeys_partial_cmp_spec() ==> heap@ == build(done),
                heap@.elems() == done.to_multiset(),
                ord_total::<T>() ==> heap@.wf(),
            decreases elems.len(),
        {
            let ghost done0 = done;
            let x = elems.remove(0);
            heap = heap.insert(x);
            proof {
                done = done0.push(x);
                assert(all =~= done + elems@);
                assert(done.drop_last() =~= done0);
                assert(done.last() == x);
                assert(done.len() > 0);
                assert(T::obeys_partial_cmp_spec() ==> build(done) == build(done0).insert(x));
                vstd::seq_lib::to_multiset_build(done0, x);
                assert(done.to_multiset() =~= done0.to_multiset().insert(x));
            }
        }
        proof {
            assert(done =~= all);
        }
        heap
    }

    /// Returns the minimum element of a well-formed non-empty heap, or
    /// `None` if the heap is empty; the heap is not changed.
    pub fn find_min(&self) -> (r: Option<&T>)
        ensures
            match r {
                Some(e) => {
                    &&& self@ is Tree
                    &&& *e == self@.root()
                    &&& (ord_total::<T>() && self@.wf() ==> forall|x: T|
                        #[trigger] self@.elems().count(x) > 0 ==> ord_le(*e, x))
                },
                None => self@ is Empty,
            },
    {
        if let PairingHeap::Tree { elem, .. } = self {
            proof {
                if ord_total::<T>() && self@.wf() {
                    lemma_wf_min(self@);
                }
            }
            Some(elem)
        } else {
            None
        }
    }
}

impl<T: PartialOrd> PartialOrdSpecImpl for PairingHeap<T> {
    open spec fn obeys_partial_cmp_spec() -> bool {
        T::obeys_partial_cmp_spec()
    }

    open spec fn partial_cmp_spec(&self, other: &Self) -> Option<Ordering> {
        match (self, other) {
            (PairingHeap::Empty, PairingHeap::Empty) => Some(Ordering::Equal),
            (PairingHeap::Empty, PairingHeap::Tree { .. }) => Some(Ordering::Less),
            (PairingHeap::Tree { .. }, PairingHeap::Empty) => Some(Ordering::Greater),
            (PairingHeap::Tree { elem: e1, .. }, PairingHeap::Tree { elem: e2, .. }) => e1
                .partial_cmp_spec(e2),
        }
    }
}

impl<T: PartialOrd> PartialOrd for PairingHeap<T> {
    /// Heaps are ordered by their minimum: the empty heap is below every
    /// non-empty heap, and two non-empty heaps compare as their roots do.
    fn partial_cmp(&self, other: &Self) -> Option<Ordering> {
        match (self, other) {
            (PairingHeap::Empty, PairingHeap::Empty) => Some(Ordering::Equal),
            (PairingHeap::Empty, PairingHeap::Tree { .. }) => Some(Ordering::Less),
            (PairingHeap::Tree { .. }, PairingHeap::Empty) => Some(Ordering::Greater),
            (PairingHeap::Tree { elem: e1, .. }, PairingHeap::Tree { elem: e2, .. }) => e1
                .partial_cmp(e2),
        }
    }
}

impl<T: PartialOrd> Default for PairingHeap<T> {
    /// The default heap is empty.
    fn default() -> (r: Self)
        ensures
            r == PairingHeap::<T>::Empty,
    {
        PairingHeap::Empty
    }
}

} // verus!
