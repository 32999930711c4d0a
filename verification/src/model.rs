//! Mathematical model of a pairing heap.
//!
//! `HeapModel` is the ghost-level picture of a heap: a rose tree whose
//! children form a `Seq`. The executable heap's contracts are stated over
//! this model, together with the multiset of elements it carries, the heap
//! invariant `wf`, and the two-pass rebalancing (`merge_pairs`, `fold_merge`)
//! used by extract-min.

use vstd::prelude::*;

verus! {

use core::cmp::Ordering;
use vstd::multiset::Multiset;
use vstd::std_specs::cmp::PartialOrdSpec;

/// Ghost rose tree standing for a pairing heap: either empty, or a root
/// element with a sequence of child heaps in insertion/merge order.
pub enum HeapModel<T> {
    Empty,
    Tree { elem: T, children: Seq<HeapModel<T>> },
}

/// `x` is less than or equal to `y` under the element order.
pub open spec fn ord_le<T: PartialOrd>(x: T, y: T) -> bool {
    x.partial_cmp_spec(&y) matches Some(Ordering::Less | Ordering::Equal)
}

/// `x` is strictly less than `y` under the element order; this is the
/// comparison the merge policy branches on (ties and incomparable pairs
/// fall to the right-hand root).
pub open spec fn ord_lt<T: PartialOrd>(x: T, y: T) -> bool {
    x.partial_cmp_spec(&y) == Some(Ordering::Less)
}

/// The element order behaves as a total order: the comparison follows its
/// specification, every two elements are comparable, equality and the
/// less/greater duality are symmetric, and `ord_le` is transitive.
/// The heap invariant and the minimum guarantees hold under this
/// assumption; with a genuinely partial order the operations still run and
/// preserve the element multiset, resolving incomparable pairs toward the
/// right-hand operand.
pub open spec fn ord_total<T: PartialOrd>() -> bool {
    &&& T::obeys_partial_cmp_spec()
    &&& forall|x: T, y: T| #[trigger] x.partial_cmp_spec(&y) is Some
    &&& forall|x: T, y: T|
        (#[trigger] x.partial_cmp_spec(&y)) == Some(Ordering::Equal) ==> y.partial_cmp_spec(&x)
            == Some(Ordering::Equal)
    &&& forall|x: T, y: T|
        (#[trigger] x.partial_cmp_spec(&y)) == Some(Ordering::Less) <==> y.partial_cmp_spec(&x)
            == Some(Ordering::Greater)
    &&& forall|x: T, y: T, z: T|
        #![trigger ord_le(x, y), ord_le(y, z)]
        ord_le(x, y) && ord_le(y, z) ==> ord_le(x, z)
}

impl<T> HeapModel<T> {
    /// The root element of a non-empty heap.
    pub open spec fn root(self) -> T
        recommends
            self is Tree,
    {
        self->elem
    }

    /// The children of a non-empty heap, in insertion/merge order.
    pub open spec fn kids(self) -> Seq<HeapModel<T>>
        recommends
            self is Tree,
    {
        self->children
    }

    /// A heap holding exactly one element.
    pub open spec fn singleton(x: T) -> HeapModel<T> {
        HeapModel::Tree { elem: x, children: Seq::empty() }
    }

    /// The multiset of all elements in the heap.
    pub open spec fn elems(self) -> Multiset<T>
        decreases self,
    {
        match self {
            HeapModel::Empty => Multiset::empty(),
            HeapModel::Tree { elem, children } => seq_elems(children).insert(elem),
        }
    }
}

/// The multiset of all elements in a sequence of heaps.
pub open spec fn seq_elems<T>(s: Seq<HeapModel<T>>) -> Multiset<T>
    decreases s,
{
    if s.len() == 0 {
        Multiset::empty()
    } else {
        s[0].elems().add(seq_elems(s.drop_first()))
    }
}

/// Every heap in the sequence satisfies the heap invariant.
pub open spec fn all_wf<T: PartialOrd>(s: Seq<HeapModel<T>>) -> bool {
    forall|i: int| 0 <= i < s.len() ==> (#[trigger] s[i]).wf()
}

impl<T: PartialOrd> HeapModel<T> {
    /// The heap invariant: every child is a non-empty heap whose root is
    /// bounded below by its parent's element, recursively.
    pub open spec fn wf(self) -> bool
        decreases self,
    {
        match self {
            HeapModel::Empty => true,
            HeapModel::Tree { elem, children } => forall|i: int|
                0 <= i < children.len() ==> {
                    &&& (#[trigger] children[i]) is Tree
                    &&& ord_le(elem, children[i].root())
                    &&& children[i].wf()
                },
        }
    }

    /// Merging two heaps: an empty operand is the identity; otherwise the
    /// root that compares strictly smaller wins (ties and incomparable
    /// pairs go to the right-hand root) and the loser becomes its last
    /// child.
    pub open spec fn merge(self, other: HeapModel<T>) -> HeapModel<T> {
        match (self, other) {
            (HeapModel::Empty, _) => other,
            (_, HeapModel::Empty) => self,
            (
                HeapModel::Tree { elem: e1, children: c1 },
                HeapModel::Tree { elem: e2, children: c2 },
            ) => {
                if ord_lt(e1, e2) {
                    HeapModel::Tree { elem: e1, children: c1.push(other) }
                } else {
                    HeapModel::Tree { elem: e2, children: c2.push(self) }
                }
            },
        }
    }

    /// Inserting an element merges a singleton from the right.
    pub open spec fn insert(self, x: T) -> HeapModel<T> {
        self.merge(HeapModel::singleton(x))
    }

    /// Extracting the minimum: the root is removed and the children are
    /// rebalanced by the two passes.
    pub open spec fn pop(self) -> (T, HeapModel<T>)
        recommends
            self is Tree,
    {
        (self.root(), fold_merge(merge_pairs(self.kids())))
    }
}

/// First pass of extract-min: merge consecutive pairs left to right; an odd
/// leftover is carried over unchanged.
pub open spec fn merge_pairs<T: PartialOrd>(s: Seq<HeapModel<T>>) -> Seq<HeapModel<T>>
    decreases s.len(),
{
    if s.len() >= 2 {
        seq![s[0].merge(s[1])] + merge_pairs(s.skip(2))
    } else {
        s
    }
}

/// Second pass of extract-min: repeatedly merge the last two heaps, the
/// later one as the left operand, until at most one remains.
pub open spec fn fold_merge<T: PartialOrd>(s: Seq<HeapModel<T>>) -> HeapModel<T>
    decreases s.len(),
{
    if s.len() == 0 {
        HeapModel::Empty
    } else if s.len() == 1 {
        s[0]
    } else {
        fold_merge(
            s.take(s.len() - 2).push(s[s.len() - 1].merge(s[s.len() - 2])),
        )
    }
}

/// Consequences of `ord_total` that the proofs lean on: reflexivity of
/// `ord_le`, strictness of `ord_lt`, and the dichotomy between `ord_lt`
/// and `ord_le` in the other direction.
pub proof fn lemma_ord_total_basics<T: PartialOrd>()
    requires
        ord_total::<T>(),
    ensures
        forall|x: T| #[trigger] ord_le(x, x),
        forall|x: T, y: T| #[trigger] ord_lt(x, y) ==> ord_le(x, y),
        forall|x: T, y: T| !(#[trigger] ord_lt(x, y)) ==> ord_le(y, x),
{
    assert forall|x: T| #[trigger] ord_le(x, x) by {
        assert(x.partial_cmp_spec(&x) is Some);
        assert(x.partial_cmp_spec(&x) != Some(Ordering::Less));
        assert(x.partial_cmp_spec(&x) != Some(Ordering::Greater));
    }
    assert forall|x: T, y: T| !(#[trigger] ord_lt(x, y)) implies ord_le(y, x) by {
        assert(x.partial_cmp_spec(&y) is Some);
        if x.partial_cmp_spec(&y) == Some(Ordering::Equal) {
            assert(y.partial_cmp_spec(&x) == Some(Ordering::Equal));
        } else {
            assert(x.partial_cmp_spec(&y) == Some(Ordering::Greater));
            assert(y.partial_cmp_spec(&x) == Some(Ordering::Less));
        }
    }
}

/// Appending a heap to a sequence adds exactly its elements.
pub proof fn lemma_seq_elems_push<T>(s: Seq<HeapModel<T>>, h: HeapModel<T>)
    ensures
        seq_elems(s.push(h)) == seq_elems(s).add(h.elems()),
    decreases s.len(),
{
    if s.len() == 0 {
        assert(s.push(h)[0] == h);
        assert(s.push(h).drop_first() =~= Seq::<HeapModel<T>>::empty());
        assert(seq_elems(Seq::<HeapModel<T>>::empty()) == Multiset::<T>::empty());
        assert(seq_elems(s.push(h)) =~= seq_elems(s).add(h.elems()));
    } else {
        assert(s.push(h)[0] == s[0]);
        assert(s.push(h).drop_first() =~= s.drop_first().push(h));
        lemma_seq_elems_push(s.drop_first(), h);
        assert(seq_elems(s.push(h)) =~= seq_elems(s).add(h.elems()));
    }
}

/// Merging never loses or invents elements: the result carries the union
/// of both operands' multisets, whichever root wins.
pub proof fn lemma_merge_elems<T: PartialOrd>(a: HeapModel<T>, b: HeapModel<T>)
    ensures
        a.merge(b).elems() == a.elems().add(b.elems()),
{
    match (a, b) {
        (HeapModel::Empty, _) => {
            assert(a.merge(b).elems() =~= a.elems().add(b.elems()));
        },
        (_, HeapModel::Empty) => {
            assert(a.merge(b).elems() =~= a.elems().add(b.elems()));
        },
        (HeapModel::Tree { elem: e1, children: c1 }, HeapModel::Tree { elem: e2, children: c2 }) => {
            if ord_lt(e1, e2) {
                lemma_seq_elems_push(c1, b);
            } else {
                lemma_seq_elems_push(c2, a);
            }
            assert(a.merge(b).elems() =~= a.elems().add(b.elems()));
        },
    }
}

/// Merging two well-formed heaps yields a well-formed heap: the winning
/// root is bounded above by the losing root, which becomes its last child.
pub proof fn lemma_merge_wf<T: PartialOrd>(a: HeapModel<T>, b: HeapModel<T>)
    requires
        ord_total::<T>(),
        a.wf(),
        b.wf(),
    ensures
        a.merge(b).wf(),
{
    lemma_ord_total_basics::<T>();
    match (a, b) {
        (HeapModel::Empty, _) => {},
        (_, HeapModel::Empty) => {},
        (HeapModel::Tree { elem: e1, children: c1 }, HeapModel::Tree { elem: e2, children: c2 }) => {
            if ord_lt(e1, e2) {
                let c = c1.push(b);
                assert forall|i: int| 0 <= i < c.len() implies {
                    &&& (#[trigger] c[i]) is Tree
                    &&& ord_le(e1, c[i].root())
                    &&& c[i].wf()
                } by {
                    if i < c1.len() {
                        assert(c[i] == c1[i]);
                    } else {
                        assert(c[i] == b);
                    }
                }
            } else {
                let c = c2.push(a);
                assert(ord_le(e2, e1));
                assert forall|i: int| 0 <= i < c.len() implies {
                    &&& (#[trigger] c[i]) is Tree
                    &&& ord_le(e2, c[i].root())
                    &&& c[i].wf()
                } by {
                    if i < c2.len() {
                        assert(c[i] == c2[i]);
                    } else {
                        assert(c[i] == a);
                    }
                }
            }
        },
    }
}

/// The root of a well-formed non-empty heap is a lower bound for every
/// element the heap carries.
pub proof fn lemma_wf_min<T: PartialOrd>(h: HeapModel<T>)
    requires
        ord_total::<T>(),
        h.wf(),
        h is Tree,
    ensures
        forall|x: T| #[trigger] h.elems().count(x) > 0 ==> ord_le(h.root(), x),
    decreases h,
{
    lemma_ord_total_basics::<T>();
    lemma_seq_wf_min(h.kids(), h.root());
    assert forall|x: T| #[trigger] h.elems().count(x) > 0 implies ord_le(h.root(), x) by {
        if seq_elems(h.kids()).count(x) == 0 {
            assert(x == h.root());
        }
    }
}

/// Every element of a sequence of well-formed non-empty heaps whose roots
/// are bounded below by `b` is itself bounded below by `b`.
pub proof fn lemma_seq_wf_min<T: PartialOrd>(s: Seq<HeapModel<T>>, b: T)
    requires
        ord_total::<T>(),
        forall|i: int|
            0 <= i < s.len() ==> {
                &&& (#[trigger] s[i]) is Tree
                &&& ord_le(b, s[i].root())
                &&& s[i].wf()
            },
    ensures
        forall|x: T| #[trigger] seq_elems(s).count(x) > 0 ==> ord_le(b, x),
    decreases s,
{
    if s.len() > 0 {
        lemma_wf_min(s[0]);
        assert forall|i: int|
            0 <= i < s.drop_first().len() implies {
                &&& (#[trigger] s.drop_first()[i]) is Tree
                &&& ord_le(b, s.drop_first()[i].root())
                &&& s.drop_first()[i].wf()
            } by {
            assert(s.drop_first()[i] == s[i + 1]);
        }
        lemma_seq_wf_min(s.drop_first(), b);
        assert forall|x: T| #[trigger] seq_elems(s).count(x) > 0 implies ord_le(b, x) by {
            assert(seq_elems(s) == s[0].elems().add(seq_elems(s.drop_first())));
            assert(seq_elems(s).count(x) == s[0].elems().count(x) + seq_elems(
                s.drop_first(),
            ).count(x));
            if s[0].elems().count(x) > 0 {
                assert(ord_le(s[0].root(), x));
            }
        }
    }
}

/// The pairing pass keeps the element multiset, and keeps every heap in
/// the sequence well-formed when the order is total.
pub proof fn lemma_merge_pairs_props<T: PartialOrd>(s: Seq<HeapModel<T>>)
    ensures
        seq_elems(merge_pairs(s)) == seq_elems(s),
        ord_total::<T>() && all_wf(s) ==> all_wf(merge_pairs(s)),
    decreases s.len(),
{
    if s.len() >= 2 {
        let m = s[0].merge(s[1]);
        let rest = merge_pairs(s.skip(2));
        lemma_merge_elems(s[0], s[1]);
        if all_wf(s) {
            assert forall|i: int| 0 <= i < s.skip(2).len() implies (#[trigger] s.skip(2)[i]).wf() by {
                assert(s.skip(2)[i] == s[i + 2]);
            }
            assert(all_wf(s.skip(2)));
        }
        lemma_merge_pairs_props(s.skip(2));
        assert(merge_pairs(s) == seq![m] + rest);
        assert((seq![m] + rest)[0] == m);
        assert((seq![m] + rest).drop_first() =~= rest);
        assert(seq_elems(seq![m] + rest) == m.elems().add(seq_elems(rest)));
        assert(s.drop_first().drop_first() =~= s.skip(2));
        assert(s.drop_first()[0] == s[1]);
        assert(seq_elems(s.drop_first()) == s[1].elems().add(seq_elems(s.skip(2))));
        assert(seq_elems(merge_pairs(s)) =~= seq_elems(s));
        if ord_total::<T>() && all_wf(s) {
            lemma_merge_wf(s[0], s[1]);
            assert forall|i: int| 0 <= i < merge_pairs(s).len() implies (
            #[trigger] merge_pairs(s)[i]).wf() by {
                if i == 0 {
                    assert(merge_pairs(s)[0] == m);
                } else {
                    assert(merge_pairs(s)[i] == rest[i - 1]);
                }
            }
        }
    }
}

/// The folding pass produces one heap carrying the whole element multiset,
/// well-formed when the order is total and the inputs are.
pub proof fn lemma_fold_merge_props<T: PartialOrd>(s: Seq<HeapModel<T>>)
    ensures
        fold_merge(s).elems() == seq_elems(s),
        ord_total::<T>() && all_wf(s) ==> fold_merge(s).wf(),
    decreases s.len(),
{
    if s.len() == 0 {
        assert(fold_merge(s).elems() =~= seq_elems(s));
    } else if s.len() == 1 {
        assert(s.drop_first() =~= Seq::<HeapModel<T>>::empty());
        assert(seq_elems(Seq::<HeapModel<T>>::empty()) == Multiset::<T>::empty());
        assert(fold_merge(s).elems() =~= seq_elems(s));
    } else {
        let n = s.len() as int;
        let m = s[n - 1].merge(s[n - 2]);
        let t = s.take(n - 2).push(m);
        lemma_merge_elems(s[n - 1], s[n - 2]);
        assert(s =~= s.take(n - 2).push(s[n - 2]).push(s[n - 1]));
        lemma_seq_elems_push(s.take(n - 2).push(s[n - 2]), s[n - 1]);
        lemma_seq_elems_push(s.take(n - 2), s[n - 2]);
        lemma_seq_elems_push(s.take(n - 2), m);
        assert(seq_elems(t) =~= seq_elems(s));
        if ord_total::<T>() && all_wf(s) {
            lemma_merge_wf(s[n - 1], s[n - 2]);
            assert forall|i: int| 0 <= i < t.len() implies (#[trigger] t[i]).wf() by {
                if i < n - 2 {
                    assert(t[i] == s[i]);
                } else {
                    assert(t[i] == m);
                }
            }
        }
        lemma_fold_merge_props(t);
        assert(fold_merge(s) == fold_merge(t));
    }
}

/// Extract-min drops exactly one occurrence of the root; when the order is
/// total and the heap is well-formed, the rebalanced remainder is
/// well-formed and every element left is bounded below by the root.
pub proof fn lemma_pop_props<T: PartialOrd>(m: HeapModel<T>)
    requires
        m is Tree,
    ensures
        m.pop().0 == m.root(),
        m.elems() == m.pop().1.elems().insert(m.root()),
        ord_total::<T>() && m.wf() ==> m.pop().1.wf() && (forall|x: T| #[trigger] m.pop().1.elems().count(x) > 0
            ==> ord_le(m.root(), x)),
{
    lemma_merge_pairs_props(m.kids());
    lemma_fold_merge_props(merge_pairs(m.kids()));
    assert(m.elems() == m.pop().1.elems().insert(m.root()));
    if ord_total::<T>() && m.wf() {
        assert(all_wf(m.kids()));
        lemma_wf_min(m);
        assert forall|x: T| #[trigger] m.pop().1.elems().count(x) > 0 implies ord_le(
            m.root(),
            x,
        ) by {
            assert(m.elems().count(x) > 0);
        }
    }
}

/// Folding `insert` over a sequence of elements, left to right, starting
/// from the empty heap.
pub open spec fn build<T: PartialOrd>(s: Seq<T>) -> HeapModel<T>
    decreases s.len(),
{
    if s.len() == 0 {
        HeapModel::Empty
    } else {
        build(s.drop_last()).insert(s.last())
    }
}

/// The sequence that extract-min yields when applied repeatedly until the
/// heap is exhausted: the root, then the drain of the rebalanced
/// remainder.
pub open spec fn drain<T: PartialOrd>(m: HeapModel<T>) -> Seq<T>
    decreases m.elems().len(),
    via drain_decreases::<T>
{
    if m is Tree {
        seq![m.pop().0] + drain(m.pop().1)
    } else {
        Seq::empty()
    }
}

#[via_fn]
proof fn drain_decreases<T: PartialOrd>(m: HeapModel<T>) {
    if m is Tree {
        lemma_pop_props(m);
    }
}

} // verus!
