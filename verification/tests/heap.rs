use pairing_heap::heap::PairingHeap;

#[test]
fn test_new() {
    let heap: PairingHeap<u32> = PairingHeap::new();
    assert!(heap.is_empty());
}

#[test]
fn test_insert() {
    let heap = PairingHeap::root(1);
    assert!(!heap.is_empty());
    assert_eq!(heap.find_min(), Some(&1));
    if let PairingHeap::Tree { elem, subheaps } = heap {
        assert_eq!(elem, 1);
        assert!(subheaps.is_empty());
    }
}

#[test]
fn test_insert_many() {
    // Insert adds all elements as subheaps of the root.
    let h = (1..=7).fold(PairingHeap::new(), PairingHeap::insert);
    if let PairingHeap::Tree { elem, subheaps } = h {
        assert_eq!(elem, 1);
        assert_eq!(
            subheaps
                .iter()
                .map(|c| *c.find_min().unwrap())
                .collect::<Vec<u32>>(),
            (2..=7).collect::<Vec<_>>()
        );
    }
}

#[test]
fn test_merge_empty() {
    let heap1 = PairingHeap::root(1);
    let heap2 = PairingHeap::new();
    let heap3 = PairingHeap::merge(heap1, heap2);
    if let PairingHeap::Tree { elem, subheaps } = heap3 {
        assert_eq!(elem, 1);
        assert!(subheaps.is_empty());
    }
}

#[test]
fn test_pop_min() {
    let h = PairingHeap::root(1);
    let res = h.pop_min();
    assert!(res.is_some());
    if let Some((elem, h)) = res {
        assert_eq!(elem, 1);
        assert!(h.is_empty());
    }
}

#[test]
fn test_pop_min_empty() {
    let h: PairingHeap<u32> = PairingHeap::new();
    assert!(h.pop_min().is_none());
}

#[test]
fn test_pop_min_rebalance() {
    let temp: PairingHeap<u32> = PairingHeap::from_vec(vec![0, 1, 2, 3, 4, 5, 6, 7]);
    let c7 = PairingHeap::root(7);
    let c6 = PairingHeap::root(6);
    let c5 = PairingHeap::Tree {
        elem: 5,
        subheaps: vec![c6, c7],
    };
    let c4 = PairingHeap::root(4);
    let c3 = PairingHeap::Tree {
        elem: 3,
        subheaps: vec![c4, c5],
    };
    let c2 = PairingHeap::root(2);
    let c1 = PairingHeap::Tree {
        elem: 1,
        subheaps: vec![c2, c3],
    };
    let res = temp.pop_min();
    assert!(res.is_some());
    if let Some((root_elem, h)) = res {
        assert_eq!(root_elem, 0);
        assert_eq!(h, c1);
    }
}

#[test]
fn test_find_min_empty() {
    let h: PairingHeap<u32> = PairingHeap::new();
    assert_eq!(h.find_min(), None);
}

#[test]
fn test_singleton_peek_and_pop() {
    let h = PairingHeap::root(42u32);
    assert_eq!(h.find_min(), Some(&42));
    let res = h.pop_min();
    assert_eq!(res, Some((42, PairingHeap::Empty)));
}

#[test]
fn test_merge_empty_left() {
    let heap1 = PairingHeap::new();
    let heap2 = PairingHeap::root(1);
    let heap3 = PairingHeap::merge(heap1, heap2);
    assert_eq!(heap3, PairingHeap::root(1));
}

#[test]
fn test_merge_tie_right_wins() {
    // On a tie the right-hand root becomes the new root and the left
    // operand becomes its last child.
    let merged = PairingHeap::merge(PairingHeap::root(1u32), PairingHeap::root(1u32));
    assert_eq!(
        merged,
        PairingHeap::Tree {
            elem: 1,
            subheaps: vec![PairingHeap::root(1)],
        }
    );
}

#[test]
fn test_merge_min_commutes() {
    let a1 = PairingHeap::from_vec(vec![3u32, 5]);
    let b1 = PairingHeap::from_vec(vec![2u32, 9]);
    let a2 = PairingHeap::from_vec(vec![3u32, 5]);
    let b2 = PairingHeap::from_vec(vec![2u32, 9]);
    let ab = PairingHeap::merge(a1, b1);
    let ba = PairingHeap::merge(b2, a2);
    assert_eq!(ab.find_min(), Some(&2));
    assert_eq!(ba.find_min(), Some(&2));
}

#[test]
fn test_heap_sort() {
    let mut h = PairingHeap::from_vec(vec![5u32, 3, 8, 1, 9, 2, 7, 3]);
    let mut out: Vec<u32> = Vec::new();
    while let Some((e, rest)) = h.pop_min() {
        out.push(e);
        h = rest;
    }
    assert_eq!(out, vec![1, 2, 3, 3, 5, 7, 8, 9]);
}

#[test]
fn test_from_vec_matches_repeated_insert() {
    let folded = (1u32..=7).fold(PairingHeap::new(), PairingHeap::insert);
    let built = PairingHeap::from_vec((1u32..=7).collect());
    assert_eq!(folded, built);
}

#[test]
fn test_heap_ordering() {
    let empty: PairingHeap<u32> = PairingHeap::new();
    assert!(empty < PairingHeap::root(0));
    assert!(PairingHeap::root(1u32) <= PairingHeap::root(2));
    assert!(!(PairingHeap::root(2u32) <= PairingHeap::root(1)));
    assert!(PairingHeap::root(1u32) <= PairingHeap::root(1));
    let e1: PairingHeap<u32> = PairingHeap::new();
    let e2: PairingHeap<u32> = PairingHeap::new();
    assert!(e1 <= e2);
}

#[test]
fn test_default_is_empty() {
    let h: PairingHeap<u32> = Default::default();
    assert!(h.is_empty());
}
