use avl_map::iter::Iter;
use avl_map::marked::{MarkedNode, NodeRef};
use avl_map::node::Node;
use avl_map::map::{Entry, TreeMap};
use avl_map::order::Bound;

fn build(entries: &[(u64, &'static str)]) -> TreeMap<&'static str> {
    let mut m = TreeMap::new();
    for (k, v) in entries {
        m.insert(*k, *v);
    }
    m
}

/// Maps of several shapes: empty, one entry, ascending, descending and
/// scattered insertions.
fn sample_maps() -> Vec<TreeMap<u16>> {
    let mut out = Vec::new();
    out.push(TreeMap::new());
    let mut one = TreeMap::new();
    one.insert(7, 70);
    out.push(one);
    let mut asc = TreeMap::new();
    for k in 0..50u64 {
        asc.insert(k * 2, k as u16);
    }
    out.push(asc);
    let mut desc = TreeMap::new();
    for k in (0..40u64).rev() {
        desc.insert(k * 3 + 1, (k + 1) as u16);
    }
    out.push(desc);
    let mut scattered = TreeMap::new();
    let mut x: u64 = 12345;
    for i in 0..200u64 {
        x = x.wrapping_mul(6364136223846793005).wrapping_add(1442695040888963407);
        scattered.insert((x >> 33) % 500, i as u16);
        if i % 7 == 3 {
            scattered.remove((x >> 40) % 500);
        }
    }
    out.push(scattered);
    out
}

fn forward<'a, V>(mut it: Iter<'a, V>) -> Vec<(u64, &'a V)> {
    let mut v = Vec::new();
    while let Some(e) = it.next() {
        v.push(e);
    }
    v
}

fn backward<'a, V>(mut it: Iter<'a, V>) -> Vec<(u64, &'a V)> {
    let mut v = Vec::new();
    while let Some(e) = it.next_back() {
        v.push(e);
    }
    v
}

fn probe_keys() -> Vec<u64> {
    let mut keys: Vec<u64> = (0..510u64).step_by(3).collect();
    keys.push(0);
    keys.push(u64::MAX);
    keys
}

#[test]
fn quickcheck_agrees_with_iter() {
    for m in sample_maps() {
        let all = forward(m.iter());
        assert_eq!(m.min(), all.first().copied());
        assert_eq!(m.max(), backward(m.iter()).first().copied());
        for (i, e) in all.iter().enumerate() {
            assert_eq!(m.select(i), Some(*e));
        }
        assert_eq!(m.select(all.len()), None);
    }
}

#[test]
fn quickcheck_exclusive_agrees_with_iter() {
    for m in sample_maps() {
        let all = forward(m.iter());
        for key in probe_keys() {
            assert_eq!(m.succ(key, false), all.iter().find(|e| e.0 > key).copied());
            assert_eq!(m.pred(key, false), all.iter().rev().find(|e| e.0 < key).copied());
        }
    }
}

#[test]
fn quickcheck_inclusive_agrees_with_iter() {
    for m in sample_maps() {
        let all = forward(m.iter());
        for key in probe_keys() {
            assert_eq!(m.succ(key, true), all.iter().find(|e| e.0 >= key).copied());
            assert_eq!(m.pred(key, true), all.iter().rev().find(|e| e.0 <= key).copied());
        }
    }
}

#[test]
fn ascends() {
    for m in sample_maps() {
        let all = forward(m.iter());
        assert!(all.iter().zip(all.iter().skip(1)).all(|(e1, e2)| e1.0 < e2.0));
    }
}

#[test]
fn descends_when_reversed() {
    for m in sample_maps() {
        let all = backward(m.iter());
        assert!(all.iter().zip(all.iter().skip(1)).all(|(e2, e1)| e2.0 > e1.0));
    }
}

#[test]
fn size_hint_is_exact() {
    for m in sample_maps() {
        let mut len = m.len();
        let mut it = m.iter();
        loop {
            assert_eq!(it.size_hint(), (len, Some(len)));
            if it.next().is_none() {
                break;
            }
            len -= 1;
        }
        assert_eq!(len, 0);
        assert_eq!(it.size_hint(), (0, Some(0)));
    }
}

fn bounds() -> Vec<Bound> {
    let mut b = vec![Bound::Unbounded];
    for k in [0u64, 1, 4, 33, 50, 98, 99, 250, 499, 1000] {
        b.push(Bound::Included(k));
        b.push(Bound::Excluded(k));
    }
    b
}

fn below(b: Bound, key: u64) -> bool {
    match b {
        Bound::Included(t) => key < t,
        Bound::Excluded(t) => key <= t,
        Bound::Unbounded => false,
    }
}

fn above(b: Bound, key: u64) -> bool {
    match b {
        Bound::Included(t) => key > t,
        Bound::Excluded(t) => key >= t,
        Bound::Unbounded => false,
    }
}

#[test]
fn range() {
    for m in sample_maps() {
        for min in bounds() {
            for max in bounds() {
                let r = forward(m.range(min, max));
                let i: Vec<_> = forward(m.iter())
                    .into_iter()
                    .skip_while(|e| below(min, e.0))
                    .take_while(|e| !above(max, e.0))
                    .collect();
                assert_eq!(r, i);
            }
        }
    }
}

#[test]
fn range_rev() {
    for m in sample_maps() {
        for min in bounds() {
            for max in bounds() {
                let r = backward(m.range(min, max));
                let i: Vec<_> = backward(m.iter())
                    .into_iter()
                    .skip_while(|e| above(max, e.0))
                    .take_while(|e| !below(min, e.0))
                    .collect();
                assert_eq!(r, i);
            }
        }
    }
}

#[test]
fn agrees_with_iter_when_present() {
    for m in sample_maps() {
        for (i, e) in forward(m.iter()).iter().enumerate() {
            assert_eq!(m.rank(e.0), Ok(i));
        }
    }
}

#[test]
fn agrees_with_iter_when_absent() {
    for m in sample_maps() {
        let all = forward(m.iter());
        for key in probe_keys() {
            let below_count = all.iter().filter(|e| e.0 < key).count();
            if all.iter().any(|e| e.0 == key) {
                assert_eq!(m.rank(key), Ok(below_count));
            } else {
                assert_eq!(m.rank(key), Err(below_count));
            }
        }
    }
}

#[test]
fn example_scenario() {
    let mut m = build(&[(1, "a"), (5, "b"), (3, "c")]);
    assert_eq!(m.len(), 3);
    assert_eq!(forward(m.iter()), vec![(1, &"a"), (3, &"c"), (5, &"b")]);
    assert_eq!(m.rank(3), Ok(1));
    assert_eq!(m.rank(4), Err(2));
    assert_eq!(m.select(1), Some((3, &"c")));
    assert_eq!(m.succ(2, false), Some((3, &"c")));
    assert_eq!(m.pred(3, true), Some((3, &"c")));
    assert_eq!(m.pred(3, false), Some((1, &"a")));
    assert_eq!(
        forward(m.range(Bound::Excluded(1), Bound::Included(5))),
        vec![(3, &"c"), (5, &"b")]
    );
    assert_eq!(m.remove(3), Some("c"));
    assert_eq!(m.len(), 2);
    assert_eq!(forward(m.iter()), vec![(1, &"a"), (5, &"b")]);
}

#[test]
fn insert_new_and_existing_keys() {
    let mut m = build(&[(10, "x"), (20, "y")]);
    assert_eq!(m.insert(15, "z"), None);
    assert_eq!(m.len(), 3);
    assert_eq!(m.get(15), Some(&"z"));
    assert_eq!(m.get(10), Some(&"x"));
    assert_eq!(m.get(20), Some(&"y"));
    assert_eq!(m.insert(10, "w"), Some("x"));
    assert_eq!(m.len(), 3);
    assert_eq!(m.get(10), Some(&"w"));
}

#[test]
fn remove_present_and_absent_keys() {
    let mut m = build(&[(1, "a"), (2, "b"), (3, "c"), (4, "d")]);
    assert_eq!(m.remove(9), None);
    assert_eq!(m.len(), 4);
    assert_eq!(m.remove(2), Some("b"));
    assert_eq!(m.len(), 3);
    assert!(!m.contains_key(2));
    assert_eq!(m.get(2), None);
    assert_eq!(forward(m.iter()), vec![(1, &"a"), (3, &"c"), (4, &"d")]);
}

#[test]
fn remove_positional_variants() {
    let mut m = build(&[(5, "e"), (1, "a"), (9, "i"), (3, "c"), (7, "g")]);
    assert_eq!(m.remove_min(), Some((1, "a")));
    assert_eq!(m.remove_max(), Some((9, "i")));
    assert_eq!(m.remove_select(1), Some((5, "e")));
    assert_eq!(m.remove_select(5), None);
    assert_eq!(forward(m.iter()), vec![(3, &"c"), (7, &"g")]);
    let mut e: TreeMap<u8> = TreeMap::new();
    assert_eq!(e.remove_min(), None);
    assert_eq!(e.remove_max(), None);
    assert!(e.is_empty());
}

#[test]
fn empty_map_queries() {
    let m: TreeMap<u8> = TreeMap::new();
    assert_eq!(m.len(), 0);
    assert_eq!(m.min(), None);
    assert_eq!(m.max(), None);
    assert_eq!(m.succ(0, true), None);
    assert_eq!(m.pred(u64::MAX, true), None);
    assert_eq!(m.rank(5), Err(0));
    assert_eq!(m.select(0), None);
    assert_eq!(m.iter().size_hint(), (0, Some(0)));
    assert_eq!(m.range(Bound::Unbounded, Bound::Unbounded).range_size_hint(), (0, Some(0)));
}

#[test]
fn range_counts_are_exact() {
    let mut m = TreeMap::new();
    for k in 0..100u64 {
        m.insert(k, k);
    }
    let mut r = m.range(Bound::Included(10), Bound::Excluded(20));
    assert_eq!(r.range_size_hint(), (10, Some(10)));
    assert_eq!(r.next(), Some((10, &10)));
    assert_eq!(r.next_back(), Some((19, &19)));
    assert_eq!(r.size_hint(), (8, Some(8)));
    let empty = m.range(Bound::Excluded(50), Bound::Excluded(50));
    assert_eq!(empty.size_hint(), (0, Some(0)));
    let crossed = m.range(Bound::Included(60), Bound::Included(40));
    assert_eq!(forward(crossed), vec![]);
}

#[test]
fn both_ends_meet() {
    let mut m = TreeMap::new();
    for k in [8u64, 4, 12, 2, 6, 10, 14] {
        m.insert(k, k * 10);
    }
    let mut it = m.iter();
    let mut got = Vec::new();
    loop {
        match it.next() {
            Some(e) => got.push(e.0),
            None => break,
        }
        match it.next_back() {
            Some(e) => got.push(e.0),
            None => break,
        }
    }
    assert_eq!(got, vec![2, 14, 4, 12, 6, 10, 8]);
    assert_eq!(it.size_hint(), (0, Some(0)));
}

#[test]
fn agrees_with_get() {
    for mut m in sample_maps() {
        for key in probe_keys() {
            let value = m.get(key).cloned();
            match m.entry(key) {
                Entry::Occupied(e) => assert_eq!(value, Some(*e.get())),
                Entry::Vacant(_) => assert!(value.is_none()),
            }
        }
    }
}

#[test]
fn occupied_entry_remove_matches_remove() {
    for m in sample_maps() {
        let keys: Vec<u64> = forward(m.iter()).iter().map(|e| e.0).collect();
        for key in keys.iter().step_by(5) {
            let mut a = TreeMap::new();
            let mut b = TreeMap::new();
            for (k, v) in forward(m.iter()) {
                a.insert(k, *v);
                b.insert(k, *v);
            }
            let via_entry = match a.entry(*key) {
                Entry::Occupied(e) => Some(e.remove()),
                Entry::Vacant(_) => None,
            };
            let via_remove = b.remove(*key).map(|v| (*key, v));
            assert_eq!(via_entry, via_remove);
            assert_eq!(forward(a.iter()), forward(b.iter()));
            assert!(!a.contains_key(*key));
        }
    }
}

#[test]
fn entry_insert_occupied_and_vacant() {
    let mut m = build(&[(2, "b"), (4, "d")]);
    match m.entry(4) {
        Entry::Occupied(mut e) => {
            assert_eq!(e.key(), 4);
            assert_eq!(e.insert("D"), "d");
            assert_eq!(*e.get(), "D");
        }
        Entry::Vacant(_) => panic!("key 4 is present"),
    }
    match m.entry(3) {
        Entry::Occupied(_) => panic!("key 3 is absent"),
        Entry::Vacant(e) => {
            assert_eq!(e.key(), 3);
            e.insert("c");
        }
    }
    assert_eq!(forward(m.iter()), vec![(2, &"b"), (3, &"c"), (4, &"D")]);
}

#[test]
fn positional_entries() {
    let mut m = build(&[(10, "a"), (20, "b"), (30, "c"), (40, "d")]);
    assert_eq!(m.min_entry().map(|e| e.key), Some(10));
    assert_eq!(m.max_entry().map(|e| e.key), Some(40));
    assert_eq!(m.select_entry(2).map(|e| e.key), Some(30));
    assert!(m.select_entry(4).is_none());
    assert_eq!(m.succ_entry(20, false).map(|e| e.key), Some(30));
    assert_eq!(m.succ_entry(20, true).map(|e| e.key), Some(20));
    assert_eq!(m.pred_entry(20, false).map(|e| e.key), Some(10));
    assert_eq!(m.pred_entry(25, true).map(|e| e.key), Some(20));
    assert!(m.pred_entry(10, false).is_none());
    let removed = m.max_entry().map(|e| e.remove());
    assert_eq!(removed, Some((40, "d")));
    assert_eq!(m.len(), 3);
    let mut e: TreeMap<u8> = TreeMap::new();
    assert!(e.min_entry().is_none());
    assert!(e.max_entry().is_none());
}

#[test]
fn remove_succ_and_pred() {
    let mut m = build(&[(1, "a"), (3, "c"), (5, "e"), (7, "g")]);
    assert_eq!(m.remove_succ(3, false), Some((5, "e")));
    assert_eq!(m.remove_succ(3, true), Some((3, "c")));
    assert_eq!(m.remove_pred(7, false), Some((1, "a")));
    assert_eq!(m.remove_pred(100, true), Some((7, "g")));
    assert_eq!(m.remove_succ(7, false), None);
    assert_eq!(m.remove_pred(0, true), None);
    assert_eq!(m.len(), 0);
}

#[test]
fn into_iter_drains_in_order_from_both_ends() {
    let mut m = TreeMap::new();
    for k in [8u64, 4, 12, 2, 6, 10, 14, 1] {
        m.insert(k, format!("v{}", k));
    }
    let mut it = m.into_iter();
    assert_eq!(it.size_hint(), (8, Some(8)));
    assert_eq!(it.next(), Some((1, "v1".to_string())));
    assert_eq!(it.next_back(), Some((14, "v14".to_string())));
    let mut rest = Vec::new();
    while let Some((k, _)) = it.next() {
        rest.push(k);
    }
    assert_eq!(rest, vec![2, 4, 6, 8, 10, 12]);
    assert_eq!(it.size_hint(), (0, Some(0)));
    assert_eq!(it.next_back(), None);
}

#[test]
fn into_iter_reversed_matches_iter() {
    for m in sample_maps() {
        let expected: Vec<(u64, u16)> = backward(m.iter()).into_iter().map(|(k, v)| (k, *v)).collect();
        let mut it = m.into_iter();
        let mut got = Vec::new();
        while let Some(e) = it.next_back() {
            got.push(e);
        }
        assert_eq!(got, expected);
    }
}

#[test]
fn node_ref_takes_each_child_once() {
    let leaf = |k: u64| Box::new(Node { key: k, value: k * 10, left: None, right: None, size: 1, height: 1 });
    let root = Box::new(Node { key: 2, value: 20, left: Some(leaf(1)), right: Some(leaf(3)), size: 3, height: 2 });
    let mut m = MarkedNode::new(&root);
    assert_eq!(NodeRef::key(&m), 2);
    assert_eq!(NodeRef::key(&root), 2);
    assert_eq!(NodeRef::left(&mut m).map(|c| c.item().0), Some(1));
    assert!(NodeRef::left(&mut m).is_none());
    assert_eq!(NodeRef::right(&mut m).map(|c| c.item().0), Some(3));
    assert!(NodeRef::right(&mut m).is_none());
    let mut owned = root;
    assert_eq!(NodeRef::left(&mut owned).map(|c| NodeRef::item(c)), Some((1, 10)));
    assert!(NodeRef::left(&mut owned).is_none());
    assert_eq!(NodeRef::item(owned), (2, 20));
}
