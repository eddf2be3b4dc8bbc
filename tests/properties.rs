use slabmap::SlabMap;

fn churned() -> SlabMap<u64> {
    let mut s = SlabMap::new();
    for v in 0..20u64 {
        s.insert(v * 10);
    }
    for k in [3usize, 4, 5, 11, 9, 10, 17, 0] {
        s.remove(k);
    }
    s
}

fn pairs(s: &SlabMap<u64>) -> Vec<(usize, u64)> {
    let mut out = Vec::new();
    let mut it = s.iter();
    while let Some((k, v)) = it.next() {
        out.push((k, *v));
    }
    out
}

#[test]
fn iter_pairs_match_stored_entries() {
    let s = churned();
    let expected: Vec<(usize, u64)> = (0..20usize)
        .filter(|k| ![3usize, 4, 5, 11, 9, 10, 17, 0].contains(k))
        .map(|k| (k, k as u64 * 10))
        .collect();
    assert_eq!(pairs(&s), expected);
    for (k, v) in &expected {
        assert_eq!(s.get(*k), Some(v));
    }
}

#[test]
fn size_hints_are_exact() {
    let mut s = churned();
    let mut it = s.iter();
    let mut n = s.len();
    assert_eq!(it.size_hint(), (n, Some(n)));
    while it.next().is_some() {
        n -= 1;
        assert_eq!(it.size_hint(), (n, Some(n)));
    }
    assert_eq!(n, 0);
    assert!(it.next().is_none());
    let len = s.len();
    let mut m = s.iter_mut();
    assert_eq!(m.size_hint(), (len, Some(len)));
    let mut yielded = 0;
    while let Some((_, v)) = m.next() {
        *v += 1;
        yielded += 1;
    }
    assert_eq!(yielded, len);
    assert_eq!(s.keys().count(), len);
    assert_eq!(s.values().count(), len);
}

#[test]
fn keys_strictly_increase() {
    let s = churned();
    let mut it = s.keys();
    let mut prev: Option<usize> = None;
    while let Some(k) = it.next() {
        if let Some(p) = prev {
            assert!(p < k);
        }
        prev = Some(k);
    }
}

#[test]
fn optimize_twice_is_optimize_once() {
    let mut a = churned();
    a.optimize();
    let once = pairs(&a);
    let mut b = a.clone();
    b.optimize();
    assert_eq!(pairs(&b), once);
    // Both refill the free list in the same order.
    for v in 0..12u64 {
        assert_eq!(a.insert(v), b.insert(v));
    }
}

#[test]
fn optimized_free_list_is_ascending() {
    let mut s = churned();
    s.optimize();
    let mut got = Vec::new();
    for v in 0..8u64 {
        got.push(s.insert(v));
    }
    assert_eq!(got, vec![0, 3, 4, 5, 9, 10, 11, 17]);
    assert_eq!(s.insert(1), 20);
}

#[test]
fn reserve_gives_room_beyond_len() {
    let mut s = churned();
    for k in [0usize, 5, 17, 1000] {
        s.reserve(k);
        assert!(s.capacity() >= s.len() + k);
        s.reserve_exact(k);
        assert!(s.capacity() >= s.len() + k);
        assert!(s.try_reserve(k).is_ok());
        assert!(s.try_reserve_exact(k).is_ok());
        assert!(s.capacity() >= s.len() + k);
    }
}

#[test]
fn insert_reuses_free_head() {
    let mut s = churned();
    // Removals push to the front of the free list: the last one is reused first.
    assert_eq!(s.insert(1), 0);
    assert_eq!(s.insert(2), 17);
    assert_eq!(s.insert(3), 10);
    assert_eq!(s.insert(4), 9);
}

#[test]
fn remove_absent_keys() {
    let mut s = churned();
    assert_eq!(s.remove(3), None);
    assert_eq!(s.remove(20), None);
    assert_eq!(s.remove(usize::MAX), None);
    assert_eq!(s.get(usize::MAX), None);
    assert!(!s.contains_key(usize::MAX));
    assert_eq!(s.len(), 12);
}

#[test]
fn removing_the_last_key_truncates() {
    let mut s = SlabMap::new();
    s.insert('a');
    s.insert('b');
    s.insert('c');
    assert_eq!(s.remove(2), Some('c'));
    // No free slot was made, so the key comes back by appending.
    assert_eq!(s.insert('d'), 2);
}

#[test]
fn empty_map_is_reset() {
    let mut s = SlabMap::new();
    s.insert(1);
    s.insert(2);
    s.insert(3);
    s.remove(1);
    s.remove(0);
    s.remove(2);
    assert!(s.is_empty());
    assert_eq!(s.insert(9), 0);
    assert_eq!(s.insert(9), 1);
}

#[test]
fn get_mut_changes_the_value() {
    let mut s = SlabMap::new();
    let k = s.insert(5);
    *s.get_mut(k).unwrap() += 1;
    assert_eq!(s.get(k), Some(&6));
    assert!(s.get_mut(k + 1).is_none());
    let mut vm = s.values_mut();
    while let Some(v) = vm.next() {
        *v *= 10;
    }
    assert_eq!(s.get(k), Some(&60));
}

#[test]
fn retain_drops_and_compacts() {
    let mut s = churned();
    s.retain(|_k, v| {
        *v += 1;
        *v % 20 == 1
    });
    assert_eq!(pairs(&s), vec![(2, 21), (6, 61), (8, 81), (12, 121), (14, 141), (16, 161), (18, 181)]);
    assert_eq!(s.insert(0), 0);
    assert_eq!(s.insert(0), 1);
    assert_eq!(s.insert(0), 3);
}

#[test]
fn from_iter_later_pair_wins() {
    let s = SlabMap::from_iter_with_capacity(vec![(3, 'x'), (1, 'y'), (3, 'z')], 8);
    assert!(s.capacity() >= 8);
    assert_eq!(s.len(), 2);
    assert_eq!(s.get(3), Some(&'z'));
    assert_eq!(s.get(1), Some(&'y'));
    assert_eq!(s.get(0), None);
    let e: SlabMap<char> = SlabMap::from_iter(Vec::new());
    assert!(e.is_empty());
}

#[test]
fn drain_empties_even_when_dropped_early() {
    let mut s = churned();
    let len = s.len();
    {
        let mut d = s.drain();
        assert_eq!(d.size_hint(), (len, Some(len)));
        assert_eq!(d.next(), Some((1, 10)));
    }
    assert!(s.is_empty());
    assert_eq!(s.insert(4), 0);
}

#[test]
fn clone_keeps_keys_and_free_list() {
    let s = churned();
    let mut c = s.clone();
    assert_eq!(pairs(&c), pairs(&s));
    let mut d = s.clone();
    assert_eq!(c.insert(1), d.insert(1));
    let e: SlabMap<u64> = SlabMap::default();
    assert!(e.is_empty());
}

#[test]
fn removing_last_key_after_a_hole_truncates_the_hole() {
    let mut s = SlabMap::new();
    s.insert("A");
    s.insert("B");
    s.insert("C");
    assert_eq!(s.remove(1), Some("B"));
    assert_eq!(s.remove(2), Some("C"));
    assert_eq!(s.len(), 1);
    // The vacant slot 1 went with the last slot: keys are appended again.
    assert_eq!(s.insert("D"), 1);
    assert_eq!(s.insert("E"), 2);
}

#[test]
fn trailing_run_leaves_the_free_list() {
    let mut s = SlabMap::new();
    for v in 0..4 {
        s.insert(v);
    }
    assert_eq!(s.remove(0), Some(0));
    assert_eq!(s.remove(2), Some(2));
    assert_eq!(s.remove(3), Some(3));
    // Slot 2 was dropped with slot 3; only slot 0 is still free.
    assert_eq!(s.insert(10), 0);
    assert_eq!(s.insert(11), 2);
    assert_eq!(s.insert(12), 3);
}
