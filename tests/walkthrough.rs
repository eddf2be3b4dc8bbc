use slabmap::SlabMap;

fn pairs<T: Clone>(s: &SlabMap<T>) -> Vec<(usize, T)> {
    let mut out = Vec::new();
    let mut it = s.iter();
    while let Some((k, v)) = it.next() {
        out.push((k, v.clone()));
    }
    out
}

#[test]
fn insert_remove_then_iterate() {
    let mut s = SlabMap::new();
    assert_eq!(s.insert("A"), 0);
    assert_eq!(s.insert("B"), 1);
    assert_eq!(s.insert("C"), 2);
    assert_eq!(s.remove(1), Some("B"));
    assert_eq!(pairs(&s), vec![(0, "A"), (2, "C")]);
    assert_eq!(s.len(), 2);
}

#[test]
fn freed_key_is_reused() {
    let mut s = SlabMap::new();
    s.insert("A");
    s.insert("B");
    s.insert("C");
    s.remove(1);
    assert_eq!(s.insert("D"), 1);
    assert_eq!(pairs(&s), vec![(0, "A"), (1, "D"), (2, "C")]);
}

#[test]
fn merged_run_is_refilled_in_order() {
    let mut s = SlabMap::new();
    for v in 0..=4 {
        s.insert(v);
    }
    s.remove(1);
    s.remove(2);
    s.remove(3);
    s.optimize();
    assert_eq!(pairs(&s), vec![(0, 0), (4, 4)]);
    assert_eq!(s.insert(99), 1);
    assert_eq!(s.insert(100), 2);
    assert_eq!(s.insert(101), 3);
    assert_eq!(s.insert(102), 5);
}

#[test]
fn optimize_after_mass_removal() {
    let mut s = SlabMap::new();
    for v in 0..=999 {
        s.insert(v);
    }
    for k in 0..=998 {
        assert_eq!(s.remove(k), Some(k));
    }
    s.optimize();
    assert_eq!(pairs(&s), vec![(999, 999)]);
    assert_eq!(s.len(), 1);
    // Key 999 stays valid, so the vacant slots before it form one run that
    // the next insertions refill from its start.
    assert_eq!(s.insert(7), 0);
    assert_eq!(s.insert(8), 1);
}

#[test]
fn remove_from_the_end_down_to_empty() {
    let mut s = SlabMap::new();
    for v in 0..=3 {
        s.insert(v);
    }
    for k in [3usize, 2, 1, 0] {
        assert_eq!(s.remove(k), Some(k));
        assert_eq!(s.len(), k);
        let mut keys = Vec::new();
        let mut it = s.keys();
        while let Some(key) = it.next() {
            keys.push(key);
        }
        assert_eq!(keys, (0..k).collect::<Vec<_>>());
    }
    assert_eq!(s.len(), 0);
    assert!(s.is_empty());
    // As fresh: the next key is 0 and then 1.
    assert_eq!(s.insert(10), 0);
    assert_eq!(s.insert(11), 1);
}

#[test]
fn retain_even_keys() {
    let mut s = SlabMap::new();
    for v in 0..=9 {
        s.insert(v);
    }
    s.retain(|k, _v| k % 2 == 0);
    assert_eq!(pairs(&s), vec![(0, 0), (2, 2), (4, 4), (6, 6), (8, 8)]);
    assert_eq!(s.insert(100), 1);
}
