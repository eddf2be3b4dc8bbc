use slabmap::SlabMap;
use std::collections::HashMap;

#[derive(Debug, Clone)]
enum Action {
    Insert,
    Remove(usize),
    Clear,
    Optimize,
    Reserve(usize),
}

fn check(s: &SlabMap<usize>, m: &HashMap<usize, usize>) {
    let mut l: Vec<(usize, usize)> = Vec::new();
    let mut it = s.iter();
    let (lo, hi) = it.size_hint();
    assert_eq!(lo, s.len(), "size hint");
    assert_eq!(hi, Some(s.len()), "size hint");
    while let Some((key, value)) = it.next() {
        l.push((key, *value));
    }
    assert_eq!(l.len(), s.len(), "count");
    for w in l.windows(2) {
        assert!(w[0].0 < w[1].0, "ascending keys");
    }
    let mut r: Vec<(usize, usize)> = m.iter().map(|(key, value)| (*key, *value)).collect();
    r.sort();
    assert_eq!(l, r, "items");
}

fn apply(a: &Action, s: &mut SlabMap<usize>, m: &mut HashMap<usize, usize>, index: usize) {
    match a {
        Action::Insert => {
            let key = s.insert(0);
            m.insert(key, 0);
        }
        Action::Remove(key) => {
            let key = *key % (index + 2);
            let l = s.remove(key);
            let r = m.remove(&key);
            assert_eq!(l, r, "remove {}", key);
        }
        Action::Clear => {
            s.clear();
            m.clear();
        }
        Action::Optimize => {
            s.optimize();
        }
        Action::Reserve(additional) => {
            s.reserve(*additional);
            assert!(s.capacity() >= s.len() + *additional);
        }
    }
    check(s, m);
}

fn test_slab_map(actions: &[Action]) {
    let mut s = SlabMap::new();
    let mut m = HashMap::new();
    for (c, a) in actions.iter().enumerate() {
        apply(a, &mut s, &mut m, c);
    }
}

#[test]
fn test_x1() {
    let actions = vec![
        Action::Insert,
        Action::Insert,
        Action::Insert,
        Action::Insert,
        Action::Insert,
        Action::Remove(3),
        Action::Remove(1),
        Action::Remove(2),
        Action::Remove(0),
        Action::Insert,
        Action::Insert,
        Action::Insert,
        Action::Insert,
        Action::Insert,
    ];
    test_slab_map(&actions);
}

#[test]
fn test_x2() {
    let actions = vec![Action::Insert, Action::Insert, Action::Insert, Action::Remove(0), Action::Remove(1)];
    test_slab_map(&actions);
}

#[test]
fn test_xx() {}

#[test]
fn trace_with_every_action() {
    let mut actions = Vec::new();
    for round in 0..6usize {
        for _ in 0..(round + 3) {
            actions.push(Action::Insert);
        }
        actions.push(Action::Remove(round * 7 + 1));
        actions.push(Action::Remove(round * 3 + 2));
        actions.push(Action::Reserve(round * 5));
        if round % 2 == 0 {
            actions.push(Action::Optimize);
        }
        actions.push(Action::Remove(round + 4));
        actions.push(Action::Insert);
        if round == 3 {
            actions.push(Action::Clear);
        }
    }
    test_slab_map(&actions);
}

#[test]
fn trace_pseudo_random() {
    let mut state: u64 = 0x2545_f491_4f6c_dd1d;
    let mut actions = Vec::new();
    for _ in 0..2000 {
        state ^= state << 13;
        state ^= state >> 7;
        state ^= state << 17;
        let a = match state % 13 {
            0..=4 => Action::Insert,
            5..=9 => Action::Remove((state >> 8) as usize % 64),
            10 => Action::Optimize,
            11 => Action::Reserve((state >> 16) as usize % 100),
            _ => {
                if state % 7 == 0 {
                    Action::Clear
                } else {
                    Action::Insert
                }
            }
        };
        actions.push(a);
    }
    test_slab_map(&actions);
}
