use slabmap::SlabMap;
use std::time::Instant;

fn values_of<T: Clone>(s: &SlabMap<T>) -> Vec<T> {
    let mut out = Vec::new();
    let mut it = s.values();
    while let Some(v) = it.next() {
        out.push(v.clone());
    }
    out
}

fn drain_all<T>(s: &mut SlabMap<T>) -> Vec<(usize, T)> {
    let mut out = Vec::new();
    let mut d = s.drain();
    while let Some(p) = d.next() {
        out.push(p);
    }
    out
}

fn into_vec<T>(s: SlabMap<T>) -> Vec<(usize, T)> {
    let mut out = Vec::new();
    let mut it = s.into_iter();
    while let Some(p) = it.next() {
        out.push(p);
    }
    out
}

#[test]
fn test_new() {
    let s = SlabMap::<u32>::new();
    assert_eq!(s.len(), 0);
}

#[test]
fn test_with_capacity() {
    for cap in 0..100 {
        let s = SlabMap::<u32>::with_capacity(cap);
        assert!(s.capacity() >= cap);
    }
}

#[test]
fn test_retain() {
    let mut s = SlabMap::new();
    s.insert(10);
    s.insert(15);
    s.insert(20);
    s.insert(25);

    s.retain(|_idx, x| *x % 2 == 0);

    let value: Vec<_> = values_of(&s);
    assert_eq!(value, vec![10, 20]);
    assert_eq!(s.len(), 2);
}

#[test]
fn test_len() {
    let mut s = SlabMap::new();
    assert_eq!(s.len(), 0);

    let key1 = s.insert(10);
    let key2 = s.insert(15);

    assert_eq!(s.len(), 2);

    s.remove(key1);
    assert_eq!(s.len(), 1);

    s.remove(key2);
    assert_eq!(s.len(), 0);
}

#[test]
fn test_is_empty() {
    let mut s = SlabMap::new();
    assert!(s.is_empty());

    let key = s.insert("a");
    assert!(!s.is_empty());

    s.remove(key);
    assert!(s.is_empty());
}

#[test]
fn test_get() {
    let mut s = SlabMap::new();
    let key = s.insert(100);

    assert_eq!(s.get(key), Some(&100));
    assert_eq!(s.get(key + 1), None);
}

#[test]
fn test_contains_key() {
    let mut s = SlabMap::new();
    let key = s.insert(100);

    assert!(s.contains_key(key));
    assert!(!s.contains_key(key + 1));
}

#[test]
fn test_insert() {
    let mut s = SlabMap::new();
    let key_abc = s.insert("abc");
    let key_xyz = s.insert("xyz");

    assert_eq!(*s.get(key_abc).unwrap(), "abc");
    assert_eq!(*s.get(key_xyz).unwrap(), "xyz");
}

#[test]
fn test_insert_with_key() {
    let mut s = SlabMap::new();
    let key = s.insert_with_key(|key| format!("my key is {}", key));

    assert_eq!(*s.get(key).unwrap(), format!("my key is {}", key));
}

#[test]
fn test_remove() {
    let mut s = SlabMap::new();
    let key = s.insert("a");
    assert_eq!(s.remove(key), Some("a"));
    assert_eq!(s.remove(key), None);
}

#[test]
fn test_clear() {
    let mut s = SlabMap::new();
    s.insert(1);
    s.insert(2);

    s.clear();

    assert!(s.is_empty());
}

#[test]
fn test_drain() {
    let mut s = SlabMap::new();
    let k0 = s.insert(10);
    let k1 = s.insert(20);

    let d: Vec<_> = drain_all(&mut s);
    let mut e = vec![(k0, 10), (k1, 20)];
    e.sort();

    assert!(s.is_empty());
    assert_eq!(d, e);
}

#[test]
fn test_optimize() {
    let mut s = SlabMap::new();
    const COUNT: usize = 1000000;
    for i in 0..COUNT {
        s.insert(i);
    }
    let mut keys: Vec<usize> = Vec::new();
    let mut it = s.keys();
    while keys.len() < COUNT - 1 {
        match it.next() {
            Some(k) => keys.push(k),
            None => break,
        }
    }
    for key in keys {
        s.remove(key);
    }

    s.optimize();

    let begin = Instant::now();
    let mut sum: usize = 0;
    let mut values = s.values();
    while let Some(v) = values.next() {
        sum += *v;
    }
    println!("sum : {}", sum);
    println!("duration : {} ms", (Instant::now() - begin).as_millis());
}

#[test]
fn insert_remove_capacity() {
    let mut s = SlabMap::new();
    let mut keys = Vec::new();
    for _ in 0..10 {
        s.insert(11);
    }
    for _ in 0..100 {
        keys.push(s.insert(10));
    }
    let capacity = s.capacity();
    for _ in 0..1000 {
        for key in keys.drain(..) {
            s.remove(key);
        }
        for _ in 0..100 {
            keys.push(s.insert(10));
        }
    }
    assert_eq!(capacity, s.capacity());
}

#[test]
fn insert_remove_capacity_all() {
    let mut s = SlabMap::new();
    let mut keys = Vec::new();
    for _ in 0..100 {
        keys.push(s.insert(10));
    }
    let capacity = s.capacity();
    for _ in 0..1000 {
        for key in keys.drain(..) {
            s.remove(key);
        }
        for _ in 0..100 {
            keys.push(s.insert(10));
        }
    }
    assert_eq!(capacity, s.capacity());
}

#[test]
fn into_iter() {
    let mut s = SlabMap::new();
    let k0 = s.insert(0);
    let k1 = s.insert(1);
    let k2 = s.insert(2);
    s.remove(k1);

    let a: Vec<_> = into_vec(s);
    let mut e = vec![(k0, 0), (k2, 2)];
    e.sort();

    assert_eq!(a, e);
}

#[test]
fn clone_from() {
    let mut s0 = SlabMap::new();
    let mut s1 = SlabMap::new();
    for _ in 0..10 {
        s0.insert(0);
    }
    for _ in 0..1000 {
        s1.insert(0);
    }
    let cap_old = s1.capacity();
    s1.clone_from(&s0);
    let cap_new = s1.capacity();
    assert_eq!(cap_old, cap_new);
}

fn pairs_of(s: &SlabMap<i32>) -> Vec<(usize, i32)> {
    let mut out = Vec::new();
    let mut it = s.iter();
    while let Some((k, v)) = it.next() {
        out.push((k, *v));
    }
    out
}

fn pairs_of_mut(s: &mut SlabMap<i32>) -> Vec<(usize, i32)> {
    let mut out = Vec::new();
    let mut it = s.iter_mut();
    while let Some((k, v)) = it.next() {
        out.push((k, *v));
    }
    out
}

#[test]
fn from_iter() {
    let s: SlabMap<usize> = SlabMap::from_iter(vec![(5, 1), (0, 3)]);
    assert_eq!(s.len(), 2, "len");
    assert_eq!(*s.get(5).unwrap(), 1);
    assert_eq!(*s.get(0).unwrap(), 3);
}

#[test]
fn merge_vacant() {
    let mut s: SlabMap<_> = SlabMap::from_iter(vec![(0, 10), (1, 11), (2, 12), (3, 13)]);
    s.remove(1);
    s.remove(2);
    s.optimize();
    let e = vec![(0, 10), (3, 13)];

    let a: Vec<_> = pairs_of(&s);
    assert_eq!(a, e);

    let a: Vec<_> = pairs_of_mut(&mut s);
    assert_eq!(a, e);

    let a: Vec<_> = into_vec(s);
    assert_eq!(a, e);
}

#[test]
fn merge_vacant_insert() {
    let mut s: SlabMap<_> = SlabMap::from_iter(vec![(0, 10), (1, 11), (2, 12), (3, 13)]);
    s.remove(1);
    s.remove(2);
    s.optimize();
    let key = s.insert(99);
    let e = vec![(0, 10), (key, 99), (3, 13)];
    let a: Vec<_> = pairs_of(&s);
    assert_eq!(a, e);

    let a: Vec<_> = pairs_of_mut(&mut s);
    assert_eq!(a, e);

    let a: Vec<_> = into_vec(s);
    assert_eq!(a, e);
}

#[test]
fn merge_vacant_insert_2() {
    let mut s: SlabMap<_> = SlabMap::from_iter(vec![(0, 10), (1, 11), (2, 12), (3, 13), (4, 14)]);
    s.remove(1);
    s.remove(2);
    s.remove(3);
    s.optimize();
    let key = s.insert(99);
    let e = vec![(0, 10), (key, 99), (4, 14)];
    let a: Vec<_> = pairs_of(&s);
    assert_eq!(a, e);

    let a: Vec<_> = pairs_of_mut(&mut s);
    assert_eq!(a, e);

    let a: Vec<_> = into_vec(s);
    assert_eq!(a, e);
}

#[test]
fn merge_vacant_2time() {
    let mut s: SlabMap<_> =
        SlabMap::from_iter(vec![(0, 10), (1, 11), (2, 12), (3, 13), (4, 14), (5, 15)]);
    s.remove(1);
    s.remove(2);
    s.optimize();
    s.remove(4);
    s.optimize();

    let e = vec![(0, 10), (3, 13), (5, 15)];

    let a: Vec<_> = pairs_of(&s);
    assert_eq!(a, e);

    let a: Vec<_> = pairs_of_mut(&mut s);
    assert_eq!(a, e);

    let a: Vec<_> = into_vec(s);
    assert_eq!(a, e);
}

#[test]
fn merge_vacant_2part() {
    let mut s: SlabMap<_> = SlabMap::from_iter(vec![(0, 10), (1, 11), (2, 12), (3, 13), (4, 14)]);
    s.remove(1);
    s.remove(2);
    s.remove(4);
    s.optimize();
    let e = vec![(0, 10), (3, 13)];

    let a: Vec<_> = pairs_of(&s);
    assert_eq!(a, e);

    let a: Vec<_> = pairs_of_mut(&mut s);
    assert_eq!(a, e);

    let a: Vec<_> = into_vec(s);
    assert_eq!(a, e);
}

#[test]
fn merge_vacant_drain() {
    let mut s: SlabMap<_> = SlabMap::from_iter(vec![(0, 10), (1, 11), (2, 12), (3, 13), (4, 14)]);
    s.remove(1);
    s.remove(2);
    s.remove(3);
    s.optimize();

    let e = vec![(0, 10), (4, 14)];
    let a: Vec<_> = drain_all(&mut s);
    assert_eq!(a, e);
}

#[test]
fn reserve() {
    let mut s: SlabMap<u32> = SlabMap::new();
    s.reserve(10);
    assert!(s.capacity() >= 10);
}

#[test]
fn reserve_exact() {
    let mut s: SlabMap<u32> = SlabMap::new();
    s.reserve_exact(10);
    assert!(s.capacity() == 10);
}
