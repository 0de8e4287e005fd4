use std::time::Instant;

use slabmap::SlabMap;

fn collect_pairs<T: Clone>(s: &SlabMap<T>) -> Vec<(usize, T)> {
    let mut it = s.iter();
    let mut v = Vec::new();
    while let Some((k, x)) = it.next() {
        v.push((k, x.clone()));
    }
    v
}

fn collect_pairs_mut<T: Clone>(s: &mut SlabMap<T>) -> Vec<(usize, T)> {
    let mut it = s.iter_mut();
    let mut v = Vec::new();
    while let Some((k, x)) = it.next() {
        v.push((k, x.clone()));
    }
    v
}

fn collect_into<T>(s: SlabMap<T>) -> Vec<(usize, T)> {
    let mut it = s.into_iter();
    let mut v = Vec::new();
    while let Some(p) = it.next() {
        v.push(p);
    }
    v
}

fn collect_values<T: Clone>(s: &SlabMap<T>) -> Vec<T> {
    let mut it = s.values();
    let mut v = Vec::new();
    while let Some(x) = it.next() {
        v.push(x.clone());
    }
    v
}

fn collect_keys<T>(s: &SlabMap<T>) -> Vec<usize> {
    let mut it = s.keys();
    let mut v = Vec::new();
    while let Some(k) = it.next() {
        v.push(k);
    }
    v
}

#[test]
fn test_new() {
    let s = SlabMap::<u32>::new();
    assert_eq!(s.len(), 0);
}

#[test]
fn test_with_capacity() {
    for cap in 0..100 {
        let s = SlabMap::<u32>::with_capacity(cap);
        assert!(s.capacity() >= cap);
    }
}

#[test]
fn test_retain() {
    let mut s = SlabMap::new();
    s.insert(10);
    s.insert(15);
    s.insert(20);
    s.insert(25);

    s.retain(|_idx, x| *x % 2 == 0);

    let value: Vec<_> = collect_values(&s);
    assert_eq!(value, vec![10, 20]);
    assert_eq!(s.len(), 2);
}

#[test]
fn test_len() {
    let mut s = SlabMap::new();
    assert_eq!(s.len(), 0);

    let key1 = s.insert(10);
    let key2 = s.insert(15);

    assert_eq!(s.len(), 2);

    s.remove(key1);
    assert_eq!(s.len(), 1);

    s.remove(key2);
    assert_eq!(s.len(), 0);
}

#[test]
fn test_is_empty() {
    let mut s = SlabMap::new();
    assert!(s.is_empty());

    let key = s.insert("a");
    assert!(!s.is_empty());

    s.remove(key);
    assert!(s.is_empty());
}

#[test]
fn test_get() {
    let mut s = SlabMap::new();
    let key = s.insert(100);

    assert_eq!(s.get(key), Some(&100));
    assert_eq!(s.get(key + 1), None);
}

#[test]
fn test_contains_key() {
    let mut s = SlabMap::new();
    let key = s.insert(100);

    assert!(s.contains_key(key));
    assert!(!s.contains_key(key + 1));
}

#[test]
fn test_insert() {
    let mut s = SlabMap::new();
    let key_abc = s.insert("abc");
    let key_xyz = s.insert("xyz");

    assert_eq!(*s.index(key_abc), "abc");
    assert_eq!(*s.index(key_xyz), "xyz");
}

#[test]
fn test_insert_with_key() {
    let mut s = SlabMap::new();
    let key = s.insert_with_key(|key| format!("my key is {}", key));

    assert_eq!(*s.index(key), format!("my key is {}", key));
}

#[test]
fn test_remove() {
    let mut s = SlabMap::new();
    let key = s.insert("a");
    assert_eq!(s.remove(key), Some("a"));
    assert_eq!(s.remove(key), None);
}

#[test]
fn test_clear() {
    let mut s = SlabMap::new();
    s.insert(1);
    s.insert(2);

    s.clear();

    assert!(s.is_empty());
}

#[test]
fn test_drain() {
    let mut s = SlabMap::new();
    let k0 = s.insert(10);
    let k1 = s.insert(20);

    let mut drain = s.drain();
    let mut d = Vec::new();
    while let Some(p) = drain.next() {
        d.push(p);
    }
    let mut e = vec![(k0, 10), (k1, 20)];
    e.sort();

    assert!(s.is_empty());
    assert_eq!(d, e);
}

#[test]
fn test_optimize() {
    let mut s = SlabMap::new();
    const COUNT: usize = 1000000;
    for i in 0..COUNT {
        s.insert(i);
    }
    let keys: Vec<_> = collect_keys(&s).into_iter().take(COUNT - 1).collect();
    for key in keys {
        s.remove(key);
    }

    s.optimize(); // without this line, summing the values would be slow

    let begin = Instant::now();
    let sum: usize = collect_values(&s).into_iter().sum();
    println!("sum : {}", sum);
    println!("duration : {} ms", (Instant::now() - begin).as_millis());
}

#[test]
fn insert_remove_capacity() {
    let mut s = SlabMap::new();
    let mut keys = Vec::new();
    for _ in 0..10 {
        s.insert(11);
    }
    for _ in 0..100 {
        keys.push(s.insert(10));
    }
    let capacity = s.capacity();
    for _ in 0..1000 {
        for key in keys.drain(..) {
            s.remove(key);
        }
        for _ in 0..100 {
            keys.push(s.insert(10));
        }
    }
    assert_eq!(capacity, s.capacity());
}

#[test]
fn insert_remove_capacity_all() {
    let mut s = SlabMap::new();
    let mut keys = Vec::new();
    for _ in 0..100 {
        keys.push(s.insert(10));
    }
    let capacity = s.capacity();
    for _ in 0..1000 {
        for key in keys.drain(..) {
            s.remove(key);
        }
        for _ in 0..100 {
            keys.push(s.insert(10));
        }
    }
    assert_eq!(capacity, s.capacity());
}

#[test]
fn into_iter() {
    let mut s = SlabMap::new();
    let k0 = s.insert(0);
    let k1 = s.insert(1);
    let k2 = s.insert(2);
    s.remove(k1);

    let a: Vec<_> = collect_into(s);
    let mut e = vec![(k0, 0), (k2, 2)];
    e.sort();

    assert_eq!(a, e);
}

#[test]
fn clone_from() {
    let mut s0 = SlabMap::new();
    let mut s1 = SlabMap::new();
    for _ in 0..10 {
        s0.insert(0);
    }
    for _ in 0..1000 {
        s1.insert(0);
    }
    let cap_old = s1.capacity();
    s1.clone_from(&s0);
    let cap_new = s1.capacity();
    assert_eq!(cap_old, cap_new);
}

#[test]
fn from_iter() {
    let s: SlabMap<usize> = SlabMap::from_iter_with_capacity(vec![(5, 1), (0, 3)], 0);
    assert_eq!(s.len(), 2, "len");
    assert_eq!(*s.index(5), 1);
    assert_eq!(*s.index(0), 3);
}

#[test]
fn merge_vacant() {
    let mut s: SlabMap<_> =
        SlabMap::from_iter_with_capacity(vec![(0, 10), (1, 11), (2, 12), (3, 13)], 0);
    s.remove(1);
    s.remove(2);
    s.optimize();
    let e = vec![(0, 10), (3, 13)];

    let a: Vec<_> = collect_pairs(&s);
    assert_eq!(a, e);

    let a: Vec<_> = collect_pairs_mut(&mut s);
    assert_eq!(a, e);

    let a: Vec<_> = collect_into(s);
    assert_eq!(a, e);
}

#[test]
fn merge_vacant_insert() {
    let mut s: SlabMap<_> =
        SlabMap::from_iter_with_capacity(vec![(0, 10), (1, 11), (2, 12), (3, 13)], 0);
    s.remove(1);
    s.remove(2);
    s.optimize();
    let key = s.insert(99);
    let e = vec![(0, 10), (key, 99), (3, 13)];
    let a: Vec<_> = collect_pairs(&s);
    assert_eq!(a, e);

    let a: Vec<_> = collect_pairs_mut(&mut s);
    assert_eq!(a, e);

    let a: Vec<_> = collect_into(s);
    assert_eq!(a, e);
}

#[test]
fn merge_vacant_insert_2() {
    let mut s: SlabMap<_> =
        SlabMap::from_iter_with_capacity(vec![(0, 10), (1, 11), (2, 12), (3, 13), (4, 14)], 0);
    s.remove(1);
    s.remove(2);
    s.remove(3);
    s.optimize();
    let key = s.insert(99);
    let e = vec![(0, 10), (key, 99), (4, 14)];
    let a: Vec<_> = collect_pairs(&s);
    assert_eq!(a, e);

    let a: Vec<_> = collect_pairs_mut(&mut s);
    assert_eq!(a, e);

    let a: Vec<_> = collect_into(s);
    assert_eq!(a, e);
}

#[test]
fn merge_vacant_2time() {
    let mut s: SlabMap<_> = SlabMap::from_iter_with_capacity(
        vec![(0, 10), (1, 11), (2, 12), (3, 13), (4, 14), (5, 15)],
        0,
    );
    s.remove(1);
    s.remove(2);
    s.optimize();
    s.remove(4);
    s.optimize();

    let e = vec![(0, 10), (3, 13), (5, 15)];

    let a: Vec<_> = collect_pairs(&s);
    assert_eq!(a, e);

    let a: Vec<_> = collect_pairs_mut(&mut s);
    assert_eq!(a, e);

    let a: Vec<_> = collect_into(s);
    assert_eq!(a, e);
}

#[test]
fn merge_vacant_2part() {
    let mut s: SlabMap<_> =
        SlabMap::from_iter_with_capacity(vec![(0, 10), (1, 11), (2, 12), (3, 13), (4, 14)], 0);
    s.remove(1);
    s.remove(2);
    s.remove(4);
    s.optimize();
    let e = vec![(0, 10), (3, 13)];

    let a: Vec<_> = collect_pairs(&s);
    assert_eq!(a, e);

    let a: Vec<_> = collect_pairs_mut(&mut s);
    assert_eq!(a, e);

    let a: Vec<_> = collect_into(s);
    assert_eq!(a, e);
}

#[test]
fn merge_vacant_drain() {
    let mut s: SlabMap<_> =
        SlabMap::from_iter_with_capacity(vec![(0, 10), (1, 11), (2, 12), (3, 13), (4, 14)], 0);
    s.remove(1);
    s.remove(2);
    s.remove(3);
    s.optimize();

    let e = vec![(0, 10), (4, 14)];
    let mut drain = s.drain();
    let mut a = Vec::new();
    while let Some(p) = drain.next() {
        a.push(p);
    }
    assert_eq!(a, e);
}

#[test]
fn reserve() {
    let mut s: SlabMap<u32> = SlabMap::new();
    s.reserve(10);
    assert!(s.capacity() >= 10);
}

#[test]
fn reserve_exact() {
    let mut s: SlabMap<u32> = SlabMap::new();
    s.reserve_exact(10);
    assert!(s.capacity() == 10);
}

#[test]
fn optimize_reuses_lowest_key() {
    let mut s = SlabMap::new();
    for v in [10, 11, 12, 13, 14] {
        s.insert(v);
    }
    s.remove(1);
    s.remove(2);
    s.remove(3);
    s.optimize();
    assert_eq!(collect_pairs(&s), vec![(0, 10), (4, 14)]);
    let key = s.insert(99);
    assert_eq!(key, 1);
}

#[test]
fn iteration_sorted_after_churn() {
    let mut s = SlabMap::new();
    for v in 0..20 {
        s.insert(v);
    }
    for k in [3, 15, 1, 7, 8, 9] {
        s.remove(k);
    }
    s.insert(100);
    s.insert(101);
    let keys = collect_keys(&s);
    for w in keys.windows(2) {
        assert!(w[0] < w[1]);
    }
    assert_eq!(keys.len(), s.len());
}

#[test]
fn from_iter_overwrites_duplicates() {
    let s: SlabMap<u32> = SlabMap::from_iter_with_capacity(vec![(2, 5), (0, 1), (2, 9)], 0);
    assert_eq!(collect_pairs(&s), vec![(0, 1), (2, 9)]);
}

#[test]
fn iter_exact_count() {
    let mut s = SlabMap::new();
    for v in 0..6 {
        s.insert(v);
    }
    s.remove(2);
    s.remove(3);
    let it = s.iter();
    assert_eq!(it.count(), 4);
}

#[test]
fn iter_mut_updates_values() {
    let mut s = SlabMap::new();
    let k0 = s.insert(1);
    let k1 = s.insert(2);
    let mut it = s.iter_mut();
    while let Some((_, v)) = it.next() {
        *v += 10;
    }
    assert_eq!(s.get(k0), Some(&11));
    assert_eq!(s.get(k1), Some(&12));
}

#[test]
fn values_mut_updates_values() {
    let mut s = SlabMap::new();
    let k = s.insert(5);
    let mut it = s.values_mut();
    while let Some(v) = it.next() {
        *v *= 3;
    }
    assert_eq!(s.get(k), Some(&15));
}

#[test]
fn get_mut_updates_value() {
    let mut s = SlabMap::new();
    let k = s.insert(7);
    *s.get_mut(k).unwrap() = 8;
    assert_eq!(s.get(k), Some(&8));
    assert_eq!(s.get_mut(k + 1), None);
}

#[test]
fn index_mut_updates_value() {
    let mut s = SlabMap::new();
    let k = s.insert(3);
    *s.index_mut(k) += 4;
    assert_eq!(*s.index(k), 7);
}

#[test]
fn try_reserve_covered_by_free_slots_succeeds() {
    let mut s = SlabMap::new();
    for v in 0..8 {
        s.insert(v);
    }
    for k in 0..6 {
        s.remove(k);
    }
    assert!(s.try_reserve(6).is_ok());
    assert!(s.try_reserve_exact(6).is_ok());
}

#[test]
fn try_reserve_reports_overflow() {
    let mut s: SlabMap<u64> = SlabMap::new();
    s.insert(1);
    assert!(s.try_reserve(usize::MAX).is_err());
    assert!(s.try_reserve_exact(usize::MAX).is_err());
    assert_eq!(s.len(), 1);
}

#[test]
fn remove_last_key_then_reuse() {
    let mut s = SlabMap::new();
    let k0 = s.insert("a");
    let k1 = s.insert("b");
    assert_eq!(s.remove(k1), Some("b"));
    let k2 = s.insert("c");
    assert_eq!(k2, k1);
    assert_eq!(collect_pairs(&s), vec![(k0, "a"), (k2, "c")]);
}

#[test]
fn optimize_preserves_iteration() {
    let mut s = SlabMap::new();
    for v in 0..30 {
        s.insert(v * 7);
    }
    for k in [1, 2, 3, 9, 10, 20, 28, 29] {
        s.remove(k);
    }
    let before = collect_pairs(&s);
    s.optimize();
    let after = collect_pairs(&s);
    assert_eq!(before, after);
}

#[test]
fn new_map_has_no_capacity() {
    let s = SlabMap::<u32>::new();
    assert_eq!(s.capacity(), 0);
}

#[test]
fn drain_keeps_capacity() {
    let mut s = SlabMap::new();
    for v in 0..20 {
        s.insert(v);
    }
    let c0 = s.capacity();
    let mut d = s.drain();
    while let Some(_) = d.next() {}
    assert_eq!(s.capacity(), c0);
    assert!(s.is_empty());
}

#[test]
fn reserve_counts_free_slots() {
    let mut s = SlabMap::new();
    for v in 0..8 {
        s.insert(v);
    }
    for k in 0..6 {
        s.remove(k);
    }
    let c0 = s.capacity();
    s.reserve(6);
    assert_eq!(s.capacity(), c0);
}

#[test]
fn drain_empty_map() {
    let mut s: SlabMap<u8> = SlabMap::new();
    let mut d = s.drain();
    assert_eq!(d.count(), 0);
    assert_eq!(d.next(), None);
}
