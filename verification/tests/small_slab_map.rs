use std::time::Instant;

use slabmap::SmallSlabMap;

fn collect_pairs<T: Clone, const N: usize>(s: &SmallSlabMap<T, N>) -> Vec<(usize, T)> {
    let mut it = s.iter();
    let mut v = Vec::new();
    while let Some((k, x)) = it.next() {
        v.push((k, x.clone()));
    }
    v
}

fn collect_pairs_mut<T: Clone, const N: usize>(s: &mut SmallSlabMap<T, N>) -> Vec<(usize, T)> {
    let mut it = s.iter_mut();
    let mut v = Vec::new();
    while let Some((k, x)) = it.next() {
        v.push((k, x.clone()));
    }
    v
}

fn collect_into<T, const N: usize>(s: SmallSlabMap<T, N>) -> Vec<(usize, T)> {
    let mut it = s.into_iter();
    let mut v = Vec::new();
    while let Some(p) = it.next() {
        v.push(p);
    }
    v
}

fn collect_values<T: Clone, const N: usize>(s: &SmallSlabMap<T, N>) -> Vec<T> {
    let mut it = s.values();
    let mut v = Vec::new();
    while let Some(x) = it.next() {
        v.push(x.clone());
    }
    v
}

fn collect_keys<T, const N: usize>(s: &SmallSlabMap<T, N>) -> Vec<usize> {
    let mut it = s.keys();
    let mut v = Vec::new();
    while let Some(k) = it.next() {
        v.push(k);
    }
    v
}

#[test]
fn slabmap_test_new() {
    let s = SmallSlabMap::<u32, 1>::new();
    assert_eq!(s.len(), 0);
}

#[test]
fn slabmap_test_with_capacity() {
    for cap in 0..100 {
        let s = SmallSlabMap::<u32, 1>::with_capacity(cap);
        assert!(s.capacity() >= cap);
    }
}

#[test]
fn slabmap_test_retain() {
    let mut s = SmallSlabMap::<_, 1>::new();
    s.insert(10);
    s.insert(15);
    s.insert(20);
    s.insert(25);

    s.retain(|_idx, x| *x % 2 == 0);

    let value: Vec<_> = collect_values(&s);
    assert_eq!(value, vec![10, 20]);
    assert_eq!(s.len(), 2);
}

#[test]
fn slabmap_test_len() {
    let mut s = SmallSlabMap::<_, 1>::new();
    assert_eq!(s.len(), 0);

    let key1 = s.insert(10);
    let key2 = s.insert(15);

    assert_eq!(s.len(), 2);

    s.remove(key1);
    assert_eq!(s.len(), 1);

    s.remove(key2);
    assert_eq!(s.len(), 0);
}

#[test]
fn slabmap_test_is_empty() {
    let mut s = SmallSlabMap::<_, 1>::new();
    assert!(s.is_empty());

    let key = s.insert("a");
    assert!(!s.is_empty());

    s.remove(key);
    assert!(s.is_empty());
}

#[test]
fn slabmap_test_get() {
    let mut s = SmallSlabMap::<_, 1>::new();
    let key = s.insert(100);

    assert_eq!(s.get(key), Some(&100));
    assert_eq!(s.get(key + 1), None);
}

#[test]
fn slabmap_test_contains_key() {
    let mut s = SmallSlabMap::<_, 1>::new();
    let key = s.insert(100);

    assert!(s.contains_key(key));
    assert!(!s.contains_key(key + 1));
}

#[test]
fn slabmap_test_insert() {
    let mut s = SmallSlabMap::<_, 1>::new();
    let key_abc = s.insert("abc");
    let key_xyz = s.insert("xyz");

    assert_eq!(*s.index(key_abc), "abc");
    assert_eq!(*s.index(key_xyz), "xyz");
}

#[test]
fn slabmap_test_insert_with_key() {
    let mut s = SmallSlabMap::<_, 1>::new();
    let key = s.insert_with_key(|key| format!("my key is {}", key));

    assert_eq!(*s.index(key), format!("my key is {}", key));
}

#[test]
fn slabmap_test_remove() {
    let mut s = SmallSlabMap::<_, 1>::new();
    let key = s.insert("a");
    assert_eq!(s.remove(key), Some("a"));
    assert_eq!(s.remove(key), None);
}

#[test]
fn slabmap_test_clear() {
    let mut s = SmallSlabMap::<_, 1>::new();
    s.insert(1);
    s.insert(2);

    s.clear();

    assert!(s.is_empty());
}

#[test]
fn slabmap_test_drain() {
    let mut s = SmallSlabMap::<_, 1>::new();
    let k0 = s.insert(10);
    let k1 = s.insert(20);

    let mut drain = s.drain();
    let mut d = Vec::new();
    while let Some(p) = drain.next() {
        d.push(p);
    }
    let mut e = vec![(k0, 10), (k1, 20)];
    e.sort();

    assert!(s.is_empty());
    assert_eq!(d, e);
}

#[test]
fn slabmap_test_optimize() {
    let mut s = SmallSlabMap::<_, 1>::new();
    const COUNT: usize = 1000000;
    for i in 0..COUNT {
        s.insert(i);
    }
    let keys: Vec<_> = collect_keys(&s).into_iter().take(COUNT - 1).collect();
    for key in keys {
        s.remove(key);
    }

    s.optimize(); // without this line, summing the values would be slow

    let begin = Instant::now();
    let sum: usize = collect_values(&s).into_iter().sum();
    println!("sum : {}", sum);
    println!("duration : {} ms", (Instant::now() - begin).as_millis());
}

#[test]
fn slabmap_insert_remove_capacity() {
    let mut s = SmallSlabMap::<_, 1>::new();
    let mut keys = Vec::new();
    for _ in 0..10 {
        s.insert(11);
    }
    for _ in 0..100 {
        keys.push(s.insert(10));
    }
    let capacity = s.capacity();
    for _ in 0..1000 {
        for key in keys.drain(..) {
            s.remove(key);
        }
        for _ in 0..100 {
            keys.push(s.insert(10));
        }
    }
    assert_eq!(capacity, s.capacity());
}

#[test]
fn slabmap_insert_remove_capacity_all() {
    let mut s = SmallSlabMap::<_, 1>::new();
    let mut keys = Vec::new();
    for _ in 0..100 {
        keys.push(s.insert(10));
    }
    let capacity = s.capacity();
    for _ in 0..1000 {
        for key in keys.drain(..) {
            s.remove(key);
        }
        for _ in 0..100 {
            keys.push(s.insert(10));
        }
    }
    assert_eq!(capacity, s.capacity());
}

#[test]
fn slabmap_into_iter() {
    let mut s = SmallSlabMap::<_, 1>::new();
    let k0 = s.insert(0);
    let k1 = s.insert(1);
    let k2 = s.insert(2);
    s.remove(k1);

    let a: Vec<_> = collect_into(s);
    let mut e = vec![(k0, 0), (k2, 2)];
    e.sort();

    assert_eq!(a, e);
}

#[test]
fn slabmap_clone_from() {
    let mut s0 = SmallSlabMap::<_, 1>::new();
    let mut s1 = SmallSlabMap::<_, 1>::new();
    for _ in 0..10 {
        s0.insert(0);
    }
    for _ in 0..1000 {
        s1.insert(0);
    }
    let cap_old = s1.capacity();
    s1.clone_from(&s0);
    let cap_new = s1.capacity();
    assert_eq!(cap_old, cap_new);
}

#[test]
fn slabmap_from_iter() {
    let s: SmallSlabMap<usize, 1> = SmallSlabMap::from_iter_with_capacity(vec![(5, 1), (0, 3)], 0);
    assert_eq!(s.len(), 2, "len");
    assert_eq!(*s.index(5), 1);
    assert_eq!(*s.index(0), 3);
}

#[test]
fn slabmap_merge_vacant() {
    let mut s: SmallSlabMap<_, 1> =
        SmallSlabMap::from_iter_with_capacity(vec![(0, 10), (1, 11), (2, 12), (3, 13)], 0);
    s.remove(1);
    s.remove(2);
    s.optimize();
    let e = vec![(0, 10), (3, 13)];

    let a: Vec<_> = collect_pairs(&s);
    assert_eq!(a, e);

    let a: Vec<_> = collect_pairs_mut(&mut s);
    assert_eq!(a, e);

    let a: Vec<_> = collect_into(s);
    assert_eq!(a, e);
}

#[test]
fn slabmap_merge_vacant_insert() {
    let mut s: SmallSlabMap<_, 1> =
        SmallSlabMap::from_iter_with_capacity(vec![(0, 10), (1, 11), (2, 12), (3, 13)], 0);
    s.remove(1);
    s.remove(2);
    s.optimize();
    let key = s.insert(99);
    let e = vec![(0, 10), (key, 99), (3, 13)];
    let a: Vec<_> = collect_pairs(&s);
    assert_eq!(a, e);

    let a: Vec<_> = collect_pairs_mut(&mut s);
    assert_eq!(a, e);

    let a: Vec<_> = collect_into(s);
    assert_eq!(a, e);
}

#[test]
fn slabmap_merge_vacant_insert_2() {
    let mut s: SmallSlabMap<_, 1> = SmallSlabMap::from_iter_with_capacity(
        vec![(0, 10), (1, 11), (2, 12), (3, 13), (4, 14)],
        0,
    );
    s.remove(1);
    s.remove(2);
    s.remove(3);
    s.optimize();
    let key = s.insert(99);
    let e = vec![(0, 10), (key, 99), (4, 14)];
    let a: Vec<_> = collect_pairs(&s);
    assert_eq!(a, e);

    let a: Vec<_> = collect_pairs_mut(&mut s);
    assert_eq!(a, e);

    let a: Vec<_> = collect_into(s);
    assert_eq!(a, e);
}

#[test]
fn slabmap_merge_vacant_2time() {
    let mut s: SmallSlabMap<_, 1> = SmallSlabMap::from_iter_with_capacity(
        vec![(0, 10), (1, 11), (2, 12), (3, 13), (4, 14), (5, 15)],
        0,
    );
    s.remove(1);
    s.remove(2);
    s.optimize();
    s.remove(4);
    s.optimize();

    let e = vec![(0, 10), (3, 13), (5, 15)];

    let a: Vec<_> = collect_pairs(&s);
    assert_eq!(a, e);

    let a: Vec<_> = collect_pairs_mut(&mut s);
    assert_eq!(a, e);

    let a: Vec<_> = collect_into(s);
    assert_eq!(a, e);
}

#[test]
fn slabmap_merge_vacant_2part() {
    let mut s: SmallSlabMap<_, 1> = SmallSlabMap::from_iter_with_capacity(
        vec![(0, 10), (1, 11), (2, 12), (3, 13), (4, 14)],
        0,
    );
    s.remove(1);
    s.remove(2);
    s.remove(4);
    s.optimize();
    let e = vec![(0, 10), (3, 13)];

    let a: Vec<_> = collect_pairs(&s);
    assert_eq!(a, e);

    let a: Vec<_> = collect_pairs_mut(&mut s);
    assert_eq!(a, e);

    let a: Vec<_> = collect_into(s);
    assert_eq!(a, e);
}

#[test]
fn slabmap_merge_vacant_drain() {
    let mut s: SmallSlabMap<_, 1> = SmallSlabMap::from_iter_with_capacity(
        vec![(0, 10), (1, 11), (2, 12), (3, 13), (4, 14)],
        0,
    );
    s.remove(1);
    s.remove(2);
    s.remove(3);
    s.optimize();

    let e = vec![(0, 10), (4, 14)];
    let mut drain = s.drain();
    let mut a = Vec::new();
    while let Some(p) = drain.next() {
        a.push(p);
    }
    assert_eq!(a, e);
}

#[test]
fn slabmap_reserve() {
    let mut s: SmallSlabMap<u32, 1> = SmallSlabMap::new();
    s.reserve(10);
    assert!(s.capacity() >= 10);
}

#[test]
fn slabmap_reserve_exact() {
    let mut s: SmallSlabMap<u32, 1> = SmallSlabMap::new();
    s.reserve_exact(10);
    assert!(s.capacity() == 10);
}

#[test]
fn promotion_keeps_keys() {
    let mut s = SmallSlabMap::<&str, 1>::new();
    let k0 = s.insert("first");
    let k1 = s.insert("second");
    assert_eq!(s.get(k0), Some(&"first"));
    assert_eq!(s.get(k1), Some(&"second"));
    assert_ne!(k0, k1);
    assert_eq!(s.len(), 2);
}

#[test]
fn inline_reuses_first_vacant_cell() {
    let mut s = SmallSlabMap::<u32, 4>::new();
    let k0 = s.insert(1);
    let k1 = s.insert(2);
    let k2 = s.insert(3);
    s.remove(k1);
    let k3 = s.insert(4);
    assert_eq!(k3, k1);
    assert_eq!(collect_pairs(&s), vec![(k0, 1), (k3, 4), (k2, 3)]);
}

#[test]
fn inline_capacity_is_threshold() {
    let mut s = SmallSlabMap::<u8, 4>::new();
    assert_eq!(s.capacity(), 4);
    s.insert(1);
    assert_eq!(s.capacity(), 4);
}

#[test]
fn small_iter_mut_updates_values() {
    let mut s = SmallSlabMap::<u32, 4>::new();
    let k0 = s.insert(1);
    let k1 = s.insert(2);
    let mut it = s.iter_mut();
    while let Some((_, v)) = it.next() {
        *v += 10;
    }
    assert_eq!(s.get(k0), Some(&11));
    assert_eq!(s.get(k1), Some(&12));
}

#[test]
fn small_values_mut_updates_values() {
    let mut s = SmallSlabMap::<u32, 2>::new();
    let k = s.insert(5);
    let mut it = s.values_mut();
    while let Some(v) = it.next() {
        *v *= 3;
    }
    assert_eq!(s.get(k), Some(&15));
}

#[test]
fn small_get_mut_updates_value() {
    let mut s = SmallSlabMap::<u32, 4>::new();
    let k = s.insert(7);
    *s.get_mut(k).unwrap() = 8;
    assert_eq!(s.get(k), Some(&8));
    assert_eq!(s.get_mut(k + 1), None);
}

#[test]
fn small_index_mut_updates_value() {
    let mut s = SmallSlabMap::<u32, 2>::new();
    let k = s.insert(3);
    *s.index_mut(k) += 4;
    assert_eq!(*s.index(k), 7);
}

#[test]
fn small_try_reserve_inline_fit_succeeds() {
    let mut s = SmallSlabMap::<u32, 4>::new();
    s.insert(1);
    assert!(s.try_reserve(3).is_ok());
    assert!(s.try_reserve_exact(3).is_ok());
    assert_eq!(s.capacity(), 4);
}

#[test]
fn small_try_reserve_reports_overflow() {
    let mut s: SmallSlabMap<u64, 1> = SmallSlabMap::new();
    s.insert(1);
    assert!(s.try_reserve(usize::MAX).is_err());
    assert!(s.try_reserve_exact(usize::MAX).is_err());
    assert_eq!(s.len(), 1);
}

#[test]
fn small_from_iter_overwrites_duplicates() {
    let s: SmallSlabMap<u32, 4> =
        SmallSlabMap::from_iter_with_capacity(vec![(2, 5), (0, 1), (2, 9)], 0);
    assert_eq!(collect_pairs(&s), vec![(0, 1), (2, 9)]);
}

#[test]
fn inline_retain_sees_keys() {
    let mut s = SmallSlabMap::<u32, 4>::new();
    let k0 = s.insert(5);
    let k1 = s.insert(6);
    let k2 = s.insert(7);
    s.remove(k0);
    s.retain(|k, _v| k >= 2);
    assert_eq!(s.get(k1), None);
    assert_eq!(s.get(k2), Some(&7));
    assert_eq!(s.len(), 1);
}

#[test]
fn small_inline_remove_then_insert_reuses_first_cell() {
    let mut s = SmallSlabMap::<u32, 3>::new();
    let k0 = s.insert(5);
    let k1 = s.insert(6);
    s.remove(k0);
    let k2 = s.insert(7);
    assert_eq!(k2, k0);
    assert_eq!(s.get(k1), Some(&6));
}

#[test]
fn small_from_iter_stays_inline_when_keys_fit() {
    let s: SmallSlabMap<u32, 4> = SmallSlabMap::from_iter_with_capacity(vec![(0, 1), (3, 2)], 0);
    assert_eq!(s.capacity(), 4);
    assert_eq!(collect_pairs(&s), vec![(0, 1), (3, 2)]);
}
