use dstd::map::HashMap;

#[test]
fn read_after_write_gives_the_written_value() {
    let mut map: HashMap<u64, u64> = HashMap::new();
    assert_eq!(map.insert(7, 70), None);
    assert_eq!(map.insert(8, 80), None);
    assert_eq!(map.get(&7), Some(&70));
    assert_eq!(map.get(&8), Some(&80));
    assert_eq!(map.get(&9), None);
    assert_eq!(map.insert(7, 71), Some(70));
    assert_eq!(map.get(&7), Some(&71));
    assert_eq!(map.get(&8), Some(&80));
}

#[test]
fn len_grows_only_for_new_keys() {
    let mut map: HashMap<u32, &str> = HashMap::new();
    assert!(map.is_empty());
    map.insert(1, "one");
    assert_eq!(map.len(), 1);
    map.insert(1, "uno");
    assert_eq!(map.len(), 1);
    map.insert(2, "two");
    assert_eq!(map.len(), 2);
    assert!(!map.is_empty());
}

#[test]
fn remove_takes_the_key_out() {
    let mut map: HashMap<i32, i32> = HashMap::new();
    for i in 0..50 {
        map.insert(i, i * 10);
    }
    assert_eq!(map.remove(&10), Some(100));
    assert_eq!(map.remove(&10), None);
    assert_eq!(map.len(), 49);
    assert!(!map.contains_key(&10));
    for i in 0..50 {
        if i != 10 {
            assert_eq!(*map.index(&i), i * 10);
        }
    }
}

#[test]
fn insert_then_remove_restores_the_map() {
    let mut map: HashMap<u16, u16> = HashMap::new();
    map.insert(1, 10);
    map.insert(2, 20);
    map.insert(3, 3000);
    assert_eq!(map.remove(&3), Some(3000));
    assert_eq!(map.len(), 2);
    assert_eq!(map.get(&1), Some(&10));
    assert_eq!(map.get(&2), Some(&20));
    assert_eq!(map.get(&3), None);
}

#[test]
fn iteration_visits_each_pair_once() {
    let mut map: HashMap<u64, u64> = HashMap::new();
    for i in 0..100u64 {
        map.insert(i, i * i);
    }
    let mut seen = vec![false; 100];
    let mut it = map.iter();
    assert_eq!(it.len(), 100);
    assert_eq!(it.size_hint(), (100, Some(100)));
    let mut n = 0;
    while let Some((k, v)) = it.next() {
        assert_eq!(*v, *k * *k);
        assert!(!seen[*k as usize]);
        seen[*k as usize] = true;
        n += 1;
    }
    assert_eq!(n, 100);
    assert!(seen.iter().all(|s| *s));
    assert_eq!(map.iter().count(), 100);
    assert!(map.iter().last().is_some());
}

#[test]
fn keys_values_and_into_iter_agree() {
    let mut map: HashMap<u8, u32> = HashMap::new();
    for i in 0..20u8 {
        map.insert(i, i as u32 + 1000);
    }
    let mut keys = Vec::new();
    let mut ks = map.keys();
    while let Some(k) = ks.next() {
        keys.push(*k);
    }
    let mut values = Vec::new();
    let mut vs = map.values();
    while let Some(v) = vs.next() {
        values.push(*v);
    }
    assert_eq!(keys.len(), 20);
    assert_eq!(map.keys().count(), 20);
    assert_eq!(map.values().len(), 20);
    for (k, v) in keys.iter().zip(values.iter()) {
        assert_eq!(*k as u32 + 1000, *v);
    }
    let mut pairs = Vec::new();
    let mut it = map.into_iter();
    assert_eq!(it.len(), 20);
    while let Some(p) = it.next() {
        pairs.push(p);
    }
    pairs.sort();
    let expected: Vec<(u8, u32)> = (0..20u8).map(|i| (i, i as u32 + 1000)).collect();
    assert_eq!(pairs, expected);
}

#[test]
fn retain_keeps_what_the_predicate_accepts() {
    let items: Vec<(i32, i32)> = (0..8).map(|x| (x, x * 10)).collect();
    let mut map = HashMap::from_iter(items);
    map.retain(|&k, _| k % 2 == 0);
    assert_eq!(map.len(), 4);
    for k in 0..8 {
        assert_eq!(map.contains_key(&k), k % 2 == 0);
    }
    assert_eq!(map.get(&6), Some(&60));
}

#[test]
fn from_iter_later_pairs_win() {
    let map = HashMap::from_iter(vec![(1u64, 1u64), (2, 2), (1, 3)]);
    assert_eq!(map.len(), 2);
    assert_eq!(map.get(&1), Some(&3));
    let mut map2 = HashMap::new();
    map2.insert(5u64, 50u64);
    map2.extend(vec![(5, 55), (6, 66)]);
    assert_eq!(map2.len(), 2);
    assert_eq!(map2.get(&5), Some(&55));
    assert_eq!(map2.get(&6), Some(&66));
}

#[test]
fn get_mut_and_entry_update_in_place() {
    let mut map: HashMap<char, u32> = HashMap::new();
    map.insert('a', 1);
    *map.get_mut(&'a').unwrap() += 10;
    assert_eq!(map.get(&'a'), Some(&11));
    assert!(map.get_mut(&'b').is_none());
    *map.entry('b').or_insert(5) += 1;
    *map.entry('a').or_insert(100) += 1;
    assert_eq!(map.get(&'b'), Some(&6));
    assert_eq!(map.get(&'a'), Some(&12));
    assert_eq!(map.len(), 2);
}

#[test]
fn capacity_rounds_to_powers_of_two() {
    let map: HashMap<u64, u64> = HashMap::new();
    assert_eq!(map.capacity(), 0);
    let map: HashMap<u64, u64> = HashMap::with_capacity(0);
    assert_eq!(map.capacity(), 32);
    let map: HashMap<u64, u64> = HashMap::with_capacity(32);
    assert_eq!(map.capacity(), 64);
    let map: HashMap<u64, u64> = HashMap::with_capacity(10);
    assert_eq!(map.capacity(), 32);
    let map: HashMap<u64, u64> = HashMap::with_capacity(33);
    assert_eq!(map.capacity(), 64);
    let mut map: HashMap<u64, u64> = HashMap::new();
    map.insert(1, 1);
    assert_eq!(map.capacity(), 32);
}

#[test]
fn map_grows_past_nine_tenths() {
    let mut map: HashMap<u64, u64> = HashMap::new();
    // load capacity of 32 slots: 32 - 32 / 8 = 28
    for i in 0..29 {
        map.insert(i, i);
    }
    assert_eq!(map.capacity(), 32);
    map.insert(29, 29);
    assert_eq!(map.capacity(), 64);
    for i in 0..30 {
        assert_eq!(map.get(&i), Some(&i));
    }
}

#[test]
fn reserve_and_shrink_keep_the_contents() {
    let mut map: HashMap<u64, u64> = HashMap::new();
    for i in 0..10 {
        map.insert(i, i + 1);
    }
    map.reserve(100);
    assert_eq!(map.capacity(), 128);
    map.shrink_to(40);
    assert_eq!(map.capacity(), 64);
    map.shrink_to_fit();
    assert_eq!(map.capacity(), 32);
    map.shrink_to(0);
    assert_eq!(map.capacity(), 32);
    assert_eq!(map.len(), 10);
    for i in 0..10 {
        assert_eq!(map.get(&i), Some(&(i + 1)));
    }
}

#[test]
fn clear_keeps_the_capacity() {
    let mut map: HashMap<i64, i64> = HashMap::new();
    for i in -20..20 {
        map.insert(i, -i);
    }
    let cap = map.capacity();
    map.clear();
    assert_eq!(map.len(), 0);
    assert!(map.is_empty());
    assert_eq!(map.capacity(), cap);
    assert_eq!(map.get(&3), None);
    map.insert(3, 4);
    assert_eq!(map.get(&3), Some(&4));
}

#[test]
fn scenario_from_the_example_program() {
    let mut map: HashMap<u32, u32> = HashMap::new();
    map.insert(1, 1);
    map.insert(2, 1);
    assert_eq!(map.insert(2, 2), Some(1));
    map.insert(3, 3);
    assert_eq!(*map.index(&1), 1);
    assert_eq!(*map.index(&2), 2);
    assert_eq!(*map.index(&3), 3);
}

#[test]
fn bool_and_signed_keys() {
    let mut map: HashMap<bool, i8> = HashMap::new();
    map.insert(true, -1);
    map.insert(false, 1);
    assert_eq!(map.get(&true), Some(&-1));
    assert_eq!(map.get(&false), Some(&1));
    let mut m2: HashMap<isize, u128> = HashMap::new();
    m2.insert(-5, u128::MAX);
    assert_eq!(m2.get(&-5), Some(&u128::MAX));
}

#[test]
fn iter_mut_writes_reach_the_map() {
    let mut map: HashMap<u32, u32> = HashMap::new();
    for i in 0..40 {
        map.insert(i, i);
    }
    {
        let mut it = map.iter_mut();
        assert_eq!(it.len(), 40);
        assert_eq!(it.size_hint(), (40, Some(40)));
        while let Some((k, v)) = it.next() {
            assert_eq!(*k, *v);
            *v += 100;
        }
        assert_eq!(it.len(), 0);
    }
    assert_eq!(map.len(), 40);
    for i in 0..40 {
        assert_eq!(map.get(&i), Some(&(i + 100)));
    }
}

#[test]
fn values_mut_writes_reach_the_map() {
    let mut map: HashMap<i16, String> = HashMap::new();
    map.insert(-1, "a".to_string());
    map.insert(2, "b".to_string());
    let mut vs = map.values_mut();
    assert_eq!(vs.len(), 2);
    while let Some(v) = vs.next() {
        v.push('!');
    }
    assert_eq!(map.get(&-1).map(|s| s.as_str()), Some("a!"));
    assert_eq!(map.get(&2).map(|s| s.as_str()), Some("b!"));
}

#[test]
fn iter_mut_on_an_empty_map() {
    let mut map: HashMap<u8, u8> = HashMap::new();
    assert!(map.iter_mut().next().is_none());
    assert!(map.values_mut().next().is_none());
}

#[test]
fn clone_holds_the_same_pairs() {
    let mut map: HashMap<u64, Vec<u8>> = HashMap::with_capacity(100);
    for i in 0..60u64 {
        map.insert(i, vec![i as u8; 3]);
    }
    let copy = map.clone();
    assert_eq!(copy.len(), 60);
    assert_eq!(copy.capacity(), map.capacity());
    for i in 0..60u64 {
        assert_eq!(copy.get(&i), Some(&vec![i as u8; 3]));
    }
    map.insert(0, vec![]);
    assert_eq!(copy.get(&0), Some(&vec![0u8; 3]));
}

#[test]
fn default_map_is_empty() {
    let map: HashMap<u64, u64> = HashMap::default();
    assert_eq!(map.len(), 0);
    assert_eq!(map.capacity(), 0);
}

#[test]
fn pair_and_wide_keys() {
    let mut map: HashMap<(u8, i64), &str> = HashMap::new();
    map.insert((1, -1), "a");
    map.insert((1, 2), "b");
    map.insert((1, -1), "c");
    assert_eq!(map.len(), 2);
    assert_eq!(map.get(&(1, -1)), Some(&"c"));
    assert_eq!(map.get(&(2, -1)), None);
    let mut wide: HashMap<i128, u8> = HashMap::new();
    wide.insert(i128::MIN, 1);
    wide.insert(-1, 2);
    assert_eq!(wide.get(&i128::MIN), Some(&1));
    assert_eq!(wide.get(&-1), Some(&2));
}

#[test]
fn iter_mut_last_and_count() {
    let mut map: HashMap<u16, u16> = HashMap::new();
    for i in 0..10 {
        map.insert(i, i);
    }
    assert_eq!(map.iter_mut().count(), 10);
    assert_eq!(map.values_mut().count(), 10);
    let (k, v) = map.iter_mut().last().unwrap();
    let k = *k;
    *v = 1000;
    assert_eq!(map.get(&k), Some(&1000));
    let last_key = *map.keys().last().unwrap();
    assert_eq!(last_key, k);
    *map.values_mut().last().unwrap() += 1;
    assert_eq!(map.get(&k), Some(&1001));
    for i in 0..10 {
        if i != k {
            assert_eq!(map.get(&i), Some(&i));
        }
    }
    let mut empty: HashMap<u16, u16> = HashMap::new();
    assert!(empty.iter_mut().last().is_none());
}

#[test]
fn into_iter_clone_copies_the_rest() {
    let mut map: HashMap<u32, String> = HashMap::new();
    for i in 0..6 {
        map.insert(i, format!("v{i}"));
    }
    let mut it = map.into_iter();
    let first = it.next().unwrap();
    let mut copy = it.clone();
    assert_eq!(copy.len(), 5);
    let mut a = Vec::new();
    while let Some(p) = it.next() {
        a.push(p);
    }
    let mut b = Vec::new();
    while let Some(p) = copy.next() {
        b.push(p);
    }
    assert_eq!(a, b);
    assert!(!a.contains(&first));
}

#[test]
fn with_capacity_holds_cap_elements_without_growing() {
    for cap in [1usize, 28, 29, 32, 56, 57, 100, 1000] {
        let mut map: HashMap<usize, usize> = HashMap::with_capacity(cap);
        let slots = map.capacity();
        assert!(slots >= 32 && slots.is_power_of_two());
        for i in 0..cap {
            map.insert(i, i);
        }
        assert_eq!(map.capacity(), slots, "cap {cap}");
    }
}

#[test]
fn load_stays_below_nine_tenths_plus_one() {
    let mut map: HashMap<u32, u32> = HashMap::new();
    for i in 0..500 {
        map.insert(i, i);
        let c = map.capacity();
        assert!(map.len() <= c - c / 8 + 1);
        if i % 3 == 0 {
            let cap = map.capacity();
            map.remove(&(i / 2));
            assert_eq!(map.capacity(), cap);
        }
    }
    let cap = map.capacity();
    if let Some(v) = map.get_mut(&499) {
        *v = 0;
    }
    assert_eq!(map.capacity(), cap);
}

#[test]
fn map_with_a_given_hasher() {
    let rs = dstd::random_state::RandomState::new(&[[1, 2, 3, 4], [5, 6, 7, 8]], 9);
    let mut map: HashMap<u64, u64> = HashMap::with_hasher(rs);
    assert_eq!(map.capacity(), 0);
    for i in 0..100 {
        map.insert(i, 2 * i);
    }
    for i in 0..100 {
        assert_eq!(map.get(&i), Some(&(2 * i)));
    }
}
