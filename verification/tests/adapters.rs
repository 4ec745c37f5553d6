use parmap::map::HashMap;

#[test]
fn parallel_extend_by_nothing() {
    let to_extend_with = Vec::new();

    let mut map = HashMap::new();
    let guard = map.guard();
    map.insert(1, 2, &guard);
    map.insert(3, 4, &guard);

    map.par_extend(to_extend_with);

    assert_eq!(map.len(), 2);

    assert_eq!(map.get(&1, &guard), Some(&2));
    assert_eq!(map.get(&3, &guard), Some(&4));
}

#[test]
fn parallel_extend_by_a_bunch() {
    let mut to_extend_with = Vec::new();
    for i in 0..100 {
        to_extend_with.push((i + 100, i * 10));
    }

    let mut map = HashMap::new();
    let guard = map.guard();
    map.insert(1, 2, &guard);
    map.insert(3, 4, &guard);

    map.par_extend(to_extend_with);
    assert_eq!(map.len(), 102);

    assert_eq!(map.get(&1, &guard), Some(&2));
    assert_eq!(map.get(&3, &guard), Some(&4));
    assert_eq!(map.get(&100, &guard), Some(&0));
    assert_eq!(map.get(&199, &guard), Some(&990));
}

#[test]
fn from_empty_parallel_iter() {
    let to_create_from: Vec<(i32, i32)> = Vec::new();
    let created_map: HashMap<i32, i32> = HashMap::from_par_iter(to_create_from);
    assert_eq!(created_map.len(), 0);
}

#[test]
fn from_large_parallel_iter() {
    let mut to_create_from: Vec<(i32, i32)> = Vec::new();
    for i in 0..100 {
        to_create_from.push((i + 100, i * 10));
    }
    let created_map: HashMap<i32, i32> = HashMap::from_par_iter(to_create_from);
    assert_eq!(created_map.len(), 100);

    let guard = created_map.guard();
    assert_eq!(created_map.get(&100, &guard), Some(&0));
    assert_eq!(created_map.get(&199, &guard), Some(&990));
}

#[test]
fn new_map_is_empty() {
    let map: HashMap<u64, u64> = HashMap::new();
    let guard = map.guard();
    assert_eq!(map.len(), 0);
    assert_eq!(map.get(&0, &guard), None);
}

#[test]
fn insert_reports_the_previous_value() {
    let mut map = HashMap::new();
    let guard = map.guard();
    assert_eq!(map.insert(7u8, 70u32, &guard), None);
    assert_eq!(map.insert(7u8, 71u32, &guard), Some(70));
    assert_eq!(map.insert(8u8, 80u32, &guard), None);
    assert_eq!(map.len(), 2);
    assert_eq!(map.get(&7, &guard), Some(&71));
    assert_eq!(map.get(&8, &guard), Some(&80));
    assert_eq!(map.get(&9, &guard), None);
}

#[test]
fn extend_with_distinct_new_keys_grows_by_their_number() {
    let mut map = HashMap::new();
    let guard = map.guard();
    map.insert(1u64, 10u64, &guard);
    map.insert(2u64, 20u64, &guard);
    map.insert(3u64, 30u64, &guard);

    let pairs: Vec<(u64, u64)> = vec![(10, 100), (11, 110), (12, 120), (13, 130)];
    map.par_extend(pairs.clone());

    assert_eq!(map.len(), 3 + 4);
    for (k, v) in pairs {
        assert_eq!(map.get(&k, &guard), Some(&v));
    }
    assert_eq!(map.get(&1, &guard), Some(&10));
    assert_eq!(map.get(&2, &guard), Some(&20));
    assert_eq!(map.get(&3, &guard), Some(&30));
}

#[test]
fn extend_overwrites_an_existing_key() {
    let mut map = HashMap::new();
    let guard = map.guard();
    map.insert(1i64, -1i64, &guard);
    map.insert(2i64, -2i64, &guard);

    map.par_extend(vec![(2, 22)]);

    assert_eq!(map.len(), 2);
    assert_eq!(map.get(&2, &guard), Some(&22));
    assert_eq!(map.get(&1, &guard), Some(&-1));
}

#[test]
fn later_pair_wins_within_one_batch() {
    let mut map = HashMap::new();
    let guard = map.guard();
    map.par_extend(vec![(5u32, 1u32), (6, 2), (5, 3), (6, 4), (5, 5)]);
    assert_eq!(map.len(), 2);
    assert_eq!(map.get(&5, &guard), Some(&5));
    assert_eq!(map.get(&6, &guard), Some(&4));
}

#[test]
fn build_collapses_equal_keys() {
    let map = HashMap::from_par_iter(vec![(1u16, 'a'), (2, 'b'), (1, 'c')]);
    let guard = map.guard();
    assert_eq!(map.len(), 2);
    assert_eq!(map.get(&1, &guard), Some(&'c'));
    assert_eq!(map.get(&2, &guard), Some(&'b'));
}

#[test]
fn build_from_distinct_keys_holds_every_pair() {
    let pairs: Vec<(usize, usize)> = (0..37).map(|i| (i * 3, i + 1)).collect();
    let map = HashMap::from_par_iter(pairs.clone());
    let guard = map.guard();
    assert_eq!(map.len(), 37);
    for (k, v) in pairs {
        assert_eq!(map.get(&k, &guard), Some(&v));
    }
    assert_eq!(map.get(&1, &guard), None);
}

#[test]
fn build_equals_extend_from_empty() {
    let pairs: Vec<(i32, i32)> = (0..50).map(|i| (i % 20, i)).collect();
    let built = HashMap::from_par_iter(pairs.clone());
    let mut extended = HashMap::new();
    extended.par_extend(pairs);
    let guard = built.guard();
    assert_eq!(built.len(), 20);
    assert_eq!(extended.len(), 20);
    for k in 0..20 {
        assert_eq!(built.get(&k, &guard), extended.get(&k, &guard));
    }
    assert_eq!(built.get(&0, &guard), Some(&40));
    assert_eq!(built.get(&9, &guard), Some(&49));
    assert_eq!(built.get(&10, &guard), Some(&30));
    assert_eq!(built.get(&19, &guard), Some(&39));
}

#[test]
fn result_does_not_depend_on_the_split() {
    let pairs: Vec<(i32, i32)> = (0..100).map(|i| (i + 100, i * 10)).collect();
    let whole = HashMap::from_par_iter(pairs.clone());
    let guard = whole.guard();
    for size in [1usize, 2, 3, 7, 33, 64, 100, 1000] {
        let mut map = HashMap::new();
        for batch in pairs.chunks(size).rev() {
            map.par_extend(batch.to_vec());
        }
        assert_eq!(map.len(), 100);
        for (k, v) in &pairs {
            assert_eq!(map.get(k, &guard), Some(v));
            assert_eq!(whole.get(k, &guard), Some(v));
        }
        assert_eq!(map.get(&99, &guard), None);
        assert_eq!(map.get(&200, &guard), None);
    }
}

#[test]
fn disjoint_batches_commute() {
    let a: Vec<(u64, u64)> = vec![(1, 1), (2, 2), (1, 3)];
    let b: Vec<(u64, u64)> = vec![(7, 7), (8, 8), (7, 9)];
    let mut ab = HashMap::new();
    ab.insert(2u64, 0u64, &ab.guard());
    let mut ba = HashMap::new();
    ba.insert(2u64, 0u64, &ba.guard());
    ab.par_extend(a.clone());
    ab.par_extend(b.clone());
    ba.par_extend(b);
    ba.par_extend(a);
    let guard = ab.guard();
    assert_eq!(ab.len(), 4);
    assert_eq!(ba.len(), 4);
    for k in [1u64, 2, 7, 8] {
        assert_eq!(ab.get(&k, &guard), ba.get(&k, &guard));
    }
    assert_eq!(ab.get(&1, &guard), Some(&3));
    assert_eq!(ab.get(&2, &guard), Some(&2));
    assert_eq!(ab.get(&7, &guard), Some(&9));
    assert_eq!(ab.get(&8, &guard), Some(&8));
}
