use pinned_slab::{Slab, CHUNK_SIZE};

fn keys_and_values(slab: &Slab<u64>) -> Vec<(usize, u64)> {
    let mut out = vec![];
    let mut it = slab.iter();
    while let Some((k, v)) = it.next() {
        out.push((k, *v));
    }
    out
}

#[test]
fn free_list_reuse_scenario() {
    let mut slab = Slab::new();
    assert_eq!(slab.insert(10u64).0, 0);
    assert_eq!(slab.insert(20).0, 1);
    assert_eq!(slab.remove(0), 10);
    assert_eq!(slab.insert(30).0, 0);
    assert_eq!(slab.len(), 2);
    assert_eq!(slab.get(1), Some(&20));
    assert_eq!(slab.get(0), Some(&30));
}

#[test]
fn insert_then_get_returns_value() {
    let mut slab = Slab::new();
    for v in [7u64, 0, u64::MAX, 42] {
        let (key, stored) = slab.insert(v);
        assert_eq!(*stored, v);
        assert_eq!(slab.get(key), Some(&v));
    }
}

#[test]
fn insert_then_remove_round_trip() {
    let mut slab = Slab::new();
    slab.insert(1u64);
    let (key, _) = slab.insert(99);
    assert_eq!(slab.remove(key), 99);
    assert!(!slab.contains(key));
    assert_eq!(slab.get(key), None);
    assert_eq!(slab.len(), 1);
    assert_eq!(slab.get(0), Some(&1));
}

#[test]
fn double_remove_is_refused() {
    let mut slab = Slab::new();
    let (key, _) = slab.insert(123u64);
    assert_eq!(slab.try_remove(key), Some(123));
    assert_eq!(slab.try_remove(key), None);
    assert_eq!(slab.len(), 0);
    // the pool still works: the freed key comes back next
    assert_eq!(slab.insert(5).0, key);
    assert_eq!(slab.len(), 1);
}

#[test]
fn never_issued_key_is_refused() {
    let mut slab: Slab<u64> = Slab::new();
    assert_eq!(slab.try_remove(0), None);
    slab.insert(1);
    assert_eq!(slab.try_remove(1), None);
    assert_eq!(slab.try_remove(CHUNK_SIZE * 5 + 3), None);
    assert_eq!(slab.try_remove(usize::MAX), None);
    assert_eq!(slab.len(), 1);
    assert_eq!(slab.get(0), Some(&1));
}

#[test]
fn get_out_of_range_is_none() {
    let mut slab = Slab::new();
    assert_eq!(slab.get(0), None);
    assert_eq!(slab.get(usize::MAX), None);
    slab.insert(3u64);
    assert_eq!(slab.get(1), None);
    assert_eq!(slab.get(CHUNK_SIZE), None);
    assert!(slab.get_mut(1).is_none());
    assert!(!slab.contains(usize::MAX));
}

#[test]
fn capacity_grows_by_whole_chunks() {
    let mut slab = Slab::new();
    assert_eq!(slab.capacity(), 0);
    slab.insert(0u64);
    assert_eq!(slab.capacity(), CHUNK_SIZE);
    for i in 1..CHUNK_SIZE {
        slab.insert(i as u64);
    }
    assert_eq!(slab.capacity(), CHUNK_SIZE);
    // a free slot is reused before the pool grows
    slab.remove(7);
    assert_eq!(slab.insert(1000).0, 7);
    assert_eq!(slab.capacity(), CHUNK_SIZE);
    let (key, _) = slab.insert(1001);
    assert_eq!(key, CHUNK_SIZE);
    assert_eq!(slab.capacity(), 2 * CHUNK_SIZE);
}

#[test]
fn most_recently_freed_key_first() {
    let mut slab = Slab::new();
    for i in 0..6u64 {
        slab.insert(i);
    }
    slab.remove(1);
    slab.remove(4);
    slab.remove(2);
    assert_eq!(slab.insert(10).0, 2);
    assert_eq!(slab.insert(11).0, 4);
    assert_eq!(slab.insert(12).0, 1);
    assert_eq!(slab.insert(13).0, 6);
}

#[test]
fn free_unused_drops_empty_chunks() {
    let mut slab = Slab::new();
    for i in 0..(3 * CHUNK_SIZE) {
        slab.insert(i as u64);
    }
    assert_eq!(slab.capacity(), 3 * CHUNK_SIZE);
    for k in 0..CHUNK_SIZE {
        slab.remove(k);
    }
    slab.remove(2 * CHUNK_SIZE + 5);
    slab.free_unused();
    assert_eq!(slab.capacity(), 2 * CHUNK_SIZE);
    assert_eq!(slab.len(), 2 * CHUNK_SIZE - 1);
    // the second chunk's values now sit under the first chunk's keys
    assert_eq!(slab.get(0), Some(&(CHUNK_SIZE as u64)));
    assert_eq!(slab.get(CHUNK_SIZE - 1), Some(&(2 * CHUNK_SIZE as u64 - 1)));
    assert_eq!(slab.get(CHUNK_SIZE + 4), Some(&(2 * CHUNK_SIZE as u64 + 4)));
    assert_eq!(slab.get(CHUNK_SIZE + 5), None);
    // the free list was rebuilt over what is left
    assert_eq!(slab.insert(77).0, CHUNK_SIZE + 5);
    assert_eq!(slab.insert(78).0, 2 * CHUNK_SIZE);
    assert_eq!(slab.capacity(), 3 * CHUNK_SIZE);
}

#[test]
fn free_unused_keeps_full_pool() {
    let mut slab = Slab::new();
    for i in 0..5u64 {
        slab.insert(i);
    }
    slab.remove(3);
    slab.free_unused();
    assert_eq!(slab.capacity(), CHUNK_SIZE);
    assert_eq!(slab.len(), 4);
    assert_eq!(keys_and_values(&slab), vec![(0, 0), (1, 1), (2, 2), (4, 4)]);
    assert_eq!(slab.insert(9).0, 3);
}

#[test]
fn free_unused_empties_pool() {
    let mut slab = Slab::new();
    let (key, _) = slab.insert(1u64);
    slab.remove(key);
    slab.free_unused();
    assert_eq!(slab.capacity(), 0);
    assert!(slab.is_empty());
    assert_eq!(slab.insert(2).0, 0);
    assert_eq!(slab.capacity(), CHUNK_SIZE);
}

#[test]
fn retain_keeps_exactly_matching_entries() {
    let mut slab = Slab::new();
    for i in 0..(CHUNK_SIZE + 10) {
        slab.insert(i as u64);
    }
    slab.remove(4);
    slab.retain(|key, v: &u64| key % 3 == 0 && *v != 9);
    let expected: Vec<(usize, u64)> = (0..(CHUNK_SIZE + 10))
        .filter(|k| k % 3 == 0 && *k != 9)
        .map(|k| (k, k as u64))
        .collect();
    assert_eq!(keys_and_values(&slab), expected);
    assert_eq!(slab.len(), expected.len());
    assert_eq!(slab.capacity(), 2 * CHUNK_SIZE);
}

#[test]
fn iteration_is_ascending_and_restartable() {
    let mut slab = Slab::new();
    for i in 0..4u64 {
        slab.insert(i);
    }
    slab.remove(1);
    let first = keys_and_values(&slab);
    assert_eq!(first, vec![(0, 0), (2, 2), (3, 3)]);
    assert_eq!(keys_and_values(&slab), first);
}

#[test]
fn iterators_on_empty_pool() {
    let mut slab: Slab<u64> = Slab::new();
    assert!(slab.iter().next().is_none());
    assert!(slab.iter_mut().next().is_none());
    assert_eq!(slab.iter().size_hint(), (0, Some(0)));
}

#[test]
fn size_hint_counts_slots_left() {
    let mut slab = Slab::new();
    for i in 0..3u64 {
        slab.insert(i);
    }
    let mut it = slab.iter();
    assert_eq!(it.size_hint(), (0, Some(3)));
    it.next();
    assert_eq!(it.size_hint(), (0, Some(2)));
    let mut it = slab.iter_mut();
    it.next();
    it.next();
    assert_eq!(it.size_hint(), (0, Some(1)));
}

#[test]
fn default_is_empty() {
    let slab: Slab<u64> = Slab::default();
    assert!(slab.is_empty());
    assert_eq!(slab.len(), 0);
    assert_eq!(slab.capacity(), 0);
}

#[test]
fn index_reads_stored_value() {
    let mut slab = Slab::new();
    let (a, _) = slab.insert("hello");
    let (b, _) = slab.insert("world");
    assert_eq!(*slab.index(a), "hello");
    assert_eq!(*slab.index(b), "world");
}

#[test]
fn get_mut_changes_only_its_value() {
    let mut slab = Slab::new();
    let (a, _) = slab.insert(1u64);
    let (b, _) = slab.insert(2u64);
    *slab.get_mut(b).unwrap() = 20;
    assert_eq!(slab.get(a), Some(&1));
    assert_eq!(slab.get(b), Some(&20));
    assert_eq!(slab.len(), 2);
}

#[test]
fn values_keep_their_address() {
    let mut slab = Slab::new();
    let (key, r) = slab.insert(5u64);
    let addr = format!("{:p}", r);
    for i in 0..(2 * CHUNK_SIZE) {
        slab.insert(i as u64);
    }
    for k in 1..CHUNK_SIZE {
        slab.remove(k);
    }
    assert_eq!(format!("{:p}", slab.index(key)), addr);
}

#[test]
fn retain_frees_dropped_keys_highest_first() {
    let mut slab = Slab::new();
    for i in 0..6u64 {
        slab.insert(i);
    }
    slab.remove(5);
    slab.retain(|key, _v: &u64| key != 1 && key != 3);
    assert_eq!(slab.len(), 3);
    assert_eq!(slab.insert(10).0, 3);
    assert_eq!(slab.insert(11).0, 1);
    assert_eq!(slab.insert(12).0, 5);
    assert_eq!(slab.insert(13).0, 6);
}

#[test]
fn retain_keeping_all_changes_nothing() {
    let mut slab = Slab::new();
    for i in 0..4u64 {
        slab.insert(i);
    }
    slab.remove(2);
    slab.retain(|_, _v: &u64| true);
    assert_eq!(slab.len(), 3);
    assert_eq!(keys_and_values(&slab), vec![(0, 0), (1, 1), (3, 3)]);
    assert_eq!(slab.insert(9).0, 2);
}

#[test]
fn clone_keeps_addresses_stable() {
    let mut slab = Slab::new();
    for i in 0..10u64 {
        slab.insert(i);
    }
    let mut copy = slab.clone();
    let addr = format!("{:p}", copy.index(3));
    for i in 0..(CHUNK_SIZE as u64) {
        copy.insert(i);
    }
    assert_eq!(format!("{:p}", copy.index(3)), addr);
    assert_eq!(*copy.index(3), 3);
    assert_eq!(slab.len(), 10);
    assert_eq!(copy.len(), 10 + CHUNK_SIZE);
}

#[test]
fn empty_exactly_when_no_key_used() {
    let mut slab = Slab::new();
    let (a, _) = slab.insert(1u64);
    let (b, _) = slab.insert(2u64);
    assert!(!slab.is_empty());
    slab.remove(a);
    assert!(!slab.is_empty());
    slab.remove(b);
    assert!(slab.is_empty());
    assert!(!slab.contains(a) && !slab.contains(b));
    assert_eq!(slab.capacity(), CHUNK_SIZE);
}

#[test]
fn free_unused_without_empty_chunk_keeps_free_order() {
    let mut slab = Slab::new();
    for i in 0..8u64 {
        slab.insert(i);
    }
    slab.remove(2);
    slab.remove(5);
    slab.free_unused();
    assert_eq!(slab.len(), 6);
    assert_eq!(slab.capacity(), CHUNK_SIZE);
    assert_eq!(slab.insert(20).0, 5);
    assert_eq!(slab.insert(21).0, 2);
    assert_eq!(slab.insert(22).0, 8);
}
