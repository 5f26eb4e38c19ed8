use pinned_slab::{Slab, CHUNK_SIZE};

#[test]
fn insert_get_remove_one() {
    let mut slab = Slab::new();
    assert!(slab.is_empty());

    let (key, _) = slab.insert(10);

    assert_eq!(*slab.index(key), 10);
    assert_eq!(slab.get(key), Some(&10));
    assert!(!slab.is_empty());
    assert!(slab.contains(key));

    assert_eq!(slab.remove(key), 10);
    assert!(!slab.contains(key));
    assert!(slab.get(key).is_none());
}

#[test]
fn insert_get_many() {
    let mut slab = Slab::new();

    for i in 0..CHUNK_SIZE {
        let (key, _) = slab.insert(i + 10);
        assert_eq!(*slab.index(key), i + 10);
    }

    assert_eq!(slab.capacity(), CHUNK_SIZE);

    // Storing another one grows the slab
    let (key, _) = slab.insert(20);
    assert_eq!(*slab.index(key), 20);

    // Capacity grows by 2x
    assert_eq!(slab.capacity(), 2 * CHUNK_SIZE);
}

#[test]
fn insert_get_remove_many() {
    let mut slab = Slab::new();
    let mut keys = vec![];

    for i in 0..10 {
        for j in 0..CHUNK_SIZE {
            let val = (i * 10) + j;

            let (key, _) = slab.insert(val);
            keys.push((key, val));
            assert_eq!(*slab.index(key), val);
        }

        for (key, val) in keys.drain(..) {
            assert_eq!(val, slab.remove(key));
        }
    }

    assert_eq!(CHUNK_SIZE, slab.capacity());
}

#[test]
fn slab_get_mut() {
    let mut slab = Slab::new();
    let (key, _) = slab.insert(1);

    *slab.get_mut(key).unwrap() = 2;
    assert_eq!(*slab.index(key), 2);
}

#[test]
fn retain() {
    let mut slab = Slab::new();

    let (key1, _) = slab.insert(0);
    let (key2, _) = slab.insert(1);

    slab.retain(|key, x: &usize| {
        assert_eq!(key, *x);
        *x % 2 == 0
    });

    assert_eq!(slab.len(), 1);
    assert_eq!(*slab.index(key1), 0);
    assert!(!slab.contains(key2));

    // Ensure consistency is retained
    let (key, _) = slab.insert(123);
    assert_eq!(key, key2);
    assert_eq!(2, slab.len());
}

fn values(slab: &Slab<usize>) -> Vec<usize> {
    let mut out = vec![];
    let mut it = slab.iter();
    while let Some((_, v)) = it.next() {
        out.push(*v);
    }
    out
}

#[test]
fn iter() {
    let mut slab = Slab::new();

    for i in 0..4 {
        slab.insert(i);
    }

    let mut vals = vec![];
    let mut it = slab.iter();
    let mut i = 0;
    while let Some((key, val)) = it.next() {
        assert_eq!(i, key);
        vals.push(*val);
        i += 1;
    }
    assert_eq!(vals, vec![0, 1, 2, 3]);

    slab.remove(1);

    let vals = values(&slab);
    assert_eq!(vals, vec![0, 2, 3]);
}

#[test]
fn iter_mut() {
    let mut slab = Slab::new();

    for i in 0..4 {
        slab.insert(i);
    }

    let mut it = slab.iter_mut();
    let mut i = 0;
    while let Some((key, e)) = it.next() {
        assert_eq!(i, key);
        *e = *e + 1;
        i += 1;
    }

    let vals = values(&slab);
    assert_eq!(vals, vec![1, 2, 3, 4]);

    slab.remove(2);

    let mut it = slab.iter_mut();
    while let Some((_, e)) = it.next() {
        *e = *e + 1;
    }

    let vals = values(&slab);
    assert_eq!(vals, vec![2, 3, 5]);
}
