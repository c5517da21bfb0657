use movable_tree::log_spaced_snapshots::LogSpacedSnapshots;

#[test]
fn snapshot() {
    let mut cache: LogSpacedSnapshots<usize, usize> = LogSpacedSnapshots::new(3);
    for i in 0..10000 {
        cache.push(i, i);
    }
    let (v, s) = cache.pop_till_snapshot_lte(&9999).unwrap();
    assert_eq!(v, 9999);
    assert_eq!(*s, 9999);
    let (v, s) = cache.pop_till_snapshot_lte(&9998).unwrap();
    assert_eq!(v, 9998);
    assert_eq!(*s, 9998);
    let (v, s) = cache.pop_till_snapshot_lte(&6000).unwrap();
    assert_eq!(v, 5119);
    assert_eq!(*s, 5119);
    assert!(cache.pop_till_snapshot_lte(&2000).is_none());
}

#[test]
fn pop_on_empty_cache() {
    let mut cache: LogSpacedSnapshots<usize, usize> = LogSpacedSnapshots::new(2);
    assert!(cache.pop_till_snapshot_lte(&5).is_none());
    assert_eq!(cache.cache_size(), 0);
    assert!(cache.pop_till_snapshot_lte(&5).is_none());
}

#[test]
fn retention_thins_old_entries() {
    let mut cache: LogSpacedSnapshots<usize, usize> = LogSpacedSnapshots::new(1);
    cache.push(10, 1);
    cache.push(20, 2);
    cache.push(30, 3);
    cache.push(40, 4);
    // pushing position 2 evicts position 0
    assert_eq!(cache.cache_size(), 3);
    let (v, s) = cache.pop_till_snapshot_lte(&25).unwrap();
    assert_eq!(v, 20);
    assert_eq!(*s, 2);
}

#[test]
fn retention_is_logarithmic() {
    let mut cache: LogSpacedSnapshots<usize, usize> = LogSpacedSnapshots::new(3);
    for i in 0..1_000_000 {
        cache.push(i, i);
    }
    // with d = 3 only 75 snapshots of a million survive
    assert_eq!(cache.cache_size(), 75);
}
