use movable_tree::crdt_snapshot;
use movable_tree::crdt_undo;

#[test]
fn crdt_test() {
    let mut a = crdt_snapshot::Crdt::new(1);
    let mut b = crdt_snapshot::Crdt::new(2);
    let mut ids = Vec::new();
    for _ in 0..10 {
        ids.push(a.new_node(None));
    }

    a.mov(ids[0], Some(ids[2]));
    b.merge(&a);
    b.mov(ids[3], Some(ids[1]));
    a.merge(&b);
    assert!(a.forest() == b.forest());
}

#[test]
fn crdt_undo_test() {
    let mut a = crdt_undo::Crdt::new(1);
    let mut b = crdt_undo::Crdt::new(2);
    let mut ids = Vec::new();
    for _ in 0..10 {
        ids.push(a.new_node(None));
    }
    b.merge(&a);

    a.delete(ids[0]);
    a.mov(ids[0], Some(ids[0]));
    b.mov(ids[1], Some(ids[1]));
    b.merge(&a);
    a.merge(&b);
    assert!(a.forest() == b.forest());
}

#[test]
fn test_cache_size() {
    let mut a = crdt_undo::Crdt::new(1);
    let mut ids = Vec::new();
    for _ in 0..10 {
        ids.push(a.new_node(None));
    }

    for i in 0..1_000 {
        a.mov(ids[i % 10], ids[(i + 1) % 10].into());
    }
}

#[test]
fn concurrent_moves_keep_one_edge() {
    let mut a = crdt_snapshot::Crdt::new(1);
    let mut b = crdt_snapshot::Crdt::new(2);
    let n1 = a.new_node(None);
    let n2 = a.new_node(None);
    b.merge(&a);
    a.mov(n1, Some(n2));
    b.mov(n2, Some(n1));
    a.merge(&b);
    b.merge(&a);
    assert!(a.forest() == b.forest());
    let p1 = a.forest().get(&n1).unwrap().parent;
    let p2 = a.forest().get(&n2).unwrap().parent;
    // exactly one of the two concurrent moves took effect
    assert!((p1 == Some(n2)) != (p2 == Some(n1)));
}

#[test]
fn replay_from_scratch_matches_incremental() {
    let mut a = crdt_undo::Crdt::new(1);
    let mut ids = Vec::new();
    for _ in 0..10 {
        ids.push(a.new_node(None));
    }
    for i in 0..1000 {
        a.mov(ids[i % 10], Some(ids[(i + 3) % 10]));
    }
    let mut fresh = crdt_undo::Crdt::new(2);
    fresh.merge(&a);
    assert!(fresh.forest() == a.forest());
}

#[test]
fn full_log_rebuilds_snapshot_replica() {
    let mut a = crdt_snapshot::Crdt::new(1);
    let mut ids = Vec::new();
    for _ in 0..20 {
        ids.push(a.new_node(None));
    }
    for i in 0..200 {
        a.mov(ids[i % 20], Some(ids[(i + 7) % 20]));
        if i % 3 == 0 {
            a.delete(ids[i % 20]);
        }
    }
    let mut fresh = crdt_snapshot::Crdt::new(2);
    fresh.merge(&a);
    assert!(fresh.forest() == a.forest());
}

#[test]
fn merge_of_known_ops_changes_nothing() {
    let mut a = crdt_snapshot::Crdt::new(1);
    let mut b = crdt_snapshot::Crdt::new(2);
    let n1 = a.new_node(None);
    let _n2 = a.new_node(Some(n1));
    b.merge(&a);
    a.merge(&b);
    b.merge(&a);
    b.merge(&a);
    assert!(a.forest() == b.forest());
}

#[test]
fn cross_variant_equivalence() {
    let mut a = crdt_snapshot::Crdt::new(1);
    let mut u = crdt_undo::Crdt::new(1);
    let ids_a: Vec<_> = (0..5).map(|_| a.new_node(None)).collect();
    let ids_u: Vec<_> = (0..5).map(|_| u.new_node(None)).collect();
    assert_eq!(ids_a, ids_u);
    a.mov(ids_a[0], Some(ids_a[3]));
    u.mov(ids_u[0], Some(ids_u[3]));
    a.delete(ids_a[2]);
    u.delete(ids_u[2]);
    a.mov(ids_a[3], Some(ids_a[0]));
    u.mov(ids_u[3], Some(ids_u[0]));
    for id in &ids_a {
        let na = a.forest().get(id).unwrap();
        let nu = u.forest().get(id).unwrap();
        assert_eq!(na.parent, nu.parent);
        assert_eq!(na.deleted, nu.deleted);
    }
}

#[test]
fn merge_with_older_replica_rewinds() {
    // b's ops all sort below a's later ops, forcing a rewind on merge
    let mut a = crdt_snapshot::Crdt::new(1);
    let mut b = crdt_snapshot::Crdt::new(2);
    let root = a.new_node(None);
    b.merge(&a);
    let x = b.new_node(Some(root));
    for _ in 0..20 {
        let _ = a.new_node(Some(root));
    }
    a.merge(&b);
    b.merge(&a);
    assert!(a.forest() == b.forest());
    assert_eq!(a.forest().get(&x).unwrap().parent, Some(root));
}

#[test]
fn merge_with_older_replica_rewinds_undo() {
    let mut a = crdt_undo::Crdt::new(1);
    let mut b = crdt_undo::Crdt::new(2);
    let root = a.new_node(None);
    b.merge(&a);
    let x = b.new_node(Some(root));
    b.delete(x);
    for _ in 0..20 {
        let _ = a.new_node(Some(root));
    }
    a.merge(&b);
    b.merge(&a);
    assert!(a.forest() == b.forest());
    assert!(a.forest().get(&x).unwrap().deleted);
}
