use movable_tree::mut_tree;
use movable_tree::ops::ID;
use movable_tree::Forest;

fn id(lamport: u32, client: u64) -> ID {
    ID { lamport, client }
}

#[test]
fn cyclic_move_is_rejected() {
    let mut f = Forest::new();
    let a = id(0, 1);
    let b = id(1, 1);
    assert!(f.mov(a, None).is_ok());
    assert!(f.mov(b, Some(a)).is_ok());
    assert!(f.mov(a, Some(b)).is_err());
    // the failed move left the forest unchanged
    assert_eq!(f.get(&a).unwrap().parent, None);
    assert_eq!(f.get(&b).unwrap().parent, Some(a));
}

#[test]
fn self_move_is_rejected() {
    let mut f = Forest::new();
    let a = id(0, 1);
    assert!(f.mov(a, None).is_ok());
    assert!(f.mov(a, Some(a)).is_err());
}

#[test]
fn delete_keeps_node_addressable() {
    let mut f = Forest::new();
    let a = id(0, 1);
    let b = id(1, 1);
    assert!(f.mov(a, None).is_ok());
    assert!(f.mov(b, Some(a)).is_ok());
    f.delete(b);
    assert!(f.get(&b).unwrap().deleted);
    // moving a deleted node to a root keeps the flag
    assert!(f.mov(b, None).is_ok());
    assert!(f.get(&b).unwrap().deleted);
}

#[test]
fn undo_delete_restores_flag() {
    let mut f = mut_tree::Forest::new();
    let a = id(0, 1);
    assert!(f.mov(a, None).is_ok());
    f.delete(a);
    assert!(f.get(&a).unwrap().deleted);
    f.undo_delete(a);
    assert!(!f.get(&a).unwrap().deleted);
}

#[test]
fn forests_compare_by_contents() {
    let mut f = Forest::new();
    let mut g = Forest::new();
    let a = id(0, 1);
    let b = id(1, 1);
    assert!(f.mov(a, None).is_ok());
    assert!(g.mov(a, None).is_ok());
    assert!(f == g);
    assert!(f.mov(b, Some(a)).is_ok());
    assert!(f != g);
    assert!(g.mov(b, Some(a)).is_ok());
    assert!(f == g);
    let h = f.duplicate();
    assert!(h == f);
}

#[test]
fn mutable_forests_compare_by_contents() {
    let mut f = mut_tree::Forest::new();
    let mut g = mut_tree::Forest::new();
    let a = id(0, 1);
    assert!(f.mov(a, None).is_ok());
    assert!(f != g);
    assert!(g.mov(a, None).is_ok());
    assert!(f == g);
    f.delete(a);
    assert!(f != g);
}
