use rust_data_structure::bin_tree::node::Node;
use rust_data_structure::bin_tree::{InsertErr, RawBinTree, Side};

#[test]
fn raw_bin_tree_test_test_base() -> Result<(), InsertErr> {
    let mut t = RawBinTree::<char>::new();
    let arr = ['a', 'b', 'c'];

    assert!(t.empty());
    t.insert_as_root('a');
    let root = t.root().unwrap();
    t.insert_as_lc(&root, 'b')?;
    t.insert_as_rc(&root, 'c')?;

    assert_eq!(t.iter().count(), 3);
    assert_eq!(t.size(), 3);

    let mut it = t.iter();
    for b in arr.iter() {
        assert_eq!(it.next(), Some(b));
    }

    Ok(())
}

#[test]
fn test_attach() -> Result<(), InsertErr> {
    let mut t = RawBinTree::<char>::new();
    let arr = ['a', 'c', 'b'];
    t.insert_as_root('a');
    let root = t.root().unwrap();
    let l = t.insert_as_lc(&root, 'b').unwrap();
    let r = t.insert_as_rc(&root, 'c').unwrap();
    let l = t.secede(&l);
    let r = t.secede(&r);
    t.attach_as_lc(&root, r)?;
    t.attach_as_rc(&root, l)?;

    assert_eq!(t.iter().count(), 3);
    assert_eq!(t.size(), 3);

    let mut it = t.iter();
    for b in arr.iter() {
        assert_eq!(it.next(), Some(b));
    }

    Ok(())
}

#[test]
fn occupied_slot_is_refused_and_tree_kept() {
    let mut t = RawBinTree::<char>::new();
    t.insert_as_root('a');
    let root = t.root().unwrap();
    t.insert_as_lc(&root, 'b').unwrap();
    assert_eq!(t.insert_as_lc(&root, 'x').err(), Some(InsertErr { occupied: Side::Left }));
    let mut other = RawBinTree::<char>::new();
    other.insert_as_root('z');
    assert_eq!(t.attach_as_lc(&root, other).err(), Some(InsertErr { occupied: Side::Left }));
    assert_eq!(t.size(), 2);
    assert_eq!(t.to_vec(), vec![&'a', &'b']);
}

#[test]
fn remove_reclaims_subtree_and_returns_parent() {
    let mut t = RawBinTree::<u32>::new();
    t.insert_as_root(1);
    let root = t.root().unwrap();
    let l = t.insert_as_lc(&root, 2).unwrap();
    t.insert_as_lc(&l, 3).unwrap();
    t.insert_as_rc(&l, 4).unwrap();
    t.insert_as_rc(&root, 5).unwrap();
    assert_eq!(t.size(), 5);
    let parent = t.remove(&l).unwrap();
    assert!(parent.is_root());
    assert_eq!(t.size(), 2);
    assert_eq!(t.to_vec(), vec![&1, &5]);
    assert!(t.remove(&root).is_none());
    assert!(t.empty());
}

#[test]
fn secede_keeps_subtree_whole() {
    let mut t = RawBinTree::<u32>::new();
    t.insert_as_root(1);
    let root = t.root().unwrap();
    let r = t.insert_as_rc(&root, 2).unwrap();
    let rl = t.insert_as_lc(&r, 3).unwrap();
    assert!(rl.is_lc());
    assert!(r.is_rc());
    assert_eq!(*t.get(&rl), 3);
    let sub = t.secede(&r);
    assert_eq!(sub.size(), 2);
    assert_eq!(sub.to_vec(), vec![&2, &3]);
    assert_eq!(t.size(), 1);
    let node = t.node(&root);
    assert!(node.is_leaf());
    assert_eq!(r.parent().unwrap().steps.len(), 0);
    assert_eq!(rl.steps, vec![Side::Right, Side::Left]);
}
