use rust_data_structure::bin_tree::search::{AVLTree, BST};
use rust_data_structure::bin_tree::{InsertErr, Node, RawBinTree, Side};

const KEYS: [i32; 11] = [1234, 3, 13, 23, 6, 30, 54, 531, 213, 40, 10];

fn strictly_ascending(v: &[&i32]) -> bool {
    v.windows(2).all(|w| w[0] < w[1])
}

#[test]
fn scenario_a_avl_build() {
    let mut avl = AVLTree::<i32>::new();
    for n in KEYS.iter() {
        assert!(avl.insert(*n));
    }
    assert_eq!(avl.size(), 11);
    assert_eq!(avl.search(&777), None);
    assert_eq!(avl.search(&6), Some(&6));
}

#[test]
fn scenario_b_remove_present_and_absent() {
    let mut avl = AVLTree::<i32>::new();
    for n in KEYS.iter() {
        avl.insert(*n);
    }
    assert_eq!(avl.remove(&23), Some(23));
    assert_eq!(avl.remove(&2), None);
    assert_eq!(avl.size(), 10);
    assert_eq!(avl.search(&23), None);
    assert_eq!(avl.search(&6), Some(&6));
}

#[test]
fn scenario_c_same_order_with_and_without_balancing() {
    let mut avl = AVLTree::<i32>::new();
    let mut bst = BST::<i32>::new();
    for n in KEYS.iter() {
        avl.insert(*n);
        bst.insert(*n);
    }
    let expected = vec![&3, &6, &10, &13, &23, &30, &40, &54, &213, &531, &1234];
    assert_eq!(avl.iter(), expected);
    assert_eq!(bst.iter(), expected);
    assert_eq!(bst.height(), 8);
    assert!(avl.height() <= 4);
}

#[test]
fn scenario_d_increasing_keys_height() {
    let n: i32 = 1000;
    let mut avl = AVLTree::<i32>::new();
    let mut bst = BST::<i32>::new();
    for k in 1..=n {
        avl.insert(k);
        bst.insert(k);
    }
    let bound = 1.44 * ((n + 2) as f64).log2();
    assert!((avl.height() as f64) <= bound);
    assert_eq!(avl.height(), 10);
    assert_eq!(bst.height(), n as usize);
    assert_eq!(avl.size(), 1000);
}

#[test]
fn inorder_ascending_and_size_after_mixed_operations() {
    let mut avl = AVLTree::<i32>::new();
    let mut bst = BST::<i32>::new();
    let mut x: i32 = 17;
    for step in 0..600 {
        x = (x * 37 + 11) % 211;
        if step % 3 == 2 {
            avl.remove(&x);
            bst.remove(&x);
        } else {
            avl.insert(x);
            bst.insert(x);
        }
        let a = avl.iter();
        let b = bst.iter();
        assert!(strictly_ascending(&a));
        assert_eq!(a, b);
        assert_eq!(a.len(), avl.size());
        assert_eq!(b.len(), bst.size());
        let size = avl.size() as f64;
        assert!((avl.height() as f64) <= 1.44 * (size + 2.0).log2());
    }
}

#[test]
fn insert_then_search_then_remove() {
    let mut avl = AVLTree::<i32>::new();
    assert!(avl.empty());
    assert_eq!(avl.search(&42), None);
    assert!(avl.insert(42));
    assert_eq!(avl.search(&42), Some(&42));
    assert_eq!(avl.remove(&42), Some(42));
    assert_eq!(avl.search(&42), None);
    assert!(avl.empty());
    assert_eq!(avl.height(), 0);
}

#[test]
fn duplicate_insert_changes_nothing() {
    let mut avl = AVLTree::<i32>::new();
    for n in KEYS.iter() {
        avl.insert(*n);
    }
    let size = avl.size();
    let height = avl.height();
    let order: Vec<i32> = avl.iter().into_iter().copied().collect();
    assert!(!avl.insert(30));
    assert_eq!(avl.size(), size);
    assert_eq!(avl.height(), height);
    let again: Vec<i32> = avl.iter().into_iter().copied().collect();
    assert_eq!(order, again);

    let mut bst = BST::<i32>::new();
    assert!(bst.insert(5));
    assert!(!bst.insert(5));
    assert_eq!(bst.size(), 1);
}

#[test]
fn removing_nodes_with_two_children() {
    let mut bst = BST::<i32>::new();
    for n in [50, 30, 70, 20, 40, 60, 80, 65].iter() {
        bst.insert(*n);
    }
    assert_eq!(bst.remove(&50), Some(50));
    assert_eq!(bst.remove(&70), Some(70));
    assert_eq!(bst.iter(), vec![&20, &30, &40, &60, &65, &80]);
    assert_eq!(bst.size(), 6);

    let mut avl = AVLTree::<i32>::new();
    for n in 1..=31 {
        avl.insert(n);
    }
    assert_eq!(avl.height(), 5);
    for n in 1..=16 {
        assert_eq!(avl.remove(&n), Some(n));
    }
    assert_eq!(avl.size(), 15);
    assert!(avl.height() <= 5);
    assert_eq!(avl.iter().len(), 15);
}

#[test]
fn rotations_of_all_four_shapes() {
    for keys in [[3, 2, 1], [1, 2, 3], [3, 1, 2], [1, 3, 2]].iter() {
        let mut avl = AVLTree::<i32>::new();
        for k in keys.iter() {
            avl.insert(*k);
        }
        assert_eq!(avl.height(), 2);
        assert_eq!(avl.iter(), vec![&1, &2, &3]);
    }
}

#[test]
fn succ_walks_in_order() {
    let mut t = RawBinTree::<u32>::new();
    t.insert_as_root(4);
    let root = t.root().unwrap();
    let two = t.insert_as_lc(&root, 2).unwrap();
    let six = t.insert_as_rc(&root, 6).unwrap();
    let one = t.insert_as_lc(&two, 1).unwrap();
    let three = t.insert_as_rc(&two, 3).unwrap();
    let five = t.insert_as_lc(&six, 5).unwrap();
    t.insert_as_rc(&six, 7).unwrap();

    let mut seen = vec![*t.get(&one)];
    let mut cur = t.succ(&one);
    while let Some(p) = cur {
        seen.push(*t.get(&p));
        cur = t.succ(&p);
    }
    assert_eq!(seen, vec![1, 2, 3, 4, 5, 6, 7]);
    assert_eq!(t.succ(&three).unwrap().steps.len(), 0);
    assert_eq!(t.succ(&root).unwrap().steps, five.steps);
}

#[test]
fn attach_right_slot_occupied() {
    let mut t = RawBinTree::<u32>::new();
    t.insert_as_root(1);
    let root = t.root().unwrap();
    t.insert_as_rc(&root, 2).unwrap();
    assert_eq!(t.insert_as_rc(&root, 3).err(), Some(InsertErr { occupied: Side::Right }));
    let mut sub = RawBinTree::<u32>::new();
    sub.insert_as_root(9);
    assert_eq!(t.attach_as_rc(&root, sub).err(), Some(InsertErr { occupied: Side::Right }));
    let empty = RawBinTree::<u32>::new();
    assert_eq!(t.attach_as_lc(&root, empty), Ok(None));
    assert_eq!(t.size(), 2);
}

#[test]
fn next_walks_in_pre_order() {
    let mut t = RawBinTree::<u32>::new();
    t.insert_as_root(1);
    let root = t.root().unwrap();
    let two = t.insert_as_lc(&root, 2).unwrap();
    let five = t.insert_as_rc(&root, 5).unwrap();
    t.insert_as_lc(&two, 3).unwrap();
    t.insert_as_rc(&two, 4).unwrap();
    t.insert_as_rc(&five, 6).unwrap();

    let mut seen = vec![*t.get(&root)];
    let mut cur = t.next(&root);
    while let Some(p) = cur {
        seen.push(*t.get(&p));
        cur = t.next(&p);
    }
    assert_eq!(seen, vec![1, 2, 3, 4, 5, 6]);
    let walked: Vec<u32> = t.to_vec().into_iter().copied().collect();
    assert_eq!(seen, walked);
    assert_eq!(t.iter().count(), 6);
}

#[test]
fn swap_payload_keeps_links() {
    let mut t = RawBinTree::<char>::new();
    t.insert_as_root('a');
    let root = t.root().unwrap();
    let b = t.insert_as_lc(&root, 'b').unwrap();
    let c = t.insert_as_rc(&root, 'c').unwrap();
    let d = t.insert_as_lc(&b, 'd').unwrap();

    t.swap_payload(&root, &c);
    assert_eq!(t.to_vec(), vec![&'c', &'b', &'d', &'a']);
    t.swap_payload(&d, &root);
    assert_eq!(t.to_vec(), vec![&'d', &'b', &'c', &'a']);
    t.swap_payload(&d, &c);
    assert_eq!(t.to_vec(), vec![&'d', &'b', &'a', &'c']);
    t.swap_payload(&b, &b);
    assert_eq!(t.to_vec(), vec![&'d', &'b', &'a', &'c']);
    assert_eq!(t.size(), 4);
    assert!(t.node(&b).has_lc());
    assert!(!t.node(&b).has_rc());
    assert!(t.node(&root).has_double_branch());
}

#[test]
fn bst_remove_splices_nodes() {
    let mut bst = BST::<i32>::new();
    for n in [50, 30, 70, 60, 80, 65].iter() {
        bst.insert(*n);
    }
    assert_eq!(bst.height(), 4);
    assert_eq!(bst.remove(&70), Some(70));
    assert_eq!(bst.height(), 4);
    assert_eq!(bst.remove(&30), Some(30));
    assert_eq!(bst.iter(), vec![&50, &60, &65, &80]);
    assert_eq!(bst.height(), 4);
    assert_eq!(bst.remove(&60), Some(60));
    assert_eq!(bst.height(), 3);
}
