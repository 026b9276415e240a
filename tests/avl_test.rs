use rust_data_structure::bin_tree::search::AVLTree;

#[test]
fn test_avl() {
    let mut avl = AVLTree::<i32>::new();
    let arr = [1234, 3, 13, 23, 6, 30, 54, 531, 213, 40, 10];

    for n in arr.iter() {
        avl.insert(*n);
    }

    for n in &arr {
        assert_eq!(avl.search(n), Some(n));
    }

    assert_eq!(avl.search(&777), None);
    avl.remove(&23);
    avl.remove(&2);
    assert_eq!(10, avl.size());
    assert_eq!(avl.search(&23), None);
    assert_eq!(avl.search(&6), Some(&6));
}
