use rust_data_structure::bin_tree::search::BST;

#[test]
fn test_bst() {
    let mut bst = BST::<i32>::new();
    let arr = [1234, 3, 13, 23, 6, 30, 54, 531, 213, 40, 10];

    for n in arr.iter() {
        bst.insert(*n);
    }

    for n in &arr {
        assert_eq!(bst.search(n), Some(n));
    }

    assert_eq!(bst.search(&777), None);
    bst.remove(&23);
    bst.remove(&2);
    assert_eq!(10, bst.size());
    assert_eq!(bst.search(&23), None);
    assert_eq!(bst.search(&6), Some(&6));
}
