use rust_data_structure::search::binary_search;

#[test]
fn test_binary_search() {
    let arr = [1234, 3, 3, 3, 6, 0, 54, 531, 213, 0, 0];
    let mut l: Vec<i32> = Vec::new();

    for n in arr.iter() {
        let at = l.partition_point(|x| x <= n);
        l.insert(at, *n);
    }

    for n in &arr {
        assert_eq!(binary_search(&l, n, 0, 11), Some(n));
    }

    assert_eq!(binary_search(&l, &777, 0, 11), None);
}

#[test]
fn binary_search_respects_range() {
    let l = vec![1, 3, 5, 7, 9];
    assert_eq!(binary_search(&l, &7, 0, 3), None);
    assert_eq!(binary_search(&l, &7, 3, 5), Some(&7));
    assert_eq!(binary_search(&l, &1, 0, 0), None);
    assert_eq!(binary_search(&l, &4, 0, 5), None);
}

#[test]
fn binary_search_needs_only_the_range_sorted() {
    let l = vec![9, 1, 3, 5, 0];
    assert_eq!(binary_search(&l, &3, 1, 4), Some(&3));
    assert_eq!(binary_search(&l, &5, 1, 4), Some(&5));
    assert_eq!(binary_search(&l, &9, 1, 4), None);
}
