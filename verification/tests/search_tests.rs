use obliviousdb::search_tree::search::{
    search_2_level_tree_for_lower_bound, search_2_level_tree_for_lower_bound_simd,
    search_3_level_tree_for_lower_bound, search_3_level_tree_for_lower_bound_simd,
    search_for_lower_bound, search_single_node_tree_for_lower_bound, Leaf, SearchTreeIndex,
};

#[test]
fn search_in_base_case_height3() {
    let tree_of_height_3 = [1, 1, 4, 1, 2, 4, 6];

    let test_case = |of: i64, expected_index: i32, expected_leaf: i32, on_fail: &str| {
        assert_eq!(
            search_3_level_tree_for_lower_bound_simd(of, &tree_of_height_3),
            Leaf { index: expected_index, leaf_number: expected_leaf },
            "{}",
            on_fail
        )
    };

    test_case(5, 5, 2, "Search for element in middle of Tree with height 3");

    test_case(6, 6, 3, "Search for largest element of Tree with height 3");

    test_case(1, 3, 0, "Search for smallest element of Tree with height 3");

    test_case(2, 4, 1, "Search for element not in tree in middle of range");

    test_case(2000, 6, 3, "Search for element not in tree which is greater than range");

    assert_eq!(
        search_3_level_tree_for_lower_bound_simd(0, &tree_of_height_3),
        Leaf { index: 0, leaf_number: 1 },
        "Search for element not in tree which is less than range"
    );
}

#[test]
fn search_in_base_case_height2() {
    let tree_of_height_2 = [10, 10, 16];

    let test_case = |of: i64, expected_index: i32, expected_leaf: i32, on_fail: &str| {
        assert_eq!(
            search_2_level_tree_for_lower_bound_simd(of, &tree_of_height_2),
            Leaf { index: expected_index, leaf_number: expected_leaf },
            "{}",
            on_fail
        )
    };

    test_case(16, 2, 1, "Search for largest element of Tree with height 2");

    test_case(10, 1, 0, "Search for smallest element of Tree with height 2");

    test_case(14, 1, 0, "Search for element not in tree within range");

    test_case(200, 2, 1, "Search for element not in tree greater than range");

    assert_eq!(
        search_2_level_tree_for_lower_bound(3, &tree_of_height_2),
        SearchTreeIndex::NotInTree,
        "Search for element not in tree less than range"
    );
}

#[test]
fn search_in_base_case_height1() {
    let tree_of_height_1 = [23];

    let test_case = |of: i64, expected_index: i32, expected_leaf: i32, on_fail: &str| {
        assert_eq!(
            search_single_node_tree_for_lower_bound(of, &tree_of_height_1),
            Leaf { index: expected_index, leaf_number: expected_leaf },
            "{}",
            on_fail
        )
    };

    test_case(23, 0, 0, "search for element");
    test_case(30, 0, 0, "search greater than element");

    assert_eq!(
        search_single_node_tree_for_lower_bound(0, &tree_of_height_1),
        Leaf { index: 0, leaf_number: 1 },
        "search less than element"
    );
}

#[test]
fn test_search_for_elements_in_tree() {
    let tree = [0, 0, 4, 0, 0, 1, 2, 2, 3, 4, 4, 5, 6, 6, 7];

    let test_case = |of: i64, expected_index: i32, expected_leaf: i32, on_fail: &str| {
        assert_eq!(
            search_for_lower_bound(of, 4, &tree),
            Leaf { index: expected_index, leaf_number: expected_leaf },
            "{}",
            on_fail
        )
    };

    test_case(2, 7, 2, "searching for element in middle of tree");
    test_case(0, 4, 0, "searching for the smallest element");
    test_case(7, 14, 7, "searching for the greatest element");
}

#[test]
fn test_search_for_elements_not_in_tree() {
    let tree = [1, 1, 5, 1, 1, 2, 3, 3, 4, 5, 5, 57, 77, 77, 78];

    let test_case = |of: i64, expected_index: i32, expected_leaf: i32, on_fail: &str| {
        assert_eq!(
            search_for_lower_bound(of, 4, &tree),
            Leaf { index: expected_index, leaf_number: expected_leaf },
            "{}",
            on_fail
        )
    };

    assert_eq!(
        search_for_lower_bound(0, 4, &tree),
        Leaf { index: 0, leaf_number: 1 },
        "element lower than tree range"
    );

    test_case(58, 11, 5, "element in range but not in tree");
    test_case(800, 14, 7, "element greater than tree");
}

#[test]
fn three_level_searches_agree_on_every_ordering() {
    // Every array of seven entries over a few keys, sorted or not: the
    // search that compares all leaves at once and the one that compares them
    // in turn return the same leaf.
    let keys: [i64; 3] = [-1, 0, 2];
    let mut array = [0i64; 7];
    for code in 0..81 {
        let mut rest = code;
        for slot in 3..7 {
            array[slot] = keys[rest % 3];
            rest /= 3;
        }
        for of in [-2i64, -1, 0, 1, 2, 3] {
            assert_eq!(
                search_3_level_tree_for_lower_bound_simd(of, &array),
                search_3_level_tree_for_lower_bound(of, &array)
            );
        }
    }
}

#[test]
fn two_level_searches_agree() {
    let tree = [10, 10, 16];
    for of in [9i64, 10, 15, 16, 200] {
        assert_eq!(
            search_2_level_tree_for_lower_bound_simd(of, &tree).to_tree_index(),
            search_2_level_tree_for_lower_bound(of, &tree)
        );
    }
}

#[test]
fn height_two_boundaries() {
    let tree = [10, 10, 16];
    assert_eq!(search_for_lower_bound(9, 2, &tree), Leaf { index: 0, leaf_number: 1 });
    assert_eq!(search_for_lower_bound(10, 2, &tree), Leaf { index: 1, leaf_number: 0 });
    assert_eq!(search_for_lower_bound(15, 2, &tree), Leaf { index: 1, leaf_number: 0 });
    assert_eq!(search_for_lower_bound(16, 2, &tree), Leaf { index: 2, leaf_number: 1 });
    assert_eq!(search_for_lower_bound(200, 2, &tree), Leaf { index: 2, leaf_number: 1 });
}

#[test]
fn height_one_singleton() {
    let tree = [23];
    assert_eq!(search_for_lower_bound(0, 1, &tree), Leaf { index: 0, leaf_number: 1 });
    assert_eq!(search_for_lower_bound(23, 1, &tree), Leaf { index: 0, leaf_number: 0 });
    assert_eq!(search_for_lower_bound(100, 1, &tree), Leaf { index: 0, leaf_number: 0 });
}

#[test]
fn locator_conversion() {
    assert!(Leaf { index: 0, leaf_number: 1 }.is_not_in_tree());
    assert!(!Leaf { index: 0, leaf_number: 0 }.is_not_in_tree());
    assert!(!Leaf { index: 4, leaf_number: 1 }.is_not_in_tree());
    assert_eq!(Leaf { index: 0, leaf_number: 1 }.to_tree_index(), SearchTreeIndex::NotInTree);
    assert_eq!(
        Leaf { index: 7, leaf_number: 2 }.to_tree_index(),
        SearchTreeIndex::Leaf { index: 7, leaf_number: 2 }
    );
}
