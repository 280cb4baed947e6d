use btree::BTree;

#[test]
fn empty_tree_finds_nothing() {
    let tree: BTree<i32, &str> = BTree::new();
    assert!(tree.is_empty());
    assert_eq!(tree.search(4), None);
    assert_eq!(tree.search(i32::MIN), None);
    assert_eq!(tree.search(i32::MAX), None);
}

#[test]
fn default_tree_is_empty() {
    let tree: BTree<i32, String> = BTree::default();
    assert!(tree.is_empty());
    assert_eq!(tree.search(0), None);
}

#[test]
fn single_insert_is_found_and_neighbour_is_not() {
    let mut tree = BTree::new();
    tree.insert(5, "five");
    assert_eq!(tree.search(5), Some(&"five"));
    assert_eq!(tree.search(4), None);
    assert_eq!(tree.search(6), None);
}

#[test]
fn tree_stays_non_empty_after_inserts() {
    let mut tree = BTree::new();
    tree.insert(1, 10);
    assert!(!tree.is_empty());
    for i in 2..50 {
        tree.insert(i, i * 10);
        assert!(!tree.is_empty());
    }
}

#[test]
fn fourth_insert_splits_the_root() {
    let mut tree = BTree::new();
    tree.insert(1, "one");
    tree.insert(3, "three");
    tree.insert(5, "five");
    tree.insert(2, "two");
    assert_eq!(tree.search(1), Some(&"one"));
    assert_eq!(tree.search(2), Some(&"two"));
    assert_eq!(tree.search(3), Some(&"three"));
    assert_eq!(tree.search(5), Some(&"five"));
    assert_eq!(tree.search(4), None);
}

#[test]
fn repeated_key_in_one_leaf_answers_first_value() {
    let mut tree = BTree::new();
    tree.insert(5, "first");
    tree.insert(5, "second");
    tree.insert(5, "third");
    assert_eq!(tree.search(5), Some(&"first"));
}

#[test]
fn repeated_key_with_one_value_is_found() {
    let mut tree = BTree::new();
    for _ in 0..10 {
        tree.insert(7, "seven");
    }
    tree.insert(3, "three");
    tree.insert(9, "nine");
    assert_eq!(tree.search(7), Some(&"seven"));
    assert_eq!(tree.search(3), Some(&"three"));
    assert_eq!(tree.search(9), Some(&"nine"));
}

#[test]
fn promoted_duplicate_leaves_first_value_found() {
    // The leaf [5, 5, 7] splits on the fourth insert and its median, the second 5, moves
    // up into the new root; the first 5 stays in the left leaf and still answers.
    let mut tree = BTree::new();
    tree.insert(5, "first");
    tree.insert(5, "second");
    tree.insert(7, "seven");
    tree.insert(8, "eight");
    assert_eq!(tree.search(5), Some(&"first"));
    assert_eq!(tree.search(7), Some(&"seven"));
    assert_eq!(tree.search(8), Some(&"eight"));
}

#[test]
fn duplicate_equal_to_median_goes_right() {
    let mut tree = BTree::new();
    tree.insert(5, "a");
    tree.insert(5, "b");
    tree.insert(7, "c");
    tree.insert(1, "d");
    tree.insert(5, "e");
    tree.insert(5, "f");
    assert_eq!(tree.search(5), Some(&"a"));
    assert_eq!(tree.search(1), Some(&"d"));
    assert_eq!(tree.search(7), Some(&"c"));
}

#[test]
fn many_duplicates_answer_first_value() {
    let mut tree = BTree::new();
    for i in 0..30 {
        tree.insert(5, i);
        tree.insert(i, 100 + i);
    }
    assert_eq!(tree.search(5), Some(&0));
    assert_eq!(tree.search(6), Some(&106));
}

#[test]
fn thousand_sequential_keys_are_all_found() {
    let mut tree = BTree::new();
    for i in 0..1000 {
        tree.insert(i, format!("stress_{}", i));
    }
    for i in 0..1000 {
        assert_eq!(tree.search(i), Some(&format!("stress_{}", i)));
    }
    assert_eq!(tree.search(-1), None);
    assert_eq!(tree.search(1000), None);
}

#[test]
fn ascending_and_shuffled_orders_answer_alike() {
    let mut ascending = BTree::new();
    let mut shuffled = BTree::new();
    for i in 1..=20 {
        ascending.insert(i, i * 100);
    }
    for i in [11, 3, 17, 8, 14, 1, 19, 6, 12, 20, 4, 15, 9, 2, 18, 7, 13, 10, 5, 16] {
        shuffled.insert(i, i * 100);
    }
    for i in 0..=21 {
        assert_eq!(ascending.search(i), shuffled.search(i));
    }
    assert_eq!(ascending.search(0), None);
    assert_eq!(shuffled.search(21), None);
}

#[test]
fn descending_inserts_are_all_found() {
    let mut tree = BTree::new();
    for i in (0..300).rev() {
        tree.insert(i, i + 1);
    }
    for i in 0..300 {
        assert_eq!(tree.search(i), Some(&(i + 1)));
    }
    assert_eq!(tree.search(300), None);
}

#[test]
fn extreme_keys_are_found() {
    let mut tree = BTree::new();
    tree.insert(i32::MAX, "max");
    tree.insert(i32::MIN, "min");
    tree.insert(0, "zero");
    tree.insert(-1, "minus one");
    assert_eq!(tree.search(i32::MAX), Some(&"max"));
    assert_eq!(tree.search(i32::MIN), Some(&"min"));
    assert_eq!(tree.search(0), Some(&"zero"));
    assert_eq!(tree.search(-1), Some(&"minus one"));
    assert_eq!(tree.search(1), None);
}

#[test]
fn other_key_types_work() {
    let mut wide: BTree<u64, u8> = BTree::new();
    let mut signed: BTree<i64, u8> = BTree::new();
    let mut index: BTree<usize, u8> = BTree::new();
    let mut small: BTree<u32, u8> = BTree::new();
    for i in 0..40u8 {
        wide.insert(u64::MAX - i as u64, i);
        signed.insert(-(i as i64), i);
        index.insert(i as usize, i);
        small.insert(i as u32 * 3, i);
    }
    assert_eq!(wide.search(u64::MAX), Some(&0));
    assert_eq!(wide.search(u64::MAX - 39), Some(&39));
    assert_eq!(signed.search(-20), Some(&20));
    assert_eq!(index.search(17), Some(&17));
    assert_eq!(small.search(30), Some(&10));
    assert_eq!(small.search(31), None);
}
