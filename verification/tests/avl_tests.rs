use avl_memtable::avl::AvlTree;

#[test]
fn test_new_tree() {
    let tree: AvlTree<String> = AvlTree::new();
    assert!(tree.is_empty());
    assert_eq!(tree.len(), 0);
    assert_eq!(tree.height(), 0);
}

#[test]
fn test_single_insert_and_get() {
    let mut tree = AvlTree::new();
    tree.insert(5, "five".to_string());

    assert!(!tree.is_empty());
    assert_eq!(tree.len(), 1);
    assert_eq!(tree.height(), 1);
    assert_eq!(tree.get(&5), Some(&"five".to_string()));
    assert_eq!(tree.get(&3), None);
}

#[test]
fn test_multiple_inserts() {
    let mut tree = AvlTree::new();
    tree.insert(5, "five".to_string());
    tree.insert(3, "three".to_string());
    tree.insert(7, "seven".to_string());
    tree.insert(1, "one".to_string());
    tree.insert(9, "nine".to_string());

    assert_eq!(tree.len(), 5);
    assert_eq!(tree.get(&1), Some(&"one".to_string()));
    assert_eq!(tree.get(&3), Some(&"three".to_string()));
    assert_eq!(tree.get(&5), Some(&"five".to_string()));
    assert_eq!(tree.get(&7), Some(&"seven".to_string()));
    assert_eq!(tree.get(&9), Some(&"nine".to_string()));
    assert_eq!(tree.get(&2), None);
}

#[test]
fn test_duplicate_key_insert() {
    let mut tree = AvlTree::new();
    tree.insert(5, "five".to_string());
    tree.insert(5, "five_updated".to_string());

    assert_eq!(tree.len(), 1); // still be 1 since we overwrote
    assert_eq!(tree.get(&5), Some(&"five_updated".to_string()));
}

#[test]
fn test_flush() {
    let mut tree = AvlTree::new();
    tree.insert(5, "five".to_string());
    tree.insert(3, "three".to_string());
    tree.insert(7, "seven".to_string());
    tree.insert(1, "one".to_string());

    let flushed = tree.flush();

    // should be in sorted order by key
    assert_eq!(flushed.len(), 4);
    assert_eq!(flushed[0], (1, "one".to_string()));
    assert_eq!(flushed[1], (3, "three".to_string()));
    assert_eq!(flushed[2], (5, "five".to_string()));
    assert_eq!(flushed[3], (7, "seven".to_string()));
}

#[test]
fn test_clear() {
    let mut tree = AvlTree::new();
    tree.insert(5, "five".to_string());
    tree.insert(3, "three".to_string());
    tree.insert(7, "seven".to_string());

    assert_eq!(tree.len(), 3);
    assert!(!tree.is_empty());

    tree.clear();

    assert_eq!(tree.len(), 0);
    assert!(tree.is_empty());
    assert_eq!(tree.height(), 0);
    assert_eq!(tree.get(&5), None);
}

#[test]
fn test_should_flush() {
    let mut tree = AvlTree::new();

    assert!(!tree.should_flush(5));

    tree.insert(1, "one".to_string());
    tree.insert(2, "two".to_string());
    tree.insert(3, "three".to_string());

    assert!(!tree.should_flush(5));

    tree.insert(4, "four".to_string());
    tree.insert(5, "five".to_string());

    assert!(tree.should_flush(5));
    assert!(tree.should_flush(3));
}

#[test]
fn test_height_balancing() {
    let mut tree = AvlTree::new();

    // insert in ascending order to test balancing
    for i in 1..=7 {
        tree.insert(i, format!("value_{}", i));
    }

    // tree should maintain balance with height at log(n)
    assert!(
        tree.height() <= 4,
        "Tree height {} is too large for {} nodes",
        tree.height(),
        tree.len()
    );
}

#[test]
fn test_empty_flush() {
    let tree: AvlTree<String> = AvlTree::new();
    let flushed = tree.flush();
    assert!(flushed.is_empty());
}

#[test]
fn test_large_tree() {
    let mut tree = AvlTree::new();

    // 100 elements!
    for i in 0..100 {
        tree.insert(i, format!("value_{}", i));
    }

    assert_eq!(tree.len(), 100);

    // all elements are retrievable
    for i in 0..100 {
        assert_eq!(tree.get(&i), Some(&format!("value_{}", i)));
    }

    // non-existent elements return None
    assert_eq!(tree.get(&200), None);

    // height should be log(n) for 100 nodes, eg around 6-7
    assert!(
        tree.height() <= 8,
        "Tree height {} is too large for 100 nodes",
        tree.height()
    );
}

#[test]
fn test_reverse_order_insertion() {
    let mut tree = AvlTree::new();

    // descending order
    for i in (1..=10).rev() {
        tree.insert(i, format!("value_{}", i));
    }

    // all elements are retrievable
    for i in 1..=10 {
        assert_eq!(tree.get(&i), Some(&format!("value_{}", i)));
    }

    // flush returns sorted order
    let flushed = tree.flush();
    for (idx, (key, _)) in flushed.iter().enumerate() {
        assert_eq!(*key, (idx + 1) as u64);
    }
}

#[test]
fn test_flush_sorted_no_duplicates() {
    let mut tree = AvlTree::new();
    // unsorted inserts, with repeated keys along the way
    for &k in &[42u64, 7, 99, 7, 13, 42, 0, 55, 13] {
        tree.insert(k, format!("v{}", k));
    }

    let flushed = tree.flush();
    assert_eq!(flushed.len(), tree.len());
    // strictly ascending keys: sorted, and so no duplicates
    for w in flushed.windows(2) {
        assert!(w[0].0 < w[1].0);
    }
    assert_eq!(
        flushed.iter().map(|p| p.0).collect::<Vec<u64>>(),
        vec![0, 7, 13, 42, 55, 99]
    );
}

#[test]
fn test_flush_twice_identical() {
    let mut tree = AvlTree::new();
    tree.insert(4, "four".to_string());
    tree.insert(2, "two".to_string());
    tree.insert(6, "six".to_string());

    let len_before = tree.len();
    let height_before = tree.height();
    let first = tree.flush();
    let second = tree.flush();

    // flush is a non-destructive snapshot: same result both times,
    // and the tree itself is untouched
    assert_eq!(first, second);
    assert_eq!(tree.len(), len_before);
    assert_eq!(tree.height(), height_before);
}

#[test]
fn test_should_flush_boundaries() {
    let mut tree = AvlTree::new();
    // an empty buffer already meets a zero threshold
    assert!(tree.should_flush(0));
    assert!(!tree.should_flush(1));

    tree.insert(1, "one".to_string());
    assert!(tree.should_flush(1));
    assert!(!tree.should_flush(2));
}

#[test]
fn test_clear_idempotent_and_reusable() {
    let mut tree = AvlTree::new();
    tree.insert(8, "eight".to_string());
    tree.insert(1, "one".to_string());

    tree.clear();
    tree.clear();
    assert!(tree.is_empty());
    assert_eq!(tree.get(&8), None);
    assert_eq!(tree.get(&1), None);

    // the buffer is reusable after a clear
    tree.insert(3, "three".to_string());
    assert_eq!(tree.len(), 1);
    assert_eq!(tree.get(&3), Some(&"three".to_string()));
}

#[test]
fn test_scattered_order_insertion() {
    let mut tree = AvlTree::new();
    // 37 is coprime to 100, so this visits every key 0..100 once,
    // in a scattered order
    for i in 0..100u64 {
        let k = (i * 37) % 100;
        tree.insert(k, format!("value_{}", k));
    }

    assert_eq!(tree.len(), 100);
    for i in 0..100u64 {
        assert_eq!(tree.get(&i), Some(&format!("value_{}", i)));
    }
    assert_eq!(tree.get(&200), None);
    assert!(tree.height() <= 8);
}

#[test]
fn test_default_is_empty() {
    let tree: AvlTree<String> = Default::default();
    assert!(tree.is_empty());
    assert_eq!(tree.len(), 0);
}
