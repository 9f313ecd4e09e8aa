use btree::lookup::binary_lookup;
use btree::node::BtreeNode;
use btree::tree::Btree;

#[test]
fn test_binary_lookup_existing_elements() {
    let arr = vec![10, 20, 30, 40, 50];

    assert_eq!(binary_lookup(&arr, 10), Ok(0));
    assert_eq!(binary_lookup(&arr, 30), Ok(2));
    assert_eq!(binary_lookup(&arr, 50), Ok(4));
}

#[test]
fn test_binary_lookup_missing_elements() {
    let arr = vec![10, 20, 30, 40, 50];

    assert_eq!(binary_lookup(&arr, 15), Err(1));
    assert_eq!(binary_lookup(&arr, 5), Err(0));
    assert_eq!(binary_lookup(&arr, 60), Err(5));
}

#[test]
fn test_binary_lookup_empty_array() {
    let empty: Vec<i32> = vec![];
    assert_eq!(binary_lookup(&empty, 10), Err(0));
}

#[test]
fn test_binary_lookup_single_element() {
    let single = vec![10];
    assert_eq!(binary_lookup(&single, 10), Ok(0));
    assert_eq!(binary_lookup(&single, 5), Err(0));
    assert_eq!(binary_lookup(&single, 15), Err(1));
}

#[test]
fn test_binary_lookup_duplicates() {
    let duplicates = vec![10, 10, 20, 20, 30];
    assert_eq!(binary_lookup(&duplicates, 10), Ok(0));
    assert_eq!(binary_lookup(&duplicates, 20), Ok(2));
    assert_eq!(binary_lookup(&duplicates, 30), Ok(4));
}

#[test]
fn test_binary_lookup_negative_numbers() {
    let arr = vec![-50, -30, -10, 10, 30, 50];

    assert_eq!(binary_lookup(&arr, -50), Ok(0));
    assert_eq!(binary_lookup(&arr, -30), Ok(1));
    assert_eq!(binary_lookup(&arr, -10), Ok(2));
}

#[test]
fn test_binary_lookup_mixed_numbers() {
    let arr = vec![-50, -30, -10, 10, 30, 50];

    assert_eq!(binary_lookup(&arr, -20), Err(2));
    assert_eq!(binary_lookup(&arr, 0), Err(3));
    assert_eq!(binary_lookup(&arr, 20), Err(4));
}

#[test]
fn test_empty_tree_search() {
    let tree: Btree<i32> = Btree::new(3);
    assert_eq!(tree.search(1), None);
}

#[test]
fn test_insert_and_search() {
    let mut tree = Btree::new(3);

    tree.insert(10, 100);
    assert_eq!(tree.search(10), Some((10, 100)));

    assert_eq!(tree.search(20), None);

    tree.insert(5, 50);
    tree.insert(15, 150);

    assert_eq!(tree.search(5), Some((5, 50)));
    assert_eq!(tree.search(15), Some((15, 150)));
}

#[test]
fn test_insert_same_key() {
    let mut tree = Btree::new(3);

    tree.insert(10, 100);
    tree.insert(10, 200);

    assert_eq!(tree.search(10), Some((10, 200)));
}

#[test]
fn test_node_split() {
    let mut tree = Btree::new(3);

    tree.insert(10, 100);
    tree.insert(20, 200);
    tree.insert(30, 300);

    tree.insert(40, 400);

    assert_eq!(tree.search(10), Some((10, 100)));
    assert_eq!(tree.search(20), Some((20, 200)));
    assert_eq!(tree.search(30), Some((30, 300)));
    assert_eq!(tree.search(40), Some((40, 400)));
}

#[test]
fn test_multiple_splits() {
    let mut tree = Btree::new(3);

    for i in 1..=10 {
        tree.insert(i * 10, i * 100);
    }

    for i in 1..=10 {
        assert_eq!(tree.search(i * 10), Some((i * 10, i * 100)));
    }
}

#[test]
fn test_delete_basic() {
    let mut tree = Btree::new(3);
    tree.insert(10, 100);
    tree.insert(20, 200);
    tree.insert(30, 300);
    assert_eq!(tree.search(20), Some((20, 200)));
    tree.delete(20);
    assert_eq!(tree.search(20), None);
    assert_eq!(tree.search(10), Some((10, 100)));
    assert_eq!(tree.search(30), Some((30, 300)));
}

#[test]
fn test_delete_nonexistent_key() {
    let mut tree = Btree::new(3);
    tree.insert(10, 100);
    tree.insert(20, 200);
    tree.delete(30);
    assert_eq!(tree.search(10), Some((10, 100)));
    assert_eq!(tree.search(20), Some((20, 200)));
}

#[test]
fn test_delete_all_keys() {
    let mut tree = Btree::new(3);
    tree.insert(10, 100);
    tree.insert(20, 200);
    tree.insert(30, 300);
    tree.delete(10);
    tree.delete(20);
    tree.delete(30);
    assert_eq!(tree.search(10), None);
    assert_eq!(tree.search(20), None);
    assert_eq!(tree.search(30), None);
}

#[test]
fn test_delete_with_split_and_merge() {
    let mut tree = Btree::new(3);
    for i in 1..=7 {
        tree.insert(i * 10, i * 100);
    }
    for k in [40, 50, 60, 70] {
        tree.delete(k);
        assert_eq!(tree.search(k), None);
    }
    for k in [10, 20, 30] {
        assert_eq!(tree.search(k), Some((k, k * 10)));
    }
}

/// The depth at which every leaf of `node` sits, or `None` when two leaves
/// disagree.
fn leaf_depth(node: &BtreeNode<i32>) -> Option<usize> {
    if node.children.is_empty() {
        return Some(1);
    }
    let mut depth = None;
    for child in &node.children {
        let d = leaf_depth(child)?;
        match depth {
            None => depth = Some(d + 1),
            Some(seen) => {
                if seen != d + 1 {
                    return None;
                }
            }
        }
    }
    depth
}

/// Checks the five structural invariants on the subtree rooted at `node`:
/// strictly ascending keys, separation of subtrees by the keys beside them,
/// equal leaf depth, occupancy bounds below the root, and parallel storage.
fn check_invariants(node: &BtreeNode<i32>, max_count: usize, is_root: bool) -> bool {
    let n = node.keys.len();
    // Value alignment.
    if node.values.len() != n {
        return false;
    }
    if !node.children.is_empty() && node.children.len() != n + 1 {
        return false;
    }
    // Order.
    for i in 1..n {
        if node.keys[i - 1] >= node.keys[i] {
            return false;
        }
    }
    // Occupancy.
    if is_root {
        if !(1 <= n && n <= max_count - 1) {
            return false;
        }
    } else {
        if !(max_count / 2 <= n && n <= max_count - 1) {
            return false;
        }
    }
    // Separation and the subtrees' own invariants.
    for (i, child) in node.children.iter().enumerate() {
        if !check_invariants(child, max_count, false) {
            return false;
        }
        for k in &child.keys {
            if i < n && *k >= node.keys[i] {
                return false;
            }
            if i > 0 && *k <= node.keys[i - 1] {
                return false;
            }
        }
    }
    // Balance.
    leaf_depth(node).is_some()
}

fn tree_invariants_hold(tree: &Btree<i32>) -> bool {
    match &tree.root {
        None => true,
        Some(root) => check_invariants(root, tree.max_count, true),
    }
}

#[test]
fn test_single_split_shape() {
    let mut tree = Btree::new(3);
    for (k, v) in [(10, 100), (20, 200), (30, 300), (40, 400)] {
        tree.insert(k, v);
    }
    for (k, v) in [(10, 100), (20, 200), (30, 300), (40, 400)] {
        assert_eq!(tree.search(k), Some((k, v)));
    }
    let root = tree.root.as_ref().unwrap();
    assert_eq!(root.keys.len(), 1);
    assert_eq!(leaf_depth(root), Some(2));
    for leaf in &root.children {
        assert!(1 <= leaf.keys.len() && leaf.keys.len() <= 2);
    }
    assert!(tree_invariants_hold(&tree));
}

#[test]
fn test_multiple_splits_invariants() {
    let mut tree = Btree::new(3);
    for i in 1..=10 {
        tree.insert(i * 10, i * 100);
        assert!(tree_invariants_hold(&tree));
    }
    for i in 1..=10 {
        assert_eq!(tree.search(i * 10), Some((i * 10, i * 100)));
    }
}

#[test]
fn test_delete_rebalancing_trace_invariants() {
    // The spec's rebalancing trace: seven ascending inserts reach three
    // levels, and the four deletes exercise the root collapse, a merge
    // around a separator, and two descents into leaves with a spare key.
    let mut tree = Btree::new(3);
    for i in 1..=7 {
        tree.insert(i * 10, i * 100);
        assert!(tree_invariants_hold(&tree));
    }
    for k in [40, 50, 60, 70] {
        tree.delete(k);
        assert_eq!(tree.search(k), None);
        assert!(tree_invariants_hold(&tree));
    }
    for k in [10, 20, 30] {
        assert_eq!(tree.search(k), Some((k, k * 10)));
    }
}

#[test]
fn test_delete_deep_tree_invariants() {
    // Three levels with every kind of repair reachable; the invariants hold
    // after every single operation.
    let mut tree = Btree::new(3);
    for i in 1..=15 {
        tree.insert(i * 10, i);
        assert!(tree_invariants_hold(&tree));
    }
    for k in [80, 10, 150, 70, 40, 90, 20, 130, 60, 100, 30, 140, 50, 110, 120] {
        tree.delete(k);
        assert_eq!(tree.search(k), None);
        assert!(tree_invariants_hold(&tree));
    }
    assert!(tree.root.is_none());
}

#[test]
fn test_delete_rotate_right_invariants() {
    // Root [30] over [10, 20] and [40]: deleting 40 borrows 20 through 30.
    let mut tree = Btree::new(3);
    for (k, v) in [(10, 1), (20, 2), (30, 3), (40, 4)] {
        tree.insert(k, v);
    }
    tree.delete(30);
    assert!(tree_invariants_hold(&tree));
    tree.insert(30, 5);
    assert!(tree_invariants_hold(&tree));
    tree.delete(40);
    assert_eq!(tree.search(40), None);
    assert_eq!(tree.search(10), Some((10, 1)));
    assert_eq!(tree.search(20), Some((20, 2)));
    assert_eq!(tree.search(30), Some((30, 5)));
    assert!(tree_invariants_hold(&tree));
}

#[test]
fn test_delete_rotate_left_invariants() {
    // Root [20] over [10] and [30, 40]: deleting 10 borrows 30 through 20.
    let mut tree = Btree::new(3);
    for (k, v) in [(10, 1), (20, 2), (30, 3), (40, 4)] {
        tree.insert(k, v);
    }
    tree.delete(10);
    assert_eq!(tree.search(10), None);
    assert_eq!(tree.search(20), Some((20, 2)));
    assert_eq!(tree.search(30), Some((30, 3)));
    assert_eq!(tree.search(40), Some((40, 4)));
    assert!(tree_invariants_hold(&tree));
}

#[test]
fn test_delete_merge_arms_invariants() {
    // Root [20, 40] over [10], [30], [50]: deleting 50 merges rightward
    // entries leftward; rebuilding and deleting 10 merges into the right.
    let mut tree = Btree::new(3);
    for (k, v) in [(10, 1), (20, 2), (30, 3), (40, 4), (50, 5)] {
        tree.insert(k, v);
    }
    tree.delete(50);
    assert_eq!(tree.search(50), None);
    assert!(tree_invariants_hold(&tree));
    tree.insert(50, 6);
    assert!(tree_invariants_hold(&tree));
    tree.delete(10);
    assert_eq!(tree.search(10), None);
    for (k, v) in [(20, 2), (30, 3), (40, 4), (50, 6)] {
        assert_eq!(tree.search(k), Some((k, v)));
    }
    assert!(tree_invariants_hold(&tree));
}

#[test]
fn test_delete_root_collapse_invariants() {
    // Root [20] over [10] and [30]: deleting 20 collapses the root into
    // the merge of its two leaves, shrinking the tree by one level.
    let mut tree = Btree::new(3);
    for (k, v) in [(10, 1), (20, 2), (30, 3)] {
        tree.insert(k, v);
    }
    tree.delete(20);
    assert_eq!(tree.search(20), None);
    assert_eq!(tree.search(10), Some((10, 1)));
    assert_eq!(tree.search(30), Some((30, 3)));
    assert!(tree_invariants_hold(&tree));
    assert_eq!(tree.root.as_ref().map(|r| leaf_depth(r)), Some(Some(1)));
}

#[test]
fn test_delete_idempotent() {
    let mut tree = Btree::new(3);
    tree.insert(10, 100);
    tree.insert(20, 200);
    tree.delete(10);
    let after_once = (tree.search(10), tree.search(20));
    tree.delete(10);
    let after_twice = (tree.search(10), tree.search(20));
    assert_eq!(after_once, after_twice);
    assert_eq!(after_twice, (None, Some((20, 200))));
}

#[test]
fn test_delete_to_empty_then_reuse() {
    let mut tree = Btree::new(3);
    tree.insert(1, 11);
    tree.delete(1);
    assert_eq!(tree.search(1), None);
    assert!(tree.root.is_none());
    tree.insert(2, 22);
    assert_eq!(tree.search(2), Some((2, 22)));
}

#[test]
fn test_model_equivalence_trace() {
    let mut tree = Btree::new(3);
    let mut model = std::collections::BTreeMap::new();
    let trace: [(bool, i32, i32); 14] = [
        (true, 50, 1),
        (true, 30, 2),
        (true, 70, 3),
        (true, 10, 4),
        (true, 40, 5),
        (false, 30, 0),
        (true, 30, 6),
        (true, 60, 7),
        (false, 50, 0),
        (false, 50, 0),
        (true, 20, 8),
        (false, 10, 0),
        (true, 80, 9),
        (false, 99, 0),
    ];
    for (is_insert, k, v) in trace {
        if is_insert {
            tree.insert(k, v);
            model.insert(k, v);
        } else {
            tree.delete(k);
            model.remove(&k);
        }
        assert!(tree_invariants_hold(&tree));
        for probe in [10, 20, 30, 40, 50, 60, 70, 80, 99] {
            let expected = model.get(&probe).map(|v| (probe, *v));
            assert_eq!(tree.search(probe), expected);
        }
    }
}

#[test]
fn test_node_accessors_and_split() {
    let node = BtreeNode::from(vec![10, 20, 30], vec![1, 2, 3], Vec::new(), 3);
    assert!(node.is_leaf());
    assert!(!node.is_empty());
    assert!(node.is_full());
    assert!(node.is_more_than_min_count());
    assert_eq!(node.current_count(), 3);
    assert_eq!(node.min_count(), 1);
    assert!(node.has_key(20));
    assert!(!node.has_key(25));
    assert!(node.subtree_has_key(30));
    let ((sep_k, sep_v), (left, right)) = node.split_node();
    assert_eq!((sep_k, sep_v), (20, 2));
    assert_eq!(left.keys, vec![10]);
    assert_eq!(right.keys, vec![30]);
}

#[test]
fn test_node_pop_min_and_max() {
    let mut node = BtreeNode::from(vec![10, 20, 30], vec![1, 2, 3], Vec::new(), 3);
    assert_eq!(node.pop_min(), Some((10, 1)));
    assert_eq!(node.pop_max(), Some((30, 3)));
    // One key is the minimum for this capacity: nothing more can be spared.
    assert_eq!(node.pop_min(), None);
    assert_eq!(node.pop_max(), None);
    assert_eq!(node.keys, vec![20]);
}

#[test]
fn test_entry_iteration_both_ends() {
    let node = BtreeNode::from(vec![1, 2, 3], vec![10, 20, 30], Vec::new(), 3);
    let mut entry = node.entry();
    assert_eq!(entry.next(), Some((1, 10)));
    assert_eq!(entry.next_back(), Some((3, 30)));
    assert_eq!(entry.next(), Some((2, 20)));
    assert_eq!(entry.next(), None);
    assert_eq!(entry.next_back(), None);
}

#[test]
fn test_negative_keys_round_trip() {
    let mut tree = Btree::new(3);
    for k in [-50, -30, -10, 0, 10, 30, 50] {
        tree.insert(k, k * 2);
    }
    assert!(tree_invariants_hold(&tree));
    for k in [-50, -30, -10, 0, 10, 30, 50] {
        assert_eq!(tree.search(k), Some((k, k * 2)));
    }
    tree.delete(-30);
    assert_eq!(tree.search(-30), None);
    for k in [-50, -10, 0, 10, 30, 50] {
        assert_eq!(tree.search(k), Some((k, k * 2)));
    }
    assert!(tree_invariants_hold(&tree));
}
