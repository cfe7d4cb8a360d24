use search_trees::avl::{AvlTree, AvlTreeNode};
use search_trees::update::UpdateError;

fn build(keys: &[i32]) -> AvlTreeNode<i32> {
    let mut tree: AvlTreeNode<i32> = AvlTree::generate_empty_tree();
    for &k in keys {
        tree.insert_node(k);
        assert!(tree.validate_tree());
    }
    tree
}

#[test]
fn avl_scenario_insert_then_delete() {
    let mut tree = build(&[5, 1, 0, 6, 2, 4, 9, 3, 7]);
    assert_eq!(tree.height_of_tree(), 4);
    assert_eq!(tree.number_of_leaves(), 4);
    assert_eq!(tree.in_order_traverse(), vec![0, 1, 2, 3, 4, 5, 6, 7, 9]);
    assert_eq!(tree.total_number_elements(), 9);
    for k in [5, 6, 0, 7] {
        let removed = tree.delete_node(k);
        assert!(removed.is_some());
        assert!(removed.exist_or_not(k));
        assert_eq!(removed.height(), 1);
        assert!(tree.validate_tree());
    }
    assert!(tree.delete_node(10).is_none());
    assert_eq!(tree.in_order_traverse(), vec![1, 2, 3, 4, 9]);
    assert!(tree.validate_tree());
}

#[test]
fn avl_empty_tree() {
    let mut tree: AvlTreeNode<i32> = AvlTree::generate_empty_tree();
    assert!(tree.is_tree_empty());
    assert!(tree.validate_tree());
    assert_eq!(tree.height_of_tree(), 0);
    assert_eq!(tree.height(), 0);
    assert_eq!(tree.number_of_leaves(), 0);
    assert_eq!(tree.total_number_elements(), 0);
    assert!(!tree.exist_or_not(3));
    assert!(tree.in_order_traverse().is_empty());
    assert!(tree.delete_node(3).is_none());
    assert_eq!(tree.update_node(1, 2), Err(UpdateError::EmptyTree));
}

fn scrambled(n: u32) -> Vec<i32> {
    let mut state: u64 = 0x9e37_79b9_7f4a_7c15;
    let mut keys = Vec::new();
    for _ in 0..n {
        state = state.wrapping_mul(6364136223846793005).wrapping_add(1442695040888963407);
        keys.push((state >> 33) as i32);
    }
    keys
}

#[test]
fn avl_single_rotations() {
    let mut left_heavy = build(&[3, 2, 1]);
    assert_eq!(left_heavy.pre_order_traverse(), vec![2, 1, 3]);
    assert_eq!(left_heavy.post_order_traverse(), vec![1, 3, 2]);
    assert_eq!(left_heavy.height_of_tree(), 2);
    let mut right_heavy = build(&[1, 2, 3]);
    assert_eq!(right_heavy.pre_order_traverse(), vec![2, 1, 3]);
    assert_eq!(right_heavy.number_of_leaves(), 2);
}

#[test]
fn avl_double_rotations() {
    assert_eq!(build(&[3, 1, 2]).pre_order_traverse(), vec![2, 1, 3]);
    assert_eq!(build(&[1, 3, 2]).pre_order_traverse(), vec![2, 1, 3]);
}

#[test]
fn avl_traversals_of_example_tree() {
    let mut tree = build(&[2, 1, 3, 5, 4, 6]);
    assert_eq!(tree.in_order_traverse(), vec![1, 2, 3, 4, 5, 6]);
    assert_eq!(tree.pre_order_traverse(), vec![4, 2, 1, 3, 5, 6]);
    assert_eq!(tree.post_order_traverse(), vec![1, 3, 2, 6, 5, 4]);
    assert_eq!(tree.height_of_tree(), 3);
    assert_eq!(tree.number_of_leaves(), 3);
    assert_eq!(tree.total_number_elements(), 6);
    assert!(!tree.is_tree_empty());
}

#[test]
fn avl_new_is_a_single_node() {
    let mut tree: AvlTreeNode<i32> = AvlTree::new(7);
    assert!(tree.validate_tree());
    assert_eq!(tree.height(), 1);
    assert_eq!(tree.number_of_leaves(), 1);
    assert_eq!(tree.in_order_traverse(), vec![7]);
}

#[test]
fn avl_duplicate_insert_is_a_no_op() {
    let mut tree = build(&[4, 2, 6]);
    tree.insert_node(2);
    tree.insert_node(4);
    assert_eq!(tree.pre_order_traverse(), vec![4, 2, 6]);
    assert_eq!(tree.total_number_elements(), 3);
}

#[test]
fn avl_delete_two_children_takes_from_taller_side() {
    let mut tree = build(&[4, 2, 6, 1]);
    let removed = tree.delete_node(4);
    assert!(removed.is_some());
    assert_eq!(tree.pre_order_traverse(), vec![2, 1, 6]);
    let mut tree = build(&[4, 2, 6, 7]);
    tree.delete_node(4);
    assert_eq!(tree.pre_order_traverse(), vec![6, 2, 7]);
    let mut tree = build(&[4, 2, 6]);
    tree.delete_node(4);
    assert_eq!(tree.pre_order_traverse(), vec![2, 6]);
}

#[test]
fn avl_delete_rebalances() {
    let mut tree = build(&[4, 2, 6, 1]);
    tree.delete_node(6);
    assert_eq!(tree.pre_order_traverse(), vec![2, 1, 4]);
    assert!(tree.validate_tree());
    let mut tree = build(&[4, 2, 6, 3]);
    tree.delete_node(6);
    assert_eq!(tree.pre_order_traverse(), vec![3, 2, 4]);
    let mut tree = build(&[4, 2, 6, 5]);
    tree.delete_node(2);
    assert_eq!(tree.pre_order_traverse(), vec![5, 4, 6]);
    let mut tree = build(&[4, 2, 6, 7]);
    tree.delete_node(2);
    assert_eq!(tree.pre_order_traverse(), vec![6, 4, 7]);
}

#[test]
fn avl_update_node_verdicts() {
    let mut tree = build(&[1, 3, 4, 5, 7, 8]);
    assert_eq!(tree.update_node(2, 9), Err(UpdateError::Missing));
    assert_eq!(tree.update_node(3, 3), Err(UpdateError::Unchanged));
    assert_eq!(tree.update_node(3, 7), Err(UpdateError::Occupied));
    assert_eq!(tree.in_order_traverse(), vec![1, 3, 4, 5, 7, 8]);
    assert_eq!(tree.update_node(8, 9), Ok(()));
    assert_eq!(tree.in_order_traverse(), vec![1, 3, 4, 5, 7, 9]);
    assert!(tree.validate_tree());
}

#[test]
fn avl_inserts_collect_distinct_keys_in_order() {
    let mut tree = build(&[5, -3, 8, -3, 1, 5, 9, 8, 2]);
    assert_eq!(tree.in_order_traverse(), vec![-3, 1, 2, 5, 8, 9]);
    assert!(tree.exist_or_not(-3));
    assert!(tree.exist_or_not(-3));
    assert!(!tree.exist_or_not(0));
    assert_eq!(tree.in_order_traverse(), vec![-3, 1, 2, 5, 8, 9]);
}

#[test]
fn avl_height_is_logarithmic_for_1000_keys() {
    let mut tree: AvlTreeNode<i32> = AvlTree::generate_empty_tree();
    for k in scrambled(1000) {
        tree.insert_node(k);
    }
    assert!(tree.validate_tree());
    assert_eq!(tree.total_number_elements(), 1000);
    assert!(tree.height_of_tree() >= 10);
    assert!(tree.height_of_tree() <= 15);
    let listed = tree.in_order_traverse();
    assert_eq!(listed.len(), 1000);
    assert!(listed.windows(2).all(|w| w[0] < w[1]));
}

fn fib(n: u32) -> u64 {
    let (mut a, mut b) = (0u64, 1u64);
    for _ in 0..n {
        let next = a + b;
        a = b;
        b = next;
    }
    a
}

#[test]
fn avl_height_stays_between_the_logarithmic_bounds() {
    let mut tree: AvlTreeNode<i32> = AvlTree::generate_empty_tree();
    assert_eq!(tree.height_of_tree(), 0);
    for k in scrambled(600) {
        tree.insert_node(k % 512);
        let count = tree.in_order_traverse().len() as u64;
        let h = tree.height_of_tree() as u32;
        assert!(h >= 1);
        assert!(count + 1 <= 1u64 << h);
        assert!(fib(h + 2) <= count + 1);
        assert_eq!(tree.total_number_elements() as u64, count);
    }
}

#[test]
fn avl_workload_of_ascending_inserts_and_searches() {
    let n: i32 = 10000;
    let mut tree: AvlTreeNode<i32> = AvlTree::generate_empty_tree();
    for i in 0..n {
        tree.insert_node(i);
    }
    for j in 0..n / 10 {
        assert!(tree.exist_or_not(j));
    }
    assert!(tree.validate_tree());
    assert_eq!(tree.total_number_elements(), 10000);
    assert!(tree.height_of_tree() >= 14);
    assert!(tree.height_of_tree() <= 19);
}

#[test]
fn avl_invariants_hold_through_mixed_operations() {
    let keys = scrambled(300);
    let mut tree: AvlTreeNode<i32> = AvlTree::generate_empty_tree();
    for &k in &keys {
        tree.insert_node(k % 97);
        assert!(tree.validate_tree());
    }
    for &k in &keys {
        let key = (k >> 7) % 97;
        let present = tree.exist_or_not(key);
        assert_eq!(tree.delete_node(key).is_some(), present);
        assert!(tree.validate_tree());
        assert!(!tree.exist_or_not(key));
    }
}

#[test]
fn avl_delete_then_insert_restores_keys() {
    let mut tree = build(&[10, 20, 30, 40, 50, 60, 70]);
    let before = tree.in_order_traverse();
    assert!(tree.delete_node(40).is_some());
    tree.insert_node(40);
    assert!(tree.validate_tree());
    assert_eq!(tree.in_order_traverse(), before);
}

#[test]
fn avl_clone_is_an_independent_copy() {
    let mut tree = build(&[4, 2, 6, 1, 3]);
    let mut twin = tree.clone();
    assert_eq!(twin.pre_order_traverse(), tree.pre_order_traverse());
    twin.insert_node(9);
    assert!(twin.exist_or_not(9));
    assert!(!tree.exist_or_not(9));
    assert!(twin.validate_tree());
    assert!(tree.validate_tree());
}

#[test]
fn avl_removed_node_is_a_tree_of_its_own() {
    let mut tree = build(&[4, 2, 6]);
    let mut removed = tree.delete_node(4);
    assert!(removed.validate_tree());
    assert_eq!(removed.in_order_traverse(), vec![4]);
    removed.insert_node(5);
    assert_eq!(removed.in_order_traverse(), vec![4, 5]);
    assert!(removed.validate_tree());
}

#[test]
fn avl_search_leaves_tree_unchanged() {
    let mut tree = build(&[4, 2, 6, 1, 3]);
    let before = tree.pre_order_traverse();
    for k in [0, 1, 2, 3, 4, 5, 6, 7] {
        assert_eq!(tree.exist_or_not(k), tree.exist_or_not(k));
    }
    assert_eq!(tree.pre_order_traverse(), before);
}

#[test]
fn avl_takes_keys_of_other_ordered_types() {
    let mut wide: AvlTreeNode<u64> = AvlTree::generate_empty_tree();
    for k in [u64::MAX, 0, 1 << 40, 7, u64::MAX - 1] {
        wide.insert_node(k);
        assert!(wide.validate_tree());
    }
    assert_eq!(wide.in_order_traverse(), vec![0, 7, 1 << 40, u64::MAX - 1, u64::MAX]);
    assert!(wide.delete_node(1 << 40).is_some());
    assert!(wide.validate_tree());
    assert_eq!(wide.in_order_traverse(), vec![0, 7, u64::MAX - 1, u64::MAX]);

    let mut small: AvlTreeNode<i8> = AvlTree::generate_empty_tree();
    for k in [i8::MIN, i8::MAX, 0, -1, 1] {
        small.insert_node(k);
    }
    assert!(small.validate_tree());
    assert_eq!(small.in_order_traverse(), vec![i8::MIN, -1, 0, 1, i8::MAX]);
    assert_eq!(small.height_of_tree(), 3);
    assert_eq!(small.update_node(0, 5), Ok(()));
    assert_eq!(small.in_order_traverse(), vec![i8::MIN, -1, 1, 5, i8::MAX]);
}
