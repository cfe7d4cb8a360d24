use search_trees::rbtree::RBTree;
use search_trees::update::UpdateError;

fn build(keys: &[u32]) -> RBTree {
    let mut tree = RBTree::new();
    for &k in keys {
        tree.insert_node(k);
        assert!(tree.validate());
    }
    tree
}

fn scrambled(n: u32) -> Vec<u32> {
    let mut state: u64 = 0x2545_f491_4f6c_dd1d;
    let mut keys = Vec::new();
    for _ in 0..n {
        state = state.wrapping_mul(6364136223846793005).wrapping_add(1442695040888963407);
        keys.push((state >> 33) as u32);
    }
    keys
}

#[test]
fn rb_scenario_insert_then_delete() {
    let mut tree = build(&[1, 2, 3, 4, 5, 6]);
    assert!(tree.validate());
    assert!(tree.get_height() <= 4);
    assert_eq!(tree.get_height(), 4);
    assert_eq!(tree.get_number_leaves(), 3);
    assert_eq!(tree.print_in_order_traversal(), vec![1, 2, 3, 4, 5, 6]);
    assert_eq!(tree.print_pre_order_traversal(), vec![2, 1, 4, 3, 5, 6]);
    assert_eq!(tree.print_post_order_traversal(), vec![1, 3, 6, 5, 4, 2]);
    for k in [3, 4, 5] {
        assert_eq!(tree.delete(k), Ok(()));
        assert!(tree.validate());
    }
    assert_eq!(tree.print_in_order_traversal(), vec![1, 2, 6]);
    assert_eq!(tree.print_pre_order_traversal(), vec![2, 1, 6]);
    assert_eq!(tree.total_number_elements(), 3);
    for k in [1, 2, 6] {
        assert!(tree.exist_or_not(k));
    }
    for k in [3, 4, 5] {
        assert!(!tree.exist_or_not(k));
    }
}

#[test]
fn rb_empty_tree() {
    let mut tree = RBTree::new();
    assert!(tree.is_empty());
    assert!(tree.validate());
    assert_eq!(tree.get_height(), 0);
    assert_eq!(tree.get_number_leaves(), 0);
    assert_eq!(tree.total_number_elements(), 0);
    assert!(tree.print_in_order_traversal().is_empty());
    assert!(tree.print_pre_order_traversal().is_empty());
    assert!(tree.print_post_order_traversal().is_empty());
    assert!(!tree.exist_or_not(7));
    assert_eq!(tree.delete(7), Err("Tree is none".to_string()));
    assert_eq!(tree.update_node(1, 2), Err(UpdateError::EmptyTree));
}

#[test]
fn rb_insert_reports_duplicates() {
    let mut tree = RBTree::new();
    assert!(tree.insert_node(10));
    assert!(tree.insert_node(5));
    assert!(!tree.insert_node(10));
    assert!(!tree.insert_node(5));
    assert_eq!(tree.print_in_order_traversal(), vec![5, 10]);
    assert_eq!(tree.total_number_elements(), 2);
    assert!(!tree.is_empty());
}

#[test]
fn rb_three_ascending_keys_rotate_left() {
    let tree = build(&[1, 2, 3]);
    assert_eq!(tree.print_pre_order_traversal(), vec![2, 1, 3]);
    assert_eq!(tree.print_post_order_traversal(), vec![1, 3, 2]);
    assert_eq!(tree.get_height(), 2);
    assert_eq!(tree.get_number_leaves(), 2);
}

#[test]
fn rb_three_descending_keys_rotate_right() {
    let tree = build(&[3, 2, 1]);
    assert_eq!(tree.print_pre_order_traversal(), vec![2, 1, 3]);
}

#[test]
fn rb_inner_grandchild_is_rotated_outward_first() {
    assert_eq!(build(&[1, 3, 2]).print_pre_order_traversal(), vec![2, 1, 3]);
    assert_eq!(build(&[3, 1, 2]).print_pre_order_traversal(), vec![2, 1, 3]);
}

#[test]
fn rb_red_uncle_recolors() {
    let tree = build(&[2, 1, 3, 4]);
    assert_eq!(tree.print_pre_order_traversal(), vec![2, 1, 3, 4]);
    assert_eq!(tree.get_height(), 3);
    assert!(tree.validate());
}

#[test]
fn rb_search_node_messages() {
    let mut tree = build(&[4, 2, 6]);
    assert_eq!(tree.search_node(2), Ok(()));
    assert_eq!(tree.search_node(5), Err("The node with val is not found".to_string()));
    assert_eq!(tree.print_in_order_traversal(), vec![2, 4, 6]);
}

#[test]
fn rb_delete_missing_key_leaves_tree() {
    let mut tree = build(&[4, 2, 6]);
    assert_eq!(tree.delete(5), Err("The node with val is not found".to_string()));
    assert_eq!(tree.print_pre_order_traversal(), vec![4, 2, 6]);
    assert!(tree.validate());
}

#[test]
fn rb_delete_root_with_two_children_takes_predecessor() {
    let mut tree = build(&[4, 2, 6, 1, 3]);
    assert_eq!(tree.delete(4), Ok(()));
    assert_eq!(tree.print_pre_order_traversal(), vec![3, 2, 1, 6]);
    assert!(tree.validate());
}

#[test]
fn rb_delete_last_key_empties_tree() {
    let mut tree = build(&[9]);
    assert_eq!(tree.delete(9), Ok(()));
    assert!(tree.is_empty());
    assert!(tree.validate());
}

#[test]
fn rb_update_node_verdicts() {
    let mut tree = build(&[1, 2, 6, 7, 8]);
    assert_eq!(tree.update_node(5, 9), Err(UpdateError::Missing));
    assert_eq!(tree.update_node(2, 2), Err(UpdateError::Unchanged));
    assert_eq!(tree.update_node(2, 7), Err(UpdateError::Occupied));
    assert_eq!(tree.print_in_order_traversal(), vec![1, 2, 6, 7, 8]);
    assert_eq!(tree.update_node(2, 3), Ok(()));
    assert_eq!(tree.print_in_order_traversal(), vec![1, 3, 6, 7, 8]);
    assert!(tree.validate());
}

#[test]
fn rb_inserts_collect_distinct_keys_in_order() {
    let mut tree = build(&[5, 3, 8, 3, 1, 5, 9, 8, 2]);
    assert_eq!(tree.print_in_order_traversal(), vec![1, 2, 3, 5, 8, 9]);
    assert_eq!(tree.total_number_elements(), 6);
    assert!(tree.exist_or_not(9));
    assert!(tree.exist_or_not(9));
    assert_eq!(tree.print_in_order_traversal(), vec![1, 2, 3, 5, 8, 9]);
}

#[test]
fn rb_height_is_logarithmic_for_1000_keys() {
    let keys = scrambled(1000);
    let mut tree = RBTree::new();
    let mut distinct = 0;
    for &k in &keys {
        if tree.insert_node(k) {
            distinct += 1;
        }
    }
    assert!(tree.validate());
    assert_eq!(distinct, 1000);
    assert_eq!(tree.total_number_elements(), distinct);
    assert!(tree.get_height() >= 10);
    assert!(tree.get_height() <= 20);
    let listed = tree.print_in_order_traversal();
    assert_eq!(listed.len(), 1000);
    assert!(listed.windows(2).all(|w| w[0] < w[1]));
}

#[test]
fn rb_height_stays_between_the_logarithmic_bounds() {
    let mut tree = RBTree::new();
    assert_eq!(tree.get_height(), 0);
    let mut count: u64 = 0;
    for k in scrambled(600) {
        if tree.insert_node(k % 512) {
            count += 1;
        }
        let h = tree.get_height();
        assert!(h >= 1);
        assert!(count + 1 <= 1u64 << h);
        assert!((1u64 << ((h + 1) / 2)) <= count + 1);
        assert_eq!(tree.total_number_elements() as u64, count);
    }
}

#[test]
fn rb_workload_of_ascending_inserts_and_searches() {
    let n: u32 = 10000;
    let mut tree = RBTree::new();
    for i in 0..n {
        assert!(tree.insert_node(i));
    }
    for j in 0..n / 10 {
        assert_eq!(tree.search_node(j), Ok(()));
    }
    assert!(tree.validate());
    assert_eq!(tree.total_number_elements(), 10000);
    assert!(tree.get_height() >= 14);
    assert!(tree.get_height() <= 27);
}

#[test]
fn rb_invariants_hold_through_mixed_operations() {
    let keys = scrambled(300);
    let mut tree = RBTree::new();
    for &k in &keys {
        tree.insert_node(k % 97);
        assert!(tree.validate());
    }
    for &k in &keys {
        let key = (k >> 7) % 97;
        let present = tree.exist_or_not(key);
        assert_eq!(tree.delete(key).is_ok(), present);
        assert!(tree.validate());
        assert!(!tree.exist_or_not(key));
    }
}

#[test]
fn rb_delete_then_insert_restores_keys() {
    let mut tree = build(&[10, 20, 30, 40, 50, 60, 70]);
    let before = tree.print_in_order_traversal();
    assert_eq!(tree.delete(40), Ok(()));
    assert!(tree.insert_node(40));
    assert!(tree.validate());
    assert_eq!(tree.print_in_order_traversal(), before);
}

#[test]
fn rb_deleting_every_key_in_turn() {
    for skip in 0..15u32 {
        let keys: Vec<u32> = (0..15).collect();
        let mut tree = build(&keys);
        let mut order: Vec<u32> = keys.iter().map(|k| (k * 7 + skip) % 15).collect();
        while let Some(k) = order.pop() {
            assert_eq!(tree.delete(k), Ok(()));
            assert!(tree.validate());
        }
        assert!(tree.is_empty());
    }
}

#[test]
fn rb_search_leaves_tree_unchanged() {
    let mut tree = build(&[4, 2, 6, 1, 3]);
    let before = tree.print_pre_order_traversal();
    for k in [0, 1, 2, 3, 4, 5, 6, 7] {
        assert_eq!(tree.exist_or_not(k), tree.exist_or_not(k));
        assert_eq!(tree.search_node(k).is_ok(), tree.exist_or_not(k));
    }
    assert_eq!(tree.print_pre_order_traversal(), before);
}

#[test]
fn rb_red_sibling_is_rotated_above_parent() {
    let mut tree = build(&[10, 5, 20, 15, 30, 12, 17, 11]);
    assert!(tree.validate());
    assert_eq!(tree.delete(5), Ok(()));
    assert!(tree.validate());
    assert_eq!(tree.print_in_order_traversal(), vec![10, 11, 12, 15, 17, 20, 30]);
}

#[test]
fn rb_left_sibling_with_two_red_children_is_lifted_by_one_rotation() {
    let mut tree = build(&[4, 2, 5, 1, 3]);
    assert_eq!(tree.print_pre_order_traversal(), vec![4, 2, 1, 3, 5]);
    assert_eq!(tree.delete(5), Ok(()));
    assert!(tree.validate());
    assert_eq!(tree.print_pre_order_traversal(), vec![2, 1, 4, 3]);
    assert_eq!(tree.print_in_order_traversal(), vec![1, 2, 3, 4]);
    assert_eq!(tree.get_height(), 3);
}

#[test]
fn rb_right_sibling_with_two_red_children_gives_up_its_left_child() {
    let mut tree = build(&[2, 1, 4, 3, 5]);
    assert_eq!(tree.print_pre_order_traversal(), vec![2, 1, 4, 3, 5]);
    assert_eq!(tree.delete(1), Ok(()));
    assert!(tree.validate());
    assert_eq!(tree.print_pre_order_traversal(), vec![3, 2, 4, 5]);
    assert_eq!(tree.print_in_order_traversal(), vec![2, 3, 4, 5]);
}

#[test]
fn rb_left_sibling_with_only_an_inner_red_child_is_rotated_twice() {
    let mut tree = build(&[4, 2, 5, 3]);
    assert_eq!(tree.delete(5), Ok(()));
    assert!(tree.validate());
    assert_eq!(tree.print_pre_order_traversal(), vec![3, 2, 4]);
}

#[test]
fn rb_right_sibling_with_only_an_outer_red_child_is_rotated_once() {
    let mut tree = build(&[2, 1, 4, 5]);
    assert_eq!(tree.delete(1), Ok(()));
    assert!(tree.validate());
    assert_eq!(tree.print_pre_order_traversal(), vec![4, 2, 5]);
}
