use search_trees::bst::{BinarySearchTree, Node};

#[test]
fn bst_empty_tree_holds_nothing() {
    let tree: Node<i32> = BinarySearchTree::gen_empty_tree();
    assert!(tree.is_none());
    assert!(!tree.search_node(1));
    assert!(!tree.search_node_optimize(1));
}

#[test]
fn bst_insert_and_search() {
    let mut tree: Node<i32> = BinarySearchTree::gen_empty_tree();
    for k in [5, 1, 0, 6, 2, 4, 9, 3, 7] {
        tree.insert_node(k);
    }
    for k in [0, 1, 2, 3, 4, 5, 6, 7, 9] {
        assert!(tree.search_node(k));
        assert!(tree.search_node_optimize(k));
    }
    for k in [-1, 8, 10] {
        assert!(!tree.search_node(k));
        assert!(!tree.search_node_optimize(k));
    }
}

#[test]
fn bst_duplicate_insert_is_a_no_op() {
    let mut tree: Node<u64> = BinarySearchTree::gen_empty_tree();
    tree.insert_node(3);
    tree.insert_node(3);
    tree.insert_node(1);
    tree.insert_node(3);
    assert!(tree.search_node(3));
    assert!(tree.search_node(1));
    assert!(!tree.search_node(2));
}

#[test]
fn bst_new_node_leaves_receiver_alone() {
    let mut tree: Node<i32> = BinarySearchTree::gen_empty_tree();
    tree.insert_node(4);
    let single = tree.new_node(8);
    assert!(single.search_node(8));
    assert!(!single.search_node(4));
    assert!(tree.search_node(4));
    assert!(!tree.search_node(8));
}

#[test]
fn bst_search_is_repeatable() {
    let mut tree: Node<i32> = BinarySearchTree::gen_empty_tree();
    for k in [2, 1, 3] {
        tree.insert_node(k);
    }
    assert_eq!(tree.search_node(3), tree.search_node(3));
    assert_eq!(tree.search_node(7), tree.search_node_optimize(7));
}

#[test]
fn bst_workload_of_ascending_inserts_and_searches() {
    let n: i32 = 2000;
    let mut tree: Node<i32> = BinarySearchTree::gen_empty_tree();
    for i in 0..n {
        tree.insert_node(i);
    }
    for j in 0..n / 10 {
        assert!(tree.search_node(j));
        assert!(tree.search_node_optimize(j));
    }
    assert!(!tree.search_node(n));
    assert!(!tree.search_node_optimize(-1));
}
