use search_trees::avl::{AvlTree, AvlTreeNode};
use search_trees::diagram::Branch;
use search_trees::rbtree::{NodeColor, RBTree};

#[test]
fn avl_diagram_rows_of_three_nodes() {
    let mut tree: AvlTreeNode<i32> = AvlTree::generate_empty_tree();
    for k in [2, 1, 3] {
        tree.insert_node(k);
    }
    let rows: Vec<(Vec<bool>, Branch, Option<(i32, i32)>)> = tree
        .diagram_rows()
        .into_iter()
        .map(|r| (r.guides, r.branch, r.entry))
        .collect();
    assert_eq!(
        rows,
        vec![
            (vec![], Branch::Root, Some((2, 2))),
            (vec![true], Branch::Left, Some((1, 1))),
            (vec![true, true], Branch::Left, None),
            (vec![true, true], Branch::Right, None),
            (vec![true], Branch::Right, Some((3, 1))),
            (vec![true, false], Branch::Left, None),
            (vec![true, false], Branch::Right, None),
        ]
    );
}

#[test]
fn avl_diagram_of_empty_tree_is_one_blank_row() {
    let tree: AvlTreeNode<i32> = AvlTree::generate_empty_tree();
    let rows = tree.diagram_rows();
    assert_eq!(rows.len(), 1);
    assert!(rows[0].guides.is_empty());
    assert_eq!(rows[0].branch, Branch::Root);
    assert_eq!(rows[0].entry, None);
}

#[test]
fn rb_diagram_rows_show_colors() {
    let mut tree = RBTree::new();
    for k in [1, 2, 3] {
        tree.insert_node(k);
    }
    let rows: Vec<(Vec<bool>, Branch, Option<(u32, NodeColor)>)> = tree
        .diagram_rows()
        .into_iter()
        .map(|r| (r.guides, r.branch, r.entry))
        .collect();
    assert_eq!(
        rows,
        vec![
            (vec![], Branch::Root, Some((2, NodeColor::Black))),
            (vec![true], Branch::Left, Some((1, NodeColor::Red))),
            (vec![true, true], Branch::Left, None),
            (vec![true, true], Branch::Right, None),
            (vec![true], Branch::Right, Some((3, NodeColor::Red))),
            (vec![true, false], Branch::Left, None),
            (vec![true, false], Branch::Right, None),
        ]
    );
}

#[test]
fn branch_guides() {
    assert!(Branch::Root.is_guide());
    assert!(Branch::Left.is_guide());
    assert!(!Branch::Right.is_guide());
}
