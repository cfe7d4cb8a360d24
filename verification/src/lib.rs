//! Ordered search-tree containers with machine-checked contracts: a plain
//! binary search tree, an AVL tree and a red-black tree.
//!
//! Each tree states what an operation does to its key set and to its shape,
//! and keeps its invariants through every operation. `keys` says what the AVL
//! tree asks of a key type, `diagram` and `update` hold what the trees share.

pub mod avl;
pub mod avl_laws;
pub mod bst;
pub mod diagram;
pub mod keys;
pub mod rbtree;
pub mod rbtree_laws;
pub mod seqs;
pub mod update;
