//! Classic containers with verified contracts: binary trees (plain,
//! search and AVL-balanced) with their traversal and search kernels, binary
//! heaps and a top-k selection, stacks, queues, a double-ended list and a
//! persistent singly linked list.
pub mod binary_tree;
pub mod avl_tree;
pub mod bt;
pub mod heap;
pub mod linked_list;
pub mod queue;
pub mod simple_list;
pub mod stack;
pub mod top_k;

pub use avl_tree::{AvlTree, AvlTreeNode};
pub use binary_tree::{BinarySearchTree, BinaryTree, TreeNode};
pub use stack::{StackWithList, StackWithVec};
pub use queue::{QueueWithArray, QueueWithList};
pub use simple_list::SimpleList;
pub use heap::{MaxHeap, MinHeap};
pub use top_k::top_k_heap;
pub use linked_list::LinkedList;
