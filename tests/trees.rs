use base::bt;
use base::{AvlTree, BinarySearchTree, BinaryTree};

#[test]
fn avl_basics_should_work() {
    let mut avl_tree = AvlTree::new();

    avl_tree.insert(1);
    assert_eq!(avl_tree.search(&1).unwrap().value, 1);

    avl_tree.insert(2);
    assert_eq!(avl_tree.search(&2).unwrap().value, 2);
}

#[test]
fn avl_convert_should_work() {
    let avl_tree = AvlTree::from_slice(&[1, 3, 4, 5, 7]);
    let tree = avl_tree.to_tree();

    assert_eq!(tree.to_vec(), vec![1, 3, 4, 5, 7]);
    assert!(bt::contains(&tree.root, &5));
}

#[test]
fn binary_search_tree_tree_basics_should_work() {
    let mut tree = BinarySearchTree::from_slice(&[4, 2, 6, 1, 3, 5, 7]);
    assert!(tree.search(&8).is_none());

    let node = tree.search(&4);
    assert!(node.is_some());
    assert_eq!(node.unwrap().value, 4);

    tree.remove(&4);
    assert!(tree.search(&4).is_none());

    assert_eq!(tree.to_vec(), vec![1, 2, 3, 5, 6, 7]);
}

#[test]
fn binary_tree_tree_basics_should_work() {
    let mut tree = BinaryTree::new();

    tree.insert(1);
    tree.insert(2);
    tree.insert(3);

    assert!(bt::contains_bfs(&tree.root, &2));
    assert!(bt::contains_bfs(&tree.root, &3));
    assert!(!bt::contains_bfs(&tree.root, &5));

    assert!(bt::contains_dfs(&tree.root, &2));
    assert!(bt::contains_dfs(&tree.root, &3));
    assert!(!bt::contains_dfs(&tree.root, &5));

    assert!(bt::contains(&tree.root, &2));
    assert!(bt::contains(&tree.root, &3));
    assert!(!bt::contains(&tree.root, &5));
}

fn new_binary_tree() -> BinaryTree {
    // *******1*******
    // ****2*****3****
    // **4***5*6******
    BinaryTree::from_slice(&[1, 2, 3, 4, 5, 6])
}

#[test]
fn tree_pre_order_should_work() {
    let tree = new_binary_tree();

    assert_eq!(bt::pre_order(&tree.root), vec![1, 2, 4, 5, 3, 6]);
}

#[test]
fn tree_in_order_should_work() {
    let tree = new_binary_tree();

    assert_eq!(bt::in_order(&tree.root), vec![4, 2, 5, 1, 6, 3]);
}

#[test]
fn tree_post_order_should_work() {
    let tree = new_binary_tree();

    assert_eq!(bt::post_order(&tree.root), vec![4, 5, 2, 6, 3, 1]);
}

#[test]
fn search_tree_basics_should_work() {
    let mut tree = BinarySearchTree::from_slice(&[4, 2, 6, 1, 3, 5, 7]);
    assert!(tree.search(&8).is_none());

    let node = tree.search(&4);
    assert!(node.is_some());
    assert_eq!(node.unwrap().value, 4);

    tree.remove(&4);
    assert!(tree.search(&4).is_none());

    assert_eq!(tree.to_vec(), vec![1, 2, 3, 5, 6, 7]);
}

#[test]
fn avl_search_and_flatten() {
    let avl_tree = AvlTree::from_slice(&[1, 3, 4, 5, 7]);
    assert_eq!(avl_tree.to_tree().to_vec(), vec![1, 3, 4, 5, 7]);
    assert_eq!(avl_tree.search(&5).unwrap().value, 5);
    assert!(avl_tree.search(&6).is_none());
}

#[test]
fn avl_ascending_run_stays_shallow() {
    let mut avl_tree = AvlTree::new();
    let mut bst = BinarySearchTree::new();
    for v in 1..=1000 {
        avl_tree.insert(v);
    }
    for v in 1..=100 {
        bst.insert(v);
    }
    // an ascending run degrades the unbalanced tree to a chain
    let mut depth = 0;
    let mut node = bst.search(&1);
    while let Some(n) = node {
        depth += 1;
        assert!(n.left.is_none());
        node = n.right.as_deref();
    }
    assert_eq!(depth, 100);
    // 1.45 * log2(1002) - 0.33 is about 14.1; fewer than fib(17) - 1
    // values allow at most 13 levels
    assert!(avl_tree.height() <= 13);
    assert!(avl_tree.height() >= 9);
    let expected: Vec<i32> = (1..=1000).collect();
    assert_eq!(avl_tree.to_tree().to_vec(), expected);
    assert_eq!(bst.to_vec().len(), 100);
}

#[test]
fn avl_heights_after_rotations() {
    let mut avl_tree = AvlTree::new();
    assert_eq!(avl_tree.height(), -1);
    avl_tree.insert(1);
    assert_eq!(avl_tree.height(), 0);
    avl_tree.insert(2);
    avl_tree.insert(3);
    // a single left rotation makes 2 the root
    assert_eq!(avl_tree.height(), 1);
    assert_eq!(bt::pre_order(&avl_tree.to_tree().root), vec![2, 1, 3]);
    // right-left double rotation
    let t = AvlTree::from_slice(&[1, 3, 2]);
    assert_eq!(bt::pre_order(&t.to_tree().root), vec![2, 1, 3]);
    // left-right double rotation
    let t = AvlTree::from_slice(&[3, 1, 2]);
    assert_eq!(bt::pre_order(&t.to_tree().root), vec![2, 1, 3]);
    // single right rotation
    let t = AvlTree::from_slice(&[3, 2, 1]);
    assert_eq!(bt::pre_order(&t.to_tree().root), vec![2, 1, 3]);
}

#[test]
fn avl_duplicates_collapse() {
    let t = AvlTree::from_slice(&[5, 3, 5, 8, 3, 1]);
    assert_eq!(t.to_tree().to_vec(), vec![1, 3, 5, 8]);
}

#[test]
fn bst_duplicates_and_missing_remove() {
    let mut t = BinarySearchTree::from_slice(&[5, 3, 5, 8, 3, 1]);
    assert_eq!(t.to_vec(), vec![1, 3, 5, 8]);
    t.remove(&42);
    assert_eq!(t.to_vec(), vec![1, 3, 5, 8]);
    t.remove(&1);
    assert_eq!(t.to_vec(), vec![3, 5, 8]);
    t.remove(&8);
    assert_eq!(t.to_vec(), vec![3, 5]);
    t.remove(&5);
    t.remove(&3);
    assert_eq!(t.to_vec(), Vec::<i32>::new());
    assert!(t.search(&3).is_none());
}

#[test]
fn searches_agree_on_plain_tree() {
    let tree = BinaryTree::from_slice(&[2, 1, 4, 3, 6, 5, 8, 7, 0, 9]);
    assert!(bt::contains_bfs(&tree.root, &6));
    assert!(bt::contains_dfs(&tree.root, &6));
    assert!(bt::contains(&tree.root, &6));
    assert!(!bt::contains_bfs(&tree.root, &42));
    assert!(!bt::contains_dfs(&tree.root, &42));
    assert!(!bt::contains(&tree.root, &42));
    let empty = BinaryTree::new();
    assert!(!bt::contains_bfs(&empty.root, &1));
    assert!(!bt::contains_dfs(&empty.root, &1));
    assert!(!bt::contains(&empty.root, &1));
    assert_eq!(bt::in_order(&empty.root), Vec::<i32>::new());
}

#[test]
fn level_order_fills_gaps_of_converted_tree() {
    // the converted tree is 2 over 1 and 3; 1 lacks a left child
    let mut tree = AvlTree::from_slice(&[1, 2, 3]).to_tree();
    tree.insert(9);
    assert_eq!(bt::pre_order(&tree.root), vec![2, 1, 9, 3]);
}

#[test]
fn extreme_keys_are_ordered() {
    let avl = AvlTree::from_slice(&[0, i32::MAX, i32::MIN, -1, 1]);
    assert_eq!(avl.to_tree().to_vec(), vec![i32::MIN, -1, 0, 1, i32::MAX]);
    assert_eq!(avl.search(&i32::MIN).unwrap().value, i32::MIN);
    let mut bst = BinarySearchTree::from_slice(&[0, i32::MAX, i32::MIN]);
    bst.remove(&0);
    assert_eq!(bst.to_vec(), vec![i32::MIN, i32::MAX]);
}
