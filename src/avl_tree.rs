//! A self-balancing (AVL) binary search tree. After every insertion each
//! node on the insertion path has its cached height refreshed and, where
//! its two subtrees differ in height by two, is rotated back into balance.
//! Rotations change the shape but never the in-order sequence, and they
//! keep the height logarithmic in the number of values.
use vstd::prelude::*;

use crate::binary_tree::{
    holds, in_order_of, is_search_tree, lemma_holds_in_order, lemma_in_order_len, lemma_search_join,
    lemma_search_split, lemma_sorted_len, size, strictly_sorted, BinaryTree, TreeNode,
};

verus! {

/// A node of an AVL tree: a value, the cached height of its subtree, and
/// two owned children.
#[derive(Debug)]
pub struct AvlTreeNode {
    pub value: i32,
    pub height: i32,
    pub left: Option<Box<AvlTreeNode>>,
    pub right: Option<Box<AvlTreeNode>>,
}

/// The height of a subtree as computed from its shape: -1 when absent, 0
/// for a leaf.
pub open spec fn avl_height(t: Option<Box<AvlTreeNode>>) -> int
    decreases t,
{
    match t {
        None => -1,
        Some(n) => {
            let hl = avl_height(n.left);
            let hr = avl_height(n.right);
            1 + if hl >= hr { hl } else { hr }
        },
    }
}

/// The cached height: -1 when absent, else the node's height field.
pub open spec fn cached_height(t: Option<Box<AvlTreeNode>>) -> int {
    match t {
        None => -1,
        Some(n) => n.height as int,
    }
}

/// The node's height field agrees with its shape.
pub open spec fn cached(t: Option<Box<AvlTreeNode>>) -> bool {
    cached_height(t) == avl_height(t)
}

/// Every node has a correct cached height and a balance factor in [-1, 1].
pub open spec fn balanced(t: Option<Box<AvlTreeNode>>) -> bool
    decreases t,
{
    match t {
        None => true,
        Some(n) => {
            &&& cached(t)
            &&& -1 <= avl_height(n.left) - avl_height(n.right) <= 1
            &&& balanced(n.left)
            &&& balanced(n.right)
        },
    }
}

/// The same shape and values with the heights dropped.
pub open spec fn plain(t: Option<Box<AvlTreeNode>>) -> Option<Box<TreeNode>>
    decreases t,
{
    match t {
        None => None,
        Some(n) => Some(Box::new(TreeNode { value: n.value, left: plain(n.left), right: plain(n.right) })),
    }
}

/// A node over two subtrees with its height computed from them.
pub open spec fn mk(v: i32, l: Option<Box<AvlTreeNode>>, r: Option<Box<AvlTreeNode>>) -> Box<AvlTreeNode> {
    let hl = avl_height(l);
    let hr = avl_height(r);
    Box::new(AvlTreeNode { value: v, height: (1 + if hl >= hr { hl } else { hr }) as i32, left: l, right: r })
}

pub proof fn lemma_height_floor(t: Option<Box<AvlTreeNode>>)
    ensures
        avl_height(t) >= -1,
        t is Some ==> avl_height(t) >= 0,
    decreases t,
{
    if let Some(n) = t {
        lemma_height_floor(n.left);
        lemma_height_floor(n.right);
    }
}

/// A balanced tree's root has a correct cached height.
proof fn lemma_balanced_cached(t: Option<Box<AvlTreeNode>>)
    requires
        balanced(t),
    ensures
        cached(t),
{
}

pub open spec fn max_of(a: int, b: int) -> int {
    if a >= b {
        a
    } else {
        b
    }
}

/// Left cached height minus right cached height; 0 when absent.
pub open spec fn cached_bf(t: Option<Box<AvlTreeNode>>) -> int {
    match t {
        None => 0,
        Some(n) => cached_height(n.left) - cached_height(n.right),
    }
}

/// The result of a right rotation at `n`: its left child promoted over `n`,
/// which keeps the child's right subtree as its left one.
pub open spec fn rotated_right(n: Box<AvlTreeNode>) -> Box<AvlTreeNode> {
    let l = n.left.unwrap();
    mk(l.value, l.left, Some(mk(n.value, l.right, n.right)))
}

/// The result of a left rotation at `n`: the mirror image of
/// `rotated_right`.
pub open spec fn rotated_left(n: Box<AvlTreeNode>) -> Box<AvlTreeNode> {
    let rt = n.right.unwrap();
    mk(rt.value, Some(mk(n.value, n.left, rt.left)), rt.right)
}

/// What `rotate` makes of a node whose balance factor is 2 or -2, by the
/// decision table in `rotate`.
pub open spec fn rebalanced(n: Box<AvlTreeNode>) -> Box<AvlTreeNode> {
    if bf(Some(n)) > 1 {
        if bf(n.left) >= 0 {
            rotated_right(n)
        } else {
            rotated_right(
                Box::new(
                    AvlTreeNode {
                        value: n.value,
                        height: n.height,
                        left: Some(rotated_left(n.left.unwrap())),
                        right: n.right,
                    },
                ),
            )
        }
    } else if bf(n.right) <= 0 {
        rotated_left(n)
    } else {
        rotated_left(
            Box::new(
                AvlTreeNode {
                    value: n.value,
                    height: n.height,
                    left: n.left,
                    right: Some(rotated_right(n.right.unwrap())),
                },
            ),
        )
    }
}

/// Left height minus right height; 0 when absent.
pub open spec fn bf(t: Option<Box<AvlTreeNode>>) -> int {
    match t {
        None => 0,
        Some(n) => avl_height(n.left) - avl_height(n.right),
    }
}

proof fn lemma_plain_in_order(n: Box<AvlTreeNode>)
    ensures
        in_order_of(plain(Some(n))) == in_order_of(plain(n.left)) + seq![n.value] + in_order_of(plain(n.right)),
{
}

/// 2 to the power `n`.
pub open spec fn two_pow(n: nat) -> nat
    decreases n,
{
    if n == 0 {
        1
    } else {
        2 * two_pow((n - 1) as nat)
    }
}

proof fn lemma_two_pow_mono(a: nat, b: nat)
    requires
        a <= b,
    ensures
        two_pow(a) <= two_pow(b),
    decreases b,
{
    if a < b {
        lemma_two_pow_mono(a, (b - 1) as nat);
    }
}

/// A balanced tree of height `h` has at least 2^((h + 1) / 2) - 1 nodes.
proof fn lemma_avl_size(t: Option<Box<AvlTreeNode>>)
    requires
        balanced(t),
    ensures
        size(plain(t)) + 1 >= two_pow(((avl_height(t) + 1) / 2) as nat),
    decreases t,
{
    if let Some(n) = t {
        lemma_avl_size(n.left);
        lemma_avl_size(n.right);
        lemma_height_floor(n.left);
        lemma_height_floor(n.right);
        let hl = avl_height(n.left);
        let hr = avl_height(n.right);
        let a = if hl >= hr { hl } else { hr };
        let b = if hl >= hr { hr } else { hl };
        assert(size(plain(t)) == 1 + size(plain(n.left)) + size(plain(n.right)));
        if a >= 0 {
            lemma_two_pow_mono((a / 2) as nat, ((a + 1) / 2) as nat);
            lemma_two_pow_mono((a / 2) as nat, ((b + 1) / 2) as nat);
            assert(two_pow((a / 2 + 1) as nat) == 2 * two_pow((a / 2) as nat));
            assert((avl_height(t) + 1) / 2 == a / 2 + 1);
        } else {
            assert(avl_height(t) == 0);
            assert(two_pow(0) == 1);
        }
    }
}

/// An AVL search tree of `i32` values is at most 64 levels deep: it holds
/// at most 2^32 distinct values.
proof fn lemma_avl_height_bound(t: Option<Box<AvlTreeNode>>)
    requires
        balanced(t),
        is_search_tree(plain(t)),
    ensures
        avl_height(t) <= 64,
{
    lemma_avl_size(t);
    lemma_in_order_len(plain(t));
    lemma_sorted_len(in_order_of(plain(t)));
    lemma_height_floor(t);
    if avl_height(t) > 64 {
        lemma_two_pow_mono(33, ((avl_height(t) + 1) / 2) as nat);
        assert(two_pow(33) == 0x2_0000_0000) by {
            reveal_with_fuel(two_pow, 34);
        }
    }
}

impl AvlTreeNode {
    fn new(val: i32) -> (r: Self)
        ensures
            r.value == val,
            r.height == 0,
            r.left is None,
            r.right is None,
    {
        AvlTreeNode { value: val, height: 0, left: None, right: None }
    }

    fn new_node_rc(val: i32) -> (r: Box<AvlTreeNode>)
        ensures
            r.value == val,
            r.height == 0,
            r.left is None,
            r.right is None,
    {
        Box::new(Self::new(val))
    }
}

impl Default for AvlTreeNode {
    fn default() -> (r: Self)
        ensures
            r.value == 0,
            r.height == 0,
            r.left is None,
            r.right is None,
    {
        Self::new(0)
    }
}

/// The cached height of a subtree; -1 when absent.
fn height(node: &Option<Box<AvlTreeNode>>) -> (r: i32)
    ensures
        r == cached_height(*node),
{
    match node {
        Some(n) => n.height,
        None => -1,
    }
}

/// Recomputes a node's height as one more than the larger cached height
/// of its children; nothing else changes.
fn update_height(node: &mut Box<AvlTreeNode>)
    requires
        cached_height(old(node).left) < i32::MAX,
        cached_height(old(node).right) < i32::MAX,
    ensures
        final(node).height == 1 + max_of(cached_height(old(node).left), cached_height(old(node).right)),
        final(node).value == old(node).value,
        final(node).left == old(node).left,
        final(node).right == old(node).right,
        cached(old(node).left) && cached(old(node).right) ==> *final(node) == mk(
            old(node).value,
            old(node).left,
            old(node).right,
        ),
{
    let left_height = height(&node.left);
    let right_height = height(&node.right);
    node.height = if left_height >= right_height { left_height } else { right_height } + 1;
}

/// Left height minus right height of a node, from the cached heights; 0
/// for an absent node.
fn balance_factor(node: &Option<Box<AvlTreeNode>>) -> (r: i32)
    requires
        node is Some ==> i32::MIN <= cached_height(node.unwrap().left) - cached_height(node.unwrap().right)
            <= i32::MAX,
    ensures
        r == cached_bf(*node),
{
    match node {
        Some(n) => height(&n.left) - height(&n.right),
        None => 0,
    }
}

/// Promotes the left child: it becomes the root, and the old root takes
/// the child's right subtree as its new left subtree. The old root's
/// height is recomputed first, then the child's.
fn right_rotate(node: Box<AvlTreeNode>) -> (r: Box<AvlTreeNode>)
    requires
        node.left is Some,
        cached(node.right),
        cached(node.left.unwrap().left),
        cached(node.left.unwrap().right),
        avl_height(node.right) < i32::MAX - 1,
        avl_height(node.left.unwrap().left) < i32::MAX - 1,
        avl_height(node.left.unwrap().right) < i32::MAX - 1,
    ensures
        r == rotated_right(node),
{
    let ghost x = node.left.unwrap();
    let mut node = node;
    let mut child = node.left.take().unwrap();
    node.left = child.right.take();
    proof {
        lemma_height_floor(x.right);
        lemma_height_floor(node.right);
    }
    update_height(&mut node);
    child.right = Some(node);
    update_height(&mut child);
    child
}

/// Promotes the right child: the mirror image of `right_rotate`.
fn left_rotate(node: Box<AvlTreeNode>) -> (r: Box<AvlTreeNode>)
    requires
        node.right is Some,
        cached(node.left),
        cached(node.right.unwrap().left),
        cached(node.right.unwrap().right),
        avl_height(node.left) < i32::MAX - 1,
        avl_height(node.right.unwrap().left) < i32::MAX - 1,
        avl_height(node.right.unwrap().right) < i32::MAX - 1,
    ensures
        r == rotated_left(node),
{
    let ghost x = node.right.unwrap();
    let mut node = node;
    let mut child = node.right.take().unwrap();
    node.right = child.left.take();
    proof {
        lemma_height_floor(x.left);
        lemma_height_floor(node.left);
    }
    update_height(&mut node);
    child.left = Some(node);
    update_height(&mut child);
    child
}

/// A single right rotation repairs a left-heavy node whose left child is
/// not right-heavy.
proof fn lemma_rotate_right_single(n: Box<AvlTreeNode>)
    requires
        balanced(n.left),
        balanced(n.right),
        bf(Some(n)) == 2,
        bf(n.left) >= 0,
        avl_height(Some(n)) < i32::MAX,
    ensures
        n.left is Some,
        ({
            let l = n.left.unwrap();
            let r = mk(l.value, l.left, Some(mk(n.value, l.right, n.right)));
            &&& balanced(Some(r))
            &&& avl_height(Some(n)) - 1 <= avl_height(Some(r)) <= avl_height(Some(n))
            &&& in_order_of(plain(Some(r))) == in_order_of(plain(Some(n)))
        }),
{
    lemma_height_floor(n.left);
    lemma_height_floor(n.right);
    let l = n.left.unwrap();
    lemma_height_floor(l.left);
    lemma_height_floor(l.right);
    let inner = mk(n.value, l.right, n.right);
    let r = mk(l.value, l.left, Some(inner));
    assert(balanced(Some(inner)));
    lemma_plain_in_order(n);
    lemma_plain_in_order(l);
    lemma_plain_in_order(r);
    lemma_plain_in_order(inner);
    assert(in_order_of(plain(Some(r))) =~= in_order_of(plain(Some(n))));
}

/// A left rotation of the left child followed by a right rotation repairs
/// a left-heavy node whose left child is right-heavy.
proof fn lemma_rotate_right_double(n: Box<AvlTreeNode>)
    requires
        balanced(n.left),
        balanced(n.right),
        bf(Some(n)) == 2,
        bf(n.left) < 0,
        avl_height(Some(n)) < i32::MAX,
    ensures
        n.left is Some,
        n.left.unwrap().right is Some,
        ({
            let l = n.left.unwrap();
            let lr = l.right.unwrap();
            let r = mk(lr.value, Some(mk(l.value, l.left, lr.left)), Some(mk(n.value, lr.right, n.right)));
            &&& balanced(Some(r))
            &&& avl_height(Some(n)) - 1 <= avl_height(Some(r)) <= avl_height(Some(n))
            &&& in_order_of(plain(Some(r))) == in_order_of(plain(Some(n)))
        }),
{
    lemma_height_floor(n.left);
    lemma_height_floor(n.right);
    let l = n.left.unwrap();
    lemma_height_floor(l.left);
    lemma_height_floor(l.right);
    assert(balanced(l.right));
    let lr = l.right.unwrap();
    assert(balanced(lr.left) && balanced(lr.right));
    lemma_height_floor(lr.left);
    lemma_height_floor(lr.right);
    let a = mk(l.value, l.left, lr.left);
    let b = mk(n.value, lr.right, n.right);
    let r = mk(lr.value, Some(a), Some(b));
    assert(balanced(Some(a)));
    assert(balanced(Some(b)));
    lemma_plain_in_order(n);
    lemma_plain_in_order(l);
    lemma_plain_in_order(lr);
    lemma_plain_in_order(r);
    lemma_plain_in_order(a);
    lemma_plain_in_order(b);
    assert(in_order_of(plain(Some(r))) =~= in_order_of(plain(Some(n))));
}

/// Mirror image of `lemma_rotate_right_single`.
proof fn lemma_rotate_left_single(n: Box<AvlTreeNode>)
    requires
        balanced(n.left),
        balanced(n.right),
        bf(Some(n)) == -2,
        bf(n.right) <= 0,
        avl_height(Some(n)) < i32::MAX,
    ensures
        n.right is Some,
        ({
            let rt = n.right.unwrap();
            let r = mk(rt.value, Some(mk(n.value, n.left, rt.left)), rt.right);
            &&& balanced(Some(r))
            &&& avl_height(Some(n)) - 1 <= avl_height(Some(r)) <= avl_height(Some(n))
            &&& in_order_of(plain(Some(r))) == in_order_of(plain(Some(n)))
        }),
{
    lemma_height_floor(n.left);
    lemma_height_floor(n.right);
    let rt = n.right.unwrap();
    lemma_height_floor(rt.left);
    lemma_height_floor(rt.right);
    let inner = mk(n.value, n.left, rt.left);
    let r = mk(rt.value, Some(inner), rt.right);
    assert(balanced(Some(inner)));
    lemma_plain_in_order(n);
    lemma_plain_in_order(rt);
    lemma_plain_in_order(r);
    lemma_plain_in_order(inner);
    assert(in_order_of(plain(Some(r))) =~= in_order_of(plain(Some(n))));
}

/// Mirror image of `lemma_rotate_right_double`.
proof fn lemma_rotate_left_double(n: Box<AvlTreeNode>)
    requires
        balanced(n.left),
        balanced(n.right),
        bf(Some(n)) == -2,
        bf(n.right) > 0,
        avl_height(Some(n)) < i32::MAX,
    ensures
        n.right is Some,
        n.right.unwrap().left is Some,
        ({
            let rt = n.right.unwrap();
            let rl = rt.left.unwrap();
            let r = mk(rl.value, Some(mk(n.value, n.left, rl.left)), Some(mk(rt.value, rl.right, rt.right)));
            &&& balanced(Some(r))
            &&& avl_height(Some(n)) - 1 <= avl_height(Some(r)) <= avl_height(Some(n))
            &&& in_order_of(plain(Some(r))) == in_order_of(plain(Some(n)))
        }),
{
    lemma_height_floor(n.left);
    lemma_height_floor(n.right);
    let rt = n.right.unwrap();
    lemma_height_floor(rt.left);
    lemma_height_floor(rt.right);
    assert(balanced(rt.left));
    let rl = rt.left.unwrap();
    assert(balanced(rl.left) && balanced(rl.right));
    lemma_height_floor(rl.left);
    lemma_height_floor(rl.right);
    let a = mk(n.value, n.left, rl.left);
    let b = mk(rt.value, rl.right, rt.right);
    let r = mk(rl.value, Some(a), Some(b));
    assert(balanced(Some(a)));
    assert(balanced(Some(b)));
    lemma_plain_in_order(n);
    lemma_plain_in_order(rt);
    lemma_plain_in_order(rl);
    lemma_plain_in_order(r);
    lemma_plain_in_order(a);
    lemma_plain_in_order(b);
    assert(in_order_of(plain(Some(r))) =~= in_order_of(plain(Some(n))));
}

/// Restores balance at a node whose balance factor is off by at most one
/// step:
///   left-heavy,  left child not right-heavy:  right rotation;
///   left-heavy,  left child right-heavy:      left rotation of the child, then right rotation;
///   right-heavy, right child not left-heavy:  left rotation;
///   right-heavy, right child left-heavy:      right rotation of the child, then left rotation;
///   otherwise the node is returned unchanged.
fn rotate(node: Option<Box<AvlTreeNode>>) -> (r: Option<Box<AvlTreeNode>>)
    requires
        node is Some ==> i32::MIN <= cached_bf(node) <= i32::MAX,
        node is Some && (cached_bf(node) > 1 || cached_bf(node) < -1) ==> {
            &&& balanced(node.unwrap().left)
            &&& balanced(node.unwrap().right)
            &&& -2 <= bf(node) <= 2
            &&& avl_height(node) < i32::MAX
        },
    ensures
        -1 <= cached_bf(node) <= 1 ==> r == node,
        cached_bf(node) > 1 || cached_bf(node) < -1 ==> {
            &&& r == Some(rebalanced(node.unwrap()))
            &&& balanced(r)
            &&& in_order_of(plain(r)) == in_order_of(plain(node))
            &&& avl_height(node) - 1 <= avl_height(r) <= avl_height(node)
        },
{
    if node.is_none() {
        return node;
    }
    let ghost n = node.unwrap();
    proof {
        if cached_bf(node) > 1 || cached_bf(node) < -1 {
            lemma_height_floor(n.left);
            lemma_height_floor(n.right);
            lemma_balanced_cached(n.left);
            lemma_balanced_cached(n.right);
        }
    }
    let factor = balance_factor(&node);
    if factor > 1 {
        let mut node = node.unwrap();
        let ghost l = node.left.unwrap();
        proof {
            lemma_height_floor(l.left);
            lemma_height_floor(l.right);
            lemma_balanced_cached(l.left);
            lemma_balanced_cached(l.right);
        }
        if balance_factor(&node.left) >= 0 {
            proof {
                lemma_rotate_right_single(n);
            }
            Some(right_rotate(node))
        } else {
            proof {
                lemma_rotate_right_double(n);
                assert(balanced(l.right));
                let lr = l.right.unwrap();
                assert(balanced(lr.left) && balanced(lr.right));
                lemma_height_floor(lr.left);
                lemma_height_floor(lr.right);
                lemma_balanced_cached(lr.left);
                lemma_balanced_cached(lr.right);
            }
            let left = node.left.take().unwrap();
            node.left = Some(left_rotate(left));
            Some(right_rotate(node))
        }
    } else if factor < -1 {
        let mut node = node.unwrap();
        let ghost rt = node.right.unwrap();
        proof {
            lemma_height_floor(rt.left);
            lemma_height_floor(rt.right);
            lemma_balanced_cached(rt.left);
            lemma_balanced_cached(rt.right);
        }
        if balance_factor(&node.right) <= 0 {
            proof {
                lemma_rotate_left_single(n);
            }
            Some(left_rotate(node))
        } else {
            proof {
                lemma_rotate_left_double(n);
                assert(balanced(rt.left));
                let rl = rt.left.unwrap();
                assert(balanced(rl.left) && balanced(rl.right));
                lemma_height_floor(rl.left);
                lemma_height_floor(rl.right);
                lemma_balanced_cached(rl.left);
                lemma_balanced_cached(rl.right);
            }
            let right = node.right.take().unwrap();
            node.right = Some(right_rotate(right));
            Some(left_rotate(node))
        }
    } else {
        node
    }
}

proof fn lemma_leaf(r: Box<AvlTreeNode>)
    requires
        r.height == 0,
        r.left is None,
        r.right is None,
    ensures
        balanced(Some(r)),
        is_search_tree(plain(Some(r))),
        forall|x: i32| holds(plain(Some(r)), x) == (x == r.value),
        avl_height(Some(r)) == 0,
{
    assert(avl_height(r.left) == -1);
    assert(avl_height(r.right) == -1);
    assert(balanced(r.left) && balanced(r.right));
    assert(plain(r.left) == None::<Box<TreeNode>>);
    assert(plain(r.right) == None::<Box<TreeNode>>);
    assert(plain(Some(r)) == Some(Box::new(TreeNode { value: r.value, left: None, right: None })));
    lemma_search_join(None, r.value, None);
    assert forall|x: i32| holds(plain(Some(r)), x) == (x == r.value) by {
        assert(!holds(None::<Box<TreeNode>>, x));
        assert(holds(plain(Some(r)), x) == (r.value == x || holds(None, x) || holds(None, x)));
    }
}

/// Inserts `val` below `node` and rebalances every node on the way back up;
/// returns the new subtree root.
fn insert_recursive(node: Option<Box<AvlTreeNode>>, val: i32) -> (r: Option<Box<AvlTreeNode>>)
    requires
        balanced(node),
        is_search_tree(plain(node)),
        avl_height(node) < i32::MAX - 1,
    ensures
        r is Some,
        holds(plain(node), val) ==> r == node,
        balanced(r),
        is_search_tree(plain(r)),
        forall|x: i32| holds(plain(r), x) == (holds(plain(node), x) || x == val),
        avl_height(node) <= avl_height(r) <= avl_height(node) + 1,
    decreases node,
{
    match node {
        None => {
            let r = AvlTreeNode::new_node_rc(val);
            let res = Some(r);
            proof {
                lemma_leaf(r);
                assert(plain(node) == None::<Box<TreeNode>>);
                assert forall|x: i32| holds(plain(res), x) == (holds(plain(node), x) || x == val) by {
                    assert(!holds(None::<Box<TreeNode>>, x));
                    assert(holds(plain(res), x) == (x == val));
                }
            }
            res
        },
        Some(mut n) => {
            let ghost old_n = n;
            proof {
                lemma_height_floor(n.left);
                lemma_height_floor(n.right);
                lemma_search_split(plain(node).unwrap());
                assert(plain(node) == Some(Box::new(TreeNode { value: n.value, left: plain(n.left), right: plain(n.right) })));
                assert(holds(plain(node), val) == (n.value == val || holds(plain(n.left), val) || holds(plain(n.right), val)));
            }
            if n.value == val {
                proof {
                    assert(plain(node) == Some(Box::new(TreeNode { value: n.value, left: plain(n.left), right: plain(n.right) })));
                    assert(holds(plain(node), val));
                    assert forall|x: i32| holds(plain(Some(n)), x) == (holds(plain(node), x) || x == val) by {}
                }
                return Some(n);
            } else if n.value > val {
                let left = n.left.take();
                n.left = insert_recursive(left, val);
            } else {
                let right = n.right.take();
                n.right = insert_recursive(right, val);
            }
            let ghost pl = plain(n.left);
            let ghost pr = plain(n.right);
            proof {
                lemma_search_join(pl, n.value, pr);
                lemma_height_floor(n.left);
                lemma_height_floor(n.right);
                lemma_balanced_cached(n.left);
                lemma_balanced_cached(n.right);
            }
            update_height(&mut n);
            proof {
                assert(plain(Some(n)) == Some(Box::new(TreeNode { value: n.value, left: pl, right: pr })));
            }
            let ghost before_rotate = Some(n);
            proof {
                if holds(plain(node), val) {
                    assert(n.left == old_n.left && n.right == old_n.right);
                    assert(n == old_n);
                }
            }
            let r = rotate(Some(n));
            proof {
                lemma_holds_in_order(plain(r));
                lemma_holds_in_order(plain(before_rotate));
                assert forall|x: i32| holds(plain(r), x) == (holds(plain(node), x) || x == val) by {
                    assert(holds(plain(r), x) == in_order_of(plain(r)).contains(x));
                    assert(holds(plain(before_rotate), x) == in_order_of(plain(before_rotate)).contains(x));
                    assert(in_order_of(plain(r)) == in_order_of(plain(before_rotate)));
                    assert(holds(plain(before_rotate), x) == (n.value == x || holds(pl, x) || holds(pr, x)));
                    assert(holds(plain(node), x) == (old_n.value == x || holds(plain(old_n.left), x)
                        || holds(plain(old_n.right), x)));
                }
            }
            r
        },
    }
}

/// A copy of the tree's shape and values as a plain binary tree.
fn clone_tree(node: &Option<Box<AvlTreeNode>>) -> (r: Option<Box<TreeNode>>)
    ensures
        r == plain(*node),
    decreases node,
{
    match node {
        None => None,
        Some(n) => Some(
            Box::new(TreeNode { left: clone_tree(&n.left), value: n.value, right: clone_tree(&n.right) }),
        ),
    }
}

/// The subtree where the search descent for `v` stops at a node holding
/// `v`; `None` when it runs off the tree.
pub open spec fn avl_find(t: Option<Box<AvlTreeNode>>, v: i32) -> Option<Box<AvlTreeNode>>
    decreases t,
{
    match t {
        None => None,
        Some(n) => if v == n.value {
            t
        } else if v < n.value {
            avl_find(n.left, v)
        } else {
            avl_find(n.right, v)
        },
    }
}

/// A self-balancing binary search tree; duplicates are ignored.
pub struct AvlTree {
    root: Option<Box<AvlTreeNode>>,
}

impl Default for AvlTree {
    fn default() -> (r: Self)
        ensures
            r.wf(),
            r@ == Set::<i32>::empty(),
    {
        Self::new()
    }
}

impl View for AvlTree {
    type V = Set<i32>;

    open spec fn view(&self) -> Set<i32> {
        Set::new(|x: i32| holds(plain(self.spec_root()), x))
    }
}

impl AvlTree {
    /// The root of the node structure.
    pub closed spec fn spec_root(&self) -> Option<Box<AvlTreeNode>> {
        self.root
    }

    /// Balanced with correct cached heights, and ordered as a search tree.
    pub open spec fn wf(&self) -> bool {
        balanced(self.spec_root()) && is_search_tree(plain(self.spec_root()))
    }

    /// The stored values in in-order.
    pub open spec fn in_order(&self) -> Seq<i32> {
        in_order_of(plain(self.spec_root()))
    }

    pub fn new() -> (r: Self)
        ensures
            r.wf(),
            r@ == Set::<i32>::empty(),
    {
        let r = AvlTree { root: None };
        proof {
            assert(plain(r.root) == None::<Box<TreeNode>>);
            assert(r@ =~= Set::<i32>::empty());
        }
        r
    }

    /// The tree's shape and values as a plain binary tree, heights dropped.
    pub fn to_tree(&self) -> (r: BinaryTree)
        ensures
            r.root == plain(self.spec_root()),
    {
        BinaryTree { root: clone_tree(&self.root) }
    }

    /// Adds `val` and rebalances; a value already present is ignored.
    pub fn insert(&mut self, val: i32)
        requires
            old(self).wf(),
        ensures
            final(self).wf(),
            final(self)@ == old(self)@.insert(val),
            old(self)@.contains(val) ==> final(self).spec_root() == old(self).spec_root(),
    {
        proof {
            lemma_avl_height_bound(self.root);
        }
        let root = self.root.take();
        self.root = insert_recursive(root, val);
        proof {
            assert(self@ =~= old(self)@.insert(val));
        }
    }

    /// The node holding `target`, found by descending from the root.
    pub fn search(&self, target: &i32) -> (r: Option<&AvlTreeNode>)
        requires
            self.wf(),
        ensures
            r is Some <==> self@.contains(*target),
            r is Some ==> r.unwrap().value == *target,
            r is Some ==> avl_find(self.spec_root(), *target) == Some(Box::new(*r.unwrap())),
            r is None ==> avl_find(self.spec_root(), *target) is None,
    {
        let mut current = &self.root;
        loop
            invariant
                is_search_tree(plain(*current)),
                holds(plain(self.root), *target) == holds(plain(*current), *target),
                avl_find(self.root, *target) == avl_find(*current, *target),
            decreases size(plain(*current)),
        {
            match current {
                None => {
                    return None;
                },
                Some(node) => {
                    proof {
                        let p = plain(*current).unwrap();
                        assert(p == Box::new(TreeNode { value: node.value, left: plain(node.left), right: plain(node.right) }));
                        lemma_search_split(p);
                        assert(holds(plain(*current), *target) == (node.value == *target || holds(plain(node.left), *target)
                            || holds(plain(node.right), *target)));
                    }
                    if *target == node.value {
                        return Some(&**node);
                    } else if *target < node.value {
                        current = &node.left;
                    } else {
                        current = &node.right;
                    }
                },
            }
        }
    }

    /// The height of the tree: -1 when empty, 0 for a single node.
    pub fn height(&self) -> (r: i32)
        requires
            self.wf(),
        ensures
            r == avl_height(self.spec_root()),
    {
        proof {
            lemma_balanced_cached(self.root);
        }
        height(&self.root)
    }

    /// A tree built by inserting each of `values` in turn.
    pub fn from_slice(values: &[i32]) -> (r: Self)
        ensures
            r.wf(),
            r@ == values@.to_set(),
    {
        let mut tree = AvlTree::new();
        let mut i: usize = 0;
        while i < values.len()
            invariant
                i <= values@.len(),
                tree.wf(),
                tree@ == values@.subrange(0, i as int).to_set(),
            decreases values@.len() - i,
        {
            tree.insert(values[i]);
            proof {
                assert(values@.subrange(0, i + 1) =~= values@.subrange(0, i as int).push(values@[i as int]));
                values@.subrange(0, i as int).lemma_push_to_set_commute(values@[i as int]);
            }
            i = i + 1;
        }
        proof {
            assert(values@.subrange(0, values@.len() as int) =~= values@);
        }
        tree
    }
}

/// After any sequence of insertions every node of an AVL tree has a cached
/// height equal to one more than the larger of its children's heights and
/// a balance factor in [-1, 1]; its in-order sequence is strictly
/// ascending and lists exactly the stored values.
pub proof fn lemma_avl_invariant(tree: &AvlTree)
    requires
        tree.wf(),
    ensures
        balanced(tree.spec_root()),
        strictly_sorted(tree.in_order()),
        forall|x: i32| tree.in_order().contains(x) <==> tree@.contains(x),
{
    lemma_holds_in_order(plain(tree.spec_root()));
}

/// An AVL tree built from `values`, flattened to a plain tree and read in
/// order, lists the distinct values in strictly ascending order.
pub proof fn lemma_flatten_round_trip(tree: &AvlTree, values: Seq<i32>)
    requires
        tree.wf(),
        tree@ == values.to_set(),
    ensures
        strictly_sorted(in_order_of(plain(tree.spec_root()))),
        forall|x: i32| in_order_of(plain(tree.spec_root())).contains(x) <==> values.contains(x),
{
    lemma_holds_in_order(plain(tree.spec_root()));
    assert forall|x: i32| in_order_of(plain(tree.spec_root())).contains(x) <==> values.contains(x) by {
        assert(tree@.contains(x) == holds(plain(tree.spec_root()), x));
        assert(values.to_set().contains(x) == values.contains(x));
    }
}

/// The Fibonacci numbers: 0, 1, 1, 2, 3, 5, ...
pub open spec fn fib(n: nat) -> nat
    decreases n,
{
    if n < 2 {
        n
    } else {
        fib((n - 1) as nat) + fib((n - 2) as nat)
    }
}

proof fn lemma_fib_mono(a: nat, b: nat)
    requires
        a <= b,
    ensures
        fib(a) <= fib(b),
    decreases b,
{
    if a < b {
        lemma_fib_mono(a, (b - 1) as nat);
        if b >= 2 {
            assert(fib(b) == fib((b - 1) as nat) + fib((b - 2) as nat));
        }
    }
}

proof fn lemma_avl_size_fib(t: Option<Box<AvlTreeNode>>)
    requires
        balanced(t),
    ensures
        size(plain(t)) + 1 >= fib((avl_height(t) + 3) as nat),
    decreases t,
{
    lemma_height_floor(t);
    if let Some(n) = t {
        lemma_avl_size_fib(n.left);
        lemma_avl_size_fib(n.right);
        lemma_height_floor(n.left);
        lemma_height_floor(n.right);
        let h = avl_height(t);
        let hl = avl_height(n.left);
        let hr = avl_height(n.right);
        assert(size(plain(t)) == 1 + size(plain(n.left)) + size(plain(n.right)));
        lemma_fib_mono((h + 1) as nat, (hl + 3) as nat);
        lemma_fib_mono((h + 1) as nat, (hr + 3) as nat);
        if hl >= hr {
            assert(hl + 3 == h + 2);
        } else {
            assert(hr + 3 == h + 2);
        }
        assert(fib((h + 3) as nat) == fib((h + 2) as nat) + fib((h + 1) as nat));
    } else {
        assert(fib(2) == 1) by {
            reveal_with_fuel(fib, 3);
        }
    }
}

/// An AVL tree of height `h` holds at least `fib(h + 3) - 1` values, so its
/// height is below about 1.44 log2(n + 2): a tree of 1000 values, which
/// is fewer than `fib(17) - 1`, has height at most 13.
pub proof fn lemma_avl_height_fibonacci(tree: &AvlTree)
    requires
        tree.wf(),
    ensures
        fib((avl_height(tree.spec_root()) + 3) as nat) <= tree.in_order().len() + 1,
{
    lemma_avl_size_fib(tree.spec_root());
    lemma_in_order_len(plain(tree.spec_root()));
}

/// An AVL tree of height `h` holds at least 2^((h + 1) / 2) - 1 values, so
/// its height grows only logarithmically with its size.
pub proof fn lemma_avl_height_logarithmic(tree: &AvlTree)
    requires
        tree.wf(),
    ensures
        two_pow(((avl_height(tree.spec_root()) + 1) / 2) as nat) <= tree.in_order().len() + 1,
        avl_height(tree.spec_root()) <= 64,
{
    lemma_avl_size(tree.spec_root());
    lemma_in_order_len(plain(tree.spec_root()));
    lemma_avl_height_bound(tree.spec_root());
}

} // verus!
