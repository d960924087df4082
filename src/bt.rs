//! Read-only kernels over a plain binary tree: the three depth-first
//! orders and three membership searches. The breadth-first, depth-first and
//! recursive searches each return exactly `holds(root, val)`, so all three
//! agree on every tree and every value.
use std::collections::VecDeque;
use vstd::prelude::*;

use crate::binary_tree::{holds, in_order_of, post_order_of, pre_order_of, size, TreeNode};

verus! {

/// Total node count of the subtrees waiting in a worklist.
pub open spec fn pending(q: Seq<&Box<TreeNode>>) -> nat
    decreases q.len(),
{
    if q.len() == 0 {
        0
    } else {
        size(Some(*q[0])) + pending(q.drop_first())
    }
}

/// Whether `v` is stored in one of the subtrees waiting in a worklist.
pub open spec fn pending_holds(q: Seq<&Box<TreeNode>>, v: i32) -> bool {
    exists|i: int| 0 <= i < q.len() && #[trigger] holds(Some(*q[i]), v)
}

pub(crate) proof fn lemma_pending_push(q: Seq<&Box<TreeNode>>, n: &Box<TreeNode>)
    ensures
        pending(q.push(n)) == pending(q) + size(Some(*n)),
    decreases q.len(),
{
    if q.len() > 0 {
        assert(q.push(n).drop_first() =~= q.drop_first().push(n));
        assert(q.push(n)[0] == q[0]);
        lemma_pending_push(q.drop_first(), n);
    } else {
        assert(q.push(n).drop_first() =~= Seq::<&Box<TreeNode>>::empty());
        assert(q.push(n)[0] == n);
        assert(pending(Seq::<&Box<TreeNode>>::empty()) == 0);
    }
}

/// Breadth-first membership search with a FIFO worklist.
pub fn contains_bfs(root: &Option<Box<TreeNode>>, val: &i32) -> (r: bool)
    ensures
        r == holds(*root, *val),
{
    let mut queue: VecDeque<&Box<TreeNode>> = VecDeque::new();
    if let Some(node) = root {
        queue.push_back(node);
        proof {
            assert(queue@[0] == node);
        }
    }
    loop
        invariant
            holds(*root, *val) == pending_holds(queue@, *val),
        decreases pending(queue@),
    {
        let ghost before = queue@;
        match queue.pop_front() {
            None => {
                return false;
            },
            Some(node) => {
                if node.value == *val {
                    proof {
                        assert(holds(Some(*before[0]), *val));
                    }
                    return true;
                }
                let ghost rest = queue@;
                assert(rest == before.drop_first());
                if let Some(left) = &node.left {
                    queue.push_back(left);
                    proof { lemma_pending_push(rest, left); }
                }
                let ghost mid = queue@;
                if let Some(right) = &node.right {
                    queue.push_back(right);
                    proof { lemma_pending_push(mid, right); }
                }
                proof {
                    assert(before[0] == node);
                    assert(pending(before) == size(Some(*node)) + pending(rest));
                    assert(holds(Some(*node), *val) == (holds(node.left, *val) || holds(node.right, *val)));
                    if pending_holds(before, *val) {
                        let i = choose|i: int| 0 <= i < before.len() && #[trigger] holds(Some(*before[i]), *val);
                        if i > 0 {
                            assert(queue@[i - 1] == before[i]);
                        } else if holds(node.left, *val) {
                            assert(queue@[rest.len() as int] == mid.last());
                        } else {
                            assert(queue@[mid.len() as int] == queue@.last());
                        }
                    }
                    if pending_holds(queue@, *val) {
                        let i = choose|i: int| 0 <= i < queue@.len() && #[trigger] holds(Some(*queue@[i]), *val);
                        if i < rest.len() {
                            assert(before[i + 1] == queue@[i]);
                        } else {
                            assert(holds(Some(*before[0]), *val));
                        }
                    }
                }
            },
        }
    }
}

/// Depth-first membership search with a LIFO worklist.
pub fn contains_dfs(root: &Option<Box<TreeNode>>, val: &i32) -> (r: bool)
    ensures
        r == holds(*root, *val),
{
    let mut stack: Vec<&Box<TreeNode>> = Vec::new();
    if let Some(node) = root {
        stack.push(node);
        proof {
            assert(stack@[0] == node);
        }
    }
    loop
        invariant
            holds(*root, *val) == pending_holds(stack@, *val),
        decreases pending(stack@),
    {
        let ghost before = stack@;
        match stack.pop() {
            None => {
                return false;
            },
            Some(node) => {
                let ghost rest = stack@;
                proof {
                    assert(before =~= rest.push(node));
                    lemma_pending_push(rest, node);
                }
                if node.value == *val {
                    proof {
                        assert(holds(Some(*before[rest.len() as int]), *val));
                    }
                    return true;
                }
                if let Some(left) = &node.left {
                    stack.push(left);
                    proof { lemma_pending_push(rest, left); }
                }
                let ghost mid = stack@;
                if let Some(right) = &node.right {
                    stack.push(right);
                    proof { lemma_pending_push(mid, right); }
                }
                proof {
                    assert(holds(Some(*node), *val) == (holds(node.left, *val) || holds(node.right, *val)));
                    if pending_holds(before, *val) {
                        let i = choose|i: int| 0 <= i < before.len() && #[trigger] holds(Some(*before[i]), *val);
                        if i < rest.len() {
                            assert(stack@[i] == before[i]);
                        } else if holds(node.left, *val) {
                            assert(stack@[rest.len() as int] == mid.last());
                        } else {
                            assert(stack@[mid.len() as int] == stack@.last());
                        }
                    }
                    if pending_holds(stack@, *val) {
                        let i = choose|i: int| 0 <= i < stack@.len() && #[trigger] holds(Some(*stack@[i]), *val);
                        if i < rest.len() {
                            assert(before[i] == stack@[i]);
                        } else {
                            assert(holds(Some(*before[rest.len() as int]), *val));
                        }
                    }
                }
            },
        }
    }
}

/// Recursive membership search: a match at the node, or in either subtree.
pub fn contains(root: &Option<Box<TreeNode>>, val: &i32) -> (r: bool)
    ensures
        r == holds(*root, *val),
    decreases root,
{
    match root {
        None => false,
        Some(node) => {
            if node.value == *val {
                return true;
            }
            contains(&node.left, val) || contains(&node.right, val)
        },
    }
}

/// Values in pre-order: root, left subtree, right subtree.
pub fn pre_order(root: &Option<Box<TreeNode>>) -> (r: Vec<i32>)
    ensures
        r@ == pre_order_of(*root),
{
    let mut ordered: Vec<i32> = Vec::new();
    pre_order_recursive(root, &mut ordered);
    proof {
        assert(ordered@ =~= pre_order_of(*root));
    }
    ordered
}

/// Values in in-order: left subtree, root, right subtree.
pub fn in_order(root: &Option<Box<TreeNode>>) -> (r: Vec<i32>)
    ensures
        r@ == in_order_of(*root),
{
    let mut ordered: Vec<i32> = Vec::new();
    in_order_recursive(root, &mut ordered);
    proof {
        assert(ordered@ =~= in_order_of(*root));
    }
    ordered
}

/// Values in post-order: left subtree, right subtree, root.
pub fn post_order(root: &Option<Box<TreeNode>>) -> (r: Vec<i32>)
    ensures
        r@ == post_order_of(*root),
{
    let mut ordered: Vec<i32> = Vec::new();
    post_order_recursive(root, &mut ordered);
    proof {
        assert(ordered@ =~= post_order_of(*root));
    }
    ordered
}

fn pre_order_recursive(root: &Option<Box<TreeNode>>, ordered: &mut Vec<i32>)
    ensures
        final(ordered)@ == old(ordered)@ + pre_order_of(*root),
    decreases root,
{
    if let Some(node) = root {
        ordered.push(node.value);
        pre_order_recursive(&node.left, ordered);
        pre_order_recursive(&node.right, ordered);
        proof {
            assert(final(ordered)@ =~= old(ordered)@ + pre_order_of(*root));
        }
    } else {
        proof {
            assert(ordered@ =~= old(ordered)@ + pre_order_of(*root));
        }
    }
}

fn in_order_recursive(root: &Option<Box<TreeNode>>, ordered: &mut Vec<i32>)
    ensures
        final(ordered)@ == old(ordered)@ + in_order_of(*root),
    decreases root,
{
    if let Some(node) = root {
        in_order_recursive(&node.left, ordered);
        ordered.push(node.value);
        in_order_recursive(&node.right, ordered);
        proof {
            assert(ordered@ =~= old(ordered)@ + in_order_of(*root));
        }
    } else {
        proof {
            assert(ordered@ =~= old(ordered)@ + in_order_of(*root));
        }
    }
}

fn post_order_recursive(root: &Option<Box<TreeNode>>, ordered: &mut Vec<i32>)
    ensures
        final(ordered)@ == old(ordered)@ + post_order_of(*root),
    decreases root,
{
    if let Some(node) = root {
        post_order_recursive(&node.left, ordered);
        post_order_recursive(&node.right, ordered);
        ordered.push(node.value);
        proof {
            assert(ordered@ =~= old(ordered)@ + post_order_of(*root));
        }
    } else {
        proof {
            assert(ordered@ =~= old(ordered)@ + post_order_of(*root));
        }
    }
}

} // verus!
