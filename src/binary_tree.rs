//! Binary trees of owned nodes: a plain tree filled in level order, and an
//! unbalanced binary search tree. Both are modelled by the node structure
//! itself, read through the spec functions below.
use std::collections::VecDeque;
use vstd::prelude::*;

use crate::bt;

verus! {

/// A node of a plain binary tree: a value and two owned children.
#[derive(Debug)]
pub struct TreeNode {
    pub value: i32,
    pub left: Option<Box<TreeNode>>,
    pub right: Option<Box<TreeNode>>,
}

/// Whether `v` is stored anywhere in the tree rooted at `t`.
pub open spec fn holds(t: Option<Box<TreeNode>>, v: i32) -> bool
    decreases t,
{
    match t {
        None => false,
        Some(n) => n.value == v || holds(n.left, v) || holds(n.right, v),
    }
}

/// Number of nodes in the tree rooted at `t`.
pub open spec fn size(t: Option<Box<TreeNode>>) -> nat
    decreases t,
{
    match t {
        None => 0,
        Some(n) => 1 + size(n.left) + size(n.right),
    }
}

/// Values visited root, left subtree, right subtree.
pub open spec fn pre_order_of(t: Option<Box<TreeNode>>) -> Seq<i32>
    decreases t,
{
    match t {
        None => Seq::empty(),
        Some(n) => seq![n.value] + pre_order_of(n.left) + pre_order_of(n.right),
    }
}

/// Values visited left subtree, root, right subtree.
pub open spec fn in_order_of(t: Option<Box<TreeNode>>) -> Seq<i32>
    decreases t,
{
    match t {
        None => Seq::empty(),
        Some(n) => in_order_of(n.left) + seq![n.value] + in_order_of(n.right),
    }
}

/// Values visited left subtree, right subtree, root.
pub open spec fn post_order_of(t: Option<Box<TreeNode>>) -> Seq<i32>
    decreases t,
{
    match t {
        None => Seq::empty(),
        Some(n) => post_order_of(n.left) + post_order_of(n.right) + seq![n.value],
    }
}

/// The subtree found by following `p` from `t` (`false` = left, `true` = right).
pub open spec fn node_at(t: Option<Box<TreeNode>>, p: Seq<bool>) -> Option<Box<TreeNode>>
    decreases p.len(),
{
    if p.len() == 0 {
        t
    } else {
        match t {
            None => None,
            Some(n) => node_at(if p[0] { n.right } else { n.left }, p.drop_first()),
        }
    }
}

/// `p` names an empty position of `t` whose parent position holds a node.
pub open spec fn free_slot(t: Option<Box<TreeNode>>, p: Seq<bool>) -> bool {
    &&& node_at(t, p) is None
    &&& (p.len() == 0 || node_at(t, p.drop_last()) is Some)
}

/// A single node holding `v`.
pub open spec fn leaf(v: i32) -> Option<Box<TreeNode>> {
    Some(Box::new(TreeNode { value: v, left: None, right: None }))
}

/// `t` with a new leaf holding `v` placed at position `p`.
pub open spec fn graft(t: Option<Box<TreeNode>>, p: Seq<bool>, v: i32) -> Option<Box<TreeNode>>
    decreases p.len(),
{
    if p.len() == 0 {
        leaf(v)
    } else {
        match t {
            None => None,
            Some(n) => if p[0] {
                Some(Box::new(TreeNode { value: n.value, left: n.left, right: graft(n.right, p.drop_first(), v) }))
            } else {
                Some(Box::new(TreeNode { value: n.value, left: graft(n.left, p.drop_first(), v), right: n.right }))
            },
        }
    }
}

/// Grafting a leaf at a free position adds exactly its value and one node.
pub proof fn lemma_graft(t: Option<Box<TreeNode>>, p: Seq<bool>, v: i32)
    requires
        free_slot(t, p),
    ensures
        size(graft(t, p, v)) == size(t) + 1,
        forall|x: i32| holds(graft(t, p, v), x) <==> (holds(t, x) || x == v),
    decreases p.len(),
{
    reveal_with_fuel(holds, 2);
    reveal_with_fuel(size, 2);
    if p.len() > 0 {
        let q = p.drop_first();
        if q.len() > 0 {
            assert(q.drop_last() =~= p.drop_last().drop_first());
            assert(p.drop_last()[0] == p[0]);
        }
        if p.drop_last().len() > 0 {
            assert(node_at(None, p.drop_last()) is None);
        }
        assert(t is Some);
        let n = t.unwrap();
        if p[0] {
            lemma_graft(n.right, q, v);
        } else {
            lemma_graft(n.left, q, v);
        }
        let g = graft(t, p, v).unwrap();
        assert(g.value == n.value);
        if p[0] {
            assert(g.left == n.left && g.right == graft(n.right, q, v));
        } else {
            assert(g.right == n.right && g.left == graft(n.left, q, v));
        }
        assert forall|x: i32| holds(graft(t, p, v), x) <==> (holds(t, x) || x == v) by {
            assert(holds(graft(t, p, v), x) == (g.value == x || holds(g.left, x) || holds(g.right, x)));
            assert(holds(t, x) == (n.value == x || holds(n.left, x) || holds(n.right, x)));
        }
    } else {
        assert(node_at(t, p) == t);
        assert(graft(t, p, v) == leaf(v));
        assert forall|x: i32| holds(graft(t, p, v), x) <==> (holds(t, x) || x == v) by {
            assert(holds(leaf(v), x) == (x == v || holds(None, x) || holds(None, x)));
        }
    }
}

/// Every value comes before every later one: strictly ascending.
pub open spec fn strictly_sorted(s: Seq<i32>) -> bool {
    forall|i: int, j: int| 0 <= i < j < s.len() ==> s[i] < s[j]
}

/// The search-tree ordering: the in-order sequence is strictly ascending,
/// so each node's left subtree holds smaller values and its right subtree
/// larger ones, and no value appears twice.
pub open spec fn is_search_tree(t: Option<Box<TreeNode>>) -> bool {
    strictly_sorted(in_order_of(t))
}

/// The values a tree holds are those its in-order sequence lists.
pub proof fn lemma_holds_in_order(t: Option<Box<TreeNode>>)
    ensures
        forall|x: i32| holds(t, x) == in_order_of(t).contains(x),
    decreases t,
{
    if let Some(n) = t {
        lemma_holds_in_order(n.left);
        lemma_holds_in_order(n.right);
        let l = in_order_of(n.left);
        let r = in_order_of(n.right);
        let s = in_order_of(t);
        assert(s == l + seq![n.value] + r);
        assert forall|x: i32| holds(t, x) == s.contains(x) by {
            assert(holds(t, x) == (n.value == x || holds(n.left, x) || holds(n.right, x)));
            if l.contains(x) {
                let i = choose|i: int| 0 <= i < l.len() && l[i] == x;
                assert(s[i] == x);
            }
            if r.contains(x) {
                let i = choose|i: int| 0 <= i < r.len() && r[i] == x;
                assert(s[l.len() + 1 + i] == x);
            }
            if x == n.value {
                assert(s[l.len() as int] == x);
            }
            if s.contains(x) {
                let i = choose|i: int| 0 <= i < s.len() && s[i] == x;
                if i < l.len() {
                    assert(l[i] == x);
                } else if i > l.len() {
                    assert(r[i - l.len() - 1] == x);
                }
            }
        }
    }
}

/// A search tree splits at its root into two search trees, smaller values
/// to the left and larger ones to the right.
pub proof fn lemma_search_split(n: Box<TreeNode>)
    requires
        is_search_tree(Some(n)),
    ensures
        is_search_tree(n.left),
        is_search_tree(n.right),
        forall|x: i32| holds(n.left, x) ==> x < n.value,
        forall|x: i32| holds(n.right, x) ==> x > n.value,
{
    let l = in_order_of(n.left);
    let r = in_order_of(n.right);
    let s = in_order_of(Some(n));
    assert(s == l + seq![n.value] + r);
    lemma_holds_in_order(n.left);
    lemma_holds_in_order(n.right);
    assert forall|i: int, j: int| 0 <= i < j < l.len() implies l[i] < l[j] by {
        assert(s[i] == l[i] && s[j] == l[j]);
    }
    assert forall|i: int, j: int| 0 <= i < j < r.len() implies r[i] < r[j] by {
        assert(s[l.len() + 1 + i] == r[i] && s[l.len() + 1 + j] == r[j]);
    }
    assert forall|x: i32| holds(n.left, x) implies x < n.value by {
        let i = choose|i: int| 0 <= i < l.len() && l[i] == x;
        assert(s[i] == x && s[l.len() as int] == n.value);
    }
    assert forall|x: i32| holds(n.right, x) implies x > n.value by {
        let i = choose|i: int| 0 <= i < r.len() && r[i] == x;
        assert(s[l.len() + 1 + i] == x && s[l.len() as int] == n.value);
    }
}

/// Two search trees joined under a value between them form a search tree.
pub proof fn lemma_search_join(l: Option<Box<TreeNode>>, v: i32, r: Option<Box<TreeNode>>)
    requires
        is_search_tree(l),
        is_search_tree(r),
        forall|x: i32| holds(l, x) ==> x < v,
        forall|x: i32| holds(r, x) ==> x > v,
    ensures
        is_search_tree(Some(Box::new(TreeNode { value: v, left: l, right: r }))),
{
    let t = Some(Box::new(TreeNode { value: v, left: l, right: r }));
    let ls = in_order_of(l);
    let rs = in_order_of(r);
    let s = in_order_of(t);
    assert(s == ls + seq![v] + rs);
    lemma_holds_in_order(l);
    lemma_holds_in_order(r);
    assert forall|i: int, j: int| 0 <= i < j < s.len() implies s[i] < s[j] by {
        if i < ls.len() {
            assert(s[i] == ls[i]);
            assert(ls.contains(s[i]));
            assert(holds(l, s[i]));
            assert(s[i] < v);
        } else if i == ls.len() {
            assert(s[i] == v);
        }
        if j > ls.len() {
            assert(s[j] == rs[j - ls.len() - 1]);
            assert(rs.contains(s[j]));
            assert(holds(r, s[j]));
            assert(s[j] > v);
        } else if j == ls.len() {
            assert(s[j] == v);
        }
        if i > ls.len() {
            assert(s[i] == rs[i - ls.len() - 1] && s[j] == rs[j - ls.len() - 1]);
        } else if j < ls.len() {
            assert(s[i] == ls[i] && s[j] == ls[j]);
        }
    }
}

/// The in-order sequence lists every node once.
pub proof fn lemma_in_order_len(t: Option<Box<TreeNode>>)
    ensures
        in_order_of(t).len() == size(t),
    decreases t,
{
    if let Some(n) = t {
        lemma_in_order_len(n.left);
        lemma_in_order_len(n.right);
    }
}

/// A strictly ascending sequence of `i32` has at most 2^32 entries.
pub proof fn lemma_sorted_len(s: Seq<i32>)
    requires
        strictly_sorted(s),
    ensures
        s.len() <= 0x1_0000_0000,
{
    if s.len() > 0 {
        lemma_sorted_climb(s, s.len() - 1);
    }
}

proof fn lemma_sorted_climb(s: Seq<i32>, k: int)
    requires
        strictly_sorted(s),
        0 <= k < s.len(),
    ensures
        s[k] >= s[0] + k,
    decreases k,
{
    if k > 0 {
        lemma_sorted_climb(s, k - 1);
    }
}

impl TreeNode {
    pub fn new(val: i32) -> (r: Self)
        ensures
            r.value == val,
            r.left is None,
            r.right is None,
    {
        TreeNode { value: val, left: None, right: None }
    }

    /// A fresh leaf on the heap.
    pub fn new_node_rc(val: i32) -> (r: Box<TreeNode>)
        ensures
            r.value == val,
            r.left is None,
            r.right is None,
    {
        Box::new(Self::new(val))
    }
}

impl Default for TreeNode {
    fn default() -> (r: Self)
        ensures
            r.value == 0,
            r.left is None,
            r.right is None,
    {
        Self::new(0)
    }
}

/// A binary tree with no ordering among its values.
pub struct BinaryTree {
    pub root: Option<Box<TreeNode>>,
}

impl Default for BinaryTree {
    fn default() -> (r: Self)
        ensures
            r.root is None,
    {
        Self::new()
    }
}

impl BinaryTree {
    /// An empty tree.
    pub fn new() -> (r: Self)
        ensures
            r.root is None,
    {
        BinaryTree { root: None }
    }

    /// Places `val` at the first position, in level order, that lacks a
    /// child: a breadth-first scan from the root that fills a missing left
    /// child before a missing right one.
    pub fn insert(&mut self, val: i32)
        ensures
            exists|p: Seq<bool>| #[trigger] first_free_slot(old(self).root, p) && final(self).root == graft(old(self).root, p, val),
            final(self).root == level_insert(old(self).root, val),
    {
        if self.root.is_none() {
            self.root = Some(TreeNode::new_node_rc(val));
            proof {
                let e = Seq::<bool>::empty();
                assert(free_slot(old(self).root, e));
                assert(first_free_slot(old(self).root, e));
                lemma_first_free_unique(old(self).root, e, choose|p: Seq<bool>| first_free_slot(old(self).root, p));
            }
            return;
        }
        let slot = Self::find_slot(&self.root);
        proof {
            assert(slot@.subrange(0, slot@.len() as int) =~= slot@);
            lemma_first_free_unique(old(self).root, slot@, choose|p: Seq<bool>| first_free_slot(old(self).root, p));
        }
        attach(&mut self.root, &slot, 0, val);
    }

    /// Breadth-first scan for the first node lacking a child; the path to
    /// that missing child.
    fn find_slot(root: &Option<Box<TreeNode>>) -> (r: Vec<bool>)
        requires
            root is Some,
        ensures
            first_free_slot(*root, r@),
    {
        let mut queue: VecDeque<(&Box<TreeNode>, Vec<bool>)> = VecDeque::new();
        let top = root.as_ref().unwrap();
        queue.push_back((top, Vec::new()));
        proof {
            let ps = queue@.map_values(|e: (&Box<TreeNode>, Vec<bool>)| e.1@);
            assert(ps[0] =~= Seq::<bool>::empty());
            assert(node_at(*root, Seq::<bool>::empty()) == Some(*top));
            assert forall|q: Seq<bool>| #[trigger] free_slot(*root, q) implies q.len() > 0 && level_rank(q.drop_last()) >= 0 by {}
        }
        loop
            invariant
                queue@.len() > 0,
                forall|i: int| 0 <= i < queue@.len() ==> node_at(*root, (#[trigger] queue@[i]).1@) == Some(*queue@[i].0),
                bfs_state(*root, queue@.map_values(|e: (&Box<TreeNode>, Vec<bool>)| e.1@)),
            decreases bt::pending(queue@.map_values(|e: (&Box<TreeNode>, Vec<bool>)| e.0)),
        {
            let ghost before = queue@;
            let ghost ps = before.map_values(|e: (&Box<TreeNode>, Vec<bool>)| e.1@);
            let (node, path) = queue.pop_front().unwrap();
            proof {
                assert(before[0] == (node, path));
                assert(ps[0] == path@);
            }
            let mut left_path = path.clone();
            left_path.push(false);
            if node.left.is_none() {
                proof {
                    lemma_bfs_found(*root, ps, false);
                }
                return left_path;
            }
            let mut right_path = path.clone();
            right_path.push(true);
            if node.right.is_none() {
                proof {
                    lemma_bfs_found(*root, ps, true);
                }
                return right_path;
            }
            let ghost rest = queue@;
            let left = node.left.as_ref().unwrap();
            let right = node.right.as_ref().unwrap();
            queue.push_back((left, left_path));
            queue.push_back((right, right_path));
            proof {
                lemma_node_at_step(*root, path@, false);
                lemma_node_at_step(*root, path@, true);
                let f = |e: (&Box<TreeNode>, Vec<bool>)| e.0;
                let bm = before.map_values(f);
                let rm = rest.map_values(f);
                assert(bm.drop_first() =~= rm);
                assert(bm[0] == node);
                bt::lemma_pending_push(rm, left);
                assert(rest.push((left, left_path)).map_values(f) =~= rm.push(left));
                bt::lemma_pending_push(rm.push(left), right);
                assert(queue@.map_values(f) =~= rm.push(left).push(right));
                assert forall|i: int| 0 <= i < queue@.len() implies node_at(*root, (#[trigger] queue@[i]).1@) == Some(*queue@[i].0) by {
                    if i < rest.len() {
                        assert(queue@[i] == before[i + 1]);
                    }
                }
                assert forall|j: int| 0 <= j < ps.len() implies node_at(*root, #[trigger] ps[j]) is Some by {
                    assert(node_at(*root, before[j].1@) == Some(*before[j].0));
                }
                lemma_bfs_step(*root, ps);
                assert(queue@.map_values(|e: (&Box<TreeNode>, Vec<bool>)| e.1@) =~= ps.drop_first().push(
                    path@.push(false),
                ).push(path@.push(true)));
            }
        }
    }
}

/// The place of position `p` in level order, counting from 0 at the root:
/// by depth, then left to right within a depth. The children of the
/// position ranked `k` are ranked `2k + 1` and `2k + 2`.
pub open spec fn level_rank(p: Seq<bool>) -> nat
    decreases p.len(),
{
    if p.len() == 0 {
        0
    } else {
        2 * level_rank(p.drop_last()) + if p.last() {
            2nat
        } else {
            1nat
        }
    }
}

/// `p` is the free position that comes first in level order.
pub open spec fn first_free_slot(t: Option<Box<TreeNode>>, p: Seq<bool>) -> bool {
    &&& free_slot(t, p)
    &&& forall|q: Seq<bool>| #[trigger] free_slot(t, q) ==> level_rank(p) <= level_rank(q)
}

/// `t` after placing `v` at its first free position in level order.
pub open spec fn level_insert(t: Option<Box<TreeNode>>, v: i32) -> Option<Box<TreeNode>> {
    graft(t, choose|p: Seq<bool>| first_free_slot(t, p), v)
}

/// The tree that results from placing each of `vs` in turn, starting
/// from `t`.
pub open spec fn level_insert_all(t: Option<Box<TreeNode>>, vs: Seq<i32>) -> Option<Box<TreeNode>>
    decreases vs.len(),
{
    if vs.len() == 0 {
        t
    } else {
        level_insert(level_insert_all(t, vs.drop_last()), vs.last())
    }
}

/// A tree has at most one first free position.
proof fn lemma_first_free_unique(t: Option<Box<TreeNode>>, p: Seq<bool>, q: Seq<bool>)
    requires
        first_free_slot(t, p),
        first_free_slot(t, q),
    ensures
        p == q,
{
    lemma_rank_injective(p, q);
}

proof fn lemma_rank_push(p: Seq<bool>, b: bool)
    ensures
        level_rank(p.push(b)) == 2 * level_rank(p) + if b {
            2nat
        } else {
            1nat
        },
{
    assert(p.push(b).drop_last() =~= p);
}

/// Different positions have different ranks.
proof fn lemma_rank_injective(p: Seq<bool>, q: Seq<bool>)
    requires
        level_rank(p) == level_rank(q),
    ensures
        p == q,
    decreases p.len(),
{
    if p.len() == 0 && q.len() == 0 {
        assert(p =~= q);
    } else if p.len() > 0 && q.len() > 0 {
        assert(p.last() == q.last());
        lemma_rank_injective(p.drop_last(), q.drop_last());
        assert(p =~= p.drop_last().push(p.last()));
        assert(q =~= q.drop_last().push(q.last()));
    }
}

/// A position below a node also has a node at its parent position.
proof fn lemma_node_at_parent(t: Option<Box<TreeNode>>, q: Seq<bool>)
    requires
        q.len() > 0,
        node_at(t, q) is Some,
    ensures
        node_at(t, q.drop_last()) is Some,
    decreases q.len(),
{
    if q.len() > 1 {
        let n = t.unwrap();
        assert(q.drop_last().drop_first() =~= q.drop_first().drop_last());
        lemma_node_at_parent(if q[0] { n.right } else { n.left }, q.drop_first());
    } else {
        assert(q.drop_last() =~= Seq::<bool>::empty());
    }
}

/// Queue entries are in strictly increasing level order.
spec fn bfs_sorted(ps: Seq<Seq<bool>>) -> bool {
    forall|a: int, b: int| 0 <= a < b < ps.len() ==> level_rank(#[trigger] ps[a]) < level_rank(#[trigger] ps[b])
}

/// Every queued position hangs below a position ranked before `f`.
spec fn bfs_parents_done(ps: Seq<Seq<bool>>, f: nat) -> bool {
    forall|j: int| 0 <= j < ps.len() ==> (#[trigger] ps[j]).len() == 0 || level_rank(ps[j].drop_last()) < f
}

/// Every free position hangs below a position ranked `f` or later.
spec fn bfs_frontier_ahead(t: Option<Box<TreeNode>>, f: nat) -> bool {
    forall|q: Seq<bool>| #[trigger] free_slot(t, q) ==> q.len() > 0 && level_rank(q.drop_last()) >= f
}

/// Every node ranked `f` or later whose parent is ranked before `f` is
/// queued.
spec fn bfs_all_queued(t: Option<Box<TreeNode>>, ps: Seq<Seq<bool>>, f: nat) -> bool {
    forall|q: Seq<bool>|
        #![trigger node_at(t, q), level_rank(q)]
        node_at(t, q) is Some && q.len() > 0 && level_rank(q.drop_last()) < f && level_rank(q) >= f ==> exists|j: int|
            0 <= j < ps.len() && ps[j] == q
}

spec fn bfs_state(t: Option<Box<TreeNode>>, ps: Seq<Seq<bool>>) -> bool {
    &&& ps.len() > 0
    &&& bfs_sorted(ps)
    &&& bfs_parents_done(ps, level_rank(ps[0]))
    &&& bfs_frontier_ahead(t, level_rank(ps[0]))
    &&& bfs_all_queued(t, ps, level_rank(ps[0]))
}

/// No node is ranked strictly between the queue's front and the front that
/// follows once the front's two children are queued.
proof fn lemma_bfs_gap(t: Option<Box<TreeNode>>, ps: Seq<Seq<bool>>, f2: nat, m: Seq<bool>)
    requires
        bfs_state(t, ps),
        f2 <= 2 * level_rank(ps[0]) + 1,
        ps.len() > 1 ==> f2 <= level_rank(ps[1]),
        node_at(t, m) is Some,
        level_rank(ps[0]) < level_rank(m),
    ensures
        level_rank(m) >= f2,
{
    let f = level_rank(ps[0]);
    assert(m.len() > 0);
    let g = m.drop_last();
    lemma_rank_push(g, m.last());
    assert(m =~= g.push(m.last()));
    if level_rank(g) < f {
        assert(node_at(t, m) is Some && m.len() > 0 && level_rank(m.drop_last()) < f && level_rank(m) >= f);
        let j = choose|j: int| 0 <= j < ps.len() && ps[j] == m;
        if j > 0 {
            if j > 1 {
                assert(level_rank(ps[1]) < level_rank(ps[j]));
            }
        }
    }
}

/// Popping the front, whose node has both children, and queueing those
/// children keeps the search state.
proof fn lemma_bfs_step(t: Option<Box<TreeNode>>, ps: Seq<Seq<bool>>)
    requires
        bfs_state(t, ps),
        node_at(t, ps[0]) is Some,
        node_at(t, ps[0]).unwrap().left is Some,
        node_at(t, ps[0]).unwrap().right is Some,
        forall|j: int| 0 <= j < ps.len() ==> node_at(t, #[trigger] ps[j]) is Some,
    ensures
        bfs_state(t, ps.drop_first().push(ps[0].push(false)).push(ps[0].push(true))),
{
    let p = ps[0];
    let f = level_rank(p);
    let l = p.push(false);
    let r = p.push(true);
    let ps2 = ps.drop_first().push(l).push(r);
    lemma_rank_push(p, false);
    lemma_rank_push(p, true);
    lemma_node_at_step(t, p, false);
    lemma_node_at_step(t, p, true);
    assert(ps2[ps2.len() - 2] == l);
    assert(ps2[ps2.len() - 1] == r);
    // every remaining entry is ranked after f and at most 2f
    assert forall|j: int| 1 <= j < ps.len() implies f < level_rank(#[trigger] ps[j]) <= 2 * f by {
        assert(level_rank(ps[0]) < level_rank(ps[j]));
        assert(ps[j].len() > 0);
        lemma_rank_push(ps[j].drop_last(), ps[j].last());
        assert(ps[j] =~= ps[j].drop_last().push(ps[j].last()));
    }
    let f2 = level_rank(ps2[0]);
    if ps.len() > 1 {
        assert(ps2[0] == ps[1]);
    } else {
        assert(ps2[0] == l);
    }
    assert(f < f2 <= 2 * f + 1);
    assert forall|a: int, b: int| 0 <= a < b < ps2.len() implies level_rank(#[trigger] ps2[a]) < level_rank(
        #[trigger] ps2[b],
    ) by {
        if b < ps.len() - 1 {
            assert(ps2[a] == ps[a + 1] && ps2[b] == ps[b + 1]);
        } else if a < ps.len() - 1 {
            assert(ps2[a] == ps[a + 1]);
        }
    }
    assert forall|j: int| 0 <= j < ps2.len() implies (#[trigger] ps2[j]).len() == 0 || level_rank(
        ps2[j].drop_last(),
    ) < f2 by {
        if j < ps.len() - 1 {
            assert(ps2[j] == ps[j + 1]);
        } else {
            assert(ps2[j].drop_last() =~= p);
        }
    }
    assert forall|q: Seq<bool>| #[trigger] free_slot(t, q) implies q.len() > 0 && level_rank(q.drop_last()) >= f2 by {
        let g = q.drop_last();
        if level_rank(g) == f {
            lemma_rank_injective(g, p);
            assert(q =~= g.push(q.last()));
        } else if level_rank(g) < f2 {
            lemma_bfs_gap(t, ps, f2, g);
        }
    }
    assert forall|q: Seq<bool>|
        #![trigger node_at(t, q), level_rank(q)]
        node_at(t, q) is Some && q.len() > 0 && level_rank(q.drop_last()) < f2 && level_rank(q) >= f2 implies exists|j: int|
            0 <= j < ps2.len() && ps2[j] == q by {
        let g = q.drop_last();
        lemma_node_at_parent(t, q);
        if level_rank(g) < f {
            let j = choose|j: int| 0 <= j < ps.len() && ps[j] == q;
            assert(j > 0);
            assert(ps2[j - 1] == q);
        } else if level_rank(g) == f {
            lemma_rank_injective(g, p);
            assert(q =~= g.push(q.last()));
            if q.last() {
                assert(ps2[ps2.len() - 1] == q);
            } else {
                assert(ps2[ps2.len() - 2] == q);
            }
        } else {
            lemma_bfs_gap(t, ps, f2, g);
        }
    }
}

/// When the front's node lacks the child on side `b` (and, for the right
/// side, has a left child), that missing child is the first free position.
proof fn lemma_bfs_found(t: Option<Box<TreeNode>>, ps: Seq<Seq<bool>>, b: bool)
    requires
        bfs_state(t, ps),
        node_at(t, ps[0]) is Some,
        b ==> node_at(t, ps[0]).unwrap().left is Some,
        (if b { node_at(t, ps[0]).unwrap().right } else { node_at(t, ps[0]).unwrap().left }) is None,
    ensures
        first_free_slot(t, ps[0].push(b)),
{
    let p = ps[0];
    let f = level_rank(p);
    lemma_node_at_step(t, p, b);
    lemma_node_at_step(t, p, false);
    lemma_rank_push(p, b);
    assert(p.push(b).drop_last() =~= p);
    assert forall|q: Seq<bool>| #[trigger] free_slot(t, q) implies level_rank(p.push(b)) <= level_rank(q) by {
        let g = q.drop_last();
        lemma_rank_push(g, q.last());
        assert(q =~= g.push(q.last()));
        if level_rank(g) == f {
            lemma_rank_injective(g, p);
        }
    }
}

proof fn lemma_node_at_step(t: Option<Box<TreeNode>>, p: Seq<bool>, b: bool)
    requires
        node_at(t, p) is Some,
    ensures
        node_at(t, p.push(b)) == (if b { node_at(t, p).unwrap().right } else { node_at(t, p).unwrap().left }),
    decreases p.len(),
{
    if p.len() > 0 {
        let n = t.unwrap();
        assert(p.push(b).drop_first() =~= p.drop_first().push(b));
        assert(p.push(b)[0] == p[0]);
        lemma_node_at_step(if p[0] { n.right } else { n.left }, p.drop_first(), b);
    } else {
        let n = t.unwrap();
        assert(p.push(b).drop_first() =~= Seq::<bool>::empty());
        assert(p.push(b)[0] == b);
        let c = if b { n.right } else { n.left };
        assert(node_at(c, Seq::<bool>::empty()) == c);
    }
}

/// Follows `path` from index `i` and hangs a new leaf at its end.
fn attach(link: &mut Option<Box<TreeNode>>, path: &Vec<bool>, i: usize, val: i32)
    requires
        i <= path@.len(),
        free_slot(*old(link), path@.subrange(i as int, path@.len() as int)),
    ensures
        *final(link) == graft(*old(link), path@.subrange(i as int, path@.len() as int), val),
    decreases path@.len() - i,
{
    let ghost p = path@.subrange(i as int, path@.len() as int);
    if i == path.len() {
        *link = Some(TreeNode::new_node_rc(val));
        return;
    }
    proof {
        assert(p.drop_first() =~= path@.subrange(i + 1, path@.len() as int));
        if p.drop_first().len() > 0 {
            assert(p.drop_first().drop_last() =~= p.drop_last().drop_first());
        }
    }
    match link {
        Some(node) => {
            if path[i] {
                attach(&mut node.right, path, i + 1, val);
            } else {
                attach(&mut node.left, path, i + 1, val);
            }
        },
        None => {},
    }
}

impl BinaryTree {
    /// The values in in-order.
    pub fn to_vec(&self) -> (r: Vec<i32>)
        ensures
            r@ == in_order_of(self.root),
    {
        bt::in_order(&self.root)
    }

    /// A tree built by inserting each of `values` in turn.
    pub fn from_slice(values: &[i32]) -> (r: Self)
        ensures
            r.root == level_insert_all(None, values@),
            size(r.root) == values@.len(),
            forall|x: i32| holds(r.root, x) <==> values@.contains(x),
    {
        let mut tree = BinaryTree::new();
        let mut i: usize = 0;
        while i < values.len()
            invariant
                i <= values@.len(),
                tree.root == level_insert_all(None, values@.subrange(0, i as int)),
                size(tree.root) == i,
                forall|x: i32| holds(tree.root, x) <==> values@.subrange(0, i as int).contains(x),
            decreases values@.len() - i,
        {
            let ghost before = tree.root;
            tree.insert(values[i]);
            proof {
                let p = choose|p: Seq<bool>| #[trigger] free_slot(before, p) && tree.root == graft(before, p, values@[i as int]);
                lemma_graft(before, p, values@[i as int]);
                let done = values@.subrange(0, i as int);
                let all = values@.subrange(0, i + 1);
                let v = values@[i as int];
                assert(all =~= done.push(v));
                assert(all.drop_last() =~= done);
                assert(all[i as int] == v);
                assert forall|x: i32| holds(tree.root, x) <==> all.contains(x) by {
                    assert(holds(tree.root, x) == (holds(before, x) || x == v));
                    assert(holds(before, x) == done.contains(x));
                    if done.contains(x) {
                        let k = choose|k: int| 0 <= k < done.len() && done[k] == x;
                        assert(all[k] == x);
                    }
                    if all.contains(x) && x != v {
                        let k = choose|k: int| 0 <= k < all.len() && all[k] == x;
                        assert(done[k] == x);
                    }
                }
            }
            i = i + 1;
        }
        proof {
            assert(values@.subrange(0, values@.len() as int) =~= values@);
        }
        tree
    }
}

/// Removing one entry of a strictly ascending sequence keeps it strictly
/// ascending and drops exactly that value.
pub proof fn lemma_remove_sorted(s: Seq<i32>, i: int)
    requires
        strictly_sorted(s),
        0 <= i < s.len(),
    ensures
        strictly_sorted(s.remove(i)),
        forall|x: i32| s.remove(i).contains(x) <==> (s.contains(x) && x != s[i]),
{
    let r = s.remove(i);
    assert forall|a: int, b: int| 0 <= a < b < r.len() implies r[a] < r[b] by {
        let a2 = if a < i { a } else { a + 1 };
        let b2 = if b < i { b } else { b + 1 };
        assert(r[a] == s[a2] && r[b] == s[b2]);
    }
    assert forall|x: i32| r.contains(x) <==> (s.contains(x) && x != s[i]) by {
        if r.contains(x) {
            let k = choose|k: int| 0 <= k < r.len() && r[k] == x;
            let k2 = if k < i { k } else { k + 1 };
            assert(s[k2] == x);
        }
        if s.contains(x) && x != s[i] {
            let k = choose|k: int| 0 <= k < s.len() && s[k] == x;
            if k < i {
                assert(r[k] == x);
            } else {
                assert(r[k - 1] == x);
            }
        }
    }
}

/// `t` after inserting `v` by the search descent: a new leaf in the empty
/// link where the descent ends; unchanged when `v` is met on the way.
pub open spec fn bst_insert(t: Option<Box<TreeNode>>, v: i32) -> Option<Box<TreeNode>>
    decreases t,
{
    match t {
        None => leaf(v),
        Some(n) => if v < n.value {
            Some(Box::new(TreeNode { value: n.value, left: bst_insert(n.left, v), right: n.right }))
        } else if v > n.value {
            Some(Box::new(TreeNode { value: n.value, left: n.left, right: bst_insert(n.right, v) }))
        } else {
            t
        },
    }
}

/// The subtree where the search descent for `v` stops at a node holding
/// `v`; `None` when it runs off the tree.
pub open spec fn bst_find(t: Option<Box<TreeNode>>, v: i32) -> Option<Box<TreeNode>>
    decreases t,
{
    match t {
        None => None,
        Some(n) => if v == n.value {
            t
        } else if v < n.value {
            bst_find(n.left, v)
        } else {
            bst_find(n.right, v)
        },
    }
}

/// A binary search tree: no balancing, duplicates ignored.
pub struct BinarySearchTree {
    root: Option<Box<TreeNode>>,
}

impl Default for BinarySearchTree {
    fn default() -> (r: Self)
        ensures
            r.wf(),
            r@ == Set::<i32>::empty(),
    {
        Self::new()
    }
}

impl View for BinarySearchTree {
    type V = Set<i32>;

    open spec fn view(&self) -> Set<i32> {
        Set::new(|x: i32| holds(self.spec_root(), x))
    }
}

impl BinarySearchTree {
    /// The root of the node structure.
    pub closed spec fn spec_root(&self) -> Option<Box<TreeNode>> {
        self.root
    }

    /// The search-tree ordering holds.
    pub open spec fn wf(&self) -> bool {
        is_search_tree(self.spec_root())
    }

    /// The stored values in in-order.
    pub open spec fn in_order(&self) -> Seq<i32> {
        in_order_of(self.spec_root())
    }

    pub fn new() -> (r: Self)
        ensures
            r.wf(),
            r@ == Set::<i32>::empty(),
    {
        let r = BinarySearchTree { root: None };
        proof {
            assert(r@ =~= Set::<i32>::empty());
        }
        r
    }

    /// The node holding `target`, found by descending from the root.
    pub fn search(&self, target: &i32) -> (r: Option<&TreeNode>)
        requires
            self.wf(),
        ensures
            r is Some <==> self@.contains(*target),
            r is Some ==> r.unwrap().value == *target,
            r is Some ==> bst_find(self.spec_root(), *target) == Some(Box::new(*r.unwrap())),
            r is None ==> bst_find(self.spec_root(), *target) is None,
    {
        let mut current = &self.root;
        loop
            invariant
                is_search_tree(*current),
                holds(self.root, *target) == holds(*current, *target),
                bst_find(self.root, *target) == bst_find(*current, *target),
            decreases size(*current),
        {
            match current {
                None => {
                    return None;
                },
                Some(node) => {
                    proof {
                        lemma_search_split(*node);
                        assert(holds(*current, *target) == (node.value == *target || holds(node.left, *target)
                            || holds(node.right, *target)));
                    }
                    if *target == node.value {
                        return Some(&**node);
                    } else if *target < node.value {
                        current = &node.left;
                    } else {
                        current = &node.right;
                    }
                },
            }
        }
    }

    /// Adds `val`; a value already present leaves the tree unchanged.
    pub fn insert(&mut self, val: i32)
        requires
            old(self).wf(),
        ensures
            final(self).wf(),
            final(self)@ == old(self)@.insert(val),
            final(self).spec_root() == bst_insert(old(self).spec_root(), val),
    {
        insert_into(&mut self.root, val);
        proof {
            assert(final(self)@ =~= old(self)@.insert(val));
        }
    }

    /// Deletes `val` if present. A node with two children takes the value
    /// of its in-order successor, which is removed from the right subtree.
    pub fn remove(&mut self, val: &i32)
        requires
            old(self).wf(),
        ensures
            final(self).wf(),
            final(self)@ == old(self)@.remove(*val),
            old(self)@.contains(*val) ==> exists|i: int|
                0 <= i < old(self).in_order().len() && old(self).in_order()[i] == *val
                    && final(self).in_order() == old(self).in_order().remove(i),
            !old(self)@.contains(*val) ==> final(self).spec_root() == old(self).spec_root(),
    {
        let ghost before = self.root;
        remove_from(&mut self.root, *val);
        proof {
            lemma_holds_in_order(before);
            lemma_holds_in_order(self.root);
            assert(old(self)@.contains(*val) == holds(before, *val));
            if holds(before, *val) {
                let i = choose|i: int| 0 <= i < in_order_of(before).len() && in_order_of(before)[i] == *val
                    && in_order_of(self.root) == in_order_of(before).remove(i);
                lemma_remove_sorted(in_order_of(before), i);
                assert(old(self).in_order() == in_order_of(before));
                assert(0 <= i < old(self).in_order().len() && old(self).in_order()[i] == *val
                    && final(self).in_order() == old(self).in_order().remove(i));
            }
            assert(self@ =~= old(self)@.remove(*val));
        }
    }

    /// The values in ascending order.
    pub fn to_vec(&self) -> (r: Vec<i32>)
        ensures
            r@ == self.in_order(),
    {
        bt::in_order(&self.root)
    }

    /// A tree built by inserting each of `values` in turn.
    pub fn from_slice(values: &[i32]) -> (r: Self)
        ensures
            r.wf(),
            r@ == values@.to_set(),
    {
        let mut tree = BinarySearchTree::new();
        let mut i: usize = 0;
        while i < values.len()
            invariant
                i <= values@.len(),
                tree.wf(),
                tree@ == values@.subrange(0, i as int).to_set(),
            decreases values@.len() - i,
        {
            tree.insert(values[i]);
            proof {
                assert(values@.subrange(0, i + 1) =~= values@.subrange(0, i as int).push(values@[i as int]));
                values@.subrange(0, i as int).lemma_push_to_set_commute(values@[i as int]);
            }
            i = i + 1;
        }
        proof {
            assert(values@.subrange(0, values@.len() as int) =~= values@);
        }
        tree
    }
}

/// Whatever was inserted or removed, the in-order sequence of a binary
/// search tree is strictly ascending and lists exactly the stored values:
/// the sorted sequence of the distinct values.
pub proof fn lemma_bst_in_order(tree: &BinarySearchTree)
    requires
        tree.wf(),
    ensures
        strictly_sorted(tree.in_order()),
        forall|x: i32| tree.in_order().contains(x) <==> tree@.contains(x),
{
    lemma_holds_in_order(tree.spec_root());
}

fn insert_into(link: &mut Option<Box<TreeNode>>, val: i32)
    requires
        is_search_tree(*old(link)),
    ensures
        is_search_tree(*final(link)),
        forall|x: i32| holds(*final(link), x) == (holds(*old(link), x) || x == val),
        *final(link) == bst_insert(*old(link), val),
    decreases *old(link),
{
    let ghost t = *link;
    if let Some(mut node) = link.take() {
        let ghost n = *node;
        proof {
            lemma_search_split(node);
        }
        if val < node.value {
            insert_into(&mut node.left, val);
        } else if val > node.value {
            insert_into(&mut node.right, val);
        }
        proof {
            lemma_search_join(node.left, node.value, node.right);
            assert forall|x: i32| holds(Some(node), x) == (holds(t, x) || x == val) by {
                assert(holds(Some(node), x) == (node.value == x || holds(node.left, x) || holds(node.right, x)));
                assert(holds(t, x) == (n.value == x || holds(n.left, x) || holds(n.right, x)));
            }
        }
        *link = Some(node);
    } else {
        *link = Some(TreeNode::new_node_rc(val));
        proof {
            lemma_search_join(None, val, None);
            assert(*link == Some(Box::new(TreeNode { value: val, left: None, right: None })));
            assert forall|x: i32| holds(*link, x) == (holds(t, x) || x == val) by {
                assert(holds(*link, x) == (val == x || holds(None, x) || holds(None, x)));
            }
        }
    }
}

/// The smallest value of a nonempty search tree: its leftmost node.
fn min_value(node: &Box<TreeNode>) -> (r: i32)
    ensures
        r == in_order_of(Some(*node))[0],
{
    let mut cur = node;
    loop
        invariant
            in_order_of(Some(*node))[0] == in_order_of(Some(*cur))[0],
        decreases size(Some(*cur)),
    {
        proof {
            assert(in_order_of(Some(*cur)) == in_order_of(cur.left) + seq![cur.value] + in_order_of(cur.right));
        }
        match &cur.left {
            None => {
                return cur.value;
            },
            Some(l) => {
                proof {
                    assert(in_order_of(Some(*l)) == in_order_of(l.left) + seq![l.value] + in_order_of(l.right));
                    assert(in_order_of(Some(*l)).len() > 0);
                }
                cur = l;
            },
        }
    }
}

fn remove_from(link: &mut Option<Box<TreeNode>>, val: i32)
    requires
        is_search_tree(*old(link)),
    ensures
        is_search_tree(*final(link)),
        holds(*old(link), val) ==> exists|i: int|
            0 <= i < in_order_of(*old(link)).len() && in_order_of(*old(link))[i] == val
                && in_order_of(*final(link)) == in_order_of(*old(link)).remove(i),
        !holds(*old(link), val) ==> *final(link) == *old(link),
    decreases *old(link),
{
    let ghost t = *link;
    if let Some(mut node) = link.take() {
        let ghost n = *node;
        let ghost ls = in_order_of(n.left);
        let ghost rs = in_order_of(n.right);
        proof {
            lemma_search_split(node);
            assert(in_order_of(t) == ls + seq![n.value] + rs);
            lemma_holds_in_order(n.left);
            lemma_holds_in_order(n.right);
            assert(holds(t, val) == (n.value == val || holds(n.left, val) || holds(n.right, val)));
        }
        if val < node.value {
            remove_from(&mut node.left, val);
            proof {
                if holds(t, val) {
                    let i = choose|i: int| 0 <= i < ls.len() && ls[i] == val
                        && in_order_of(node.left) == ls.remove(i);
                    assert(in_order_of(Some(node)) =~= in_order_of(t).remove(i));
                    lemma_remove_sorted(in_order_of(t), i);
                }
            }
            *link = Some(node);
        } else if val > node.value {
            remove_from(&mut node.right, val);
            proof {
                if holds(t, val) {
                    let i = choose|i: int| 0 <= i < rs.len() && rs[i] == val
                        && in_order_of(node.right) == rs.remove(i);
                    let k = ls.len() + 1 + i;
                    assert(in_order_of(Some(node)) =~= in_order_of(t).remove(k));
                    lemma_remove_sorted(in_order_of(t), k);
                }
            }
            *link = Some(node);
        } else if node.left.is_none() {
            *link = node.right;
            proof {
                assert(in_order_of(*link) =~= in_order_of(t).remove(0));
            }
        } else if node.right.is_none() {
            *link = node.left;
            proof {
                assert(in_order_of(*link) =~= in_order_of(t).remove(ls.len() as int));
            }
        } else {
            let succ = min_value(node.right.as_ref().unwrap());
            proof {
                assert(rs.len() > 0);
                assert(rs.contains(succ));
            }
            remove_from(&mut node.right, succ);
            proof {
                let i = choose|i: int| 0 <= i < rs.len() && rs[i] == succ
                    && in_order_of(node.right) == rs.remove(i);
                if i != 0 {
                    assert(rs[0] < rs[i]);
                }
                assert(in_order_of(t).remove(ls.len() as int) =~= ls + seq![succ] + rs.remove(0));
            }
            node.value = succ;
            proof {
                assert(in_order_of(Some(node)) =~= in_order_of(t).remove(ls.len() as int));
                lemma_remove_sorted(in_order_of(t), ls.len() as int);
            }
            *link = Some(node);
        }
    }
}

} // verus!
