//! Binary heaps kept in a `Vec` in level order: a max-heap, whose root is
//! its largest element, and a min-heap, whose root is its smallest. The
//! children of slot `i` are slots `2i + 1` and `2i + 2`.
use vstd::multiset::Multiset;
use vstd::prelude::*;

verus! {

broadcast use vstd::seq_lib::group_to_multiset_ensures;

/// The parent slot of slot `i > 0`.
pub open spec fn parent_of(i: int) -> int {
    (i - 1) / 2
}

/// Whether `a` may sit above `b`: `a >= b` in a max-heap, `a <= b` in a
/// min-heap.
pub open spec fn above(max: bool, a: i32, b: i32) -> bool {
    if max {
        a >= b
    } else {
        a <= b
    }
}

/// The link from slot `k` to its parent is in heap order.
pub open spec fn link_ok(v: Seq<i32>, max: bool, k: int) -> bool {
    above(max, v[parent_of(k)], v[k])
}

/// Every slot sits below a parent that may sit above it.
pub open spec fn heap_ordered(v: Seq<i32>, max: bool) -> bool {
    forall|k: int| 0 < k < v.len() ==> #[trigger] link_ok(v, max, k)
}

/// Slot `k` lies in the subtree rooted at slot `i`: it is `i` or a
/// descendant of `i`.
pub open spec fn in_subtree(k: int, i: int) -> bool
    decreases k,
{
    if k < 0 {
        false
    } else if k == i {
        true
    } else if k > i && k > 0 {
        in_subtree(parent_of(k), i)
    } else {
        false
    }
}

/// A slot in the subtree of `i` comes no earlier than `i`.
proof fn lemma_in_subtree_above(k: int, i: int)
    requires
        in_subtree(k, i),
    ensures
        k >= i,
{
}

/// Every slot lies in the subtree of the root.
proof fn lemma_in_subtree_root(k: int)
    requires
        k >= 0,
    ensures
        in_subtree(k, 0),
    decreases k,
{
    if k > 0 {
        lemma_in_subtree_root(parent_of(k));
    }
}

/// The root of a heap-ordered sequence may sit above every element.
pub proof fn lemma_root_above(v: Seq<i32>, max: bool, i: int)
    requires
        heap_ordered(v, max),
        0 <= i < v.len(),
    ensures
        above(max, v[0], v[i]),
    decreases i,
{
    if i > 0 {
        assert(link_ok(v, max, i));
        lemma_root_above(v, max, parent_of(i));
    }
}

/// Swapping two entries keeps the same elements.
proof fn lemma_swap_multiset(s: Seq<i32>, i: int, j: int)
    requires
        0 <= i < s.len(),
        0 <= j < s.len(),
    ensures
        s.update(i, s[j]).update(j, s[i]).to_multiset() =~= s.to_multiset(),
{
    broadcast use vstd::seq_lib::to_multiset_update;
    broadcast use vstd::multiset::group_multiset_axioms;

    let t = s.update(i, s[j]);
    assert(t[j] == s[j]);
}

/// Index of the left child.
fn left(i: usize) -> (r: usize)
    requires
        i <= (usize::MAX - 2) / 2,
    ensures
        r == 2 * i + 1,
{
    2 * i + 1
}

/// Index of the right child.
fn right(i: usize) -> (r: usize)
    requires
        i <= (usize::MAX - 2) / 2,
    ensures
        r == 2 * i + 2,
{
    2 * i + 2
}

/// Index of the parent, rounding down.
pub fn parent(i: usize) -> (r: usize)
    requires
        i > 0,
    ensures
        r == parent_of(i as int),
{
    (i - 1) / 2
}

fn swap(v: &mut Vec<i32>, i: usize, j: usize)
    requires
        i < old(v).len(),
        j < old(v).len(),
    ensures
        final(v)@ == old(v)@.update(i as int, old(v)@[j as int]).update(j as int, old(v)@[i as int]),
        final(v)@.to_multiset() == old(v)@.to_multiset(),
{
    proof {
        lemma_swap_multiset(v@, i as int, j as int);
    }
    let a = v[i];
    let b = v[j];
    v.set(i, b);
    v.set(j, a);
}

/// Moves the element at slot `i` up past every parent it should sit above.
fn sift_up(v: &mut Vec<i32>, i: usize, max: bool)
    requires
        i < old(v).len(),
        forall|k: int| 0 < k < old(v).len() && k != i ==> #[trigger] link_ok(old(v)@, max, k),
        forall|k: int|
            0 < k < old(v).len() && i > 0 && parent_of(k) == i ==> above(
                max,
                old(v)@[parent_of(i as int)],
                #[trigger] old(v)@[k],
            ),
    ensures
        heap_ordered(final(v)@, max),
        final(v)@.to_multiset() == old(v)@.to_multiset(),
        final(v)@.len() == old(v)@.len(),
{
    let mut i = i;
    loop
        invariant
            i < v@.len(),
            v@.len() == old(v)@.len(),
            v@.to_multiset() == old(v)@.to_multiset(),
            forall|k: int| 0 < k < v@.len() && k != i ==> #[trigger] link_ok(v@, max, k),
            forall|k: int|
                0 < k < v@.len() && i > 0 && parent_of(k) == i ==> above(
                    max,
                    v@[parent_of(i as int)],
                    #[trigger] v@[k],
                ),
        ensures
            v@.len() == old(v)@.len(),
            v@.to_multiset() == old(v)@.to_multiset(),
            forall|k: int| 0 < k < v@.len() ==> #[trigger] link_ok(v@, max, k),
        decreases i,
    {
        if i == 0 {
            break;
        }
        let p = parent(i);
        if if max { v[i] <= v[p] } else { v[i] >= v[p] } {
            break;
        }
        let ghost w = v@;
        proof {
            assert(!above(max, w[p as int], w[i as int]));
        }
        swap(v, i, p);
        proof {
            let u = v@;
            assert forall|k: int| 0 < k < u.len() && k != p implies #[trigger] link_ok(u, max, k) by {
                if k != i && parent_of(k) == i {
                    assert(u[k] == w[k]);
                } else if k != i {
                    assert(link_ok(w, max, k));
                }
            }
            assert forall|k: int| 0 < k < u.len() && p > 0 && parent_of(k) == p implies above(
                max,
                u[parent_of(p as int)],
                #[trigger] u[k],
            ) by {
                assert(link_ok(w, max, p as int));
                if k != i {
                    assert(link_ok(w, max, k));
                }
            }
        }
        i = p;
    }
    proof {
        assert(heap_ordered(v@, max));
    }
}

/// Moves the element at slot `i` down, each time swapping it with the
/// child that should sit above both, until neither child should. Below `i`
/// the heap order may fail only at `i`'s own children; afterwards it holds
/// throughout `i`'s subtree, and no slot outside that subtree changes.
fn sift_down(v: &mut Vec<i32>, i: usize, max: bool)
    requires
        i < old(v).len(),
        forall|k: int|
            0 < k < old(v).len() && in_subtree(parent_of(k), i as int) && parent_of(k) != i ==> #[trigger] link_ok(
                old(v)@,
                max,
                k,
            ),
    ensures
        forall|k: int|
            0 < k < final(v)@.len() && in_subtree(parent_of(k), i as int) ==> #[trigger] link_ok(final(v)@, max, k),
        final(v)@.to_multiset() == old(v)@.to_multiset(),
        final(v)@.len() == old(v)@.len(),
        forall|k: int| 0 <= k < old(v)@.len() && !in_subtree(k, i as int) ==> #[trigger] final(v)@[k] == old(v)@[k],
{
    let start = i;
    let mut i = i;
    loop
        invariant
            start <= i < v@.len(),
            in_subtree(i as int, start as int),
            v@.len() == old(v)@.len(),
            v@.to_multiset() == old(v)@.to_multiset(),
            forall|k: int| 0 <= k < v@.len() && !in_subtree(k, start as int) ==> #[trigger] v@[k] == old(v)@[k],
            forall|k: int|
                0 < k < v@.len() && in_subtree(parent_of(k), start as int) && parent_of(k) != i ==> #[trigger] link_ok(
                    v@,
                    max,
                    k,
                ),
            forall|k: int|
                0 < k < v@.len() && i != start && parent_of(k) == i ==> above(
                    max,
                    v@[parent_of(i as int)],
                    #[trigger] v@[k],
                ),
        ensures
            v@.len() == old(v)@.len(),
            v@.to_multiset() == old(v)@.to_multiset(),
            forall|k: int| 0 <= k < v@.len() && !in_subtree(k, start as int) ==> #[trigger] v@[k] == old(v)@[k],
            forall|k: int|
                0 < k < v@.len() && in_subtree(parent_of(k), start as int) ==> #[trigger] link_ok(v@, max, k),
        decreases v@.len() - i,
    {
        let len = v.len();
        if i > (usize::MAX - 2) / 2 {
            proof {
                assert(len <= usize::MAX);
                assert forall|k: int| 0 < k < v@.len() && in_subtree(parent_of(k), start as int) implies #[trigger] link_ok(v@, max, k) by {
                    if parent_of(k) == i {
                        assert(k >= 2 * i + 1);
                    }
                }
            }
            break;
        }
        let l = left(i);
        let r = right(i);
        let mut ext = i;
        if l < v.len() && (if max { v[l] > v[ext] } else { v[l] < v[ext] }) {
            ext = l;
        }
        if r < v.len() && (if max { v[r] > v[ext] } else { v[r] < v[ext] }) {
            ext = r;
        }
        if ext == i {
            proof {
                assert forall|k: int| 0 < k < v@.len() && in_subtree(parent_of(k), start as int) implies #[trigger] link_ok(v@, max, k) by {
                    if parent_of(k) == i {
                        assert(k == l || k == r);
                    }
                }
            }
            break;
        }
        let ghost w = v@;
        swap(v, i, ext);
        proof {
            let u = v@;
            assert(parent_of(ext as int) == i);
            assert(in_subtree(ext as int, start as int));
            assert forall|k: int| 0 <= k < u.len() && !in_subtree(k, start as int) implies #[trigger] u[k] == old(v)@[k] by {
                assert(k != i && k != ext);
                assert(w[k] == old(v)@[k]);
            }
            assert forall|k: int|
                0 < k < u.len() && in_subtree(parent_of(k), start as int) && parent_of(k) != ext implies #[trigger] link_ok(
                u,
                max,
                k,
            ) by {
                if parent_of(k) == i {
                    assert(k == l || k == r);
                } else if k == i {
                    assert(i != start);
                } else {
                    assert(link_ok(w, max, k));
                }
            }
            assert forall|k: int| 0 < k < u.len() && parent_of(k) == ext implies above(
                max,
                u[parent_of(ext as int)],
                #[trigger] u[k],
            ) by {
                assert(link_ok(w, max, k));
            }
        }
        i = ext;
    }
}

/// Taking the first entry out by moving the last one into its place keeps
/// every other element.
proof fn lemma_swap_remove_first(s: Seq<i32>)
    requires
        s.len() > 0,
    ensures
        s.update(0, s.last()).drop_last().to_multiset() =~= s.to_multiset().remove(s[0]),
{
    broadcast use vstd::seq_lib::to_multiset_update;
    broadcast use vstd::multiset::group_multiset_axioms;

    let d = s.drop_last();
    assert(s =~= d.push(s.last()));
    if s.len() > 1 {
        assert(s.update(0, s.last()).drop_last() =~= d.update(0, s.last()));
        assert(d[0] == s[0]);
    } else {
        assert(s.update(0, s.last()).drop_last() =~= Seq::<i32>::empty());
        assert(d =~= Seq::<i32>::empty());
    }
}

/// Rearranges `v` into heap order by sifting down every slot that has a
/// child, from the last such slot back to the root.
fn heapify(v: &mut Vec<i32>, max: bool)
    ensures
        heap_ordered(final(v)@, max),
        final(v)@.to_multiset() == old(v)@.to_multiset(),
{
    let n = v.len();
    if n <= 1 {
        proof {
            assert forall|k: int| 0 < k < v@.len() implies #[trigger] link_ok(v@, max, k) by {}
        }
        return;
    }
    let mut i = parent(n - 1) + 1;
    while i > 0
        invariant
            0 <= i <= parent_of(n - 1) + 1,
            v@.len() == n,
            v@.to_multiset() == old(v)@.to_multiset(),
            forall|k: int| 0 < k < n && parent_of(k) >= i ==> #[trigger] link_ok(v@, max, k),
        decreases i,
    {
        i = i - 1;
        let ghost w = v@;
        proof {
            assert forall|k: int| 0 < k < n && in_subtree(parent_of(k), i as int) && parent_of(k) != i implies #[trigger] link_ok(
                w,
                max,
                k,
            ) by {
                lemma_in_subtree_above(parent_of(k), i as int);
            }
        }
        sift_down(v, i, max);
        proof {
            assert forall|k: int| 0 < k < n && parent_of(k) >= i implies #[trigger] link_ok(v@, max, k) by {
                if !in_subtree(parent_of(k), i as int) {
                    assert(!in_subtree(k, i as int));
                    assert(link_ok(w, max, k));
                    assert(v@[k] == w[k]);
                    assert(v@[parent_of(k)] == w[parent_of(k)]);
                }
            }
        }
    }
    proof {
        assert forall|k: int| 0 < k < v@.len() implies #[trigger] link_ok(v@, max, k) by {}
    }
}

/// Sift-up in a max-heap.
fn sift_up_max(v: &mut Vec<i32>, i: usize)
    requires
        i < old(v).len(),
        forall|k: int| 0 < k < old(v).len() && k != i ==> #[trigger] link_ok(old(v)@, true, k),
        forall|k: int|
            0 < k < old(v).len() && i > 0 && parent_of(k) == i ==> above(
                true,
                old(v)@[parent_of(i as int)],
                #[trigger] old(v)@[k],
            ),
    ensures
        heap_ordered(final(v)@, true),
        final(v)@.to_multiset() == old(v)@.to_multiset(),
        final(v)@.len() == old(v)@.len(),
{
    sift_up(v, i, true);
}

/// Sift-down in a max-heap.
fn sift_down_max(v: &mut Vec<i32>, i: usize)
    requires
        i < old(v).len(),
        forall|k: int|
            0 < k < old(v).len() && in_subtree(parent_of(k), i as int) && parent_of(k) != i ==> #[trigger] link_ok(
                old(v)@,
                true,
                k,
            ),
    ensures
        forall|k: int|
            0 < k < final(v)@.len() && in_subtree(parent_of(k), i as int) ==> #[trigger] link_ok(final(v)@, true, k),
        final(v)@.to_multiset() == old(v)@.to_multiset(),
        final(v)@.len() == old(v)@.len(),
        forall|k: int| 0 <= k < old(v)@.len() && !in_subtree(k, i as int) ==> #[trigger] final(v)@[k] == old(v)@[k],
{
    sift_down(v, i, true);
}

/// Sift-up in a min-heap.
fn sift_up_min(v: &mut Vec<i32>, i: usize)
    requires
        i < old(v).len(),
        forall|k: int| 0 < k < old(v).len() && k != i ==> #[trigger] link_ok(old(v)@, false, k),
        forall|k: int|
            0 < k < old(v).len() && i > 0 && parent_of(k) == i ==> above(
                false,
                old(v)@[parent_of(i as int)],
                #[trigger] old(v)@[k],
            ),
    ensures
        heap_ordered(final(v)@, false),
        final(v)@.to_multiset() == old(v)@.to_multiset(),
        final(v)@.len() == old(v)@.len(),
{
    sift_up(v, i, false);
}

/// Sift-down in a min-heap.
fn sift_down_min(v: &mut Vec<i32>, i: usize)
    requires
        i < old(v).len(),
        forall|k: int|
            0 < k < old(v).len() && in_subtree(parent_of(k), i as int) && parent_of(k) != i ==> #[trigger] link_ok(
                old(v)@,
                false,
                k,
            ),
    ensures
        forall|k: int|
            0 < k < final(v)@.len() && in_subtree(parent_of(k), i as int) ==> #[trigger] link_ok(final(v)@, false, k),
        final(v)@.to_multiset() == old(v)@.to_multiset(),
        final(v)@.len() == old(v)@.len(),
        forall|k: int| 0 <= k < old(v)@.len() && !in_subtree(k, i as int) ==> #[trigger] final(v)@[k] == old(v)@[k],
{
    sift_down(v, i, false);
}

/// Appends `val` and sifts it up.
fn heap_push(v: &mut Vec<i32>, val: i32, max: bool)
    requires
        heap_ordered(old(v)@, max),
    ensures
        heap_ordered(final(v)@, max),
        final(v)@.to_multiset() == old(v)@.to_multiset().insert(val),
{
    v.push(val);
    let n = v.len();
    proof {
        assert forall|k: int| 0 < k < n && k != n - 1 implies #[trigger] link_ok(v@, max, k) by {
            assert(link_ok(old(v)@, max, k));
        }
    }
    if max {
        sift_up_max(v, n - 1);
    } else {
        sift_up_min(v, n - 1);
    }
}

/// Takes out the root, moves the last element into its place and sifts it
/// down.
fn heap_pop(v: &mut Vec<i32>, max: bool) -> (r: Option<i32>)
    requires
        heap_ordered(old(v)@, max),
    ensures
        heap_ordered(final(v)@, max),
        old(v)@.len() == 0 ==> r is None && final(v)@ == old(v)@,
        old(v)@.len() > 0 ==> r == Some(old(v)@[0]) && final(v)@.to_multiset() == old(v)@.to_multiset().remove(old(v)@[0]),
{
    if v.len() == 0 {
        return None;
    }
    proof {
        lemma_swap_remove_first(v@);
    }
    let val = v.swap_remove(0);
    if v.len() > 0 {
        proof {
            assert forall|k: int| 0 < k < v@.len() && parent_of(k) > 0 implies #[trigger] link_ok(v@, max, k) by {
                assert(link_ok(old(v)@, max, k));
            }
        }
        if max {
            sift_down_max(v, 0);
        } else {
            sift_down_min(v, 0);
        }
        proof {
            assert forall|k: int| 0 < k < v@.len() implies #[trigger] link_ok(v@, max, k) by {
                lemma_in_subtree_root(parent_of(k));
            }
        }
    } else {
        proof {
            assert forall|k: int| 0 < k < v@.len() implies #[trigger] link_ok(v@, max, k) by {}
        }
    }
    Some(val)
}

/// A max-heap: the root is a largest element.
#[derive(Debug)]
pub struct MaxHeap(Vec<i32>);

impl View for MaxHeap {
    type V = Multiset<i32>;

    /// The stored elements, with repetitions.
    closed spec fn view(&self) -> Multiset<i32> {
        self.0@.to_multiset()
    }
}

impl Default for MaxHeap {
    fn default() -> (r: Self)
        ensures
            r.wf(),
            r@ == Multiset::<i32>::empty(),
    {
        Self::new()
    }
}

impl MaxHeap {
    /// The slots are in max-heap order.
    pub closed spec fn wf(&self) -> bool {
        heap_ordered(self.0@, true)
    }

    /// An empty heap.
    pub fn new() -> (r: Self)
        ensures
            r.wf(),
            r@ == Multiset::<i32>::empty(),
    {
        let r = MaxHeap(Vec::new());
        proof {
            assert(r.0@ =~= Seq::<i32>::empty());
            assert forall|k: int| 0 < k < r.0@.len() implies #[trigger] link_ok(r.0@, true, k) by {}
        }
        r
    }

    /// A heap holding the elements of `v`, built in linear time.
    pub fn from_vec(v: Vec<i32>) -> (r: Self)
        ensures
            r.wf(),
            r@ == v@.to_multiset(),
    {
        let mut heap = MaxHeap(v);
        heapify(&mut heap.0, true);
        heap
    }

    /// A largest element, or `None` when empty.
    pub fn peek(&self) -> (r: Option<&i32>)
        requires
            self.wf(),
        ensures
            r is None <==> self@.len() == 0,
            r is Some ==> self@.contains(*r.unwrap()) && forall|x: i32| #[trigger] self@.contains(x) ==> x <= *r.unwrap(),
    {
        if self.0.len() == 0 {
            return None;
        }
        proof {
            assert forall|x: i32| #[trigger] self@.contains(x) implies x <= self.0@[0] by {
                let i = choose|i: int| 0 <= i < self.0@.len() && self.0@[i] == x;
                lemma_root_above(self.0@, true, i);
            }
            assert(self.0@.contains(self.0@[0]));
        }
        Some(&self.0[0])
    }

    /// Adds `val`.
    pub fn push(&mut self, val: i32)
        requires
            old(self).wf(),
        ensures
            final(self).wf(),
            final(self)@ == old(self)@.insert(val),
    {
        heap_push(&mut self.0, val, true);
    }

    /// Removes and returns a largest element, or `None` when empty.
    pub fn pop(&mut self) -> (r: Option<i32>)
        requires
            old(self).wf(),
        ensures
            final(self).wf(),
            old(self)@.len() == 0 ==> r is None && final(self)@ == old(self)@,
            old(self)@.len() > 0 ==> r is Some && old(self)@.contains(r.unwrap())
                && (forall|x: i32| #[trigger] old(self)@.contains(x) ==> x <= r.unwrap())
                && final(self)@ == old(self)@.remove(r.unwrap()),
    {
        proof {
            if self.0@.len() > 0 {
                assert forall|x: i32| #[trigger] old(self)@.contains(x) implies x <= self.0@[0] by {
                    let i = choose|i: int| 0 <= i < self.0@.len() && self.0@[i] == x;
                    lemma_root_above(self.0@, true, i);
                }
                assert(self.0@.contains(self.0@[0]));
            }
        }
        heap_pop(&mut self.0, true)
    }

    pub fn len(&self) -> (r: usize)
        ensures
            r == self@.len(),
    {
        self.0.len()
    }

    pub fn is_empty(&self) -> (r: bool)
        ensures
            r == (self@.len() == 0),
    {
        self.0.len() == 0
    }
}

/// A min-heap: the root is a smallest element.
#[derive(Debug)]
pub struct MinHeap(Vec<i32>);

impl View for MinHeap {
    type V = Multiset<i32>;

    /// The stored elements, with repetitions.
    closed spec fn view(&self) -> Multiset<i32> {
        self.0@.to_multiset()
    }
}

impl Default for MinHeap {
    fn default() -> (r: Self)
        ensures
            r.wf(),
            r@ == Multiset::<i32>::empty(),
    {
        Self::new()
    }
}

impl MinHeap {
    /// The slots are in min-heap order.
    pub closed spec fn wf(&self) -> bool {
        heap_ordered(self.0@, false)
    }

    /// An empty heap.
    pub fn new() -> (r: Self)
        ensures
            r.wf(),
            r@ == Multiset::<i32>::empty(),
    {
        let r = MinHeap(Vec::new());
        proof {
            assert(r.0@ =~= Seq::<i32>::empty());
            assert forall|k: int| 0 < k < r.0@.len() implies #[trigger] link_ok(r.0@, false, k) by {}
        }
        r
    }

    /// A heap holding the elements of `v`, built in linear time.
    pub fn from_vec(v: Vec<i32>) -> (r: Self)
        ensures
            r.wf(),
            r@ == v@.to_multiset(),
    {
        let mut heap = MinHeap(v);
        heapify(&mut heap.0, false);
        heap
    }

    /// A smallest element, or `None` when empty.
    pub fn peek(&self) -> (r: Option<&i32>)
        requires
            self.wf(),
        ensures
            r is None <==> self@.len() == 0,
            r is Some ==> self@.contains(*r.unwrap()) && forall|x: i32| #[trigger] self@.contains(x) ==> *r.unwrap() <= x,
    {
        if self.0.len() == 0 {
            return None;
        }
        proof {
            assert forall|x: i32| #[trigger] self@.contains(x) implies self.0@[0] <= x by {
                let i = choose|i: int| 0 <= i < self.0@.len() && self.0@[i] == x;
                lemma_root_above(self.0@, false, i);
            }
            assert(self.0@.contains(self.0@[0]));
        }
        Some(&self.0[0])
    }

    /// Adds `val`.
    pub fn push(&mut self, val: i32)
        requires
            old(self).wf(),
        ensures
            final(self).wf(),
            final(self)@ == old(self)@.insert(val),
    {
        heap_push(&mut self.0, val, false);
    }

    /// Removes and returns a smallest element, or `None` when empty.
    pub fn pop(&mut self) -> (r: Option<i32>)
        requires
            old(self).wf(),
        ensures
            final(self).wf(),
            old(self)@.len() == 0 ==> r is None && final(self)@ == old(self)@,
            old(self)@.len() > 0 ==> r is Some && old(self)@.contains(r.unwrap())
                && (forall|x: i32| #[trigger] old(self)@.contains(x) ==> r.unwrap() <= x)
                && final(self)@ == old(self)@.remove(r.unwrap()),
    {
        proof {
            if self.0@.len() > 0 {
                assert forall|x: i32| #[trigger] old(self)@.contains(x) implies self.0@[0] <= x by {
                    let i = choose|i: int| 0 <= i < self.0@.len() && self.0@[i] == x;
                    lemma_root_above(self.0@, false, i);
                }
                assert(self.0@.contains(self.0@[0]));
            }
        }
        heap_pop(&mut self.0, false)
    }

    pub fn len(&self) -> (r: usize)
        ensures
            r == self@.len(),
    {
        self.0.len()
    }

    pub fn is_empty(&self) -> (r: bool)
        ensures
            r == (self@.len() == 0),
    {
        self.0.len() == 0
    }
}

} // verus!
