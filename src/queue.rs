//! First-in, first-out queues: one over a double-ended list, one over a
//! fixed ring of `N` slots.
use std::collections::VecDeque;
use vstd::prelude::*;

verus! {

/// A queue kept in a double-ended list: pushed at the back, taken from the
/// front.
#[derive(Debug, Clone)]
pub struct QueueWithList<T>(VecDeque<T>);

impl<T> View for QueueWithList<T> {
    type V = Seq<T>;

    /// The elements from front to back.
    closed spec fn view(&self) -> Seq<T> {
        self.0@
    }
}

impl<T> Default for QueueWithList<T> {
    fn default() -> (r: Self)
        ensures
            r@ == Seq::<T>::empty(),
    {
        Self::new()
    }
}

impl<T> QueueWithList<T> {
    pub fn new() -> (r: Self)
        ensures
            r@ == Seq::<T>::empty(),
    {
        QueueWithList(VecDeque::new())
    }

    pub fn push(&mut self, elem: T)
        ensures
            final(self)@ == old(self)@.push(elem),
    {
        self.0.push_back(elem);
    }

    /// Removes and returns the front, or `None` when empty.
    pub fn pop(&mut self) -> (r: Option<T>)
        ensures
            old(self)@.len() == 0 ==> r is None && final(self)@ == old(self)@,
            old(self)@.len() > 0 ==> r == Some(old(self)@[0]) && final(self)@ == old(self)@.drop_first(),
    {
        self.0.pop_front()
    }

    /// The front, or `None` when empty.
    pub fn peek(&self) -> (r: Option<&T>)
        ensures
            self@.len() == 0 ==> r is None,
            self@.len() > 0 ==> r == Some(&self@[0]),
    {
        if self.0.len() == 0 {
            None
        } else {
            Some(&self.0[0])
        }
    }

    /// The back, or `None` when empty.
    pub fn tail(&self) -> (r: Option<&T>)
        ensures
            self@.len() == 0 ==> r is None,
            self@.len() > 0 ==> r == Some(&self@.last()),
    {
        let n = self.0.len();
        if n == 0 {
            None
        } else {
            Some(&self.0[n - 1])
        }
    }

    pub fn len(&self) -> (r: usize)
        ensures
            r == self@.len(),
    {
        self.0.len()
    }

    pub fn is_empty(&self) -> (r: bool)
        ensures
            r == (self@.len() == 0),
    {
        self.0.len() == 0
    }
}

impl<T: Copy> QueueWithList<T> {
    /// The elements from front to back.
    pub fn to_vec(&self) -> (r: Vec<T>)
        ensures
            r@ == self@,
    {
        let mut out: Vec<T> = Vec::new();
        let mut i: usize = 0;
        while i < self.0.len()
            invariant
                i <= self@.len(),
                out@ == self@.subrange(0, i as int),
            decreases self@.len() - i,
        {
            out.push(self.0[i]);
            i = i + 1;
            proof {
                assert(out@ =~= self@.subrange(0, i as int));
            }
        }
        proof {
            assert(self@.subrange(0, self@.len() as int) =~= self@);
        }
        out
    }
}

/// A queue in a ring of `N` slots: `len` elements starting at slot
/// `front`, wrapping round the end.
#[derive(Debug, Clone)]
pub struct QueueWithArray<T, const N: usize> {
    queue: [Option<T>; N],
    front: usize,
    len: usize,
    cap: usize,
}

/// The slot that holds the element `i` places after slot `front`.
pub open spec fn ring_slot(front: int, i: int, cap: int) -> int {
    if front + i < cap {
        front + i
    } else {
        front + i - cap
    }
}

impl<T: Copy, const N: usize> View for QueueWithArray<T, N> {
    type V = Seq<T>;

    /// The elements from front to back.
    closed spec fn view(&self) -> Seq<T> {
        Seq::new(self.len as nat, |i: int| self.queue@[ring_slot(self.front as int, i, N as int)].unwrap())
    }
}

impl<T: Copy, const N: usize> Default for QueueWithArray<T, N> {
    fn default() -> (r: Self)
        ensures
            r.wf(),
            r@ == Seq::<T>::empty(),
    {
        Self::new()
    }
}

impl<T: Copy, const N: usize> QueueWithArray<T, N> {
    /// The ring holds `N` slots, the window lies inside it, and every slot
    /// of the window is filled.
    pub closed spec fn wf(&self) -> bool {
        &&& self.cap == N
        &&& self.len <= N
        &&& (N > 0 ==> self.front < N)
        &&& (N == 0 ==> self.front == 0)
        &&& forall|i: int| 0 <= i < self.len ==> (#[trigger] self.queue@[ring_slot(self.front as int, i, N as int)]) is Some
    }

    pub fn new() -> (r: Self)
        ensures
            r.wf(),
            r@ == Seq::<T>::empty(),
            r.capacity_spec() == N,
    {
        let r = QueueWithArray { queue: [None; N], front: 0, len: 0, cap: N };
        proof {
            assert(r@ =~= Seq::<T>::empty());
        }
        r
    }

    /// The number of slots.
    pub closed spec fn capacity_spec(&self) -> nat {
        self.cap as nat
    }

    /// Appends at the back. The queue must not be full.
    pub fn push(&mut self, elem: T)
        requires
            old(self).wf(),
            old(self)@.len() < N,
        ensures
            final(self).wf(),
            final(self)@ == old(self)@.push(elem),
            final(self).capacity_spec() == old(self).capacity_spec(),
    {
        let slot = self.slot_of(self.len);
        self.queue[slot] = Some(elem);
        self.len = self.len + 1;
        proof {
            let n = N as int;
            assert forall|i: int| 0 <= i < old(self).len implies ring_slot(self.front as int, i, n) != slot by {}
            assert(self@ =~= old(self)@.push(elem));
        }
    }

    /// Removes and returns the front, or `None` when empty.
    pub fn pop(&mut self) -> (r: Option<T>)
        requires
            old(self).wf(),
        ensures
            final(self).wf(),
            final(self).capacity_spec() == old(self).capacity_spec(),
            old(self)@.len() == 0 ==> r is None && final(self)@ == old(self)@,
            old(self)@.len() > 0 ==> r == Some(old(self)@[0]) && final(self)@ == old(self)@.drop_first(),
    {
        if self.is_empty() {
            return None;
        }
        let front = self.queue[self.front];
        self.queue[self.front] = None;
        self.front = if self.front + 1 == self.cap { 0 } else { self.front + 1 };
        self.len = self.len - 1;
        proof {
            let n = N as int;
            assert forall|i: int| 0 <= i < self.len implies ring_slot(self.front as int, i, n) == ring_slot(
                old(self).front as int,
                i + 1,
                n,
            ) && ring_slot(self.front as int, i, n) != old(self).front by {}
            assert(self@ =~= old(self)@.drop_first());
        }
        front
    }

    /// The front, or `None` when empty.
    pub fn peek(&self) -> (r: Option<&T>)
        requires
            self.wf(),
        ensures
            self@.len() == 0 ==> r is None,
            self@.len() > 0 ==> r == Some(&self@[0]),
    {
        if self.is_empty() {
            return None;
        }
        self.queue[self.front].as_ref()
    }

    /// The back, or `None` when empty.
    pub fn tail(&self) -> (r: Option<&T>)
        requires
            self.wf(),
        ensures
            self@.len() == 0 ==> r is None,
            self@.len() > 0 ==> r == Some(&self@.last()),
    {
        if self.is_empty() {
            return None;
        }
        let slot = self.slot_of(self.len - 1);
        self.queue[slot].as_ref()
    }

    pub fn is_empty(&self) -> (r: bool)
        ensures
            r == (self@.len() == 0),
    {
        self.len == 0
    }

    /// The slot `i` places after the front, wrapping round the end.
    fn slot_of(&self, i: usize) -> (r: usize)
        requires
            self.wf(),
            i < N,
        ensures
            r == ring_slot(self.front as int, i as int, N as int),
            r < N,
    {
        if i >= self.cap - self.front {
            i - (self.cap - self.front)
        } else {
            self.front + i
        }
    }

    pub fn len(&self) -> (r: usize)
        ensures
            r == self@.len(),
    {
        self.len
    }

    /// The number of slots, `N`.
    pub fn capacity(&self) -> (r: usize)
        ensures
            r == self.capacity_spec(),
    {
        self.cap
    }

    /// The elements from front to back.
    pub fn to_vec(&self) -> (r: Vec<T>)
        requires
            self.wf(),
        ensures
            r@ == self@,
    {
        let mut out: Vec<T> = Vec::new();
        let mut i: usize = 0;
        while i < self.len
            invariant
                self.wf(),
                i <= self.len,
                out@ == self@.subrange(0, i as int),
            decreases self.len - i,
        {
            let slot = self.slot_of(i);
            if let Some(v) = self.queue[slot] {
                out.push(v);
            }
            proof {
                assert(self@[i as int] == self.queue@[slot as int].unwrap());
            }
            i = i + 1;
            proof {
                assert(out@ =~= self@.subrange(0, i as int));
            }
        }
        proof {
            assert(self@.subrange(0, self.len as int) =~= self@);
        }
        out
    }
}

} // verus!
